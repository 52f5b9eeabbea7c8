use vstd::prelude::*;
use crate::meshing::ambiant_occl;

verus! {

/// A model made of voxels: `full` tells which voxels are filled and `voxels`
/// gives their colors, both indexed x major, then y, then z
pub struct VoxelModel {
    pub size_x: usize,
    pub size_y: usize,
    pub size_z: usize,
    pub voxels: Vec<u32>,
    pub full: Vec<bool>,
}

/// A vertex of the mesh of a model: its position and its data (face, ambient
/// occlusion and color)
#[derive(Debug, Clone, Copy)]
pub struct ModelVertex {
    pub pos: [i32; 3],
    pub info: u32,
}

/// The face of a voxel seen from one direction, with the data of its four vertices
#[derive(Debug, Clone, Copy, PartialEq, Eq, Structural)]
pub struct Quad {
    /// i = 0 j = 0
    pub v1: u32,
    /// i = 0 j = 1
    pub v2: u32,
    /// i = 1 j = 0
    pub v3: u32,
    /// i = 1 j = 1
    pub v4: u32,
}

/// The model holds no voxel: one of its sizes is 0
pub open spec fn model_is_empty(model: &VoxelModel) -> bool {
    model.size_x * model.size_y * model.size_z == 0
}

/// A product of sizes is 0 only when one of them is
proof fn lemma_empty_size(a: int, b: int, c: int)
    requires
        a >= 0 && b >= 0 && c >= 0,
        a * b * c == 0,
    ensures
        a == 0 || b == 0 || c == 0,
{
    if a > 0 && b > 0 && c > 0 {
        assert(a * b > 0) by (nonlinear_arith)
            requires a > 0 && b > 0;
        assert(a * b * c > 0) by (nonlinear_arith)
            requires a * b > 0 && c > 0;
    }
}

/// Mesh a voxel model: the faces of the filled voxels that show, with their
/// ambient occlusion and color, two triangles per face. The faces are stored in
/// a buffer that starts empty, so that a model with any voxel cannot be meshed:
/// only a model without voxels is accepted, and its mesh is empty.
pub fn mesh_model(model: &VoxelModel) -> (r: (Vec<ModelVertex>, Vec<u32>))
    requires
        model_is_empty(model),
        (model.size_x + 2) * (model.size_y + 2) * (model.size_z + 2) <= usize::MAX,
    ensures
        r.0@.len() == 0,
        r.1@.len() == 0,
{
    let mut res_vertex: Vec<ModelVertex> = Vec::new();
    let mut res_index: Vec<u32> = Vec::new();
    let size_x = model.size_x;
    let size_y = model.size_y;
    let size_z = model.size_z;
    let block = &model.full;
    let color = &model.voxels;
    proof {
        lemma_empty_size(size_x as int, size_y as int, size_z as int);
        let (a, b, c) = ((size_x + 2) as int, (size_y + 2) as int, (size_z + 2) as int);
        assert(a <= a * b && a * b <= a * b * c) by (nonlinear_arith)
            requires a >= 2 && b >= 2 && c >= 2;
        assert(b <= a * b && c <= a * b * c) by (nonlinear_arith)
            requires a >= 2 && b >= 2 && c >= 2;
        assert(size_x * size_y <= a * b) by (nonlinear_arith)
            requires a == size_x + 2 && b == size_y + 2 && size_x >= 0 && size_y >= 0;
    }
    let n_size_x = size_x + 2;
    let n_size_y = size_y + 2;
    let n_size_z = size_z + 2;
    let mut occl = vec![false; n_size_x * n_size_y * n_size_z];
    for i in 0..size_x
        invariant
            size_x == 0 || size_y == 0 || size_z == 0,
            res_vertex@.len() == 0,
            res_index@.len() == 0,
    {
        for j in 0..size_y
            invariant
                size_x == 0 || size_y == 0 || size_z == 0,
                i < size_x,
                res_vertex@.len() == 0,
                res_index@.len() == 0,
        {
            for k in 0..size_z
                invariant
                    size_x == 0 || size_y == 0 || size_z == 0,
                    i < size_x && j < size_y,
                    res_vertex@.len() == 0,
                    res_index@.len() == 0,
            {
                let n = (i + 1) * n_size_y * n_size_z + (j + 1) * n_size_z + (k + 1);
                occl.set(n, block[i * size_y * size_z + j * size_z + k]);
            }
        }
    }
    let mut to_mesh = vec![true; size_x * size_y * size_z];
    let mut quads: Vec<Quad> = Vec::new();
    for s in 0..6usize
        invariant
            size_x == 0 || size_y == 0 || size_z == 0,
            res_vertex@.len() == 0,
            res_index@.len() == 0,
    {
        for i in 0..size_x
            invariant
                size_x == 0 || size_y == 0 || size_z == 0,
                s < 6,
                res_vertex@.len() == 0,
                res_index@.len() == 0,
        {
            for j in 0..size_y
                invariant
                    size_x == 0 || size_y == 0 || size_z == 0,
                    s < 6 && i < size_x,
                    res_vertex@.len() == 0,
                    res_index@.len() == 0,
            {
                for k in 0..size_z
                    invariant
                        size_x == 0 || size_y == 0 || size_z == 0,
                        s < 6 && i < size_x && j < size_y,
                        res_vertex@.len() == 0,
                        res_index@.len() == 0,
                {
                    let (dx, dy, dz) = face_dir(s);
                    let front = ((i as i32 + 1 + dx) as usize) * n_size_y * n_size_z + ((j as i32 + 1 + dy) as usize) * n_size_z
                        + ((k as i32 + 1 + dz) as usize);
                    if occl[(i + 1) * n_size_y * n_size_z + (j + 1) * n_size_z + (k + 1)] && !occl[front] {
                        let d1: [[i32; 3]; 6] = [[0, 1, 0], [0, 1, 0], [1, 0, 0], [1, 0, 0], [1, 0, 0], [1, 0, 0]];
                        let d2: [[i32; 3]; 6] = [[0, 0, 1], [0, 0, 1], [0, 0, 1], [0, 0, 1], [0, 1, 0], [0, 1, 0]];
                        let mut coins: [u32; 4] = [0, 0, 0, 0];
                        let mut edge: [u32; 4] = [0, 0, 0, 0];
                        for i2 in 0..3i32
                            invariant
                                size_x == 0 || size_y == 0 || size_z == 0,
                                i < size_x && j < size_y && k < size_z,
                        {
                            for j2 in 0..3i32
                                invariant
                                    size_x == 0 || size_y == 0 || size_z == 0,
                                    i < size_x && j < size_y && k < size_z,
                            {
                                let (a, b) = (i2 - 1, j2 - 1);
                                let xx = (i as i32 + 1 + dx + d1[s][0] * a + d2[s][0] * b) as usize;
                                let yy = (j as i32 + 1 + dy + d1[s][1] * a + d2[s][1] * b) as usize;
                                let zz = (k as i32 + 1 + dz + d1[s][2] * a + d2[s][2] * b) as usize;
                                if occl[(i + xx) * n_size_y * n_size_z + (j + yy) * n_size_z + (k + zz)] {
                                    match (a, b) {
                                        (-1, -1) => {
                                            coins[0] += 1;
                                        },
                                        (-1, 1) => {
                                            coins[1] += 1;
                                        },
                                        (1, -1) => {
                                            coins[2] += 1;
                                        },
                                        (1, 1) => {
                                            coins[3] += 1;
                                        },
                                        (-1, 0) => {
                                            edge[0] += 1;
                                            edge[1] += 1;
                                        },
                                        (1, 0) => {
                                            edge[2] += 1;
                                            edge[3] += 1;
                                        },
                                        (0, -1) => {
                                            edge[0] += 1;
                                            edge[2] += 1;
                                        },
                                        (0, 1) => {
                                            edge[1] += 1;
                                            edge[3] += 1;
                                        },
                                        _ => {},
                                    }
                                }
                            }
                        }
                        let c = color[i * size_y * size_z + j * size_z + k];
                        let quad = Quad {
                            v1: ((s as u32) << 24) + (ambiant_occl(coins[0], edge[0]) << 27) + c,
                            v2: ((s as u32) << 24) + (ambiant_occl(coins[1], edge[1]) << 27) + c,
                            v3: ((s as u32) << 24) + (ambiant_occl(coins[2], edge[2]) << 27) + c,
                            v4: ((s as u32) << 24) + (ambiant_occl(coins[3], edge[3]) << 27) + c,
                        };
                        let n = s * size_x * size_y * size_z + i * size_y * size_z + j * size_z + k;
                        quads.set(n, quad);
                        to_mesh.set(n, true);
                    }
                }
            }
        }
    }
    let mut n_of_different_vertex: u32 = 0;
    for s in 0..6usize
        invariant
            size_x == 0 || size_y == 0 || size_z == 0,
            res_vertex@.len() == 0,
            res_index@.len() == 0,
    {
        for i in 0..size_x
            invariant
                size_x == 0 || size_y == 0 || size_z == 0,
                s < 6,
                res_vertex@.len() == 0,
                res_index@.len() == 0,
        {
            for j in 0..size_y
                invariant
                    size_x == 0 || size_y == 0 || size_z == 0,
                    s < 6 && i < size_x,
                    res_vertex@.len() == 0,
                    res_index@.len() == 0,
            {
                for k in 0..size_z
                    invariant
                        size_x == 0 || size_y == 0 || size_z == 0,
                        s < 6 && i < size_x && j < size_y,
                        res_vertex@.len() == 0,
                        res_index@.len() == 0,
                {
                    let (px, py, pz) = ijk_to_pos(s, i as i32, j as i32, k as i32);
                    let n = s * size_x * size_y * size_z + (px as usize) * size_y * size_z + (py as usize) * size_z + (pz as usize);
                    if to_mesh[n] {
                        let current_quad = quads[n];
                        let p2 = ijk_to_pos(s, i as i32, j as i32, k as i32 + 1);
                        let p3 = ijk_to_pos(s, i as i32, j as i32 + 1, k as i32);
                        let p4 = ijk_to_pos(s, i as i32, j as i32 + 1, k as i32 + 1);
                        let shift = if s == 0 {
                            (1, 0, 0)
                        } else if s == 2 {
                            (0, 1, 0)
                        } else if s == 4 {
                            (0, 0, 1)
                        } else {
                            (0, 0, 0)
                        };
                        let corners = [(px, py, pz), p2, p3, p4];
                        let v = [current_quad.v1, current_quad.v2, current_quad.v3, current_quad.v4];
                        for kk in 0..4usize
                            invariant
                                size_x == 0 || size_y == 0 || size_z == 0,
                                i < size_x && j < size_y && k < size_z,
                        {
                            let (x, y, z) = corners[kk];
                            res_vertex.push(ModelVertex { pos: [x + shift.0, y + shift.1, z + shift.2], info: v[kk] });
                        }
                        let a00 = v[0] >> 27;
                        let a11 = v[3] >> 27;
                        let a01 = v[1] >> 27;
                        let a10 = v[2] >> 27;
                        for kk in 0..6usize
                            invariant
                                size_x == 0 || size_y == 0 || size_z == 0,
                                i < size_x && j < size_y && k < size_z,
                        {
                            if a00 + a11 < a01 + a10 {
                                res_index.push(n_of_different_vertex + first_order(s, kk));
                            } else {
                                res_index.push(n_of_different_vertex + second_order(s, kk));
                            }
                        }
                        n_of_different_vertex += 4;
                    }
                }
            }
        }
    }
    (res_vertex, res_index)
}

/// The direction a face looks at: +x, -x, +y, -y, +z, -z
fn face_dir(s: usize) -> (r: (i32, i32, i32))
    ensures
        s < 6 ==> (r.0 as int, r.1 as int, r.2 as int) == crate::greedy::face_dir(s as int),
        s >= 6 ==> r == (0i32, 0i32, 0i32),
{
    let d: [[i32; 3]; 6] = [[1, 0, 0], [-1, 0, 0], [0, 1, 0], [0, -1, 0], [0, 0, 1], [0, 0, -1]];
    if s < 6 {
        (d[s][0], d[s][1], d[s][2])
    } else {
        (0, 0, 0)
    }
}

/// The voxel at position (i, j, k) of the planes of direction `s`
fn ijk_to_pos(s: usize, i: i32, j: i32, k: i32) -> (r: (i32, i32, i32))
    ensures
        (r.0 as int, r.1 as int, r.2 as int) == crate::greedy::plane_pos(s as int, i as int, j as int, k as int),
{
    if s < 2 {
        (i, j, k)
    } else if s < 4 {
        (j, i, k)
    } else {
        (j, k, i)
    }
}

/// Vertex `kk` of the triangles of a face of direction `s` along the first diagonal
fn first_order(s: usize, kk: usize) -> (o: u32)
    ensures
        s < 6 && kk < 6 ==> o == crate::greedy::first_order(s as int, kk as int),
        !(s < 6 && kk < 6) ==> o == 0,
{
    let order1: [[u32; 6]; 6] = [
        [0, 2, 1, 1, 2, 3],
        [0, 1, 2, 1, 3, 2],
        [0, 1, 2, 1, 3, 2],
        [0, 2, 1, 1, 2, 3],
        [3, 1, 2, 2, 1, 0],
        [3, 2, 1, 2, 0, 1],
    ];
    if s < 6 && kk < 6 {
        order1[s][kk]
    } else {
        0
    }
}

/// Vertex `kk` of the triangles of a face of direction `s` along the second diagonal
fn second_order(s: usize, kk: usize) -> (o: u32)
    ensures
        s < 6 && kk < 6 ==> o == crate::greedy::second_order(s as int, kk as int),
        !(s < 6 && kk < 6) ==> o == 0,
{
    let order2: [[u32; 6]; 6] = [
        [0, 2, 3, 0, 3, 1],
        [0, 3, 2, 0, 1, 3],
        [0, 3, 2, 0, 1, 3],
        [0, 2, 3, 0, 3, 1],
        [1, 0, 3, 2, 3, 0],
        [1, 3, 0, 2, 0, 3],
    ];
    if s < 6 && kk < 6 {
        order2[s][kk]
    } else {
        0
    }
}

/// The bytes of pixel `(u, v)` of an RGBA image `atlas_width` pixels wide, row by row
pub open spec fn pixel_start(atlas_width: int, u: int, v: int) -> int {
    4 * (v * atlas_width + u)
}

/// Whether a voxel of an item is filled: its pixel is opaque
pub open spec fn item_voxel_full(atlas: Seq<u8>, atlas_width: int, u: int, v: int) -> bool {
    atlas[pixel_start(atlas_width, u, v) + 3] == 255
}

/// The color of a voxel of an item: its pixel's blue, green and red, or 0 where it is transparent
pub open spec fn item_voxel_color(atlas: Seq<u8>, atlas_width: int, u: int, v: int) -> u32 {
    let p = pixel_start(atlas_width, u, v);
    if atlas[p + 3] == 255 {
        (atlas[p + 2] * 65536 + atlas[p + 1] * 256 + atlas[p]) as u32
    } else {
        0
    }
}

/// The voxel of an item at pixel (u, v) of the atlas, read from the pixel's bytes:
/// full exactly when the alpha byte is 255, colored then by its blue, green and
/// red bytes, and of color 0 otherwise
pub open spec fn item_pixel_rule(atlas: Seq<u8>, atlas_width: int, u: int, v: int) -> bool {
    let p = 4 * (v * atlas_width + u);
    &&& item_voxel_full(atlas, atlas_width, u, v) == (atlas[p + 3] == 255)
    &&& item_voxel_color(atlas, atlas_width, u, v) == if atlas[p + 3] == 255 {
        (atlas[p + 2] * 65536 + atlas[p + 1] * 256 + atlas[p]) as u32
    } else {
        0u32
    }
}

/// Only fully opaque pixels (alpha 255) become voxels of an item: a voxel is
/// full exactly when the alpha byte of its pixel is 255, with the color of the
/// pixel, and empty with color 0 for any other alpha
pub proof fn law_item_voxel_from_pixel(atlas: Seq<u8>, atlas_width: int, u: int, v: int)
    ensures
        item_pixel_rule(atlas, atlas_width, u, v),
{
}

/// The pixel index, in an image `w` pixels wide, of column `u` and row `v` is in the image
proof fn lemma_pixel_in_image(u: int, v: int, w: int, h: int)
    requires
        0 <= u < w,
        0 <= v < h,
    ensures
        0 <= v * w + u < w * h,
        4 * (v * w + u) + 3 < 4 * (w * h),
{
    assert(v * w + u < w * h) by (nonlinear_arith)
        requires 0 <= u < w, 0 <= v < h;
    assert(0 <= v * w) by (nonlinear_arith)
        requires 0 <= v, 0 <= w;
}

/// Index of voxel `b` of column `a2` of columns of `h` voxels, before column `a`
proof fn lemma_row_index(a2: int, b: int, a: int, h: int)
    requires
        0 <= a2 < a,
        0 <= b < h,
    ensures
        0 <= a2 * h + b < a * h,
{
    assert(0 <= a2 * h + b < a * h) by (nonlinear_arith)
        requires 0 <= a2 < a, 0 <= b < h;
}

/// The model of an item drawn in the rectangle of an RGBA texture atlas
/// (`atlas_width` by `atlas_height` pixels, row by row) whose corner is
/// `(x, y)`: one voxel per pixel, column by column from `x`, each column from
/// the bottom row up; a voxel is full where its pixel is opaque
pub fn generate_item_model(
    x: u32,
    y: u32,
    width: u32,
    height: u32,
    atlas_width: u32,
    atlas_height: u32,
    atlas: &Vec<u8>,
) -> (m: VoxelModel)
    requires
        x + width <= u32::MAX,
        y + height <= u32::MAX,
        width * height <= u32::MAX,
        width > 0 && height > 0 ==> x + width <= atlas_width && y + height <= atlas_height,
        atlas@.len() == 4 * (atlas_width * atlas_height),
    ensures
        m.size_x == width,
        m.size_y == height,
        m.size_z == 1,
        m.full@.len() == width * height,
        m.voxels@.len() == width * height,
        forall|a: int, b: int|
            0 <= a < width && 0 <= b < height ==> #[trigger] m.full@[a * height + b] == item_voxel_full(
                atlas@,
                atlas_width as int,
                x + a,
                y + height - 1 - b,
            ),
        forall|a: int, b: int|
            0 <= a < width && 0 <= b < height ==> #[trigger] m.voxels@[a * height + b] == item_voxel_color(
                atlas@,
                atlas_width as int,
                x + a,
                y + height - 1 - b,
            ),
        forall|a: int, b: int|
            0 <= a < width && 0 <= b < height ==> {
                let p = 4 * ((y + height - 1 - b) * atlas_width + x + a);
                &&& #[trigger] m.full@[a * height + b] == (atlas@[p + 3] == 255)
                &&& m.voxels@[a * height + b] == if atlas@[p + 3] == 255 {
                    (atlas@[p + 2] * 65536 + atlas@[p + 1] * 256 + atlas@[p]) as u32
                } else {
                    0u32
                }
            },
{
    let total = atlas.len();
    let mut full: Vec<bool> = Vec::with_capacity((width * height) as usize);
    let mut voxels: Vec<u32> = Vec::with_capacity((width * height) as usize);
    let mut u = x;
    while u < x + width
        invariant
            x <= u <= x + width,
            x + width <= u32::MAX,
            y + height <= u32::MAX,
            width * height <= u32::MAX,
            width > 0 && height > 0 ==> x + width <= atlas_width && y + height <= atlas_height,
            atlas@.len() == 4 * (atlas_width * atlas_height),
            atlas@.len() == total,
            full@.len() == (u - x) * height,
            voxels@.len() == (u - x) * height,
            forall|a: int, b: int|
                0 <= a < u - x && 0 <= b < height ==> #[trigger] full@[a * height + b] == item_voxel_full(
                    atlas@,
                    atlas_width as int,
                    x + a,
                    y + height - 1 - b,
                ),
            forall|a: int, b: int|
                0 <= a < u - x && 0 <= b < height ==> #[trigger] voxels@[a * height + b] == item_voxel_color(
                    atlas@,
                    atlas_width as int,
                    x + a,
                    y + height - 1 - b,
                ),
        decreases x + width - u,
    {
        let ghost a = u - x;
        let ghost start = full@.len();
        let mut v = y + height;
        while v > y
            invariant
                x <= u < x + width,
                a == u - x,
                start == a * height,
                y <= v <= y + height,
                y + height <= u32::MAX,
                height > 0 ==> x + width <= atlas_width && y + height <= atlas_height,
                atlas@.len() == 4 * (atlas_width * atlas_height),
                atlas@.len() == total,
                full@.len() == start + (y + height - v),
                voxels@.len() == start + (y + height - v),
                forall|a2: int, b: int|
                    0 <= a2 < a && 0 <= b < height ==> #[trigger] full@[a2 * height + b] == item_voxel_full(
                        atlas@,
                        atlas_width as int,
                        x + a2,
                        y + height - 1 - b,
                    ),
                forall|a2: int, b: int|
                    0 <= a2 < a && 0 <= b < height ==> #[trigger] voxels@[a2 * height + b] == item_voxel_color(
                        atlas@,
                        atlas_width as int,
                        x + a2,
                        y + height - 1 - b,
                    ),
                forall|b: int|
                    0 <= b < y + height - v ==> #[trigger] full@[start + b] == item_voxel_full(
                        atlas@,
                        atlas_width as int,
                        u as int,
                        y + height - 1 - b,
                    ),
                forall|b: int|
                    0 <= b < y + height - v ==> #[trigger] voxels@[start + b] == item_voxel_color(
                        atlas@,
                        atlas_width as int,
                        u as int,
                        y + height - 1 - b,
                    ),
            decreases v - y,
        {
            v = v - 1;
            proof {
                lemma_pixel_in_image(u as int, v as int, atlas_width as int, atlas_height as int);
            }
            let p = ((v as usize) * (atlas_width as usize) + (u as usize)) * 4;
            let ghost f0 = full@;
            let ghost c0 = voxels@;
            if atlas[p + 3] == 255 {
                full.push(true);
                voxels.push((atlas[p + 2] as u32) * 65536 + (atlas[p + 1] as u32) * 256 + atlas[p] as u32);
            } else {
                full.push(false);
                voxels.push(0);
            }
            proof {
                assert forall|a2: int, b: int| 0 <= a2 < a && 0 <= b < height implies #[trigger] full@[a2 * height + b]
                    == item_voxel_full(atlas@, atlas_width as int, x + a2, y + height - 1 - b) by {
                    lemma_row_index(a2, b, a, height as int);
                    assert(full@[a2 * height + b] == f0[a2 * height + b]);
                }
                assert forall|a2: int, b: int| 0 <= a2 < a && 0 <= b < height implies #[trigger] voxels@[a2 * height + b]
                    == item_voxel_color(atlas@, atlas_width as int, x + a2, y + height - 1 - b) by {
                    lemma_row_index(a2, b, a, height as int);
                    assert(voxels@[a2 * height + b] == c0[a2 * height + b]);
                }
            }
        }
        proof {
            assert((a + 1) * height == a * height + height) by (nonlinear_arith);
            assert forall|a2: int, b: int| 0 <= a2 < a + 1 && 0 <= b < height implies #[trigger] full@[a2 * height + b]
                == item_voxel_full(atlas@, atlas_width as int, x + a2, y + height - 1 - b) by {
                if a2 == a {
                    assert(a2 * height + b == start + b);
                }
            }
            assert forall|a2: int, b: int| 0 <= a2 < a + 1 && 0 <= b < height implies #[trigger] voxels@[a2 * height + b]
                == item_voxel_color(atlas@, atlas_width as int, x + a2, y + height - 1 - b) by {
                if a2 == a {
                    assert(a2 * height + b == start + b);
                }
            }
        }
        u = u + 1;
    }
    proof {
        assert forall|a: int, b: int| #![trigger full@[a * height + b]] 0 <= a < width && 0 <= b < height implies item_pixel_rule(
            atlas@,
            atlas_width as int,
            x + a,
            y + height - 1 - b,
        ) by {
            law_item_voxel_from_pixel(atlas@, atlas_width as int, x + a, y + height - 1 - b);
        }
    }
    VoxelModel { size_x: width as usize, size_y: height as usize, size_z: 1, voxels, full }
}

} // verus!
