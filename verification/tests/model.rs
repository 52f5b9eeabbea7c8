use voxel_rs::model::{mesh_model, VoxelModel};

#[test]
fn empty_model_has_empty_mesh() {
    let model = VoxelModel { size_x: 0, size_y: 4, size_z: 3, voxels: Vec::new(), full: Vec::new() };
    let (vertices, indices) = mesh_model(&model);
    assert!(vertices.is_empty());
    assert!(indices.is_empty());
}

use voxel_rs::model::generate_item_model;

#[test]
fn item_model_from_atlas_pixels() {
    // 3 x 2 atlas, row by row; pixel (u, v) has red u, green v
    let mut atlas = Vec::new();
    for v in 0..2u8 {
        for u in 0..3u8 {
            let alpha = if u == 2 && v == 0 { 0 } else { 255 };
            atlas.extend_from_slice(&[u, v, 7, alpha]);
        }
    }
    let m = generate_item_model(1, 0, 2, 2, 3, 2, &atlas);
    assert_eq!((m.size_x, m.size_y, m.size_z), (2, 2, 1));
    // column u = 1 from the bottom row v = 1 up, then column u = 2
    assert_eq!(m.full, vec![true, true, true, false]);
    assert_eq!(m.voxels, vec![(7 << 16) + (1 << 8) + 1, (7 << 16) + 1, (7 << 16) + (1 << 8) + 2, 0]);
}

#[test]
fn item_model_of_empty_rectangle() {
    let m = generate_item_model(5, 5, 0, 3, 0, 0, &Vec::new());
    assert_eq!((m.size_x, m.size_y, m.size_z), (0, 3, 1));
    assert!(m.full.is_empty());
    assert!(m.voxels.is_empty());
}
