use vstd::prelude::*;
use crate::chunk::{ChunkPos, lemma_square_nonneg};

verus! {

/// Some unique player id.
#[derive(Debug, Clone, Copy, PartialEq, Eq, Structural, Hash)]
pub struct PlayerId(pub u16);

/// The render distance of a player
#[derive(Debug, Clone, Copy, PartialEq, Eq, Structural)]
pub struct RenderDistance {
    pub x_max: u64,
    pub x_min: u64,
    pub y_max: u64,
    pub y_min: u64,
    pub z_max: u64,
    pub z_min: u64,
}

impl Default for RenderDistance {
    fn default() -> (r: RenderDistance)
        ensures
            r == (RenderDistance { x_max: 1, x_min: 1, y_max: 1, y_min: 1, z_max: 1, z_min: 1 }),
    {
        RenderDistance { x_max: 1, x_min: 1, y_max: 1, y_min: 1, z_max: 1, z_min: 1 }
    }
}

/// Number of chunk layers along one axis of a render distance
pub open spec fn axis_count(lo: u64, hi: u64) -> int {
    lo + hi + 1
}

/// The offset along one axis of the `t`-th layer of a render distance axis
pub open spec fn axis_offset(lo: u64, t: int) -> int {
    t - lo
}

impl RenderDistance {
    /// Number of chunks in the render distance
    pub open spec fn spec_count(self) -> int {
        axis_count(self.x_min, self.x_max) * axis_count(self.y_min, self.y_max) * axis_count(
            self.z_min,
            self.z_max,
        )
    }

    /// All chunk coordinates visited around `player` stay within machine integers
    pub open spec fn fits_around(self, player: ChunkPos) -> bool {
        &&& self.x_max < i64::MAX && self.x_min <= i64::MAX
        &&& self.y_max < i64::MAX && self.y_min <= i64::MAX
        &&& self.z_max < i64::MAX && self.z_min <= i64::MAX
        &&& i64::MIN <= player.px - self.x_min && player.px + self.x_max <= i64::MAX
        &&& i64::MIN <= player.py - self.y_min && player.py + self.y_max <= i64::MAX
        &&& i64::MIN <= player.pz - self.z_min && player.pz + self.z_max <= i64::MAX
    }

    /// The `t`-th chunk around `player`, in the order x, then y, then z (z varies fastest)
    pub open spec fn spec_around(self, player: ChunkPos, t: int) -> ChunkPos {
        let ny = axis_count(self.y_min, self.y_max);
        let nz = axis_count(self.z_min, self.z_max);
        ChunkPos {
            px: (player.px + axis_offset(self.x_min, t / (ny * nz))) as i64,
            py: (player.py + axis_offset(self.y_min, (t / nz) % ny)) as i64,
            pz: (player.pz + axis_offset(self.z_min, t % nz)) as i64,
        }
    }

    /// All chunks in the render distance around `player`
    pub open spec fn spec_around_seq(self, player: ChunkPos) -> Seq<ChunkPos> {
        Seq::new(self.spec_count() as nat, |t: int| self.spec_around(player, t))
    }

    /// Whether `chunk_pos` is in render distance of a player standing in `player_chunk`
    pub open spec fn spec_is_chunk_visible(self, player_chunk: ChunkPos, chunk_pos: ChunkPos) -> bool {
        &&& chunk_pos.px - player_chunk.px <= self.x_max as i64
        &&& chunk_pos.py - player_chunk.py <= self.y_max as i64
        &&& chunk_pos.pz - player_chunk.pz <= self.z_max as i64
        &&& player_chunk.px - chunk_pos.px <= self.x_min as i64
        &&& player_chunk.py - chunk_pos.py <= self.y_min as i64
        &&& player_chunk.pz - chunk_pos.pz <= self.z_min as i64
    }

    /// Check whether a chunk is in render distance of the player
    pub fn is_chunk_visible(self, player_chunk: ChunkPos, chunk_pos: ChunkPos) -> (b: bool)
        requires
            i64::MIN <= chunk_pos.px - player_chunk.px <= i64::MAX,
            i64::MIN <= chunk_pos.py - player_chunk.py <= i64::MAX,
            i64::MIN <= chunk_pos.pz - player_chunk.pz <= i64::MAX,
            i64::MIN <= player_chunk.px - chunk_pos.px <= i64::MAX,
            i64::MIN <= player_chunk.py - chunk_pos.py <= i64::MAX,
            i64::MIN <= player_chunk.pz - chunk_pos.pz <= i64::MAX,
        ensures
            b == self.spec_is_chunk_visible(player_chunk, chunk_pos),
    {
        chunk_pos.px - player_chunk.px <= self.x_max as i64 && chunk_pos.py - player_chunk.py
            <= self.y_max as i64 && chunk_pos.pz - player_chunk.pz <= self.z_max as i64
            && player_chunk.px - chunk_pos.px <= self.x_min as i64 && player_chunk.py
            - chunk_pos.py <= self.y_min as i64 && player_chunk.pz - chunk_pos.pz
            <= self.z_min as i64
    }
}

/// Iterator over the chunks in render distance around a player
pub struct RenderDistanceIterator {
    i: i64,
    j: i64,
    k: i64,
    render_distance: RenderDistance,
    player_chunk: ChunkPos,
}

impl RenderDistanceIterator {
    /// The render distance being iterated
    pub closed spec fn distance(&self) -> RenderDistance {
        self.render_distance
    }

    /// The chunk the iteration is centered on
    pub closed spec fn center(&self) -> ChunkPos {
        self.player_chunk
    }

    /// Number of chunks already produced
    pub closed spec fn produced(&self) -> int {
        let rd = self.render_distance;
        if self.i > rd.x_max as int {
            rd.spec_count()
        } else {
            enumeration_index(rd, self.i + rd.x_min, self.j + rd.y_min, self.k + rd.z_min)
        }
    }

    /// The internal counters describe a position of the enumeration
    pub closed spec fn wf(&self) -> bool {
        let rd = self.render_distance;
        &&& rd.fits_around(self.player_chunk)
        &&& -(rd.x_min as int) <= self.i <= rd.x_max + 1
        &&& self.i <= rd.x_max ==> {
            &&& -(rd.y_min as int) <= self.j <= rd.y_max + 1
            &&& -(rd.z_min as int) <= self.k <= rd.z_max + 1
            &&& self.j == rd.y_max + 1 ==> self.k == -(rd.z_min as int)
        }
        &&& self.i == rd.x_max + 1 ==> (self.j == -(rd.y_min as int) && self.k == -(rd.z_min as int))
    }

    pub fn new(render_distance: RenderDistance, player_chunk: ChunkPos) -> (it: RenderDistanceIterator)
        requires
            render_distance.fits_around(player_chunk),
        ensures
            it.wf(),
            it.distance() == render_distance,
            it.center() == player_chunk,
            it.produced() == 0,
    {
        let it = RenderDistanceIterator {
            i: -(render_distance.x_min as i64),
            j: -(render_distance.y_min as i64),
            k: -(render_distance.z_min as i64),
            render_distance,
            player_chunk,
        };
        proof {
            lemma_count_nonneg(render_distance);
            lemma_enumeration_bounds(render_distance, 0, 0, 0);
        }
        it
    }

    /// Produce the next chunk of the enumeration, or `None` once every chunk was produced
    pub fn next(&mut self) -> (r: Option<ChunkPos>)
        requires
            old(self).wf(),
        ensures
            final(self).wf(),
            final(self).distance() == old(self).distance(),
            final(self).center() == old(self).center(),
            0 <= old(self).produced() <= old(self).distance().spec_count(),
            old(self).produced() < old(self).distance().spec_count() ==> {
                &&& final(self).produced() == old(self).produced() + 1
                &&& r == Some(old(self).distance().spec_around(old(self).center(), old(self).produced()))
            },
            old(self).produced() >= old(self).distance().spec_count() ==> {
                &&& final(self).produced() == old(self).produced()
                &&& r.is_none()
            },
    {
        let rd = self.render_distance;
        proof {
            lemma_count_nonneg(rd);
            if self.i <= rd.x_max as int {
                lemma_enumeration_bounds(rd, self.i + rd.x_min, self.j + rd.y_min, self.k + rd.z_min);
            }
        }
        if self.k > rd.z_max as i64 {
            proof {
                lemma_enumeration_carry(rd, self.i + rd.x_min, self.j + rd.y_min);
            }
            self.k = -(rd.z_min as i64);
            self.j = self.j + 1;
        }
        if self.j > rd.y_max as i64 {
            proof {
                lemma_enumeration_carry(rd, self.i + rd.x_min, self.j + rd.y_min);
            }
            self.j = -(rd.y_min as i64);
            self.i = self.i + 1;
        }
        if self.i > rd.x_max as i64 {
            None
        } else {
            proof {
                lemma_enumeration_step(rd, self.i as int, self.j as int, self.k as int);
                lemma_enumeration_bounds(rd, self.i + rd.x_min, self.j + rd.y_min, self.k + rd.z_min + 1);
                lemma_enumeration_carry(rd, self.i + rd.x_min, self.j + rd.y_min);
            }
            let r = ChunkPos {
                px: self.i + self.player_chunk.px,
                py: self.j + self.player_chunk.py,
                pz: self.k + self.player_chunk.pz,
            };
            self.k = self.k + 1;
            Some(r)
        }
    }
}

/// Position of the chunk at layer offsets `(a, b, c)` in the enumeration order
pub open spec fn enumeration_index(rd: RenderDistance, a: int, b: int, c: int) -> int {
    a * axis_count(rd.y_min, rd.y_max) * axis_count(rd.z_min, rd.z_max) + b * axis_count(rd.z_min, rd.z_max) + c
}

/// Carrying a full row into the next one keeps the enumeration index
pub proof fn lemma_enumeration_carry(rd: RenderDistance, a: int, b: int)
    ensures
        enumeration_index(rd, a, b, axis_count(rd.z_min, rd.z_max)) == enumeration_index(rd, a, b + 1, 0),
        enumeration_index(rd, a, axis_count(rd.y_min, rd.y_max), 0) == enumeration_index(rd, a + 1, 0, 0),
        enumeration_index(rd, axis_count(rd.x_min, rd.x_max), 0, 0) == rd.spec_count(),
{
    let ny = axis_count(rd.y_min, rd.y_max);
    let nz = axis_count(rd.z_min, rd.z_max);
    assert(a * ny * nz + b * nz + nz == a * ny * nz + (b + 1) * nz + 0) by (nonlinear_arith);
    assert(a * ny * nz + ny * nz + 0 == (a + 1) * ny * nz + 0 * nz + 0) by (nonlinear_arith);
}

/// Enumeration indices of valid counters stay within the number of chunks
pub proof fn lemma_enumeration_bounds(rd: RenderDistance, a: int, b: int, c: int)
    requires
        0 <= a < axis_count(rd.x_min, rd.x_max),
        0 <= b <= axis_count(rd.y_min, rd.y_max),
        0 <= c <= axis_count(rd.z_min, rd.z_max),
        b == axis_count(rd.y_min, rd.y_max) ==> c == 0,
    ensures
        0 <= enumeration_index(rd, a, b, c) <= rd.spec_count(),
{
    let nx = axis_count(rd.x_min, rd.x_max);
    let ny = axis_count(rd.y_min, rd.y_max);
    let nz = axis_count(rd.z_min, rd.z_max);
    assert(b * nz + c <= ny * nz) by (nonlinear_arith)
        requires 0 <= b <= ny, 0 <= c <= nz, b == ny ==> c == 0, nz >= 1;
    assert(0 <= b * nz + c) by (nonlinear_arith)
        requires 0 <= b, 0 <= c, nz >= 1;
    assert(a * ny * nz + ny * nz <= nx * ny * nz) by (nonlinear_arith)
        requires 0 <= a < nx, ny >= 1, nz >= 1;
    assert(0 <= a * ny * nz) by (nonlinear_arith)
        requires 0 <= a, ny >= 1, nz >= 1;
}

/// The number of chunks in a render distance is never negative
pub proof fn lemma_count_nonneg(rd: RenderDistance)
    ensures
        rd.spec_count() >= 1,
        axis_count(rd.y_min, rd.y_max) * axis_count(rd.z_min, rd.z_max) >= 1,
{
    let nx = axis_count(rd.x_min, rd.x_max);
    let ny = axis_count(rd.y_min, rd.y_max);
    let nz = axis_count(rd.z_min, rd.z_max);
    assert(ny * nz >= 1) by (nonlinear_arith)
        requires ny >= 1, nz >= 1;
    assert(nx * ny * nz >= 1) by (nonlinear_arith)
        requires nx >= 1, ny * nz >= 1;
}

/// The enumeration index of a position of the counters decodes to that position
pub proof fn lemma_enumeration_step(rd: RenderDistance, i: int, j: int, k: int)
    requires
        -(rd.x_min as int) <= i <= rd.x_max,
        -(rd.y_min as int) <= j <= rd.y_max,
        -(rd.z_min as int) <= k <= rd.z_max,
    ensures
        ({
            let ny = axis_count(rd.y_min, rd.y_max);
            let nz = axis_count(rd.z_min, rd.z_max);
            let t = enumeration_index(rd, i + rd.x_min, j + rd.y_min, k + rd.z_min);
            &&& t / (ny * nz) == i + rd.x_min
            &&& (t / nz) % ny == j + rd.y_min
            &&& t % nz == k + rd.z_min
            &&& 0 <= t < rd.spec_count()
        }),
{
    let nx = axis_count(rd.x_min, rd.x_max);
    let ny = axis_count(rd.y_min, rd.y_max);
    let nz = axis_count(rd.z_min, rd.z_max);
    let a = i + rd.x_min;
    let b = j + rd.y_min;
    let c = k + rd.z_min;
    let t = a * ny * nz + b * nz + c;
    assert(0 <= a < nx && 0 <= b < ny && 0 <= c < nz);
    assert(t == (a * ny + b) * nz + c) by (nonlinear_arith)
        requires t == a * ny * nz + b * nz + c;
    assert(0 <= a * ny + b) by (nonlinear_arith)
        requires 0 <= a, 0 <= b, ny >= 1;
    assert(t % nz == c && t / nz == a * ny + b) by (nonlinear_arith)
        requires t == (a * ny + b) * nz + c, 0 <= c < nz, 0 <= a * ny + b;
    assert((a * ny + b) % ny == b && (a * ny + b) / ny == a) by (nonlinear_arith)
        requires 0 <= b < ny, 0 <= a;
    assert(t == a * (ny * nz) + (b * nz + c)) by (nonlinear_arith)
        requires t == a * ny * nz + b * nz + c;
    assert(0 <= b * nz + c < ny * nz) by (nonlinear_arith)
        requires 0 <= b < ny, 0 <= c < nz;
    assert(t / (ny * nz) == a) by (nonlinear_arith)
        requires t == a * (ny * nz) + (b * nz + c), 0 <= b * nz + c < ny * nz, 0 <= a;
    assert(t < nx * ny * nz) by (nonlinear_arith)
        requires t == a * (ny * nz) + (b * nz + c), b * nz + c < ny * nz, a < nx, ny * nz >= 1;
    assert(0 <= t) by (nonlinear_arith)
        requires t == a * (ny * nz) + (b * nz + c), 0 <= b * nz + c, 0 <= a, ny * nz >= 1;
}

} // verus!

verus! {

impl RenderDistance {
    /// Create the list of the chunks in the render distance around the player pos,
    /// in enumeration order
    pub fn iterate_around_player(self, player_chunk: ChunkPos) -> (v: Vec<ChunkPos>)
        requires
            self.fits_around(player_chunk),
        ensures
            v@ == self.spec_around_seq(player_chunk),
    {
        let mut it = RenderDistanceIterator::new(self, player_chunk);
        let mut v: Vec<ChunkPos> = Vec::new();
        proof {
            lemma_count_nonneg(self);
        }
        loop
            invariant
                it.wf(),
                it.distance() == self,
                it.center() == player_chunk,
                0 <= it.produced() <= self.spec_count(),
                v@ == self.spec_around_seq(player_chunk).take(it.produced()),
            decreases self.spec_count() - it.produced(),
        {
            let ghost t = it.produced();
            match it.next() {
                Some(c) => {
                    v.push(c);
                    assert(v@ =~= self.spec_around_seq(player_chunk).take(t + 1));
                },
                None => {
                    assert(self.spec_around_seq(player_chunk).take(t) =~= self.spec_around_seq(player_chunk));
                    return v;
                },
            }
        }
    }
}

/// The squared distance of a chunk to the origin chunk
pub open spec fn distance_to_origin(p: ChunkPos) -> int {
    p.spec_squared_distance(origin())
}

/// The origin chunk
pub open spec fn origin() -> ChunkPos {
    ChunkPos { px: 0, py: 0, pz: 0 }
}

/// `p` reorders the indices `0..n`
pub open spec fn is_permutation(p: Seq<int>, n: int) -> bool {
    &&& p.len() == n
    &&& forall|t: int| 0 <= t < n ==> 0 <= #[trigger] p[t] < n
    &&& forall|a: int, b: int| 0 <= a < b < n ==> #[trigger] p[a] != #[trigger] p[b]
}

/// `sorted` is `items` reordered by increasing distance to the origin, chunks at
/// equal distance keeping their relative order
pub open spec fn is_stable_sort_by_distance(items: Seq<ChunkPos>, sorted: Seq<ChunkPos>) -> bool {
    exists|p: Seq<int>|
        {
            &&& is_permutation(p, items.len() as int)
            &&& sorted.len() == items.len()
            &&& forall|t: int| 0 <= t < sorted.len() ==> #[trigger] sorted[t] == items[p[t]]
            &&& forall|a: int, b: int|
                0 <= a < b < sorted.len() ==> distance_to_origin(#[trigger] sorted[a]) <= distance_to_origin(
                    #[trigger] sorted[b],
                )
            &&& forall|a: int, b: int|
                0 <= a < b < sorted.len() && distance_to_origin(#[trigger] sorted[a])
                    == distance_to_origin(#[trigger] sorted[b]) ==> p[a] < p[b]
        }
}

/// `std`'s stable `sort_by_key`, keyed by the squared distance to the origin chunk.
/// Its documentation promises a stable sort: the result is a reordering of the
/// input, by non-decreasing key, and elements with equal keys keep their order.
#[verifier::external_body]
fn sort_by_distance_to_origin(v: &mut Vec<ChunkPos>)
    requires
        forall|t: int| 0 <= t < old(v)@.len() ==> origin().distance_fits(#[trigger] old(v)@[t]),
    ensures
        is_stable_sort_by_distance(old(v)@, final(v)@),
{
    let o = ChunkPos { px: 0, py: 0, pz: 0 };
    v.sort_by_key(|pos| o.squared_euclidian_distance(*pos))
}

/// Largest square of an offset along an axis
pub open spec fn axis_square_bound(lo: u64, hi: u64) -> int {
    if lo > hi {
        lo * lo
    } else {
        hi * hi
    }
}

impl RenderDistance {
    /// Every chunk of the render distance around the origin has a distance that fits machine integers
    pub open spec fn distances_fit(self) -> bool {
        &&& self.fits_around(origin())
        &&& axis_square_bound(self.x_min, self.x_max) <= i64::MAX
        &&& axis_square_bound(self.y_min, self.y_max) <= i64::MAX
        &&& axis_square_bound(self.z_min, self.z_max) <= i64::MAX
        &&& axis_square_bound(self.x_min, self.x_max) + axis_square_bound(self.y_min, self.y_max)
            + axis_square_bound(self.z_min, self.z_max) <= u64::MAX
    }
}

/// An offset within an axis has a square bounded by the axis bound
pub proof fn lemma_axis_square(lo: u64, hi: u64, d: int)
    requires
        -(lo as int) <= d <= hi,
    ensures
        d * d <= axis_square_bound(lo, hi),
        d * d >= 0,
{
    if d >= 0 {
        assert(d * d <= (hi as int) * (hi as int)) by (nonlinear_arith)
            requires 0 <= d <= hi;
        assert(hi <= lo ==> (hi as int) * (hi as int) <= (lo as int) * (lo as int)) by (nonlinear_arith)
            requires 0 <= hi;
    } else {
        assert(d * d <= (lo as int) * (lo as int)) by (nonlinear_arith)
            requires -(lo as int) <= d < 0;
        assert(lo <= hi ==> (lo as int) * (lo as int) <= (hi as int) * (hi as int)) by (nonlinear_arith)
            requires 0 <= lo;
    }
    lemma_square_nonneg(d);
}

/// The chunks around the origin all have distances that fit machine integers
pub proof fn lemma_around_origin_fits(rd: RenderDistance, t: int)
    requires
        rd.distances_fit(),
        0 <= t < rd.spec_count(),
    ensures
        origin().distance_fits(rd.spec_around(origin(), t)),
{
    let ny = axis_count(rd.y_min, rd.y_max);
    let nz = axis_count(rd.z_min, rd.z_max);
    let nx = axis_count(rd.x_min, rd.x_max);
    lemma_count_nonneg(rd);
    assert(0 <= t / (ny * nz) < nx) by (nonlinear_arith)
        requires 0 <= t < nx * ny * nz, ny * nz >= 1;
    assert(0 <= (t / nz) % ny < ny) by (nonlinear_arith)
        requires 0 <= t, nz >= 1, ny >= 1;
    assert(0 <= t % nz < nz) by (nonlinear_arith)
        requires 0 <= t, nz >= 1;
    let c = rd.spec_around(origin(), t);
    let dx = axis_offset(rd.x_min, t / (ny * nz));
    let dy = axis_offset(rd.y_min, (t / nz) % ny);
    let dz = axis_offset(rd.z_min, t % nz);
    assert(c.px == dx && c.py == dy && c.pz == dz);
    lemma_axis_square(rd.x_min, rd.x_max, dx);
    lemma_axis_square(rd.y_min, rd.y_max, dy);
    lemma_axis_square(rd.z_min, rd.z_max, dz);
    assert((0 - c.px) * (0 - c.px) == dx * dx) by (nonlinear_arith) requires c.px == dx;
    assert((0 - c.py) * (0 - c.py) == dy * dy) by (nonlinear_arith) requires c.py == dy;
    assert((0 - c.pz) * (0 - c.pz) == dz * dz) by (nonlinear_arith) requires c.pz == dz;
}

/// All the visible chunks for a given `RenderDistance` sorted by distance
pub fn get_close_chunks(render_distance: &RenderDistance) -> (v: Vec<ChunkPos>)
    requires
        render_distance.distances_fit(),
    ensures
        is_stable_sort_by_distance(render_distance.spec_around_seq(origin()), v@),
{
    let origin_pos = ChunkPos { px: 0, py: 0, pz: 0 };
    let mut adjacent_positions = render_distance.iterate_around_player(origin_pos);
    proof {
        assert forall|t: int| 0 <= t < adjacent_positions@.len() implies origin().distance_fits(
            #[trigger] adjacent_positions@[t],
        ) by {
            lemma_around_origin_fits(*render_distance, t);
        }
    }
    sort_by_distance_to_origin(&mut adjacent_positions);
    adjacent_positions
}

/// All the visible chunks for a given `RenderDistance` sorted by distance
pub struct CloseChunks {
    /// The chunks
    close_chunks: Vec<ChunkPos>,
    /// The `RenderDistance` for which the chunks are valid
    render_distance: RenderDistance,
}

impl CloseChunks {
    /// The render distance the chunks were computed for
    pub closed spec fn distance(&self) -> RenderDistance {
        self.render_distance
    }

    /// The stored chunks
    pub closed spec fn chunks(&self) -> Seq<ChunkPos> {
        self.close_chunks@
    }

    /// The stored chunks are the chunks of the render distance sorted by distance
    pub open spec fn wf(&self) -> bool {
        is_stable_sort_by_distance(self.distance().spec_around_seq(origin()), self.chunks())
    }

    pub fn new(render_distance: &RenderDistance) -> (c: CloseChunks)
        requires
            render_distance.distances_fit(),
        ensures
            c.wf(),
            c.distance() == *render_distance,
    {
        CloseChunks { close_chunks: get_close_chunks(render_distance), render_distance: *render_distance }
    }

    pub fn update(&mut self, render_distance: &RenderDistance)
        requires
            render_distance.distances_fit(),
            old(self).wf(),
        ensures
            final(self).wf(),
            final(self).distance() == *render_distance,
            *render_distance == old(self).distance() ==> final(self).chunks() == old(self).chunks(),
    {
        if *render_distance != self.render_distance {
            self.close_chunks = get_close_chunks(render_distance);
            self.render_distance = *render_distance;
        }
    }

    pub fn get_close_chunks(&self) -> (v: &Vec<ChunkPos>)
        ensures
            v@ == self.chunks(),
    {
        &self.close_chunks
    }
}


impl RenderDistance {
    /// Whether all chunk coordinates visited around `player` stay within machine integers
    pub fn fits_around_check(self, player: ChunkPos) -> (b: bool)
        ensures
            b == self.fits_around(player),
    {
        let m = i64::MAX as i128;
        let n = i64::MIN as i128;
        (self.x_max as i128) < m && (self.x_min as i128) <= m && (self.y_max as i128) < m && (self.y_min as i128) <= m
            && (self.z_max as i128) < m && (self.z_min as i128) <= m && n <= player.px as i128 - self.x_min as i128
            && player.px as i128 + self.x_max as i128 <= m && n <= player.py as i128 - self.y_min as i128
            && player.py as i128 + self.y_max as i128 <= m && n <= player.pz as i128 - self.z_min as i128
            && player.pz as i128 + self.z_max as i128 <= m
    }

    /// Whether every chunk of the render distance around the origin has a
    /// distance that fits machine integers
    pub fn distances_fit_check(self) -> (b: bool)
        ensures
            b == self.distances_fit(),
    {
        if !self.fits_around_check(ChunkPos { px: 0, py: 0, pz: 0 }) {
            return false;
        }
        let bx = axis_square_bound_exec(self.x_min, self.x_max);
        let by = axis_square_bound_exec(self.y_min, self.y_max);
        let bz = axis_square_bound_exec(self.z_min, self.z_max);
        let m = i64::MAX as u128;
        bx <= m && by <= m && bz <= m && bx + by + bz <= u64::MAX as u128
    }
}

/// Largest square of an offset along an axis
fn axis_square_bound_exec(lo: u64, hi: u64) -> (r: u128)
    ensures
        r == axis_square_bound(lo, hi),
{
    let v = if lo > hi { lo as u128 } else { hi as u128 };
    proof {
        assert(v * v <= 0xffff_ffff_ffff_ffffu128 * 0xffff_ffff_ffff_ffffu128) by (nonlinear_arith)
            requires v <= 0xffff_ffff_ffff_ffffu128;
    }
    v * v
}


/// The chunks that the iteration around a player visits are exactly the chunks
/// in render distance of the player
pub proof fn law_visible_iff_around(rd: RenderDistance, player: ChunkPos, p: ChunkPos)
    requires
        rd.fits_around(player),
    ensures
        rd.spec_around_seq(player).contains(p) <==> rd.spec_is_chunk_visible(player, p),
{
    let nx = axis_count(rd.x_min, rd.x_max);
    let ny = axis_count(rd.y_min, rd.y_max);
    let nz = axis_count(rd.z_min, rd.z_max);
    let s = rd.spec_around_seq(player);
    lemma_count_nonneg(rd);
    if rd.spec_is_chunk_visible(player, p) {
        let i = p.px - player.px;
        let j = p.py - player.py;
        let k = p.pz - player.pz;
        lemma_enumeration_step(rd, i, j, k);
        let t = enumeration_index(rd, i + rd.x_min, j + rd.y_min, k + rd.z_min);
        assert(s[t] == p);
    }
    if s.contains(p) {
        let t = choose|t: int| 0 <= t < s.len() && s[t] == p;
        assert(0 <= t / (ny * nz) < nx) by (nonlinear_arith)
            requires 0 <= t < nx * ny * nz, ny * nz >= 1;
        assert(0 <= (t / nz) % ny < ny) by (nonlinear_arith)
            requires 0 <= t, nz >= 1, ny >= 1;
        assert(0 <= t % nz < nz) by (nonlinear_arith)
            requires 0 <= t, nz >= 1;
        assert(rd.spec_count() == nx * ny * nz);
        assert(s[t] == rd.spec_around(player, t));
    }
}

} // verus!

verus! {

/// A permutation of `0 .. n` reaches every index
pub proof fn lemma_permutation_onto(p: Seq<int>, n: int, i: int)
    requires
        is_permutation(p, n),
        0 <= i < n,
    ensures
        exists|t: int| 0 <= t < n && p[t] == i,
{
    let dom = vstd::set_lib::set_int_range(0, n);
    let f = |t: int| p[t];
    let img = dom.map(f);
    vstd::set_lib::lemma_int_range(0, n);
    assert(vstd::relations::injective_on(f, dom)) by {
        assert forall|a: int, b: int| dom.contains(a) && dom.contains(b) && #[trigger] f(a) == #[trigger] f(b) implies a == b by {
            if a < b {
                assert(p[a] != p[b]);
            } else if b < a {
                assert(p[b] != p[a]);
            }
        }
    }
    vstd::set_lib::lemma_map_size(dom, img, f);
    assert(img.subset_of(dom)) by {
        assert forall|v: int| img.contains(v) implies dom.contains(v) by {
            let t = choose|t: int| dom.contains(t) && f(t) == v;
        }
    }
    vstd::set_lib::lemma_subset_equality(img, dom);
    assert(dom.contains(i));
    assert(img.contains(i));
    let t = choose|t: int| dom.contains(t) && f(t) == i;
    assert(0 <= t < n && p[t] == i);
}

/// Index `i` comes before index `j` in a stable sort of `items` by distance
pub open spec fn sorts_before(items: Seq<ChunkPos>, i: int, j: int) -> bool {
    distance_to_origin(items[i]) < distance_to_origin(items[j]) || (distance_to_origin(items[i]) == distance_to_origin(
        items[j],
    ) && i < j)
}

/// The permutation of a stable sort lists the indices in increasing order of
/// (distance, index)
proof fn lemma_stable_sort_order(items: Seq<ChunkPos>, sorted: Seq<ChunkPos>, p: Seq<int>)
    requires
        is_permutation(p, items.len() as int),
        sorted.len() == items.len(),
        forall|t: int| 0 <= t < sorted.len() ==> #[trigger] sorted[t] == items[p[t]],
        forall|a: int, b: int|
            0 <= a < b < sorted.len() ==> distance_to_origin(#[trigger] sorted[a]) <= distance_to_origin(#[trigger] sorted[b]),
        forall|a: int, b: int|
            0 <= a < b < sorted.len() && distance_to_origin(#[trigger] sorted[a]) == distance_to_origin(#[trigger] sorted[b])
                ==> p[a] < p[b],
    ensures
        forall|a: int, b: int| 0 <= a < b < sorted.len() ==> #[trigger] sorts_before(items, p[a], p[b]),
{
    assert forall|a: int, b: int| 0 <= a < b < sorted.len() implies #[trigger] sorts_before(items, p[a], p[b]) by {
        assert(sorted[a] == items[p[a]]);
        assert(sorted[b] == items[p[b]]);
    }
}

/// A stable sort by distance is unique: two stable sorts of the same chunks are equal
pub proof fn lemma_stable_sort_unique(items: Seq<ChunkPos>, s1: Seq<ChunkPos>, s2: Seq<ChunkPos>)
    requires
        is_stable_sort_by_distance(items, s1),
        is_stable_sort_by_distance(items, s2),
    ensures
        s1 == s2,
{
    let n = items.len() as int;
    let p1 = choose|p: Seq<int>|
        {
            &&& is_permutation(p, items.len() as int)
            &&& s1.len() == items.len()
            &&& forall|t: int| 0 <= t < s1.len() ==> #[trigger] s1[t] == items[p[t]]
            &&& forall|a: int, b: int|
                0 <= a < b < s1.len() ==> distance_to_origin(#[trigger] s1[a]) <= distance_to_origin(#[trigger] s1[b])
            &&& forall|a: int, b: int|
                0 <= a < b < s1.len() && distance_to_origin(#[trigger] s1[a]) == distance_to_origin(#[trigger] s1[b]) ==> p[a]
                    < p[b]
        };
    let p2 = choose|p: Seq<int>|
        {
            &&& is_permutation(p, items.len() as int)
            &&& s2.len() == items.len()
            &&& forall|t: int| 0 <= t < s2.len() ==> #[trigger] s2[t] == items[p[t]]
            &&& forall|a: int, b: int|
                0 <= a < b < s2.len() ==> distance_to_origin(#[trigger] s2[a]) <= distance_to_origin(#[trigger] s2[b])
            &&& forall|a: int, b: int|
                0 <= a < b < s2.len() && distance_to_origin(#[trigger] s2[a]) == distance_to_origin(#[trigger] s2[b]) ==> p[a]
                    < p[b]
        };
    lemma_stable_sort_order(items, s1, p1);
    lemma_stable_sort_order(items, s2, p2);
    lemma_same_order_prefix(items, p1, p2, n);
    assert forall|t: int| 0 <= t < n implies s1[t] == s2[t] by {
        assert(s1[t] == items[p1[t]]);
        assert(s2[t] == items[p2[t]]);
    }
    assert(s1 =~= s2);
}

/// Two permutations that both list the indices in increasing sorting order
/// agree on their first `k` places
proof fn lemma_same_order_prefix(items: Seq<ChunkPos>, p1: Seq<int>, p2: Seq<int>, k: int)
    requires
        is_permutation(p1, items.len() as int),
        is_permutation(p2, items.len() as int),
        forall|a: int, b: int| 0 <= a < b < items.len() ==> #[trigger] sorts_before(items, p1[a], p1[b]),
        forall|a: int, b: int| 0 <= a < b < items.len() ==> #[trigger] sorts_before(items, p2[a], p2[b]),
        0 <= k <= items.len(),
    ensures
        forall|t: int| 0 <= t < k ==> p1[t] == p2[t],
    decreases k,
{
    let n = items.len() as int;
    if k > 0 {
        lemma_same_order_prefix(items, p1, p2, k - 1);
        let t = k - 1;
        let i = p1[t];
        let j = p2[t];
        if i != j {
            lemma_permutation_onto(p2, n, i);
            let s = choose|s: int| 0 <= s < n && p2[s] == i;
            lemma_permutation_onto(p1, n, j);
            let r = choose|r: int| 0 <= r < n && p1[r] == j;
            if s < t {
                assert(p1[s] == p2[s]);
                assert(p1[s] != p1[t]);
            }
            if r < t {
                assert(p1[r] == p2[r]);
                assert(p2[r] != p2[t]);
            }
            assert(s > t && r > t);
            assert(sorts_before(items, p2[t], p2[s]));
            assert(sorts_before(items, p1[t], p1[r]));
        }
    }
}

impl CloseChunks {
    /// Close chunks are determined by their render distance: updating them to a
    /// render distance gives the chunks that building them for it gives, and
    /// updating them again to the same distance changes nothing
    pub proof fn law_close_chunks_determined(a: CloseChunks, b: CloseChunks)
        requires
            a.wf(),
            b.wf(),
            a.distance() == b.distance(),
        ensures
            a.chunks() == b.chunks(),
    {
        lemma_stable_sort_unique(a.distance().spec_around_seq(origin()), a.chunks(), b.chunks());
    }
}

} // verus!
