//! Bookkeeping of a GPU buffer shared by several objects: which part of the
//! buffer each object occupies, and where a new object goes.

use vstd::prelude::*;
use std::collections::HashMap;
use vstd::std_specs::iter::IteratorSpec;

verus! {

broadcast use vstd::std_specs::hash::group_hash_axioms;

/// A contiguous part of the buffer, either free or holding one object
#[derive(Debug, Clone, Copy, PartialEq, Eq, Structural)]
pub struct MultiBufferSegment {
    pub free: bool,
    pub pos: usize,
    pub len: usize,
}

/// What the owner of the GPU buffer has to do after an update: grow the buffer
/// to a new length (keeping its contents), then copy the object's data at `position`
#[derive(Debug, Clone, Copy, PartialEq, Eq, Structural)]
pub struct BufferUpdate {
    pub reallocate_to: Option<usize>,
    pub position: usize,
}

/// Whether element `x` of the buffer belongs to some object
pub open spec fn occupied(allocs: Map<u64, (int, int)>, x: int) -> bool {
    exists|k: u64| allocs.dom().contains(k) && allocs[k].0 <= x < allocs[k].0 + #[trigger] allocs[k].1
}

/// `p` starts a run of free elements
pub open spec fn is_free_start(allocs: Map<u64, (int, int)>, p: int) -> bool {
    &&& !occupied(allocs, p)
    &&& (p == 0 || occupied(allocs, p - 1))
}

/// An object of `n` elements fits in the free run starting at `p`, in a buffer of length `len`
pub open spec fn fits_at(allocs: Map<u64, (int, int)>, len: int, p: int, n: int) -> bool {
    &&& 0 <= p
    &&& p + n <= len
    &&& is_free_start(allocs, p)
    &&& forall|x: int| p <= x < p + n ==> !#[trigger] occupied(allocs, x)
}

/// `p` is the first free run where an object of `n` elements fits
pub open spec fn is_first_fit(allocs: Map<u64, (int, int)>, len: int, n: int, p: int) -> bool {
    &&& fits_at(allocs, len, p, n)
    &&& forall|q: int| 0 <= q < p ==> !#[trigger] fits_at(allocs, len, q, n)
}

/// Some free run can hold an object of `n` elements
pub open spec fn has_fit(allocs: Map<u64, (int, int)>, len: int, n: int) -> bool {
    exists|p: int| #[trigger] fits_at(allocs, len, p, n)
}

/// The length of the buffer after it is grown to hold `n` more elements
pub open spec fn grown_len(len: int, n: int) -> int {
    if len + n >= 2 * len {
        len + n
    } else {
        2 * len
    }
}

/// The segments tile the buffer `0..len` and none is empty
pub open spec fn segments_tile(segs: Seq<MultiBufferSegment>, len: int) -> bool {
    &&& segs.len() > 0
    &&& segs[0].pos == 0
    &&& forall|i: int| 0 <= i < segs.len() ==> #[trigger] segs[i].len > 0
    &&& forall|i: int|
        0 <= i < segs.len() - 1 ==> #[trigger] segs[i].pos + segs[i].len == segs[i + 1].pos
    &&& segs.last().pos + segs.last().len == len
}

/// No two free segments are adjacent
pub open spec fn no_adjacent_free(segs: Seq<MultiBufferSegment>) -> bool {
    forall|i: int| 0 <= i < segs.len() - 1 ==> !(#[trigger] segs[i].free && segs[i + 1].free)
}

/// The segments tile the buffer `0..len`, none is empty, and no two free segments are adjacent
pub open spec fn segments_wf(segs: Seq<MultiBufferSegment>, len: int) -> bool {
    &&& segments_tile(segs, len)
    &&& no_adjacent_free(segs)
}

/// Each object starts a used segment, and each used segment holds exactly one object
pub open spec fn objects_wf(objs: Map<u64, usize>, segs: Seq<MultiBufferSegment>) -> bool {
    &&& forall|k: u64|
        #[trigger] objs.contains_key(k) ==> exists|i: int|
            0 <= i < segs.len() && #[trigger] segs[i].pos == objs[k] && !segs[i].free
    &&& forall|i: int|
        0 <= i < segs.len() && !#[trigger] segs[i].free ==> exists|k: u64|
            objs.contains_key(k) && #[trigger] objs[k] == segs[i].pos
    &&& forall|k1: u64, k2: u64|
        objs.contains_key(k1) && objs.contains_key(k2) && #[trigger] objs[k1] == #[trigger] objs[k2]
            ==> k1 == k2
}

/// The index of the segment starting at `p`
pub open spec fn segment_at(segs: Seq<MultiBufferSegment>, p: int) -> int {
    choose|i: int| 0 <= i < segs.len() && #[trigger] segs[i].pos == p
}

/// Where each object is: its first element and its number of elements
pub open spec fn allocations_of(objs: Map<u64, usize>, segs: Seq<MultiBufferSegment>) -> Map<u64, (int, int)> {
    Map::new(
        |k: u64| objs.contains_key(k),
        |k: u64| (objs[k] as int, segs[segment_at(segs, objs[k] as int)].len as int),
    )
}

/// Segments come in increasing order of position
pub proof fn lemma_segments_ordered(segs: Seq<MultiBufferSegment>, len: int, i: int, j: int)
    requires
        segments_tile(segs, len),
        0 <= i < j < segs.len(),
    ensures
        segs[i].pos + segs[i].len <= segs[j].pos,
    decreases j - i,
{
    if j > i + 1 {
        lemma_segments_ordered(segs, len, i, j - 1);
    }
}

/// Every segment ends within the buffer
pub proof fn lemma_segment_in_buffer(segs: Seq<MultiBufferSegment>, len: int, i: int)
    requires
        segments_tile(segs, len),
        0 <= i < segs.len(),
    ensures
        segs[i].pos + segs[i].len <= len,
        0 <= segs[i].pos,
{
    if i < segs.len() - 1 {
        lemma_segments_ordered(segs, len, i, segs.len() - 1);
    }
    if i > 0 {
        lemma_segments_ordered(segs, len, 0, i);
    }
}

/// The segment containing element `x` of the buffer
pub proof fn lemma_segment_containing(segs: Seq<MultiBufferSegment>, len: int, x: int, from: int) -> (i: int)
    requires
        segments_tile(segs, len),
        0 <= from < segs.len(),
        segs[from].pos <= x < len,
    ensures
        from <= i < segs.len(),
        segs[i].pos <= x < segs[i].pos + segs[i].len,
    decreases segs.len() - from,
{
    if x < segs[from].pos + segs[from].len {
        from
    } else {
        if from == segs.len() - 1 {
            assert(false);
        }
        lemma_segment_containing(segs, len, x, from + 1)
    }
}

/// Only one segment contains a given element
pub proof fn lemma_segment_unique(segs: Seq<MultiBufferSegment>, len: int, x: int, i: int, j: int)
    requires
        segments_tile(segs, len),
        0 <= i < segs.len(),
        0 <= j < segs.len(),
        segs[i].pos <= x < segs[i].pos + segs[i].len,
        segs[j].pos <= x < segs[j].pos + segs[j].len,
    ensures
        i == j,
{
    if i < j {
        lemma_segments_ordered(segs, len, i, j);
    }
    if j < i {
        lemma_segments_ordered(segs, len, j, i);
    }
}

/// The allocation of an object is the segment that starts at its position
pub proof fn lemma_allocation_at(objs: Map<u64, usize>, segs: Seq<MultiBufferSegment>, len: int, k: u64) -> (i: int)
    requires
        segments_wf(segs, len),
        objects_wf(objs, segs),
        objs.contains_key(k),
    ensures
        0 <= i < segs.len(),
        segs[i].pos == objs[k],
        !segs[i].free,
        allocations_of(objs, segs)[k] == (segs[i].pos as int, segs[i].len as int),
{
    let i = choose|i: int| 0 <= i < segs.len() && #[trigger] segs[i].pos == objs[k] && !segs[i].free;
    let j = segment_at(segs, objs[k] as int);
    assert(0 <= j < segs.len() && segs[j].pos == objs[k]);
    lemma_segment_unique(segs, len, objs[k] as int, i, j);
    i
}

/// An element is occupied exactly when its segment is used
pub proof fn lemma_occupied_iff(objs: Map<u64, usize>, segs: Seq<MultiBufferSegment>, len: int, x: int, i: int)
    requires
        segments_wf(segs, len),
        objects_wf(objs, segs),
        0 <= i < segs.len(),
        segs[i].pos <= x < segs[i].pos + segs[i].len,
    ensures
        occupied(allocations_of(objs, segs), x) <==> !segs[i].free,
{
    let allocs = allocations_of(objs, segs);
    if !segs[i].free {
        let k = choose|k: u64| objs.contains_key(k) && #[trigger] objs[k] == segs[i].pos;
        let j = lemma_allocation_at(objs, segs, len, k);
        lemma_segment_unique(segs, len, segs[i].pos as int, i, j);
        assert(allocs.dom().contains(k) && allocs[k].0 <= x < allocs[k].0 + allocs[k].1);
    }
    if occupied(allocs, x) {
        let k = choose|k: u64| allocs.dom().contains(k) && allocs[k].0 <= x < allocs[k].0 + #[trigger] allocs[k].1;
        let j = lemma_allocation_at(objs, segs, len, k);
        lemma_segment_unique(segs, len, x, i, j);
    }
}

/// A free run where an object fits is the start of a free segment long enough for it
pub proof fn lemma_fit_is_free_segment(objs: Map<u64, usize>, segs: Seq<MultiBufferSegment>, len: int, q: int, n: int) -> (j: int)
    requires
        segments_wf(segs, len),
        objects_wf(objs, segs),
        n >= 1,
        fits_at(allocations_of(objs, segs), len, q, n),
    ensures
        0 <= j < segs.len(),
        segs[j].pos == q,
        segs[j].free,
        segs[j].len >= n,
{
    let allocs = allocations_of(objs, segs);
    let j = lemma_segment_containing(segs, len, q, 0);
    lemma_occupied_iff(objs, segs, len, q, j);
    if q > segs[j].pos {
        lemma_occupied_iff(objs, segs, len, q - 1, j);
        assert(!occupied(allocs, q - 1));
    }
    lemma_segment_in_buffer(segs, len, j);
    if segs[j].len < n {
        let x = segs[j].pos + segs[j].len;
        if j == segs.len() - 1 {
            assert(false);
        }
        assert(segs[j + 1].pos == x);
        lemma_occupied_iff(objs, segs, len, x, j + 1);
        assert(!occupied(allocs, x));
    }
    j
}

/// The first free segment long enough for an object is its first fit
pub proof fn lemma_first_fit(objs: Map<u64, usize>, segs: Seq<MultiBufferSegment>, len: int, i: int, n: int)
    requires
        segments_wf(segs, len),
        objects_wf(objs, segs),
        n >= 1,
        0 <= i < segs.len(),
        segs[i].free,
        segs[i].len >= n,
        forall|j: int| 0 <= j < i ==> !(#[trigger] segs[j].free && segs[j].len >= n),
    ensures
        is_first_fit(allocations_of(objs, segs), len, n, segs[i].pos as int),
        has_fit(allocations_of(objs, segs), len, n),
{
    let allocs = allocations_of(objs, segs);
    let p = segs[i].pos as int;
    lemma_segment_in_buffer(segs, len, i);
    lemma_occupied_iff(objs, segs, len, p, i);
    if p != 0 {
        if i == 0 {
            assert(false);
        }
        assert(segs[i - 1].pos + segs[i - 1].len == p);
        lemma_occupied_iff(objs, segs, len, p - 1, i - 1);
    }
    assert forall|x: int| p <= x < p + n implies !#[trigger] occupied(allocs, x) by {
        lemma_occupied_iff(objs, segs, len, x, i);
    }
    assert(fits_at(allocs, len, p, n));
    assert forall|q: int| 0 <= q < p implies !#[trigger] fits_at(allocs, len, q, n) by {
        if fits_at(allocs, len, q, n) {
            let j = lemma_fit_is_free_segment(objs, segs, len, q, n);
            if j >= i {
                if j > i {
                    lemma_segments_ordered(segs, len, i, j);
                }
                assert(false);
            }
        }
    }
}

/// Without a free segment long enough, no free run holds the object
pub proof fn lemma_no_fit(objs: Map<u64, usize>, segs: Seq<MultiBufferSegment>, len: int, n: int)
    requires
        segments_wf(segs, len),
        objects_wf(objs, segs),
        n >= 1,
        forall|j: int| 0 <= j < segs.len() ==> !(#[trigger] segs[j].free && segs[j].len >= n),
    ensures
        !has_fit(allocations_of(objs, segs), len, n),
{
    if has_fit(allocations_of(objs, segs), len, n) {
        let q = choose|q: int| #[trigger] fits_at(allocations_of(objs, segs), len, q, n);
        let j = lemma_fit_is_free_segment(objs, segs, len, q, n);
    }
}


/// Some used segment starts at `p` and has `l` elements
pub open spec fn is_used(segs: Seq<MultiBufferSegment>, p: int, l: int) -> bool {
    exists|i: int| 0 <= i < segs.len() && (#[trigger] segs[i]).pos == p && segs[i].len == l && !segs[i].free
}

/// Two used segments starting at the same position have the same length
pub proof fn lemma_used_len_unique(segs: Seq<MultiBufferSegment>, len: int, p: int, l1: int, l2: int)
    requires
        segments_tile(segs, len),
        is_used(segs, p, l1),
        is_used(segs, p, l2),
    ensures
        l1 == l2,
{
    let i = choose|i: int| 0 <= i < segs.len() && (#[trigger] segs[i]).pos == p && segs[i].len == l1 && !segs[i].free;
    let j = choose|j: int| 0 <= j < segs.len() && (#[trigger] segs[j]).pos == p && segs[j].len == l2 && !segs[j].free;
    lemma_segment_unique(segs, len, p, i, j);
}

/// The allocation of an object is a used segment
pub proof fn lemma_allocation_used(objs: Map<u64, usize>, segs: Seq<MultiBufferSegment>, len: int, k: u64)
    requires
        segments_tile(segs, len),
        objects_wf(objs, segs),
        objs.contains_key(k),
    ensures
        is_used(segs, objs[k] as int, allocations_of(objs, segs)[k].1),
        allocations_of(objs, segs)[k].0 == objs[k],
{
    let i = choose|i: int| 0 <= i < segs.len() && #[trigger] segs[i].pos == objs[k] && !segs[i].free;
    let j = segment_at(segs, objs[k] as int);
    assert(0 <= j < segs.len() && segs[j].pos == objs[k]);
    lemma_segment_unique(segs, len, objs[k] as int, i, j);
    assert(segs[i] == segs[j]);
}

/// Moving to new segments holding the same objects at the same places keeps the allocations
pub proof fn lemma_transfer_same(
    objs: Map<u64, usize>,
    segs: Seq<MultiBufferSegment>,
    len: int,
    segs2: Seq<MultiBufferSegment>,
    len2: int,
)
    requires
        segments_tile(segs, len),
        objects_wf(objs, segs),
        segments_tile(segs2, len2),
        forall|p: int, l: int| is_used(segs2, p, l) <==> is_used(segs, p, l),
    ensures
        objects_wf(objs, segs2),
        allocations_of(objs, segs2) == allocations_of(objs, segs),
{
    lemma_transfer_remove_insert(objs, segs, len, objs, segs2, len2, None, None);
}

/// Moving to new segments where the object `removed` (if any) lost its segment
/// and the object `added` (if any) got a new segment keeps the other allocations
pub proof fn lemma_transfer_remove_insert(
    objs: Map<u64, usize>,
    segs: Seq<MultiBufferSegment>,
    len: int,
    objs2: Map<u64, usize>,
    segs2: Seq<MultiBufferSegment>,
    len2: int,
    removed: Option<u64>,
    added: Option<(u64, usize, int)>,
)
    requires
        segments_tile(segs, len),
        objects_wf(objs, segs),
        segments_tile(segs2, len2),
        removed matches Some(key) ==> objs.contains_key(key),
        added matches Some((key, p, n)) ==> {
            &&& !objs.contains_key(key) || removed == Some(key)
            &&& forall|l: int| !#[trigger] is_used(segs, p as int, l) || (removed matches Some(r) && objs[r] == p)
        },
        objs2 == match added {
            Some((key, p, n)) => match removed {
                Some(r) => objs.remove(r).insert(key, p),
                None => objs.insert(key, p),
            },
            None => match removed {
                Some(r) => objs.remove(r),
                None => objs,
            },
        },
        forall|p: int, l: int|
            #[trigger] is_used(segs2, p, l) <==> ((is_used(segs, p, l) && !(removed matches Some(r) && objs[r] == p))
                || (added matches Some((key, q, n)) && q == p && n == l)),
    ensures
        objects_wf(objs2, segs2),
        allocations_of(objs2, segs2) == match added {
            Some((key, p, n)) => match removed {
                Some(r) => allocations_of(objs, segs).remove(r).insert(key, (p as int, n)),
                None => allocations_of(objs, segs).insert(key, (p as int, n)),
            },
            None => match removed {
                Some(r) => allocations_of(objs, segs).remove(r),
                None => allocations_of(objs, segs),
            },
        },
{
    let expected = match added {
        Some((key, p, n)) => match removed {
            Some(r) => allocations_of(objs, segs).remove(r).insert(key, (p as int, n)),
            None => allocations_of(objs, segs).insert(key, (p as int, n)),
        },
        None => match removed {
            Some(r) => allocations_of(objs, segs).remove(r),
            None => allocations_of(objs, segs),
        },
    };
    let (has_add, key, p, n) = match added {
        Some((a, b, c)) => (true, a, b, c),
        None => (false, 0u64, 0usize, 0int),
    };
    let (has_rem, r) = match removed {
        Some(a) => (true, a),
        None => (false, 0u64),
    };
    // objects keep a used segment
    assert forall|k: u64| #[trigger] objs2.contains_key(k) implies exists|i: int|
        0 <= i < segs2.len() && #[trigger] segs2[i].pos == objs2[k] && !segs2[i].free by {
        if has_add && k == key {
            assert(is_used(segs2, p as int, n));
        } else {
            assert(objs.contains_key(k) && objs2[k] == objs[k]);
            lemma_allocation_used(objs, segs, len, k);
            let l = allocations_of(objs, segs)[k].1;
            if has_rem && objs[r] == objs[k] {
                assert(k == r);
            }
            assert(is_used(segs2, objs[k] as int, l));
        }
        let l2 = choose|l2: int| is_used(segs2, objs2[k] as int, l2);
        let i = choose|i: int| 0 <= i < segs2.len() && (#[trigger] segs2[i]).pos == objs2[k] && segs2[i].len == l2 && !segs2[i].free;
    }
    // used segments hold an object
    assert forall|i: int| 0 <= i < segs2.len() && !#[trigger] segs2[i].free implies exists|k: u64|
        objs2.contains_key(k) && #[trigger] objs2[k] == segs2[i].pos by {
        assert(is_used(segs2, segs2[i].pos as int, segs2[i].len as int));
        if has_add && p == segs2[i].pos && n == segs2[i].len {
            assert(objs2.contains_key(key) && objs2[key] == segs2[i].pos);
        } else {
            let j = choose|j: int| 0 <= j < segs.len() && (#[trigger] segs[j]).pos == segs2[i].pos && segs[j].len == segs2[i].len && !segs[j].free;
            let k = choose|k: u64| objs.contains_key(k) && #[trigger] objs[k] == segs[j].pos;
            if has_add && k == key {
                // the added key was either absent or the removed one, whose position is excluded
                assert(removed == Some(key));
            }
            assert(objs2.contains_key(k) && objs2[k] == segs2[i].pos);
        }
    }
    // positions of objects stay distinct
    assert forall|k1: u64, k2: u64|
        objs2.contains_key(k1) && objs2.contains_key(k2) && #[trigger] objs2[k1] == #[trigger] objs2[k2] implies k1 == k2 by {
        if has_add {
            if k1 == key && k2 != key {
                lemma_allocation_used(objs, segs, len, k2);
            }
            if k2 == key && k1 != key {
                lemma_allocation_used(objs, segs, len, k1);
            }
        }
    }
    // allocations
    assert forall|k: u64| #[trigger] allocations_of(objs2, segs2).dom().contains(k) implies allocations_of(objs2, segs2)[k] == expected[k] by {
        lemma_allocation_used(objs2, segs2, len2, k);
        let l2 = allocations_of(objs2, segs2)[k].1;
        if has_add && k == key {
            if is_used(segs, p as int, l2) && !(has_rem && objs[r] == p) {
                assert(false);
            }
        } else {
            lemma_allocation_used(objs, segs, len, k);
            if has_add && p == objs2[k] {
                assert(false);
            }
            lemma_used_len_unique(segs, len, objs[k] as int, l2, allocations_of(objs, segs)[k].1);
        }
    }
    assert(allocations_of(objs2, segs2) =~= expected);
}


/// The segment `i` with its `free` flag set
pub open spec fn freed(seg: MultiBufferSegment) -> MultiBufferSegment {
    MultiBufferSegment { free: true, pos: seg.pos, len: seg.len }
}

/// Segments `i` and `i + 1` merged into one
pub open spec fn merged(segs: Seq<MultiBufferSegment>, i: int) -> Seq<MultiBufferSegment> {
    segs.update(
        i,
        MultiBufferSegment { free: segs[i].free, pos: segs[i].pos, len: (segs[i].len + segs[i + 1].len) as usize },
    ).remove(i + 1)
}

/// No two free segments are adjacent, except around segment `m`
pub open spec fn no_adjacent_free_except(segs: Seq<MultiBufferSegment>, m: int) -> bool {
    forall|i: int|
        0 <= i < segs.len() - 1 && i != m - 1 && i != m ==> !(#[trigger] segs[i].free && segs[i + 1].free)
}

/// Freeing a segment keeps the tiling and drops its allocation from the used segments
pub proof fn lemma_free_segment(segs: Seq<MultiBufferSegment>, len: int, i: int)
    requires
        segments_tile(segs, len),
        0 <= i < segs.len(),
    ensures
        segments_tile(segs.update(i, freed(segs[i])), len),
        forall|p: int, l: int|
            #[trigger] is_used(segs.update(i, freed(segs[i])), p, l) <==> (is_used(segs, p, l) && p != segs[i].pos),
{
    let t = segs.update(i, freed(segs[i]));
    assert forall|p: int, l: int| #[trigger] is_used(t, p, l) <==> (is_used(segs, p, l) && p != segs[i].pos) by {
        if is_used(t, p, l) {
            let j = choose|j: int| 0 <= j < t.len() && (#[trigger] t[j]).pos == p && t[j].len == l && !t[j].free;
            assert(j != i);
            assert(segs[j] == t[j]);
            if p == segs[i].pos {
                lemma_segment_unique(segs, len, p, i, j);
            }
        }
        if is_used(segs, p, l) && p != segs[i].pos {
            let j = choose|j: int| 0 <= j < segs.len() && (#[trigger] segs[j]).pos == p && segs[j].len == l && !segs[j].free;
            assert(t[j] == segs[j]);
        }
    }
}

/// The segments after merging segments `i` and `i + 1`
pub proof fn lemma_merge_shape(segs: Seq<MultiBufferSegment>, i: int)
    requires
        0 <= i < segs.len() - 1,
    ensures
        merged(segs, i).len() == segs.len() - 1,
        forall|j: int| 0 <= j < i ==> #[trigger] merged(segs, i)[j] == segs[j],
        forall|j: int| i < j < segs.len() - 1 ==> #[trigger] merged(segs, i)[j] == segs[j + 1],
        merged(segs, i)[i] == (MultiBufferSegment { free: segs[i].free, pos: segs[i].pos, len: (segs[i].len + segs[i + 1].len) as usize }),
{
}

/// Merging two adjacent segments keeps the tiling
#[verifier::spinoff_prover]
pub proof fn lemma_merge_tile(segs: Seq<MultiBufferSegment>, len: int, i: int)
    requires
        segments_tile(segs, len),
        len <= usize::MAX,
        0 <= i < segs.len() - 1,
    ensures
        segments_tile(merged(segs, i), len),
{
    let t = merged(segs, i);
    lemma_segment_in_buffer(segs, len, i + 1);
    lemma_merge_shape(segs, i);
    assert(segs[i].pos + segs[i].len == segs[i + 1].pos);
    assert(t[i].len == segs[i].len + segs[i + 1].len);
    assert forall|j: int| 0 <= j < t.len() - 1 implies #[trigger] t[j].pos + t[j].len == t[j + 1].pos by {
        if j == i {
            assert(segs[i + 1].pos + segs[i + 1].len == segs[i + 2].pos);
        } else if j > i {
            assert(segs[j + 1].pos + segs[j + 1].len == segs[j + 2].pos);
        } else {
            assert(segs[j].pos + segs[j].len == segs[j + 1].pos);
        }
    }
    assert forall|j: int| 0 <= j < t.len() implies #[trigger] t[j].len > 0 by {
        if j > i {
            assert(segs[j + 1].len > 0);
        } else if j < i {
            assert(segs[j].len > 0);
        }
    }
    if i == 0 {
        assert(t[0].pos == 0);
    } else {
        assert(t[0] == segs[0]);
    }
    if i == segs.len() - 2 {
        assert(t.last() == t[i]);
    } else {
        assert(t.last() == segs.last());
    }
}

/// Merging two adjacent free segments keeps the used segments
#[verifier::spinoff_prover]
pub proof fn lemma_merge_used(segs: Seq<MultiBufferSegment>, i: int)
    requires
        0 <= i < segs.len() - 1,
        segs[i].free,
        segs[i + 1].free,
    ensures
        forall|p: int, l: int| #[trigger] is_used(merged(segs, i), p, l) <==> is_used(segs, p, l),
{
    let t = merged(segs, i);
    lemma_merge_shape(segs, i);
    assert forall|p: int, l: int| #[trigger] is_used(t, p, l) <==> is_used(segs, p, l) by {
        if is_used(t, p, l) {
            let j = choose|j: int| 0 <= j < t.len() && (#[trigger] t[j]).pos == p && t[j].len == l && !t[j].free;
            if j < i {
                assert(segs[j] == t[j]);
            } else {
                assert(segs[j + 1] == t[j]);
            }
        }
        if is_used(segs, p, l) {
            let j = choose|j: int| 0 <= j < segs.len() && (#[trigger] segs[j]).pos == p && segs[j].len == l && !segs[j].free;
            if j < i {
                assert(segs[j] == t[j]);
            } else {
                assert(segs[j] == t[j - 1]);
            }
        }
    }
}

/// Merging two adjacent free segments keeps the tiling and the used segments
pub proof fn lemma_merge_free(segs: Seq<MultiBufferSegment>, len: int, i: int)
    requires
        segments_tile(segs, len),
        len <= usize::MAX,
        0 <= i < segs.len() - 1,
        segs[i].free,
        segs[i + 1].free,
    ensures
        segments_tile(merged(segs, i), len),
        merged(segs, i).len() == segs.len() - 1,
        forall|j: int| 0 <= j < i ==> #[trigger] merged(segs, i)[j] == segs[j],
        forall|j: int| i < j < segs.len() - 1 ==> #[trigger] merged(segs, i)[j] == segs[j + 1],
        merged(segs, i)[i].free,
        merged(segs, i)[i].pos == segs[i].pos,
        forall|p: int, l: int| #[trigger] is_used(merged(segs, i), p, l) <==> is_used(segs, p, l),
{
    lemma_merge_shape(segs, i);
    lemma_merge_tile(segs, len, i);
    lemma_merge_used(segs, i);
}

/// The segments after an object of `n` elements took the free segment `i`
pub open spec fn allocated(segs: Seq<MultiBufferSegment>, i: int, n: int) -> Seq<MultiBufferSegment> {
    if segs[i].len == n {
        segs.update(i, MultiBufferSegment { free: false, pos: segs[i].pos, len: segs[i].len })
    } else {
        segs.update(i, MultiBufferSegment { free: false, pos: segs[i].pos, len: n as usize }).insert(
            i + 1,
            MultiBufferSegment { free: true, pos: (segs[i].pos + n) as usize, len: (segs[i].len - n) as usize },
        )
    }
}

/// Taking a whole free segment for an object
#[verifier::spinoff_prover]
#[verifier::rlimit(40)]
pub proof fn lemma_allocated_exact(segs: Seq<MultiBufferSegment>, len: int, i: int, n: int)
    requires
        segments_wf(segs, len),
        len <= usize::MAX,
        0 <= i < segs.len(),
        segs[i].free,
        n == segs[i].len,
    ensures
        segments_wf(allocated(segs, i, n), len),
        forall|p: int, l: int|
            #[trigger] is_used(allocated(segs, i, n), p, l) <==> (is_used(segs, p, l) || (p == segs[i].pos && l == n)),
{
    let t = allocated(segs, i, n);
    lemma_segment_in_buffer(segs, len, i);
        assert forall|j: int| 0 <= j < t.len() - 1 implies #[trigger] t[j].pos + t[j].len == t[j + 1].pos by {
            assert(segs[j].pos + segs[j].len == segs[j + 1].pos);
        }
        assert forall|j: int| 0 <= j < t.len() - 1 implies !(#[trigger] t[j].free && t[j + 1].free) by {
            assert(!(segs[j].free && segs[j + 1].free));
        }
        assert forall|p: int, l: int| #[trigger] is_used(t, p, l) <==> (is_used(segs, p, l) || (p == segs[i].pos && l == n)) by {
            if is_used(t, p, l) {
                let j = choose|j: int| 0 <= j < t.len() && (#[trigger] t[j]).pos == p && t[j].len == l && !t[j].free;
                if j != i {
                    assert(segs[j] == t[j]);
                }
            }
            if is_used(segs, p, l) {
                let j = choose|j: int| 0 <= j < segs.len() && (#[trigger] segs[j]).pos == p && segs[j].len == l && !segs[j].free;
                assert(j != i);
                assert(t[j] == segs[j]);
            }
            if p == segs[i].pos && l == n {
                assert(t[i].pos == p && t[i].len == l && !t[i].free);
            }
        }
        assert(t.last().pos + t.last().len == len);
}

/// The segments after an object took the beginning of free segment `i`
pub proof fn lemma_split_shape(segs: Seq<MultiBufferSegment>, i: int, n: int)
    requires
        0 <= i < segs.len(),
        0 < n < segs[i].len,
    ensures
        allocated(segs, i, n).len() == segs.len() + 1,
        forall|j: int| 0 <= j < i ==> #[trigger] allocated(segs, i, n)[j] == segs[j],
        forall|j: int| i + 1 < j < segs.len() + 1 ==> #[trigger] allocated(segs, i, n)[j] == segs[j - 1],
        allocated(segs, i, n)[i] == (MultiBufferSegment { free: false, pos: segs[i].pos, len: n as usize }),
        allocated(segs, i, n)[i + 1] == (MultiBufferSegment { free: true, pos: (segs[i].pos + n) as usize, len: (segs[i].len - n) as usize }),
{
}

/// Taking the beginning of a free segment keeps the tiling
#[verifier::spinoff_prover]
#[verifier::rlimit(40)]
pub proof fn lemma_allocated_split_tile(segs: Seq<MultiBufferSegment>, len: int, i: int, n: int)
    requires
        segments_wf(segs, len),
        len <= usize::MAX,
        0 <= i < segs.len(),
        segs[i].free,
        0 < n < segs[i].len,
    ensures
        segments_wf(allocated(segs, i, n), len),
{
    let t = allocated(segs, i, n);
    lemma_segment_in_buffer(segs, len, i);
    lemma_split_shape(segs, i, n);
    assert forall|j: int| 0 <= j < t.len() - 1 implies #[trigger] t[j].pos + t[j].len == t[j + 1].pos by {
        if j < i {
            assert(segs[j].pos + segs[j].len == segs[j + 1].pos);
        } else if j == i + 1 {
            assert(segs[i].pos + segs[i].len == segs[i + 1].pos);
            assert(t[j + 1] == segs[i + 1]);
        } else if j > i + 1 {
            assert(t[j] == segs[j - 1] && t[j + 1] == segs[j]);
            assert(segs[j - 1].pos + segs[j - 1].len == segs[j].pos);
        }
    }
    assert forall|j: int| 0 <= j < t.len() implies #[trigger] t[j].len > 0 by {
        if j < i {
            assert(segs[j].len > 0);
        } else if j > i + 1 {
            assert(t[j] == segs[j - 1]);
            assert(segs[j - 1].len > 0);
        }
    }
    assert forall|j: int| 0 <= j < t.len() - 1 implies !(#[trigger] t[j].free && t[j + 1].free) by {
        if j < i {
            assert(!(segs[j].free && segs[j + 1].free));
            if j + 1 == i {
                assert(!t[i].free);
            }
        } else if j == i + 1 {
            assert(!(segs[i].free && segs[i + 1].free));
            assert(t[j + 1] == segs[i + 1]);
        } else if j > i + 1 {
            assert(t[j] == segs[j - 1] && t[j + 1] == segs[j]);
            assert(!(segs[j - 1].free && segs[j].free));
        }
    }
    if i == 0 {
        assert(t[0].pos == 0);
    }
    if i == segs.len() - 1 {
        assert(t.last() == t[i + 1]);
    } else {
        assert(t.last() == segs.last());
    }
}

/// Taking the beginning of a free segment adds the object's segment to the used ones
#[verifier::spinoff_prover]
#[verifier::rlimit(40)]
pub proof fn lemma_allocated_split_used(segs: Seq<MultiBufferSegment>, i: int, n: int)
    requires
        0 <= i < segs.len(),
        segs[i].free,
        0 < n < segs[i].len,
    ensures
        forall|p: int, l: int|
            #[trigger] is_used(allocated(segs, i, n), p, l) <==> (is_used(segs, p, l) || (p == segs[i].pos && l == n)),
{
    let t = allocated(segs, i, n);
    lemma_split_shape(segs, i, n);
    assert forall|p: int, l: int| #[trigger] is_used(t, p, l) <==> (is_used(segs, p, l) || (p == segs[i].pos && l == n)) by {
        if is_used(t, p, l) {
            let j = choose|j: int| 0 <= j < t.len() && (#[trigger] t[j]).pos == p && t[j].len == l && !t[j].free;
            if j < i {
                assert(segs[j] == t[j]);
            } else if j > i + 1 {
                assert(segs[j - 1] == t[j]);
            }
        }
        if is_used(segs, p, l) {
            let j = choose|j: int| 0 <= j < segs.len() && (#[trigger] segs[j]).pos == p && segs[j].len == l && !segs[j].free;
            assert(j != i);
            if j < i {
                assert(t[j] == segs[j]);
            } else {
                assert(t[j + 1] == segs[j]);
            }
        }
        if p == segs[i].pos && l == n {
            assert(t[i].pos == p && t[i].len == l && !t[i].free);
        }
    }
}

/// Taking a free segment for an object keeps the segments well formed and adds the object's segment
pub proof fn lemma_allocated(segs: Seq<MultiBufferSegment>, len: int, i: int, n: int)
    requires
        segments_wf(segs, len),
        len <= usize::MAX,
        0 <= i < segs.len(),
        segs[i].free,
        0 < n <= segs[i].len,
    ensures
        segments_wf(allocated(segs, i, n), len),
        forall|l: int| !#[trigger] is_used(segs, segs[i].pos as int, l),
        forall|p: int, l: int|
            #[trigger] is_used(allocated(segs, i, n), p, l) <==> (is_used(segs, p, l) || (p == segs[i].pos && l == n)),
{
    assert forall|l: int| !#[trigger] is_used(segs, segs[i].pos as int, l) by {
        if is_used(segs, segs[i].pos as int, l) {
            let j = choose|j: int| 0 <= j < segs.len() && (#[trigger] segs[j]).pos == segs[i].pos && segs[j].len == l && !segs[j].free;
            lemma_segment_unique(segs, len, segs[i].pos as int, i, j);
        }
    }
    if n == segs[i].len {
        lemma_allocated_exact(segs, len, i, n);
    } else {
        lemma_allocated_split_tile(segs, len, i, n);
        lemma_allocated_split_used(segs, i, n);
    }
}

/// The segments after the buffer grew to `new_len` elements
pub open spec fn grown(segs: Seq<MultiBufferSegment>, len: int, new_len: int) -> Seq<MultiBufferSegment> {
    if segs.last().free {
        segs.update(
            segs.len() - 1,
            MultiBufferSegment { free: true, pos: segs.last().pos, len: (segs.last().len + new_len - len) as usize },
        )
    } else {
        segs.push(MultiBufferSegment { free: true, pos: len as usize, len: (new_len - len) as usize })
    }
}

/// Growing the buffer extends or adds a free segment at its end and keeps the used segments
#[verifier::spinoff_prover]
pub proof fn lemma_grown(segs: Seq<MultiBufferSegment>, len: int, new_len: int)
    requires
        segments_wf(segs, len),
        len < new_len <= usize::MAX,
    ensures
        segments_wf(grown(segs, len, new_len), new_len),
        grown(segs, len, new_len).len() >= segs.len(),
        forall|j: int| 0 <= j < segs.len() - 1 ==> #[trigger] grown(segs, len, new_len)[j] == segs[j],
        grown(segs, len, new_len).last().free,
        grown(segs, len, new_len).last().len >= new_len - len,
        grown(segs, len, new_len).len() > segs.len() ==> grown(segs, len, new_len)[segs.len() - 1] == segs.last(),
        forall|p: int, l: int| #[trigger] is_used(grown(segs, len, new_len), p, l) <==> is_used(segs, p, l),
{
    let t = grown(segs, len, new_len);
    lemma_segment_in_buffer(segs, len, segs.len() - 1);
    assert forall|j: int| 0 <= j < t.len() - 1 implies #[trigger] t[j].pos + t[j].len == t[j + 1].pos by {
        if j < segs.len() - 1 {
            assert(segs[j].pos + segs[j].len == segs[j + 1].pos);
        }
    }
    assert forall|j: int| 0 <= j < t.len() - 1 implies !(#[trigger] t[j].free && t[j + 1].free) by {
        if j < segs.len() - 1 {
            assert(!(segs[j].free && segs[j + 1].free));
        }
    }
    assert forall|p: int, l: int| #[trigger] is_used(t, p, l) <==> is_used(segs, p, l) by {
        if is_used(t, p, l) {
            let j = choose|j: int| 0 <= j < t.len() && (#[trigger] t[j]).pos == p && t[j].len == l && !t[j].free;
            assert(segs[j] == t[j]);
        }
        if is_used(segs, p, l) {
            let j = choose|j: int| 0 <= j < segs.len() && (#[trigger] segs[j]).pos == p && segs[j].len == l && !segs[j].free;
            assert(t[j] == segs[j]);
        }
    }
}

/// Give the beginning of the free segment `i` to an object of `n` elements
fn take_free_segment(segments: &mut Vec<MultiBufferSegment>, i: usize, n: usize, Ghost(len): Ghost<int>)
    requires
        segments_wf(old(segments)@, len),
        len <= usize::MAX,
        i < old(segments)@.len(),
        old(segments)@[i as int].free,
        0 < n <= old(segments)@[i as int].len,
    ensures
        final(segments)@ == allocated(old(segments)@, i as int, n as int),
{
    let seg = segments[i];
    let count = segments.len();
    proof {
        lemma_segment_in_buffer(segments@, len, i as int);
    }
    assert(seg.pos + seg.len <= len);
    segments.set(i, MultiBufferSegment { free: false, pos: seg.pos, len: n });
    // Split the segment if necessary
    if seg.len > n {
        let next_pos = seg.pos + n;
        let rest = seg.len - n;
        let at = i + 1;
        segments.insert(at, MultiBufferSegment { free: true, pos: next_pos, len: rest });
    }
    assert(segments@ =~= allocated(old(segments)@, i as int, n as int));
}

/// Free the used segment `i`, merging it with the free segments around it
#[verifier::spinoff_prover]
#[verifier::rlimit(60)]
fn free_segment(segments: &mut Vec<MultiBufferSegment>, i: usize, Ghost(len): Ghost<int>)
    requires
        segments_wf(old(segments)@, len),
        len <= usize::MAX,
        i < old(segments)@.len(),
        !old(segments)@[i as int].free,
    ensures
        segments_wf(final(segments)@, len),
        forall|p: int, l: int|
            #[trigger] is_used(final(segments)@, p, l) <==> (is_used(old(segments)@, p, l) && p != old(segments)@[i as int].pos),
{
    let ghost segs0 = segments@;
    let mut i = i;
    let seg = segments[i];
    segments.set(i, MultiBufferSegment { free: true, pos: seg.pos, len: seg.len });
    proof {
        assert(segments@ == segs0.update(i as int, freed(segs0[i as int])));
        lemma_free_segment(segs0, len, i as int);
    }
    let ghost segs1 = segments@;
    assert(no_adjacent_free_except(segs1, i as int));
    // Merge with the segment before if possible
    if i > 0 {
        if segments[i - 1].free {
            let prev = segments[i - 1];
            proof {
                lemma_segment_in_buffer(segs1, len, i as int);
                lemma_merge_free(segs1, len, i as int - 1);
            }
            segments.set(i - 1, MultiBufferSegment { free: prev.free, pos: prev.pos, len: prev.len + seg.len });
            segments.remove(i);
            assert(segments@ =~= merged(segs1, i as int - 1));
            proof {
                if i >= 2 {
                    assert(!segs0[i - 2].free);
                }
            }
            i = i - 1;
        }
    }
    let ghost segs2 = segments@;
    assert(no_adjacent_free_except(segs2, i as int));
    assert(i == 0 || !segs2[i - 1].free);
    // Merge with the segment after if possible
    if i < segments.len() - 1 {
        if segments[i + 1].free {
            let cur = segments[i];
            let next = segments[i + 1];
            proof {
                lemma_segment_in_buffer(segs2, len, i as int + 1);
                lemma_merge_free(segs2, len, i as int);
            }
            segments.set(i, MultiBufferSegment { free: cur.free, pos: cur.pos, len: cur.len + next.len });
            segments.remove(i + 1);
            assert(segments@ =~= merged(segs2, i as int));
        }
    }
}

/// Where each object of the buffer is, and how the buffer is split into segments
pub struct MultiBuffer {
    objects: HashMap<u64, usize>,
    segments: Vec<MultiBufferSegment>,
    len: usize,
}

impl MultiBuffer {
    /// The segments tile the buffer and each used segment holds one object
    pub closed spec fn wf(&self) -> bool {
        &&& segments_wf(self.segments@, self.len as int)
        &&& objects_wf(self.objects@, self.segments@)
        &&& vstd::std_specs::hash::obeys_key_model::<u64>()
    }

    /// Where each object is: its first element and its number of elements
    pub closed spec fn allocations(&self) -> Map<u64, (int, int)> {
        allocations_of(self.objects@, self.segments@)
    }

    /// Number of elements of the buffer
    pub closed spec fn spec_capacity(&self) -> int {
        self.len as int
    }

    /// Create a new `MultiBuffer` with enough capacity for `initial_capacity` elements
    pub fn with_capacity(initial_capacity: usize) -> (b: MultiBuffer)
        requires
            initial_capacity > 0,
        ensures
            b.wf(),
            b.spec_capacity() == initial_capacity,
            b.allocations() == Map::<u64, (int, int)>::empty(),
    {
        let mut segments: Vec<MultiBufferSegment> = Vec::new();
        segments.push(MultiBufferSegment { free: true, pos: 0, len: initial_capacity });
        let b = MultiBuffer { objects: HashMap::new(), segments, len: initial_capacity };
        assert(b.allocations() =~= Map::<u64, (int, int)>::empty());
        b
    }

    /// Number of elements of the buffer
    pub fn capacity(&self) -> (c: usize)
        ensures
            c == self.spec_capacity(),
    {
        self.len
    }

    /// Remove object `object` from the buffer
    pub fn remove(&mut self, object: &u64)
        requires
            old(self).wf(),
        ensures
            final(self).wf(),
            final(self).spec_capacity() == old(self).spec_capacity(),
            final(self).allocations() == old(self).allocations().remove(*object),
    {
        let ghost objs0 = self.objects@;
        let ghost segs0 = self.segments@;
        let ghost len = self.len as int;
        match self.objects.remove(object) {
            None => {
                assert(self.objects@ =~= objs0);
                assert(self.allocations() =~= old(self).allocations().remove(*object));
            },
            Some(start_position) => {
                let ghost key = *object;
                assert(objs0.contains_key(key) && objs0[key] == start_position);
                let ghost w = choose|w: int| 0 <= w < segs0.len() && #[trigger] segs0[w].pos == objs0[key] && !segs0[w].free;
                let mut i: usize = 0;
                while i < self.segments.len() && self.segments[i].pos != start_position
                    invariant
                        self.segments@ == segs0,
                        0 <= w < segs0.len(),
                        segs0[w].pos == start_position,
                        i <= w,
                    decreases segs0.len() - i,
                {
                    i = i + 1;
                }
                proof { lemma_segment_unique(segs0, len, start_position as int, i as int, w); }
                free_segment(&mut self.segments, i, Ghost(len));
                let ghost segs3 = self.segments@;
                proof {
                    lemma_transfer_remove_insert(objs0, segs0, len, self.objects@, segs3, len, Some(key), None);
                }
            },
        }
    }

    /// Grow the buffer to `new_len` elements
    fn reallocate(&mut self, new_len: usize)
        requires
            old(self).wf(),
            old(self).spec_capacity() < new_len,
        ensures
            final(self).wf(),
            final(self).spec_capacity() == new_len,
            final(self).objects@ == old(self).objects@,
            final(self).segments@ == grown(old(self).segments@, old(self).spec_capacity(), new_len as int),
            final(self).allocations() == old(self).allocations(),
    {
        let ghost segs0 = self.segments@;
        let ghost len0 = self.len as int;
        proof {
            lemma_grown(segs0, len0, new_len as int);
        }
        let last_index = self.segments.len() - 1;
        let last = self.segments[last_index];
        if last.free {
            self.segments.set(last_index, MultiBufferSegment { free: true, pos: last.pos, len: last.len + (new_len - self.len) });
        } else {
            self.segments.push(MultiBufferSegment { free: true, pos: self.len, len: new_len - self.len });
        }
        self.len = new_len;
        assert(self.segments@ =~= grown(segs0, len0, new_len as int));
        proof {
            lemma_transfer_same(self.objects@, segs0, len0, self.segments@, new_len as int);
        }
    }

    /// The first free segment where `data_len` elements fit, after growing the buffer if there is none
    #[verifier::spinoff_prover]
    fn find_insert_position(&mut self, data_len: usize) -> (r: (usize, Option<usize>))
        requires
            old(self).wf(),
            data_len > 0,
            !has_fit(old(self).allocations(), old(self).spec_capacity(), data_len as int)
                ==> old(self).spec_capacity() + data_len <= usize::MAX && 2 * old(self).spec_capacity() <= usize::MAX,
        ensures
            final(self).wf(),
            final(self).objects@ == old(self).objects@,
            final(self).allocations() == old(self).allocations(),
            ({
                let fits = has_fit(old(self).allocations(), old(self).spec_capacity(), data_len as int);
                &&& final(self).spec_capacity() == if fits {
                    old(self).spec_capacity()
                } else {
                    grown_len(old(self).spec_capacity(), data_len as int)
                }
                &&& r.1 == if fits { None } else { Some(final(self).spec_capacity() as usize) }
            }),
            r.0 < final(self).segments@.len(),
            final(self).segments@[r.0 as int].free,
            final(self).segments@[r.0 as int].len >= data_len,
            is_first_fit(final(self).allocations(), final(self).spec_capacity(), data_len as int, final(self).segments@[r.0 as int].pos as int),
    {
        let ghost len1 = self.len as int;
        let mut i: usize = 0;
        while i < self.segments.len() && !(self.segments[i].len >= data_len && self.segments[i].free)
            invariant
                self.wf(),
                self.objects@ == old(self).objects@,
                self.segments@ == old(self).segments@,
                self.len == len1,
                i <= self.segments@.len(),
                forall|j: int| 0 <= j < i ==> !(#[trigger] self.segments@[j].free && self.segments@[j].len >= data_len),
            decreases self.segments@.len() - i,
        {
            i = i + 1;
        }
        let mut reallocate_to: Option<usize> = None;
        if i == self.segments.len() {
            proof {
                lemma_no_fit(self.objects@, self.segments@, len1, data_len as int);
            }
            // Reallocate at least twice the size
            let a = self.len + data_len;
            let b = 2 * self.len;
            let new_len = if a >= b { a } else { b };
            let ghost segs1 = self.segments@;
            self.reallocate(new_len);
            proof {
                lemma_grown(segs1, len1, new_len as int);
                assert forall|j: int| 0 <= j < self.segments@.len() - 1 implies !(#[trigger] self.segments@[j].free && self.segments@[j].len >= data_len) by {
                    if j < segs1.len() - 1 {
                        assert(self.segments@[j] == segs1[j]);
                    } else {
                        assert(self.segments@[j] == segs1.last());
                    }
                }
            }
            reallocate_to = Some(new_len);
            i = self.segments.len() - 1;
        } else {
            proof {
                lemma_first_fit(self.objects@, self.segments@, len1, i as int, data_len as int);
            }
        }
        proof {
            lemma_first_fit(self.objects@, self.segments@, self.len as int, i as int, data_len as int);
        }
        (i, reallocate_to)
    }

    /// Put the data of object `object`, of `data_len` elements, in the buffer:
    /// the object leaves its previous place, then takes the first free place where
    /// it fits, the buffer growing to at least twice its length when there is none.
    pub fn update(&mut self, object: u64, data_len: usize) -> (u: BufferUpdate)
        requires
            old(self).wf(),
            data_len > 0,
            !has_fit(old(self).allocations().remove(object), old(self).spec_capacity(), data_len as int)
                ==> old(self).spec_capacity() + data_len <= usize::MAX && 2 * old(self).spec_capacity() <= usize::MAX,
        ensures
            final(self).wf(),
            ({
                let before = old(self).allocations().remove(object);
                let fits = has_fit(before, old(self).spec_capacity(), data_len as int);
                &&& final(self).spec_capacity() == if fits {
                    old(self).spec_capacity()
                } else {
                    grown_len(old(self).spec_capacity(), data_len as int)
                }
                &&& u.reallocate_to == if fits { None } else { Some(final(self).spec_capacity() as usize) }
                &&& is_first_fit(before, final(self).spec_capacity(), data_len as int, u.position as int)
                &&& final(self).allocations() == before.insert(object, (u.position as int, data_len as int))
            }),
    {
        // Remove the object if it's already in the buffer
        self.remove(&object);
        let ghost objs1 = self.objects@;
        let ghost before = self.allocations();
        let ghost len1 = self.len as int;
        // Try to find the position to insert, reallocating if necessary
        let (i, reallocate_to) = self.find_insert_position(data_len);
        let ghost segs2 = self.segments@;
        let ghost len2 = self.len as int;
        let pos = self.segments[i].pos;
        proof {
            lemma_allocated(segs2, len2, i as int, data_len as int);
        }
        take_free_segment(&mut self.segments, i, data_len, Ghost(len2));
        // Update the map
        self.objects.insert(object, pos);
        proof {
            assert(!objs1.contains_key(object)) by {
                assert(!before.dom().contains(object));
            }
            lemma_transfer_remove_insert(objs1, segs2, len2, self.objects@, self.segments@, len2, None, Some((object, pos, data_len as int)));
        }
        BufferUpdate { reallocate_to, position: pos }
    }

    /// Get the position and the length of object `object` in the buffer
    pub fn get_pos_len(&self, object: &u64) -> (r: Option<(usize, usize)>)
        requires
            self.wf(),
        ensures
            r is Some <==> self.allocations().dom().contains(*object),
            r matches Some((p, l)) ==> self.allocations()[*object] == (p as int, l as int),
    {
        match self.objects.get(object) {
            None => None,
            Some(pos) => {
                let mut i: usize = 0;
                while i < self.segments.len()
                    invariant
                        self.wf(),
                        self.objects@.contains_key(*object),
                        self.objects@[*object] == *pos,
                        i <= self.segments@.len(),
                        forall|j: int| 0 <= j < i ==> #[trigger] self.segments@[j].pos != *pos,
                    decreases self.segments@.len() - i,
                {
                    if self.segments[i].pos == *pos {
                        proof {
                            let w = lemma_allocation_at(self.objects@, self.segments@, self.len as int, *object);
                            lemma_segment_unique(self.segments@, self.len as int, *pos as int, i as int, w);
                        }
                        return Some((self.segments[i].pos, self.segments[i].len));
                    }
                    i = i + 1;
                }
                proof {
                    let w = lemma_allocation_at(self.objects@, self.segments@, self.len as int, *object);
                }
                None
            },
        }
    }

    /// Get all the keys, in no particular order
    pub fn keys(&self) -> (v: Vec<u64>)
        requires
            self.wf(),
        ensures
            v@.to_set() == self.allocations().dom(),
            v@.no_duplicates(),
    {
        let mut v: Vec<u64> = Vec::new();
        let ghost all = vstd::std_specs::hash::spec_keys_iter(&self.objects).remaining();
        for k in it: self.objects.keys()
            invariant
                it.seq() == all,
                v@ == it.seq().take(it.index() as int).map_values(|r: &u64| *r),
        {
            v.push(*k);
        }
        assert(v@ =~= all.unref());
        assert(self.allocations().dom() =~= self.objects@.dom());
        v
    }
}

} // verus!

verus! {

/// The objects of a buffer occupy disjoint, non-empty ranges inside the buffer
pub proof fn law_allocations_disjoint(b: &MultiBuffer, k1: u64, k2: u64)
    requires
        b.wf(),
        b.allocations().dom().contains(k1),
        b.allocations().dom().contains(k2),
    ensures
        0 <= b.allocations()[k1].0,
        b.allocations()[k1].1 > 0,
        b.allocations()[k1].0 + b.allocations()[k1].1 <= b.spec_capacity(),
        k1 != k2 ==> b.allocations()[k1].0 + b.allocations()[k1].1 <= b.allocations()[k2].0
            || b.allocations()[k2].0 + b.allocations()[k2].1 <= b.allocations()[k1].0,
{
    b.lemma_allocations_disjoint(k1, k2);
}

impl MultiBuffer {
    proof fn lemma_allocations_disjoint(&self, k1: u64, k2: u64)
        requires
            self.wf(),
            self.allocations().dom().contains(k1),
            self.allocations().dom().contains(k2),
        ensures
            0 <= self.allocations()[k1].0,
            self.allocations()[k1].1 > 0,
            self.allocations()[k1].0 + self.allocations()[k1].1 <= self.spec_capacity(),
            k1 != k2 ==> self.allocations()[k1].0 + self.allocations()[k1].1 <= self.allocations()[k2].0
                || self.allocations()[k2].0 + self.allocations()[k2].1 <= self.allocations()[k1].0,
    {
        let segs = self.segments@;
        let len = self.len as int;
        let i = lemma_allocation_at(self.objects@, segs, len, k1);
        let j = lemma_allocation_at(self.objects@, segs, len, k2);
        lemma_segment_in_buffer(segs, len, i);
        if k1 != k2 {
            assert(i != j);
            if i < j {
                lemma_segments_ordered(segs, len, i, j);
            } else {
                lemma_segments_ordered(segs, len, j, i);
            }
        }
    }
}

} // verus!
