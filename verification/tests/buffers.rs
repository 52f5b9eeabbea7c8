use voxel_rs::buffers::MultiBuffer;

#[test]
fn test_multi_buffer() {
    // Create initial buffer
    let mut multi_buffer = MultiBuffer::with_capacity(10);

    let seg1 = [2u16, 3u16, 4u16];
    let seg2 = [5u16, 6u16, 7u16, 8u16];
    let seg3 = [9u16];

    // Single insert
    multi_buffer.update(0u64, seg1.len());
    multi_buffer.remove(&0u64);
    assert_eq!(multi_buffer.get_pos_len(&0), None);

    // Double insert
    multi_buffer.update(1u64, seg2.len());
    assert_eq!(multi_buffer.get_pos_len(&1), Some((0, 4)));
    multi_buffer.update(2u64, seg2.len());
    assert_eq!(multi_buffer.get_pos_len(&2), Some((4, 4)));
    multi_buffer.remove(&1u64);
    assert_eq!(multi_buffer.get_pos_len(&1), None);
    assert_eq!(multi_buffer.get_pos_len(&2), Some((4, 4)));

    // Triple insert
    multi_buffer.update(0u64, seg1.len());
    assert_eq!(multi_buffer.get_pos_len(&0), Some((0, 3)));
    multi_buffer.update(1u64, seg3.len());
    assert_eq!(multi_buffer.get_pos_len(&1), Some((3, 1)));
    // Now we have 8 items

    // Reallocate
    multi_buffer.update(3u64, seg2.len());
    assert_eq!(multi_buffer.get_pos_len(&3), Some((8, 4)));
}

#[test]
fn multi_buffer_update_reports_reallocation() {
    let mut b = MultiBuffer::with_capacity(4);
    let u = b.update(7, 3);
    assert_eq!(u.reallocate_to, None);
    assert_eq!(u.position, 0);
    assert_eq!(b.capacity(), 4);
    // no free run of 3 elements is left: the buffer grows to twice its length
    let u = b.update(8, 3);
    assert_eq!(u.reallocate_to, Some(8));
    assert_eq!(u.position, 3);
    assert_eq!(b.capacity(), 8);
    assert_eq!(b.get_pos_len(&8), Some((3, 3)));
    // growing by more than the length itself
    let u = b.update(9, 20);
    assert_eq!(u.reallocate_to, Some(28));
    assert_eq!(u.position, 6);
    assert_eq!(b.get_pos_len(&7), Some((0, 3)));
}

#[test]
fn multi_buffer_update_moves_existing_object() {
    let mut b = MultiBuffer::with_capacity(10);
    b.update(1, 2);
    b.update(2, 2);
    // object 1 leaves its place, then takes the first place where 5 elements fit
    let u = b.update(1, 5);
    assert_eq!(u.position, 4);
    assert_eq!(b.get_pos_len(&1), Some((4, 5)));
    // the freed place at the start is reused first
    let u = b.update(3, 2);
    assert_eq!(u.position, 0);
    let mut keys = b.keys();
    keys.sort();
    assert_eq!(keys, vec![1, 2, 3]);
}

#[test]
fn multi_buffer_remove_merges_free_space() {
    let mut b = MultiBuffer::with_capacity(6);
    b.update(1, 2);
    b.update(2, 2);
    b.update(3, 2);
    b.remove(&1);
    b.remove(&3);
    b.remove(&2);
    // all the buffer is one free run again
    let u = b.update(4, 6);
    assert_eq!(u.reallocate_to, None);
    assert_eq!(u.position, 0);
    assert_eq!(b.keys(), vec![4]);
    // removing an absent object changes nothing
    b.remove(&10);
    assert_eq!(b.get_pos_len(&4), Some((0, 6)));
}
