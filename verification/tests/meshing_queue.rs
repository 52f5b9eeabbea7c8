use voxel_rs::chunk::ChunkPos;
use voxel_rs::meshing_queue::MeshingQueue;

fn at(x: i64) -> ChunkPos {
    ChunkPos { px: x, py: 0, pz: 0 }
}

#[test]
fn chunks_come_out_in_queuing_order() {
    let mut q = MeshingQueue::new();
    assert!(!q.has_pending());
    q.enqueue(at(1), "a");
    q.enqueue(at(2), "b");
    q.enqueue(at(3), "c");
    q.dequeue(at(2));
    assert!(q.has_pending());
    assert_eq!(q.next(), Some((at(1), "a")));
    assert_eq!(q.next(), Some((at(3), "c")));
    assert_eq!(q.next(), None);
    assert!(!q.has_pending());
}

#[test]
fn queuing_again_replaces_the_chunk() {
    let mut q = MeshingQueue::new();
    q.enqueue(at(5), 1);
    q.enqueue(at(6), 2);
    q.enqueue(at(5), 3);
    assert_eq!(q.next(), Some((at(5), 3)));
    assert_eq!(q.next(), Some((at(6), 2)));
    assert_eq!(q.next(), None);
    q.dequeue(at(7));
    assert_eq!(q.next(), None);
}
