use voxel_rs::chunk::ChunkPos;
use voxel_rs::player::{get_close_chunks, CloseChunks, RenderDistance, RenderDistanceIterator};

#[test]
fn render_distance_default_and_visibility() {
    let rd = RenderDistance::default();
    assert_eq!(rd, RenderDistance { x_max: 1, x_min: 1, y_max: 1, y_min: 1, z_max: 1, z_min: 1 });
    let p = ChunkPos { px: 0, py: 0, pz: 0 };
    assert!(rd.is_chunk_visible(p, ChunkPos { px: 1, py: -1, pz: 1 }));
    assert!(!rd.is_chunk_visible(p, ChunkPos { px: 2, py: 0, pz: 0 }));
    assert!(!rd.is_chunk_visible(p, ChunkPos { px: 0, py: -2, pz: 0 }));
}

#[test]
fn iterate_around_player_order() {
    let rd = RenderDistance { x_max: 1, x_min: 0, y_max: 0, y_min: 0, z_max: 0, z_min: 1 };
    let v = rd.iterate_around_player(ChunkPos { px: 10, py: 20, pz: 30 });
    assert_eq!(
        v,
        vec![
            ChunkPos { px: 10, py: 20, pz: 29 },
            ChunkPos { px: 10, py: 20, pz: 30 },
            ChunkPos { px: 11, py: 20, pz: 29 },
            ChunkPos { px: 11, py: 20, pz: 30 },
        ]
    );
    assert_eq!(RenderDistance::default().iterate_around_player(ChunkPos { px: 0, py: 0, pz: 0 }).len(), 27);
}

#[test]
fn iterator_stays_exhausted() {
    let rd = RenderDistance { x_max: 0, x_min: 0, y_max: 0, y_min: 0, z_max: 0, z_min: 0 };
    let mut it = RenderDistanceIterator::new(rd, ChunkPos { px: 1, py: 1, pz: 1 });
    assert_eq!(it.next(), Some(ChunkPos { px: 1, py: 1, pz: 1 }));
    assert_eq!(it.next(), None);
    assert_eq!(it.next(), None);
}

#[test]
fn close_chunks_sorted_by_distance() {
    let v = get_close_chunks(&RenderDistance::default());
    assert_eq!(v.len(), 27);
    assert_eq!(v[0], ChunkPos { px: 0, py: 0, pz: 0 });
    // the six face neighbors come next, in enumeration order
    assert_eq!(v[1], ChunkPos { px: -1, py: 0, pz: 0 });
    assert_eq!(v[2], ChunkPos { px: 0, py: -1, pz: 0 });
    assert_eq!(v[26], ChunkPos { px: 1, py: 1, pz: 1 });
    let origin = ChunkPos { px: 0, py: 0, pz: 0 };
    for w in v.windows(2) {
        assert!(origin.squared_euclidian_distance(w[0]) <= origin.squared_euclidian_distance(w[1]));
    }
}

#[test]
fn close_chunks_update() {
    let mut c = CloseChunks::new(&RenderDistance::default());
    let before = c.get_close_chunks().clone();
    c.update(&RenderDistance::default());
    assert_eq!(*c.get_close_chunks(), before);
    c.update(&RenderDistance { x_max: 0, x_min: 0, y_max: 0, y_min: 0, z_max: 0, z_min: 0 });
    assert_eq!(*c.get_close_chunks(), vec![ChunkPos { px: 0, py: 0, pz: 0 }]);
}

#[test]
fn close_chunks_update_matches_new() {
    let small = RenderDistance { x_max: 1, x_min: 1, y_max: 1, y_min: 1, z_max: 1, z_min: 1 };
    let big = RenderDistance { x_max: 2, x_min: 1, y_max: 1, y_min: 2, z_max: 2, z_min: 2 };
    let mut c = CloseChunks::new(&small);
    c.update(&big);
    let fresh = CloseChunks::new(&big);
    assert_eq!(c.get_close_chunks(), fresh.get_close_chunks());
    let once = c.get_close_chunks().clone();
    c.update(&big);
    assert_eq!(c.get_close_chunks(), &once);
}
