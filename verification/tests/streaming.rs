use tilestream::cache::{Completion, StreamingCache, TilePayload, TileUnit};
use tilestream::cell_index::CellIndex;
use tilestream::coordinates::{
    cell_input_ok, cell_of, tile_input_ok, tile_of, ADTPosition, ChunkPosition, WorldPosition,
    ADT_SIZE_FP, CHUNK_LEEWAY_FP, CHUNK_SIZE_FP, MAP_ORIGIN_FP,
};
use tilestream::materials::scale_alpha;
use tilestream::window::{get_adts_in_range, window_fits_ok};

fn pos(x: i64, y: i64) -> WorldPosition {
    WorldPosition { x, y, z: 0 }
}

fn adt(x: u32, y: u32) -> ADTPosition {
    ADTPosition { x, y }
}

fn payload(units: Vec<TileUnit>) -> TilePayload {
    TilePayload { units }
}

#[test]
fn tile_of_center() {
    // The world origin sits in the grid's center tile (32, 32).
    let t = tile_of(&pos(0, 0));
    assert_eq!(t, adt(32, 32));
}

#[test]
fn tile_of_swaps_axes() {
    // The output x comes from the source y axis and vice versa.
    let t = tile_of(&pos(MAP_ORIGIN_FP, 0));
    assert_eq!(t, adt(32, 0));
    let t2 = tile_of(&pos(0, MAP_ORIGIN_FP - ADT_SIZE_FP));
    assert_eq!(t2, adt(1, 32));
}

#[test]
fn tile_input_bounds() {
    assert!(tile_input_ok(&pos(0, 0)));
    assert!(tile_input_ok(&pos(MAP_ORIGIN_FP, MAP_ORIGIN_FP)));
    assert!(!tile_input_ok(&pos(MAP_ORIGIN_FP + 1, 0)));
    assert!(!tile_input_ok(&pos(0, -MAP_ORIGIN_FP)));
}

#[test]
fn cell_of_positive_and_negative() {
    let c = cell_of(&pos(350_000, -350_000));
    assert_eq!(c, ChunkPosition { x: 3, y: -3 });
    let zero = cell_of(&pos(0, 0));
    assert_eq!(zero, ChunkPosition { x: 0, y: 0 });
}

#[test]
fn cell_of_boundary_is_stable_under_jitter() {
    // A coordinate exactly on a cell boundary keeps its cell under any
    // jitter up to the leeway, on either side and for either sign.
    for k in [-5i64, -1, 0, 1, 5] {
        let exact = k * CHUNK_SIZE_FP;
        for d in [-CHUNK_LEEWAY_FP, -1, 0, 1, CHUNK_LEEWAY_FP] {
            let c = cell_of(&pos(exact + d, exact + d));
            assert_eq!(c.x as i64, k, "axis flickered at k={k} d={d}");
            assert_eq!(c.y as i64, k);
        }
    }
}

#[test]
fn cell_input_bounds() {
    assert!(cell_input_ok(&pos(102_400_000, -102_400_000)));
    assert!(!cell_input_ok(&pos(102_400_001, 0)));
}

#[test]
fn window_radius_zero_is_center() {
    let w = get_adts_in_range(adt(3, 4), 0);
    assert_eq!(w, vec![adt(3, 4)]);
}

#[test]
fn window_size_is_radius_plus_one_squared() {
    let w = get_adts_in_range(adt(10, 10), 4);
    assert_eq!(w.len(), 25);
    for t in &w {
        assert!(8 <= t.x && t.x <= 12);
        assert!(8 <= t.y && t.y <= 12);
    }
    // Every coordinate occurs once.
    for i in 0..w.len() {
        for j in 0..i {
            assert_ne!(w[i], w[j]);
        }
    }
}

#[test]
fn window_odd_radius_is_asymmetric() {
    // radius 1 spans from the center to one tile past it on each axis.
    let w = get_adts_in_range(adt(10, 10), 1);
    assert_eq!(w.len(), 4);
    assert!(w.contains(&adt(10, 10)));
    assert!(w.contains(&adt(11, 11)));
    assert!(!w.contains(&adt(9, 10)));
}

#[test]
fn window_fits_rejects_underflow() {
    assert!(!window_fits_ok(&adt(1, 10), 4));
    assert!(window_fits_ok(&adt(2, 10), 4));
}

#[test]
fn reconcile_from_empty_makes_all_pending() {
    let mut cache = StreamingCache::new();
    let desired = vec![adt(5, 5), adt(5, 6), adt(6, 5)];
    let actions = cache.reconcile(&desired);
    assert!(actions.evicted.is_empty());
    assert_eq!(actions.requested, desired);
    for c in &desired {
        assert!(cache.is_pending(*c));
        assert!(!cache.is_resident(*c));
        assert!(!cache.is_failed(*c));
    }
    assert_eq!(cache.pending_count(), 3);
}

#[test]
fn reconcile_twice_is_idempotent() {
    let mut cache = StreamingCache::new();
    let desired = vec![adt(5, 5), adt(6, 6)];
    let first = cache.reconcile(&desired);
    assert_eq!(first.requested.len(), 2);
    let second = cache.reconcile(&desired);
    assert!(second.requested.is_empty(), "duplicate jobs were submitted");
    assert!(second.evicted.is_empty());
    assert_eq!(cache.pending_count(), 2);
}

#[test]
fn completion_success_makes_resident() {
    let mut cache = StreamingCache::new();
    let c = adt(5, 5);
    cache.reconcile(&vec![c]);
    cache.complete_one(c, Some(payload(Vec::new())));
    assert!(cache.is_resident(c));
    assert!(!cache.is_pending(c));
    assert_eq!(cache.pending_count(), 0);
}

#[test]
fn completion_failure_makes_failed() {
    let mut cache = StreamingCache::new();
    let c = adt(5, 5);
    cache.reconcile(&vec![c]);
    cache.complete_one(c, None);
    assert!(cache.is_failed(c));
    assert!(!cache.is_pending(c));
    assert!(!cache.is_resident(c));
}

#[test]
fn failed_tiles_are_not_retried() {
    let mut cache = StreamingCache::new();
    let c = adt(5, 5);
    cache.reconcile(&vec![c]);
    cache.complete_one(c, None);
    let actions = cache.reconcile(&vec![c]);
    assert!(actions.requested.is_empty(), "a failed coordinate was retried");
    assert!(cache.is_failed(c));
}

#[test]
fn poll_completions_integrates_batch() {
    let mut cache = StreamingCache::new();
    let a = adt(1, 1);
    let b = adt(2, 2);
    cache.reconcile(&vec![a, b]);
    cache.poll_completions(vec![
        Completion { coord: a, outcome: Some(payload(Vec::new())) },
        Completion { coord: b, outcome: None },
    ]);
    assert!(cache.is_resident(a));
    assert!(cache.is_failed(b));
    assert_eq!(cache.pending_count(), 0);
}

#[test]
fn evict_returns_exactly_owned_resources() {
    let mut cache = StreamingCache::new();
    let a = adt(1, 1);
    let b = adt(2, 2);
    cache.reconcile(&vec![a, b]);
    cache.complete_one(a, Some(payload(Vec::new())));
    cache.complete_one(b, Some(payload(Vec::new())));
    cache.attach_resources(a, vec![7, 8]);
    cache.attach_resources(b, vec![9]);
    let released = cache.evict(a);
    assert_eq!(released, vec![7, 8]);
    // The other tile and its resources are untouched.
    assert!(cache.is_resident(b));
    let released_b = cache.evict(b);
    assert_eq!(released_b, vec![9]);
}

#[test]
fn resident_and_pending_never_overlap() {
    let mut cache = StreamingCache::new();
    let a = adt(1, 1);
    let b = adt(2, 2);
    cache.reconcile(&vec![a, b]);
    cache.complete_one(a, Some(payload(Vec::new())));
    for c in [a, b] {
        assert!(!(cache.is_resident(c) && cache.is_pending(c)));
        assert!(!(cache.is_resident(c) && cache.is_failed(c)));
        assert!(!(cache.is_pending(c) && cache.is_failed(c)));
    }
}

#[test]
fn unwanted_pending_load_is_not_cancelled() {
    // A tile evicted from the window while its load is in flight keeps its
    // pending entry; the load completes, the tile becomes resident although
    // unwanted, and the next reconcile evicts it.
    let mut cache = StreamingCache::new();
    let old_tile = adt(5, 5);
    let new_tile = adt(9, 9);
    cache.reconcile(&vec![old_tile]);
    // The window moves on while the load is still running: the pending
    // entry stays (no cancellation) and the new tile is requested.
    let actions = cache.reconcile(&vec![new_tile]);
    assert_eq!(actions.requested, vec![new_tile]);
    assert!(actions.evicted.is_empty());
    assert!(cache.is_pending(old_tile));
    // The stale load finishes and is integrated as resident anyway.
    cache.complete_one(old_tile, Some(payload(Vec::new())));
    assert!(cache.is_resident(old_tile));
    // The next reconcile that does not want it evicts it again.
    let actions = cache.reconcile(&vec![new_tile]);
    assert_eq!(actions.evicted.len(), 1);
    assert_eq!(actions.evicted[0].0, old_tile);
    assert!(!cache.is_resident(old_tile));
}

#[test]
fn end_to_end_streaming_cycle() {
    let mut cache = StreamingCache::new();
    let first = adt(5, 5);
    let second = adt(6, 6);

    let actions = cache.reconcile(&vec![first]);
    assert_eq!(actions.requested, vec![first]);
    assert_eq!(cache.pending_count(), 1);
    assert!(!cache.is_resident(first));

    cache.complete_one(first, Some(payload(Vec::new())));
    assert!(cache.is_resident(first));
    assert_eq!(cache.pending_count(), 0);

    let actions = cache.reconcile(&vec![second]);
    assert_eq!(actions.evicted.len(), 1);
    assert_eq!(actions.evicted[0].0, first);
    assert!(!cache.is_resident(first));
    assert!(cache.is_pending(second));
    assert_eq!(actions.requested, vec![second]);
}

#[test]
fn all_known_guides_backpressure() {
    let mut cache = StreamingCache::new();
    let desired = vec![adt(5, 5)];
    assert!(!cache.all_known(&desired));
    cache.reconcile(&desired);
    assert!(cache.all_known(&desired));
    assert!(!cache.all_known(&vec![adt(5, 5), adt(6, 6)]));
}

#[test]
fn scale_alpha_widens_range() {
    let data = vec![0u8, 1, 7, 15];
    assert_eq!(scale_alpha(&data), vec![0u8, 17, 119, 255]);
}

#[test]
fn cell_index_places_units() {
    let mut cache = StreamingCache::new();
    let t = adt(5, 5);
    cache.reconcile(&vec![t]);
    cache.complete_one(
        t,
        Some(payload(vec![
            TileUnit { id: 40, position: pos(350_000, 350_000) },
            TileUnit { id: 41, position: pos(-350_000, 0) },
        ])),
    );
    let mut index = CellIndex::new();
    index.rebuild(&cache.resident_tiles());
    let hit = index.lookup(ChunkPosition { x: 3, y: 3 }).expect("cell should be occupied");
    assert_eq!(hit.tile, t);
    assert_eq!(hit.unit.id, 40);
    let hit2 = index.lookup(ChunkPosition { x: -3, y: 0 }).expect("cell should be occupied");
    assert_eq!(hit2.unit.id, 41);
    assert!(index.lookup(ChunkPosition { x: 9, y: 9 }).is_none());
}

#[test]
fn cell_index_collision_first_writer_wins() {
    let mut cache = StreamingCache::new();
    let first = adt(5, 5);
    let second = adt(6, 6);
    cache.reconcile(&vec![first, second]);
    // Both tiles carry a unit at the same cell; the tile that became known
    // first wins the cell.
    let spot = pos(350_000, 350_000);
    cache.complete_one(first, Some(payload(vec![TileUnit { id: 1, position: spot }])));
    cache.complete_one(second, Some(payload(vec![TileUnit { id: 2, position: spot }])));
    let mut index = CellIndex::new();
    index.rebuild(&cache.resident_tiles());
    let hit = index.lookup(ChunkPosition { x: 3, y: 3 }).expect("cell should be occupied");
    assert_eq!(hit.tile, first);
    assert_eq!(hit.unit.id, 1);
}

#[test]
fn cell_index_rebuild_replaces_old_contents() {
    let mut cache = StreamingCache::new();
    let t = adt(5, 5);
    cache.reconcile(&vec![t]);
    cache.complete_one(t, Some(payload(vec![TileUnit { id: 1, position: pos(0, 0) }])));
    let mut index = CellIndex::new();
    index.rebuild(&cache.resident_tiles());
    assert!(index.lookup(ChunkPosition { x: 0, y: 0 }).is_some());
    // The tile is evicted; the next rebuild drops its units.
    cache.evict(t);
    index.rebuild(&cache.resident_tiles());
    assert!(index.lookup(ChunkPosition { x: 0, y: 0 }).is_none());
}
