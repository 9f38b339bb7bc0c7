use loddy::d2::{
    setup, ChunkId, ChunkRequest, ChunkVisibility, IVec2, InvalidSlots, Lod2dTree,
};

fn current_ids(tree: &Lod2dTree) -> Vec<Option<ChunkId>> {
    let glen = 2 * (tree.extent as usize) + 1;
    let le = tree.lod_extent as usize;
    let mut out = Vec::new();
    let mut r = 0;
    while r < glen {
        let mut c = 0;
        while c < glen {
            out.push(*tree.map.get(r).get(c).0.get(le));
            c += 1;
        }
        r += 1;
    }
    out
}

fn cheb(x: i32, y: i32) -> u32 {
    x.abs().max(y.abs()) as u32
}

#[test]
fn spawn_fills_every_slot() {
    // after the spawn pass, every slot's current index holds a chunk, with
    // the coordinate of its cell and the level of its distance
    let mut tree = Lod2dTree::default();
    let mut invalid = InvalidSlots(Vec::new());
    let despawned = tree.update_lod(&mut invalid);
    assert!(despawned.is_empty());
    let reqs = tree.spawn_chunks();
    assert_eq!(reqs.len(), 25);
    for rq in &reqs {
        assert_eq!(rq.chunk.lod, cheb(rq.chunk.coord.x, rq.chunk.coord.y));
    }
    let mut coords: Vec<(i32, i32)> = reqs.iter().map(|r| (r.chunk.coord.x, r.chunk.coord.y)).collect();
    coords.sort();
    coords.dedup();
    assert_eq!(coords.len(), 25);
    for cur in current_ids(&tree) {
        assert!(cur.is_some());
    }
}

#[test]
fn scenario_three_step_move() {
    // a 5x5 window whose anchor walks from (0, 0) to (3, 0): three one-step
    // eviction batches, 15 fresh requests, and the center slot's new chunk
    // carries the anchor's coordinate
    let mut tree = Lod2dTree::default();
    let mut invalid = InvalidSlots(Vec::new());
    tree.update_lod(&mut invalid);
    let first = tree.spawn_chunks();
    assert_eq!(first.len(), 25);

    tree.set_anchor(IVec2 { x: 3, y: 0 });
    let despawned = tree.update_lod(&mut invalid);
    assert_eq!(despawned.len(), 15);
    // three batches, one evicted column each, in eviction order
    assert_eq!(
        despawned,
        vec![0, 5, 10, 15, 20, 1, 6, 11, 16, 21, 2, 7, 12, 17, 22]
    );

    let reqs = tree.spawn_chunks();
    // 15 placeholders for the newly exposed columns, plus rebuilds for the
    // slots whose level of detail changed
    let exposed: Vec<&ChunkRequest> = reqs.iter().filter(|r| r.chunk.coord.x >= 3).collect();
    assert_eq!(exposed.len(), 15);
    let center: Vec<&ChunkRequest> = reqs.iter().filter(|r| r.chunk.lod == 0).collect();
    assert_eq!(center.len(), 1);
    assert_eq!(center[0].chunk.coord, IVec2 { x: 3, y: 0 });
}

#[test]
fn unchanged_distance_is_not_invalidated() {
    // a slot whose Chebyshev distance does not change is never added to the
    // invalidation set; one whose distance changes is
    let mut tree = Lod2dTree::default();
    let mut invalid = InvalidSlots(Vec::new());
    tree.update_lod(&mut invalid);
    tree.spawn_chunks();

    tree.set_anchor(IVec2 { x: 1, y: 0 });
    tree.update_lod(&mut invalid);
    assert!(!invalid.0.contains(&IVec2 { x: 1, y: 2 }));
    assert!(invalid.0.contains(&IVec2 { x: -2, y: 0 }));

    tree.set_anchor(IVec2 { x: 2, y: 0 });
    tree.update_lod(&mut invalid);
    assert!(!invalid.0.contains(&IVec2 { x: 0, y: 2 }));

    tree.set_anchor(IVec2 { x: 2, y: 2 });
    tree.update_lod(&mut invalid);
    assert!(invalid.0.contains(&IVec2 { x: 0, y: 0 }));
}

#[test]
fn swap_promotes_ready_chunks() {
    // with every current chunk reported ready, one swap pass empties the
    // invalidation set and makes exactly the current chunks visible
    let mut tree = Lod2dTree::default();
    let mut invalid = InvalidSlots(Vec::new());
    setup(&mut invalid, 2);
    assert_eq!(invalid.0.len(), 25);
    tree.update_lod(&mut invalid);
    let reqs = tree.spawn_chunks();
    let ready: Vec<ChunkId> = reqs.iter().map(|r| r.id).collect();
    let vis = tree.swap_chunks(&ready, &mut invalid);
    assert!(invalid.0.is_empty());
    assert_eq!(vis.len(), 25);
    for (id, v) in &vis {
        assert!(ready.contains(id));
        assert_eq!(*v, ChunkVisibility::Visible);
    }
}

#[test]
fn unready_chunks_stay_pending() {
    // a chunk that never reports ready keeps its offset pending and emits no
    // visibility change
    let mut tree = Lod2dTree::default();
    let mut invalid = InvalidSlots(Vec::new());
    setup(&mut invalid, 2);
    tree.update_lod(&mut invalid);
    tree.spawn_chunks();
    let ready: Vec<ChunkId> = Vec::new();
    let vis = tree.swap_chunks(&ready, &mut invalid);
    assert!(vis.is_empty());
    assert_eq!(invalid.0.len(), 25);
}

#[test]
fn out_of_window_offsets_are_dropped() {
    // an invalidation entry whose offset left the window is silently dropped
    let tree = Lod2dTree::default();
    let mut invalid = InvalidSlots(vec![IVec2 { x: 5, y: 5 }, IVec2 { x: 0, y: 0 }]);
    let ready: Vec<ChunkId> = Vec::new();
    let vis = tree.swap_chunks(&ready, &mut invalid);
    assert!(vis.is_empty());
    assert_eq!(invalid.0, vec![IVec2 { x: 0, y: 0 }]);
}

#[test]
fn despawned_handles_are_gone() {
    // despawn-before-empty: a despawned handle is no longer tracked by any
    // slot, and no handle is reported twice
    let mut tree = Lod2dTree::default();
    let mut invalid = InvalidSlots(Vec::new());
    tree.update_lod(&mut invalid);
    tree.spawn_chunks();
    tree.set_anchor(IVec2 { x: 2, y: -1 });
    let mut despawned = tree.update_lod(&mut invalid);
    let live: Vec<ChunkId> = current_ids(&tree).into_iter().flatten().collect();
    for id in &despawned {
        assert!(!live.contains(id));
    }
    let n = despawned.len();
    despawned.sort();
    despawned.dedup();
    assert_eq!(despawned.len(), n);
}

#[test]
fn setup_lists_every_offset() {
    let mut invalid = InvalidSlots(Vec::new());
    setup(&mut invalid, 1);
    assert_eq!(invalid.0.len(), 9);
    for y in -1..=1 {
        for x in -1..=1 {
            assert!(invalid.0.contains(&IVec2 { x, y }));
        }
    }
}

#[test]
fn single_cell_window() {
    let mut tree = Lod2dTree::new(0, 0, IVec2 { x: 7, y: -3 });
    let mut invalid = InvalidSlots(Vec::new());
    tree.update_lod(&mut invalid);
    let reqs = tree.spawn_chunks();
    assert_eq!(reqs.len(), 1);
    assert_eq!(reqs[0].chunk.coord, IVec2 { x: 7, y: -3 });
    assert_eq!(reqs[0].chunk.lod, 0);
}

#[test]
fn diagonal_move_realigns_center() {
    // after any walk, the freshly spawned center chunk sits at the anchor
    let mut tree = Lod2dTree::default();
    let mut invalid = InvalidSlots(Vec::new());
    tree.update_lod(&mut invalid);
    tree.spawn_chunks();
    tree.set_anchor(IVec2 { x: -4, y: 6 });
    tree.update_lod(&mut invalid);
    let reqs = tree.spawn_chunks();
    let center: Vec<&ChunkRequest> = reqs.iter().filter(|r| r.chunk.lod == 0).collect();
    assert_eq!(center.len(), 1);
    assert_eq!(center[0].chunk.coord, IVec2 { x: -4, y: 6 });
}
