use std::collections::{HashMap, HashSet};
use tiles3d::frame::{Selection, SetTurn, Tiles3dConfig};
use tiles3d::schema::{
    Asset, BoundingVolume, Content, Georeference, Refine, Tile, Tileset, VolumeKind,
};
use tiles3d::sets::{
    ActiveTileset, AttachTarget, Fetched, OpenResult, Received, Tiles3dSets,
};
use tiles3d::stream::{
    covered_by_coarser, refinement_hold, standing_tiles, tiles_content, CutAction, TileContent, TileSlot,
};
use tiles3d::submesh::{build_submesh, TriangleMesh};
use tiles3d::tiles::{GraftRecord, Tiles};
use tiles3d::tree::{TileNode, TileTree};

const TEST_TILE_BYTES: u64 = 100;

fn volume() -> BoundingVolume {
    BoundingVolume { obb: None, sphere: Some([0; 4]), region: None }
}

fn tile(uri: Option<&str>, children: Vec<Tile>) -> Tile {
    Tile {
        bounding_volume: volume(),
        geometric_error: 0,
        refine: Some(Refine::Replace),
        transform: None,
        content: uri.map(|u| Content { uri: u.to_string() }),
        children,
    }
}

fn tileset(root: Tile) -> Tileset {
    Tileset { asset: Asset { version: "1.1".to_string() }, geometric_error: 0, root }
}

/// A root, four children, and four leaves under each, all with content.
fn synth_tree() -> TileTree {
    let leaf = || tile(Some("t.glb"), vec![]);
    let child = || tile(Some("t.glb"), vec![leaf(), leaf(), leaf(), leaf()]);
    TileTree::build(&tileset(tile(Some("t.glb"), vec![child(), child(), child(), child()])))
}

fn tiles_at_depth(tree: &TileTree, depth: usize) -> Vec<usize> {
    (0..tree.len()).filter(|&i| tree.nodes[i].depth == depth).collect()
}

/// A scene with one set, whose cut the test picks.
struct Stage {
    sets: Tiles3dSets,
    visible: HashSet<u64>,
    spawned: HashSet<u64>,
    config: Tiles3dConfig,
    cursors: HashMap<u8, u64>,
    requested: usize,
}

impl Stage {
    /// Every tile is in memory, and nothing is in the scene.
    fn new(config: Tiles3dConfig) -> Stage {
        let tree = synth_tree();
        let n = tree.len();
        let mut tiles = Tiles::new(tree);
        for i in 0..n {
            tiles.slots[i] = TileSlot::Ready { entity: None, bytes: TEST_TILE_BYTES };
            tiles.caches[i] = vec![i as u64];
        }
        let mut sets = Tiles3dSets::new();
        sets.sets.push(ActiveTileset {
            id: 1,
            label: "synth".to_string(),
            tiles,
            compact_high_water: n,
            root_entity: 0,
            anchor: Some(7),
            owner_id: None,
            sse_threshold_px: None,
            placeholder_cleared: true,
            last_cut: None,
            ecef: false,
            live: false,
            copyrights: Vec::new(),
            budget_warned: false,
        });
        sets.next_set_id = 2;
        sets.next_entity = 1;
        Stage {
            sets,
            visible: HashSet::new(),
            spawned: HashSet::new(),
            config,
            cursors: HashMap::new(),
            requested: 0,
        }
    }

    fn tree(&self) -> &TileTree {
        &self.sets.sets[0].tiles.tree
    }

    fn slot(&self, i: usize) -> TileSlot {
        self.sets.sets[0].tiles.slots[i]
    }

    /// One frame with this cut. Returns whether another is needed.
    fn update(&mut self, render: &[usize]) -> bool {
        let n = self.tree().len();
        let (mut frame, dropped) = self.sets.begin_frame(&self.config, &vec![true], &vec![true]);
        assert!(dropped.is_empty());
        self.sets.compact_set(0, &self.config, &mut frame);
        let mut touched = vec![false; n];
        for &t in render {
            let mut up = Some(t);
            while let Some(i) = up {
                touched[i] = true;
                up = self.tree().nodes[i].parent;
            }
        }
        let visible: Vec<bool> = (0..n)
            .map(|i| match self.slot(i) {
                TileSlot::Ready { entity: Some(e), .. } => self.visible.contains(&e),
                _ => false,
            })
            .collect();
        let sel = Selection {
            render: render.to_vec(),
            loads: render.to_vec(),
            touched,
            rendered: vec![false; n],
            refined: vec![false; n],
        };
        let turn = SetTurn { has_origin: false, class: 1, budget_exhausted: false };
        let acts = self.sets.drive_set(0, &self.config, &mut frame, sel, &visible, turn);
        for a in acts.actions {
            match a {
                CutAction::Show { entity } => {
                    assert!(self.spawned.contains(&entity));
                    self.visible.insert(entity);
                }
                CutAction::Spawn { entity, visible, .. } => {
                    assert!(self.spawned.insert(entity));
                    if visible {
                        self.visible.insert(entity);
                    }
                }
                CutAction::Despawn { entity } => {
                    assert!(self.spawned.remove(&entity));
                    self.visible.remove(&entity);
                }
            }
        }
        let end = self.sets.finish_frame(frame, &mut self.cursors);
        self.requested += end.requests.len();
        end.redraw
    }

    /// The tiles that are in the scene and visible.
    fn visible_tiles(&self) -> Vec<usize> {
        (0..self.tree().len())
            .filter(|&i| match self.slot(i) {
                TileSlot::Ready { entity: Some(e), .. } => self.visible.contains(&e),
                _ => false,
            })
            .collect()
    }
}

#[test]
fn hidden_tile_despawns_entities_but_keeps_assets() {
    let mut stage = Stage::new(Tiles3dConfig::default());
    let leaves = tiles_at_depth(stage.tree(), 2);
    let ledger = stage.sets.resident_content_bytes();
    stage.update(&leaves);
    stage.update(&leaves);
    assert_eq!(stage.visible_tiles(), leaves, "leaf cut on screen");

    stage.update(&[0]);
    stage.update(&[0]);
    assert_eq!(stage.visible_tiles(), vec![0], "root cut on screen");
    for &l in &leaves {
        assert!(
            matches!(
                stage.slot(l),
                TileSlot::Ready { entity: None, bytes: TEST_TILE_BYTES }
            ),
            "leaf {l} despawned but still Ready"
        );
        assert_eq!(stage.sets.sets[0].tiles.caches[l].len(), 1, "leaf {l} kept its cache");
    }
    assert_eq!(stage.sets.resident_content_bytes(), ledger, "ledger unchanged by despawn");
    assert_eq!(stage.spawned.len(), 1);
}

#[test]
fn replace_swap_shows_exactly_one_rung() {
    let mut stage =
        Stage::new(Tiles3dConfig { max_respawns_per_frame: 1, ..Tiles3dConfig::default() });
    let leaves = tiles_at_depth(stage.tree(), 2);
    stage.update(&[0]);
    stage.update(&[0]);
    assert_eq!(stage.visible_tiles(), vec![0], "root cut first");

    let mut swapped = false;
    for f in 0..40 {
        stage.update(&leaves);
        let vis = stage.visible_tiles();
        let parent_up = vis.contains(&0);
        let children_up = leaves.iter().all(|l| vis.contains(l));
        let any_child_up = leaves.iter().any(|l| vis.contains(l));
        assert!(
            !(parent_up && any_child_up),
            "frame {f}: coarse parent co-rendering with arrived children ({vis:?})"
        );
        assert!(
            parent_up || children_up,
            "frame {f}: neither the parent nor the full child cut is visible ({vis:?})"
        );
        swapped |= children_up;
    }
    assert!(swapped, "the swap completed inside 40 frames");
}

#[test]
fn swaps_take_a_frame_for_each_waiting_tile() {
    let mut stage =
        Stage::new(Tiles3dConfig { max_respawns_per_frame: 1, ..Tiles3dConfig::default() });
    let leaves = tiles_at_depth(stage.tree(), 2);
    stage.update(&[0]);
    assert_eq!(stage.visible_tiles(), vec![0]);
    for _ in 0..leaves.len() {
        stage.update(&leaves);
        assert_eq!(stage.visible_tiles(), vec![0], "the coarse tile alone");
    }
    for _ in 0..3 {
        stage.update(&leaves);
        assert_eq!(stage.visible_tiles(), leaves, "the fine tiles alone");
    }
    // Back: the coarse tile comes in at once, above the fine ones; then they go.
    stage.update(&[0]);
    let mut both = vec![0];
    both.extend(&leaves);
    assert_eq!(stage.visible_tiles(), both);
    stage.update(&[0]);
    assert_eq!(stage.visible_tiles(), vec![0]);
}

#[test]
fn coarsening_swap_never_shows_a_hole() {
    let mut stage =
        Stage::new(Tiles3dConfig { max_respawns_per_frame: 1, ..Tiles3dConfig::default() });
    let leaves = tiles_at_depth(stage.tree(), 2);
    for _ in 0..40 {
        stage.update(&leaves);
    }
    assert_eq!(stage.visible_tiles(), leaves, "leaf cut first");

    let mut swapped = false;
    for f in 0..10 {
        stage.update(&[0]);
        let vis = stage.visible_tiles();
        let parent_up = vis.contains(&0);
        let children_up = leaves.iter().all(|l| vis.contains(l));
        assert!(
            parent_up || children_up,
            "frame {f}: neither the parent nor the full child cut is visible ({vis:?})"
        );
        swapped |= parent_up && !children_up;
    }
    assert!(swapped, "the coarsening swap completed");
}

#[test]
fn cut_entry_from_cache_paints_the_same_frame() {
    let mut stage = Stage::new(Tiles3dConfig::default());
    let leaves = tiles_at_depth(stage.tree(), 2);
    stage.update(&leaves);
    stage.update(&leaves);
    assert_eq!(stage.visible_tiles(), leaves, "leaf cut on screen");

    stage.update(&[]);
    assert!(stage.visible_tiles().is_empty(), "nothing on screen off-view");
    assert!(
        (0..stage.tree().len())
            .all(|i| matches!(stage.slot(i), TileSlot::Ready { entity: None, .. })),
        "the whole set is despawned-but-cached — no rung left to hold"
    );

    stage.update(&leaves);
    assert_eq!(stage.visible_tiles(), leaves, "re-entry paints the frame it is wanted");
}

#[test]
fn the_hold_covers_only_the_starved_tile_s_line() {
    let tree = synth_tree();
    let starved = *tiles_at_depth(&tree, 2).first().unwrap();
    let parent = tree.nodes[starved].parent.unwrap();
    let full = TileSlot::Ready { entity: Some(1), bytes: TEST_TILE_BYTES };
    let bare = TileSlot::Ready { entity: None, bytes: TEST_TILE_BYTES };
    let mut slots = vec![full; tree.len()];
    slots[starved] = bare;
    let mut want = vec![false; tree.len()];
    want[starved] = true;

    let (hold, is_starved) = refinement_hold(&tree, &want, &slots);
    assert!(is_starved);
    assert!(hold[0], "the root ancestor holds");
    assert!(hold[parent], "the immediate parent holds");
    assert!(!hold[starved], "the starved tile itself is not 'held'");
    let other = tiles_at_depth(&tree, 1).into_iter().find(|&c| c != parent).unwrap();
    assert!(!hold[other], "an unrelated child does NOT hold");
    for l in tree.children_of(other) {
        assert!(!hold[l], "an unrelated leaf does NOT hold");
    }

    let mut slots = vec![full; tree.len()];
    slots[0] = bare;
    let mut want = vec![false; tree.len()];
    want[0] = true;
    let (hold, _) = refinement_hold(&tree, &want, &slots);
    assert!((1..tree.len()).all(|i| hold[i]), "a starved root holds its whole subtree");
}

#[test]
fn grace_tile_keeps_its_cache_and_never_re_decodes() {
    let mut stage = Stage::new(Tiles3dConfig::default());
    let leaves = tiles_at_depth(stage.tree(), 2);
    stage.update(&leaves);
    stage.update(&leaves);
    assert_eq!(stage.visible_tiles(), leaves, "leaf cut on screen");

    stage.update(&[0]);
    stage.update(&[0]);
    for &l in &leaves {
        assert!(
            matches!(stage.slot(l), TileSlot::Ready { entity: None, .. }),
            "grace tile {l} kept its Ready slot"
        );
        assert_eq!(stage.sets.sets[0].tiles.caches[l].len(), 1, "tile {l} kept its cache");
    }

    stage.update(&leaves);
    stage.update(&leaves);
    assert_eq!(stage.visible_tiles(), leaves, "leaf cut back on screen");
    assert!(
        !(0..stage.tree().len())
            .any(|i| matches!(stage.slot(i), TileSlot::InFlight { .. } | TileSlot::NotLoaded)),
        "re-entry re-requested nothing"
    );
    assert_eq!(stage.requested, 0, "no tile was asked for again");
}

#[test]
fn idle_content_leaves_after_the_grace_period() {
    let mut stage = Stage::new(Tiles3dConfig { grace_frames: 2, ..Tiles3dConfig::default() });
    let leaves = tiles_at_depth(stage.tree(), 2);
    stage.update(&leaves);
    for _ in 0..5 {
        stage.update(&[0]);
    }
    for &l in &leaves {
        assert_eq!(stage.slot(l), TileSlot::NotLoaded);
        assert!(stage.sets.sets[0].tiles.caches[l].is_empty());
    }
    assert!(matches!(stage.slot(0), TileSlot::Ready { entity: Some(_), .. }));
    assert_eq!(stage.spawned.len(), 1);
}

#[test]
fn the_oldest_content_leaves_over_the_cap() {
    let mut stage = Stage::new(Tiles3dConfig { max_resident_tiles: 3, ..Tiles3dConfig::default() });
    stage.sets.sets[0].tiles.last_touched = (0..21).map(|i| 100 - i as u64).collect();
    // What stands in for the missing root is kept.
    stage.update(&[0]);
    assert!((0..21).all(|i| matches!(stage.slot(i), TileSlot::Ready { .. })));
    stage.update(&[0]);
    let left: Vec<usize> = (0..21)
        .filter(|&i| matches!(stage.slot(i), TileSlot::Ready { .. }))
        .collect();
    // The cut stays, and the two tiles that were wanted last.
    assert_eq!(left, vec![0, 1, 2]);
}

#[test]
fn wanted_tiles_are_requested_within_the_pool() {
    let mut stage =
        Stage::new(Tiles3dConfig { max_concurrent_loads: 2, ..Tiles3dConfig::default() });
    for s in stage.sets.sets[0].tiles.slots.iter_mut() {
        *s = TileSlot::NotLoaded;
    }
    let kids = tiles_at_depth(stage.tree(), 1);
    assert!(stage.update(&kids), "content is on its way");
    assert_eq!(stage.requested, 2);
    assert_eq!(stage.slot(kids[0]), TileSlot::InFlight { generation: 0 });
    assert_eq!(stage.slot(kids[1]), TileSlot::InFlight { generation: 1 });
    assert_eq!(stage.cursors.get(&1), Some(&1));
    stage.update(&kids);
    assert_eq!(stage.requested, 2, "the pool is full");
    let d = stage.sets.debug_summary();
    assert_eq!((d.tilesets, d.resident, d.in_flight), (1, 0, 2));

    // What fell out of the cut is called off, and a late reply is dropped.
    stage.update(&[0]);
    assert_eq!(stage.slot(kids[0]), TileSlot::NotLoaded);
    assert_eq!(stage.slot(0), TileSlot::NotLoaded);
    stage.update(&[0]);
    assert_eq!(stage.slot(0), TileSlot::InFlight { generation: 2 });
    assert_eq!(stage.sets.waiting_tile(1, 2), Some((0, 0)));
    assert_eq!(stage.sets.waiting_tile(1, 0), None);
    assert_eq!(stage.sets.waiting_tile(7, 2), None);
    let late = stage.sets.receive_content(1, 0, Fetched::Failed, false);
    assert_eq!(late, Received::Dropped);
    assert!(!late.counts(true));

    let content = Fetched::Content {
        rtc_center: Some([1, 2, 3]),
        copyright: Some(" b ; a;;b".to_string()),
        bytes: 40,
        cache: vec![9],
    };
    let got = stage.sets.receive_content(1, 2, content, false);
    assert_eq!(got, Received::Spawned { tile: 0, entity: 1 });
    assert!(got.counts(true) && !got.counts(false));
    stage.spawned.insert(1);
    assert_eq!(stage.sets.sets[0].copyrights, vec!["a".to_string(), "b".to_string()]);
    assert_eq!(stage.sets.sets[0].tiles.rtc_centers[0], Some([1, 2, 3]));
    stage.update(&[0]);
    assert_eq!(stage.visible_tiles(), vec![0]);
    assert_eq!(stage.sets.collect_credits(false, false).lines, vec!["a", "b"]);
}

#[test]
fn loads_halt_past_the_hard_stop() {
    let mut stage = Stage::new(Tiles3dConfig {
        memory_budget_bytes: 100,
        ..Tiles3dConfig::default()
    });
    stage.sets.sets[0].tiles.slots[20] = TileSlot::NotLoaded;
    stage.update(&[20]);
    assert_eq!(stage.requested, 0);
    let (frame, _) = stage.sets.begin_frame(&stage.config, &vec![true], &vec![true]);
    assert!(frame.halt_loads);
    assert_eq!(frame.pressure, (8, 1));
}

#[test]
fn sets_come_and_go_with_their_anchors() {
    let mut sets = Tiles3dSets::new();
    assert!(sets.attach(5));
    assert!(!sets.attach(5), "one set per anchor");
    assert!(sets.has_anchor(5));
    let attach = || {
        Some(AttachTarget {
            anchor: 5,
            owner_id: Some("twin".to_string()),
            sse_threshold_px: None,
        })
    };
    let open = || OpenResult::Tileset {
        tileset: tileset(tile(Some("a.glb"), vec![])),
        live: false,
        georeferenced: false,
    };
    let new = sets.tileset_opened("x".to_string(), attach(), true, open()).unwrap();
    assert_eq!((new.set_id, new.root_entity, new.parent), (0, 0, Some(5)));
    assert_eq!(sets.set_id_for_anchor(5), Some(0));
    assert_eq!(sets.root_entity_for_anchor(5), Some(0));

    let gone = sets.detach(5);
    assert_eq!(gone.len(), 1);
    assert!(!sets.has_anchor(5));
    // An open that lands after its anchor was given up is dropped.
    assert!(sets.tileset_opened("x".to_string(), attach(), true, open()).is_none());
    // A failed open takes the anchor until it is detached.
    assert!(sets.attach(5));
    assert!(sets.tileset_opened("x".to_string(), attach(), true, OpenResult::Failed).is_none());
    assert!(!sets.attach(5));
    sets.detach(5);
    assert!(sets.attach(5));
    assert!(sets.tileset_opened("x".to_string(), attach(), false, open()).is_none());
    assert!(sets.attach(5));
    assert!(sets.tileset_opened("x".to_string(), attach(), true, OpenResult::Unusable).is_none());
    assert!(sets.has_anchor(5));
    // A set in the earth's own frame hangs under nothing.
    let open = OpenResult::Tileset {
        tileset: tileset(tile(None, vec![])),
        live: false,
        georeferenced: true,
    };
    let new = sets.tileset_opened("y".to_string(), None, true, open).unwrap();
    assert_eq!(new.parent, None);
    // A set whose root is gone leaves.
    let config = Tiles3dConfig::default();
    let (_, dropped) = sets.begin_frame(&config, &vec![false], &vec![true]);
    assert_eq!(dropped.len(), 1);
    assert!(sets.sets.is_empty());
}

#[test]
fn grafts_are_rebased_and_reclaimed() {
    let mut tiles = Tiles::new(TileTree::build(&tileset(tile(
        None,
        vec![tile(Some("sub/tileset.json"), vec![]), tile(Some("b.glb"), vec![])],
    ))));
    let external = tileset(tile(
        Some("c.glb"),
        vec![tile(Some("/d.glb"), vec![]), tile(Some("https://x/e.glb"), vec![])],
    ));
    tiles.graft_external(1, &external);
    let uris: Vec<Option<&str>> =
        tiles.tree.nodes.iter().map(|n| n.content_uri.as_deref()).collect();
    assert_eq!(
        uris,
        vec![None, None, Some("b.glb"), Some("sub/c.glb"), Some("/d.glb"), Some("https://x/e.glb")]
    );
    assert_eq!(tiles.tree.children_of(1), vec![3]);
    assert_eq!(tiles.tree.children_of(3), vec![4, 5]);
    assert_eq!(tiles.grafts[0].uri, "sub/tileset.json");

    // Something of the graft is in memory: it stays.
    tiles.slots[5] = TileSlot::Ready { entity: None, bytes: 1 };
    assert_eq!(tiles.compact_grafted_subtrees(100, 10).0, 0);
    tiles.slots[5] = TileSlot::NotLoaded;
    // It was wanted a moment ago: it stays.
    assert_eq!(tiles.compact_grafted_subtrees(10, 10).0, 0);
    // Nobody looks at it: it goes, and can be had again.
    assert_eq!(tiles.compact_grafted_subtrees(11, 10), (3, vec![true, true, true, false, false, false]));
    assert_eq!(tiles.tree.len(), 3);
    assert_eq!(tiles.tree.nodes[1].content_uri.as_deref(), Some("sub/tileset.json"));
    assert!(tiles.grafts.is_empty());
    assert_eq!(tiles.slots.len(), 3);
}

#[test]
fn compaction_renumbers_what_stays() {
    let mut tiles = Tiles::new(TileTree::build(&tileset(tile(
        None,
        vec![tile(Some("a.json"), vec![]), tile(Some("b.json"), vec![])],
    ))));
    tiles.graft_external(1, &tileset(tile(Some("c.glb"), vec![])));
    tiles.graft_external(2, &tileset(tile(Some("d.glb"), vec![])));
    tiles.slots[4] = TileSlot::InFlight { generation: 8 };
    assert_eq!(tiles.compact_grafted_subtrees(100, 10).0, 1);
    assert_eq!(tiles.slots[3], TileSlot::InFlight { generation: 8 });
    assert_eq!(tiles.tree.nodes[3].parent, Some(2));
    let GraftRecord { at, child_root, .. } = &tiles.grafts[0];
    assert_eq!((*at, *child_root), (2, 3));
}

#[test]
fn replies_follow_their_tile_through_compaction() {
    let mut sets = Tiles3dSets::new();
    let open = OpenResult::Tileset {
        tileset: tileset(tile(
            None,
            vec![tile(Some("a.json"), vec![]), tile(Some("b.json"), vec![])],
        )),
        live: false,
        georeferenced: false,
    };
    sets.tileset_opened("x".to_string(), None, true, open).unwrap();
    for (t, g) in [(1, 0), (2, 1)] {
        sets.sets[0].tiles.slots[t] = TileSlot::InFlight { generation: g };
        sets.next_generation = g + 1;
        let sub = Fetched::Subtree(tileset(tile(Some("c.glb"), vec![])));
        assert_eq!(sets.receive_content(0, g, sub, false), Received::Grafted { tile: t });
    }
    sets.sets[0].tiles.slots[4] = TileSlot::InFlight { generation: 2 };
    sets.next_generation = 3;
    sets.frame = 1000;
    let config = Tiles3dConfig { tree_compact_min: 1, ..Tiles3dConfig::default() };
    let (mut frame, _) = sets.begin_frame(&config, &vec![true], &vec![true]);
    let gone = sets.compact_set(0, &config, &mut frame);
    assert_eq!(gone, Some((1, vec![true, true, true, false, true])));
    assert_eq!(sets.compact_set(0, &config, &mut frame), None, "once a frame");
    assert!(frame.compacted);
    assert_eq!(sets.receive_content(0, 2, Fetched::Failed, false), Received::Failed { tile: 3 });
    assert_eq!(sets.sets[0].tiles.slots[3], TileSlot::Failed);
}

#[test]
fn sets_without_a_place_wait() {
    let mut stage = Stage::new(Tiles3dConfig::default());
    stage.sets.sets[0].ecef = true;
    stage.update(&[0]);
    assert!(stage.visible_tiles().is_empty());
    stage.sets.sets[0].tiles.slots[0] = TileSlot::InFlight { generation: 0 };
    stage.sets.next_generation = 1;
    let content =
        || Fetched::Content { rtc_center: None, copyright: None, bytes: 1, cache: vec![] };
    assert_eq!(
        stage.sets.receive_content(1, 0, content(), false),
        Received::Requeued { tile: 0 }
    );
    assert_eq!(stage.slot(0), TileSlot::NotLoaded);
    assert_eq!(stage.sets.receive_content(9, 0, content(), false), Received::Dropped);
}

#[test]
fn traversals_see_what_is_there() {
    let tree = TileTree {
        nodes: vec![
            TileNode { parent: None, depth: 0, content_uri: None },
            TileNode { parent: Some(0), depth: 1, content_uri: Some("a".to_string()) },
            TileNode { parent: Some(0), depth: 1, content_uri: Some("b".to_string()) },
            TileNode { parent: Some(0), depth: 1, content_uri: Some("c".to_string()) },
        ],
    };
    let slots = vec![
        TileSlot::Failed,
        TileSlot::Failed,
        TileSlot::InFlight { generation: 1 },
        TileSlot::Ready { entity: None, bytes: 0 },
    ];
    assert_eq!(
        tiles_content(&tree, &slots),
        vec![TileContent::Absent, TileContent::Failed, TileContent::Pending, TileContent::Ready]
    );
    let hold = vec![true, false, false, false];
    let want = vec![false; 4];
    let spawned = vec![TileSlot::Ready { entity: Some(1), bytes: 0 }; 4];
    let covered = covered_by_coarser(&tree, &hold, &want, &vec![true; 4], &spawned);
    assert_eq!(covered, vec![false, true, true, true]);
    let covered = covered_by_coarser(&tree, &hold, &want, &vec![false; 4], &spawned);
    assert_eq!(covered, vec![false; 4]);
}

fn bits<const N: usize>(v: [f32; N]) -> [u32; N] {
    v.map(f32::to_bits)
}

#[test]
fn build_submesh_extracts_triangle_subset() {
    let mesh = TriangleMesh {
        positions: vec![
            bits([0.0, 0.0, 0.0]),
            bits([1.0, 0.0, 0.0]),
            bits([1.0, 1.0, 0.0]),
            bits([0.0, 1.0, 0.0]),
        ],
        normals: None,
        uvs: None,
        colors: Some(vec![bits([1.0, 0.0, 0.0, 1.0]); 4]),
        indices: Some(vec![0, 1, 2, 0, 2, 3]),
    };
    let sub = build_submesh(&mesh, &vec![1]);
    assert_eq!(
        sub.positions,
        vec![bits([0.0, 0.0, 0.0]), bits([1.0, 1.0, 0.0]), bits([0.0, 1.0, 0.0])]
    );
    assert!(sub.colors.is_some(), "color carried through");
    assert_eq!(sub.indices, Some(vec![0, 1, 2]));
    assert!(sub.normals.is_none());
}

#[test]
fn submeshes_share_vertices() {
    let mesh = TriangleMesh {
        positions: vec![[0; 3], [1; 3], [2; 3], [3; 3]],
        normals: None,
        uvs: Some(vec![[5; 2]; 4]),
        colors: None,
        indices: Some(vec![3, 2, 1, 1, 2, 0, 9, 2, 1]),
    };
    let sub = build_submesh(&mesh, &vec![0, 1, 2, 7]);
    assert_eq!(sub.positions, vec![[3; 3], [2; 3], [1; 3], [0; 3]]);
    assert_eq!(sub.indices, Some(vec![0, 1, 2, 2, 1, 3, 1, 2]));
    assert_eq!(sub.uvs.unwrap().len(), 4);
    let none = build_submesh(&mesh, &vec![7]);
    assert!(none.positions.is_empty() && none.uvs.is_none());
    let plain = TriangleMesh { indices: None, uvs: None, ..mesh };
    assert_eq!(build_submesh(&plain, &vec![0, 1]).indices, Some(vec![0, 1, 2, 3]));
}

#[test]
fn volumes_are_taken_box_first() {
    let none = BoundingVolume { obb: None, sphere: None, region: None };
    assert!(none.kind().is_none());
    assert!(matches!(volume().kind(), Some(VolumeKind::Sphere(_))));
    let all = BoundingVolume { obb: Some([1; 12]), sphere: Some([2; 4]), region: Some([3; 6]) };
    assert!(matches!(all.kind(), Some(VolumeKind::Box(_))));
    let mut ts = tileset(tile(None, vec![]));
    assert!(matches!(ts.georeference(), Georeference::IfFar([0, 0, 0])));
    ts.root.bounding_volume = BoundingVolume { obb: None, sphere: None, region: Some([3; 6]) };
    assert!(matches!(ts.georeference(), Georeference::Yes));
    ts.root.bounding_volume = none;
    assert!(matches!(ts.georeference(), Georeference::No));
}

#[test]
fn sets_share_the_respawns_of_a_frame() {
    let config = Tiles3dConfig { max_respawns_per_frame: 5, ..Tiles3dConfig::default() };
    let mut stage = Stage::new(config);
    let leaves = tiles_at_depth(stage.tree(), 2);
    stage.update(&leaves);
    assert_eq!(stage.spawned.len(), 5);
    stage.update(&leaves);
    assert_eq!(stage.spawned.len(), 10);

    let (mut frame, _) = stage.sets.begin_frame(&stage.config, &vec![true], &vec![true]);
    assert_eq!(frame.respawns_left, 5);
    frame.respawns_left = 2;
    let n = stage.tree().len();
    let sel = Selection {
        render: leaves.clone(),
        loads: leaves,
        touched: vec![true; n],
        rendered: vec![false; n],
        refined: vec![false; n],
    };
    let turn = SetTurn { has_origin: false, class: 1, budget_exhausted: false };
    let visible = vec![false; n];
    let acts = stage.sets.drive_set(0, &stage.config, &mut frame, sel, &visible, turn);
    let spawns =
        acts.actions.iter().filter(|a| matches!(a, CutAction::Spawn { .. })).count();
    assert_eq!((spawns, frame.respawns_left), (2, 0));
}

#[test]
fn only_standing_tiles_are_placed_anew() {
    let slots = vec![
        TileSlot::Ready { entity: Some(7), bytes: 1 },
        TileSlot::Ready { entity: None, bytes: 1 },
        TileSlot::InFlight { generation: 3 },
        TileSlot::Failed,
        TileSlot::Ready { entity: Some(9), bytes: 1 },
    ];
    assert_eq!(standing_tiles(&slots), vec![(0, 7), (4, 9)]);
}
