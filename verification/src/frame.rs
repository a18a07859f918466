//! One frame of the streamer, over all tilesets.
use crate::credits::{add_lines, all_lines_are_added, in_order, lines_in};
use crate::evict::{drop_content, dropped_up_to, evicted, plan_eviction, Dropping, Residents};
use crate::gltf::strings;
use crate::sets::{
    flies, leaving, lemma_set_changed, set_wf, sets_wf, ActiveTileset, DroppedSet, SetModel,
    SetsModel, Tiles3dSets,
};
use crate::stream::{
    any_ready, any_starving, apply_cut, cancel_unwanted, cancelled, candidate_order,
    candidates_up_to, collect_candidates, covered_by_coarser, cut_applied, fallen_out, flagged,
    flags_of, hard_stopped, held, lemma_spawns_push, memory_pressure_factor, over_hard_stop, painted_over,
    pressure_of, refinement_hold, resident_bytes, sort_load_candidates, spawns, Cut, CutAction, CutView,
    LoadCandidate, TileSlot,
};
use crate::tiles::{compacted, compaction_keeps_order, kept_tiles, tiles_wf, TilesModel};
use crate::tree::{kept, lemma_kept, lemma_kept_from, rank, Node};
use std::collections::HashMap;
use vstd::prelude::*;

verus! {

/// The tuning of the streamer, over all sets.
#[derive(Clone, Copy, Debug)]
pub struct Tiles3dConfig {
    /// Refine while the error on screen exceeds this many pixels, as the bits of
    /// an `f64`.
    pub sse_threshold_px: u64,
    /// How fast detail falls off with the distance, in metres, as the bits of an
    /// `f64`.
    pub detail_falloff_m: u64,
    /// How many tiles may be on their way, over all sets.
    pub max_concurrent_loads: usize,
    /// How many tiles that arrived are taken in per frame.
    pub max_spawns_per_frame: usize,
    /// How many tiles are put back into the scene per frame, over all sets.
    pub max_respawns_per_frame: usize,
    /// How many frames content outlives its last use.
    pub grace_frames: u64,
    /// How many tiles of a set may be in memory.
    pub max_resident_tiles: usize,
    /// Trees below this size are not compacted.
    pub tree_compact_min: usize,
    /// No longer used.
    pub max_feature_submeshes: usize,
    /// How many bytes may be in memory; zero for no limit.
    pub memory_budget_bytes: u64,
    /// Pressure from elsewhere, as the bits of an `f32`.
    pub external_pressure: u32,
    /// Start no new loads.
    pub halt_new_loads: bool,
}

impl Default for Tiles3dConfig {
    fn default() -> (r: Self)
        ensures
            r == (Tiles3dConfig {
                sse_threshold_px: 0x4024_0000_0000_0000,
                detail_falloff_m: 0x409f_4000_0000_0000,
                max_concurrent_loads: 16,
                max_spawns_per_frame: 4,
                max_respawns_per_frame: 64,
                grace_frames: 600,
                max_resident_tiles: 1024,
                tree_compact_min: 16384,
                max_feature_submeshes: 64,
                memory_budget_bytes: 0,
                external_pressure: 0x3f80_0000,
                halt_new_loads: false,
            }),
    {
        Tiles3dConfig {
            sse_threshold_px: 0x4024_0000_0000_0000,
            detail_falloff_m: 0x409f_4000_0000_0000,
            max_concurrent_loads: 16,
            max_spawns_per_frame: 4,
            max_respawns_per_frame: 64,
            grace_frames: 600,
            max_resident_tiles: 1024,
            tree_compact_min: 16384,
            max_feature_submeshes: 64,
            memory_budget_bytes: 0,
            external_pressure: 0x3f80_0000,
            halt_new_loads: false,
        }
    }
}

/// A frame under way.
#[derive(Debug)]
pub struct Frame {
    /// How much the threshold is raised, as a fraction.
    pub pressure: (u64, u64),
    /// How many loads may still be started.
    pub load_slots: usize,
    /// No loads are started.
    pub halt_loads: bool,
    /// How many tiles may still be put back into the scene.
    pub respawns_left: usize,
    /// A tree was compacted in this frame.
    pub compacted: bool,
    pub candidates: Vec<LoadCandidate>,
    pub any_in_flight: bool,
    pub pending_respawns: bool,
    pub google_visible: bool,
    pub ground_covering: bool,
}

/// [`Frame`] as a mathematical value.
#[verifier::ext_equal]
pub struct FrameModel {
    pub pressure: (u64, u64),
    pub load_slots: nat,
    pub halt_loads: bool,
    pub respawns_left: nat,
    pub compacted: bool,
    pub candidates: Seq<LoadCandidate>,
    pub any_in_flight: bool,
    pub pending_respawns: bool,
    pub google_visible: bool,
    pub ground_covering: bool,
}

impl View for Frame {
    type V = FrameModel;

    open spec fn view(&self) -> FrameModel {
        FrameModel {
            pressure: self.pressure,
            load_slots: self.load_slots as nat,
            halt_loads: self.halt_loads,
            respawns_left: self.respawns_left as nat,
            compacted: self.compacted,
            candidates: self.candidates@,
            any_in_flight: self.any_in_flight,
            pending_respawns: self.pending_respawns,
            google_visible: self.google_visible,
            ground_covering: self.ground_covering,
        }
    }
}

/// The bytes in memory of the first `k` sets.
pub open spec fn resident_up_to(sets: Seq<SetModel>, k: int) -> nat
    decreases k,
{
    if k <= 0 {
        0
    } else {
        resident_up_to(sets, k - 1) + resident_bytes(sets[k - 1].tiles.slots)
    }
}

/// The bytes in memory.
pub open spec fn resident_total(sets: Seq<SetModel>) -> nat {
    resident_up_to(sets, sets.len() as int)
}

/// How many of the first `k` tiles are on their way.
pub open spec fn flying_up_to(slots: Seq<TileSlot>, k: int) -> nat
    decreases k,
{
    if k <= 0 {
        0
    } else {
        flying_up_to(slots, k - 1) + if slots[k - 1] is InFlight {
            1nat
        } else {
            0
        }
    }
}

/// How many tiles of the first `k` sets are on their way.
pub open spec fn flights_up_to(sets: Seq<SetModel>, k: int) -> nat
    decreases k,
{
    if k <= 0 {
        0
    } else {
        flights_up_to(sets, k - 1) + flying_up_to(
            sets[k - 1].tiles.slots,
            sets[k - 1].tiles.slots.len() as int,
        )
    }
}

/// How many tiles are on their way.
pub open spec fn flights(sets: Seq<SetModel>) -> nat {
    flights_up_to(sets, sets.len() as int)
}

/// `a - b`, not below zero.
pub open spec fn less(a: int, b: int) -> nat {
    if a > b {
        (a - b) as nat
    } else {
        0
    }
}

proof fn lemma_bytes_grow(slots: Seq<TileSlot>, k: int)
    requires
        0 <= k <= slots.len(),
    ensures
        crate::stream::bytes_up_to(slots, k) <= resident_bytes(slots),
    decreases slots.len() - k,
{
    if k < slots.len() {
        lemma_bytes_grow(slots, k + 1);
    }
}

proof fn lemma_resident_grows(sets: Seq<SetModel>, k: int)
    requires
        0 <= k <= sets.len(),
    ensures
        resident_up_to(sets, k) <= resident_total(sets),
    decreases sets.len() - k,
{
    if k < sets.len() {
        lemma_resident_grows(sets, k + 1);
    }
}

fn slot_bytes(slots: &Vec<TileSlot>) -> (t: u64)
    requires
        resident_bytes(slots@) <= u64::MAX,
    ensures
        t == resident_bytes(slots@),
{
    let mut t: u64 = 0;
    let mut i: usize = 0;
    while i < slots.len()
        invariant
            i <= slots@.len(),
            resident_bytes(slots@) <= u64::MAX,
            t == crate::stream::bytes_up_to(slots@, i as int),
        decreases slots@.len() - i,
    {
        proof {
            lemma_bytes_grow(slots@, i + 1);
        }
        if let TileSlot::Ready { bytes, .. } = slots[i] {
            t = t + bytes;
        }
        i = i + 1;
    }
    t
}

impl Tiles3dSets {
    /// The bytes of what is in memory, over all sets.
    pub fn resident_content_bytes(&self) -> (t: u64)
        requires
            resident_total(self@.sets) <= u64::MAX,
        ensures
            t == resident_total(self@.sets),
    {
        let ghost sets = self@.sets;
        let mut t: u64 = 0;
        let mut s: usize = 0;
        while s < self.sets.len()
            invariant
                s <= self.sets@.len(),
                sets == self@.sets,
                resident_total(sets) <= u64::MAX,
                t == resident_up_to(sets, s as int),
            decreases self.sets@.len() - s,
        {
            assert(sets[s as int] == self.sets@[s as int]@);
            proof {
                lemma_resident_grows(sets, s + 1);
            }
            t = t + slot_bytes(&self.sets[s].tiles.slots);
            s = s + 1;
        }
        t
    }

    /// How many of `max` loads may still be started.
    fn free_slots(&self, max: usize) -> (left: usize)
        ensures
            left == less(max as int, flights(self@.sets) as int),
    {
        let ghost sets = self@.sets;
        let mut left: usize = max;
        let mut s: usize = 0;
        while s < self.sets.len()
            invariant
                s <= self.sets@.len(),
                sets == self@.sets,
                left == less(max as int, flights_up_to(sets, s as int) as int),
            decreases self.sets@.len() - s,
        {
            assert(sets[s as int] == self.sets@[s as int]@);
            let ghost slots = sets[s as int].tiles.slots;
            let n: usize = self.sets[s].tiles.slots.len();
            let mut i: usize = 0;
            while i < n
                invariant
                    i <= n,
                    s < self.sets@.len(),
                    n == slots.len(),
                    slots == self.sets@[s as int].tiles.slots@,
                    left == less(
                        max as int,
                        (flights_up_to(sets, s as int) + flying_up_to(slots, i as int)) as int,
                    ),
                decreases n - i,
            {
                if let TileSlot::InFlight { .. } = self.sets[s].tiles.slots[i] {
                    if left > 0 {
                        left = left - 1;
                    }
                }
                i = i + 1;
            }
            s = s + 1;
        }
        left
    }
}

/// The sets that are still there: their roots are alive, and so are their
/// anchors.
pub open spec fn alive(sets: Seq<SetModel>, roots: Seq<bool>, anchors: Seq<bool>) -> Seq<bool> {
    Seq::new(sets.len(), |i: int| roots[i] && (sets[i].anchor is None || anchors[i]))
}

/// A frame that begins.
pub open spec fn frame_begun(sets: Seq<SetModel>, config: Tiles3dConfig) -> FrameModel {
    let resident = resident_total(sets) as u64;
    FrameModel {
        pressure: pressure_of(resident, config.memory_budget_bytes),
        load_slots: less(config.max_concurrent_loads as int, flights(sets) as int),
        halt_loads: over_hard_stop(resident, config.memory_budget_bytes) || config.halt_new_loads,
        respawns_left: config.max_respawns_per_frame as nat,
        compacted: false,
        candidates: Seq::empty(),
        any_in_flight: false,
        pending_respawns: false,
        google_visible: false,
        ground_covering: false,
    }
}

proof fn lemma_resident_kept(sets: Seq<SetModel>, keep: Seq<bool>)
    ensures
        resident_total(kept(sets, keep)) <= resident_total(sets),
    decreases sets.len(),
{
    if sets.len() > 0 {
        let rest = sets.drop_last();
        lemma_resident_kept(rest, keep);
        lemma_resident_prefix(sets, rest, rest.len() as int);
        let k = kept(sets, keep);
        let before = kept(rest, keep);
        if keep[sets.len() - 1] {
            assert(k.take(before.len() as int) =~= before);
            lemma_resident_prefix(k, before, before.len() as int);
        }
    }
}

proof fn lemma_resident_prefix(a: Seq<SetModel>, b: Seq<SetModel>, k: int)
    requires
        0 <= k <= b.len() <= a.len(),
        a.take(b.len() as int) == b,
    ensures
        resident_up_to(a, k) == resident_up_to(b, k),
    decreases k,
{
    if k > 0 {
        lemma_resident_prefix(a, b, k - 1);
        assert(a.take(b.len() as int)[k - 1] == b[k - 1]);
    }
}

impl Tiles3dSets {
    /// Begins a frame: the sets that are no longer there leave, and the loads
    /// and the memory are counted. `roots_alive` and `anchors_alive` say of each
    /// set what of it is still there.
    pub fn begin_frame(
        &mut self,
        config: &Tiles3dConfig,
        roots_alive: &Vec<bool>,
        anchors_alive: &Vec<bool>,
    ) -> (r: (Frame, Vec<DroppedSet>))
        requires
            sets_wf(old(self)@),
            old(self)@.frame < u64::MAX,
            roots_alive@.len() == old(self)@.sets.len(),
            anchors_alive@.len() == old(self)@.sets.len(),
            resident_total(old(self)@.sets) <= u64::MAX,
        ensures
            ({
                let keep = alive(old(self)@.sets, roots_alive@, anchors_alive@);
                &&& final(self)@ == (SetsModel {
                    sets: kept(old(self)@.sets, keep),
                    frame: (old(self)@.frame + 1) as u64,
                    ..old(self)@
                })
                &&& r.0@ == frame_begun(final(self)@.sets, *config)
                &&& crate::sets::gone_view(r.1@) == leaving(old(self)@.sets, keep)
            }),
            sets_wf(final(self)@),
    {
        let ghost m = self@;
        self.frame = self.frame + 1;
        assert(self@ =~= (SetsModel { frame: (m.frame + 1) as u64, ..m }));
        let mut keep: Vec<bool> = Vec::new();
        let mut i: usize = 0;
        while i < self.sets.len()
            invariant
                i <= self.sets@.len(),
                m.sets == self@.sets,
                roots_alive@.len() == m.sets.len(),
                anchors_alive@.len() == m.sets.len(),
                keep@.len() == i,
                forall|k: int|
                    0 <= k < i ==> #[trigger] keep@[k] == (roots_alive@[k] && (m.sets[k].anchor
                        is None || anchors_alive@[k])),
            decreases self.sets@.len() - i,
        {
            assert(m.sets[i as int] == self.sets@[i as int]@);
            let anchored = match self.sets[i].anchor {
                Some(_) => anchors_alive[i],
                None => true,
            };
            keep.push(roots_alive[i] && anchored);
            i = i + 1;
        }
        assert(keep@ =~= alive(m.sets, roots_alive@, anchors_alive@));
        let dropped = self.drop_sets(&keep);
        proof {
            lemma_resident_kept(m.sets, keep@);
        }
        let resident: u64 = self.resident_content_bytes();
        let frame = Frame {
            pressure: memory_pressure_factor(resident, config.memory_budget_bytes),
            load_slots: self.free_slots(config.max_concurrent_loads),
            halt_loads: hard_stopped(resident, config.memory_budget_bytes)
                || config.halt_new_loads,
            respawns_left: config.max_respawns_per_frame,
            compacted: false,
            candidates: Vec::new(),
            any_in_flight: false,
            pending_respawns: false,
            google_visible: false,
            ground_covering: false,
        };
        assert(frame@ =~= frame_begun(self@.sets, *config));
        (frame, dropped)
    }
}

/// A set's tree is due for compaction: it is large, and half again as large as
/// after the last time. One set per frame is compacted.
pub open spec fn is_due(s: SetModel, f: FrameModel, config: Tiles3dConfig) -> bool {
    let n = s.tiles.tree.len();
    let triple = if 3 * s.high_water > usize::MAX {
        usize::MAX as int
    } else {
        3 * s.high_water
    };
    !f.compacted && n >= config.tree_compact_min && n >= triple / 2
}

/// A set after its tree is compacted.
pub open spec fn set_compacted(s: SetModel, frame: u64, grace: u64) -> SetModel {
    let tiles = compacted(s.tiles, frame, grace);
    SetModel { tiles, high_water: tiles.tree.len() as usize, ..s }
}

/// Where a tile that stays stood before.
pub open spec fn stood_at(keep: Seq<bool>, j: int) -> int {
    choose|i: int| 0 <= i < keep.len() && #[trigger] keep[i] && rank(keep, i) == j
}

proof fn lemma_compacted(m: SetsModel, s: int, frame: u64, grace: u64)
    requires
        sets_wf(m),
        0 <= s < m.sets.len(),
    ensures
        sets_wf(
            SetsModel {
                sets: m.sets.update(s, set_compacted(m.sets[s], frame, grace)),
                ..m
            },
        ),
{
    let had = m.sets[s];
    let x = set_compacted(had, frame, grace);
    assert(set_wf(had));
    compaction_keeps_order(had.tiles, frame, grace);
    let keep = kept_tiles(had.tiles, frame, grace);
    crate::tiles::compaction_spares_what_is_used(had.tiles, frame, grace);
    let same = crate::tiles::keeps_all(keep);
    let from = |j: int|
        if same {
            j
        } else {
            stood_at(keep, j)
        };
    if !same {
        crate::tiles::lemma_keep(had.tiles, had.tiles.grafts.len() as int, frame, grace);
    }
    assert forall|j: int|
        0 <= j < x.tiles.slots.len() && (#[trigger] x.tiles.slots[j]) is InFlight implies flies(
        m.sets,
        s,
        from(j),
        x.tiles.slots[j]->generation,
    ) by {
        if !same {
            let i = lemma_kept_from(had.tiles.slots, keep, j);
            assert(keep[i]);
            let i0 = stood_at(keep, j);
            assert(0 <= i0 < keep.len() && keep[i0] && rank(keep, i0) == j);
            lemma_kept(had.tiles.slots, keep);
            assert(crate::tree::stands(had.tiles.slots, keep, i0));
        }
    }
    assert forall|i: int, j: int|
        0 <= i < j < x.tiles.slots.len() && (#[trigger] x.tiles.slots[i]) is InFlight && (
        #[trigger] x.tiles.slots[j]) is InFlight implies from(i) != from(j) by {
        if !same {
            let a = lemma_kept_from(had.tiles.slots, keep, i);
            let b = lemma_kept_from(had.tiles.slots, keep, j);
            assert(keep[a]);
            assert(keep[b]);
            assert(rank(keep, stood_at(keep, i)) == i);
            assert(rank(keep, stood_at(keep, j)) == j);
        }
    }
    lemma_set_changed(m, s, x, from);
}

impl Tiles3dSets {
    /// Compacts the tree of a set where it is due, and returns how many tiles
    /// went, and of each tile whether it stayed.
    pub fn compact_set(&mut self, s: usize, config: &Tiles3dConfig, f: &mut Frame) -> (r: Option<
        (usize, Vec<bool>),
    >)
        requires
            sets_wf(old(self)@),
            s < old(self)@.sets.len(),
        ensures
            ({
                let had = old(self)@.sets[s as int];
                if is_due(had, old(f)@, *config) {
                    let x = set_compacted(had, old(self)@.frame, config.grace_frames);
                    &&& final(self)@ == (SetsModel {
                        sets: old(self)@.sets.update(s as int, x),
                        ..old(self)@
                    })
                    &&& final(f)@ == (FrameModel { compacted: true, ..old(f)@ })
                    &&& r matches Some(r)
                    &&& r.0 == had.tiles.tree.len() - x.tiles.tree.len()
                    &&& r.1@ == kept_tiles(had.tiles, old(self)@.frame, config.grace_frames)
                } else {
                    &&& final(self)@ == old(self)@
                    &&& final(f)@ == old(f)@
                    &&& r is None
                }
            }),
            sets_wf(final(self)@),
    {
        let ghost m = self@;
        let ghost had = m.sets[s as int];
        assert(had == self.sets@[s as int]@);
        assert(set_wf(had));
        let n: usize = self.sets[s].tiles.tree.len();
        let triple: u128 = 3 * self.sets[s].compact_high_water as u128;
        let top: u128 = if triple > usize::MAX as u128 {
            usize::MAX as u128
        } else {
            triple
        };
        if f.compacted || n < config.tree_compact_min || (n as u128) < top / 2 {
            return None;
        }
        let frame: u64 = self.frame;
        let set: &mut ActiveTileset = &mut self.sets[s];
        let gone = set.tiles.compact_grafted_subtrees(frame, config.grace_frames);
        set.compact_high_water = set.tiles.tree.len();
        f.compacted = true;
        assert(self.sets@[s as int]@ =~= set_compacted(had, m.frame, config.grace_frames));
        assert(self@.sets =~= m.sets.update(
            s as int,
            set_compacted(had, m.frame, config.grace_frames),
        ));
        proof {
            lemma_compacted(m, s as int, m.frame, config.grace_frames);
        }
        Some(gone)
    }
}

/// What a traversal picked.
#[derive(Debug)]
pub struct Selection {
    /// The tiles of the cut.
    pub render: Vec<usize>,
    /// The tiles that are wanted next, the most wanted first.
    pub loads: Vec<usize>,
    /// The tiles that the traversal visited.
    pub touched: Vec<bool>,
    /// The tiles that were rendered, for the next traversal.
    pub rendered: Vec<bool>,
    /// The tiles that were refined, for the next traversal.
    pub refined: Vec<bool>,
}

/// [`Selection`] as a mathematical value.
pub struct Picked {
    pub render: Seq<usize>,
    pub loads: Seq<usize>,
    pub touched: Seq<bool>,
    pub rendered: Seq<bool>,
    pub refined: Seq<bool>,
}

impl View for Selection {
    type V = Picked;

    open spec fn view(&self) -> Picked {
        Picked {
            render: self.render@,
            loads: self.loads@,
            touched: self.touched@,
            rendered: self.rendered@,
            refined: self.refined@,
        }
    }
}

/// A selection over `n` tiles.
pub open spec fn picks_from(p: Picked, n: nat) -> bool {
    &&& forall|k: int| 0 <= k < p.render.len() ==> #[trigger] p.render[k] < n
    &&& forall|k: int| 0 <= k < p.loads.len() ==> #[trigger] p.loads[k] < n
    &&& p.touched.len() == n
    &&& p.rendered.len() == n
    &&& p.refined.len() == n
}

/// What a frame knows of a set beside its tiles.
#[derive(Clone, Copy, Debug)]
pub struct SetTurn {
    /// The earth's frame has a place in the scene.
    pub has_origin: bool,
    /// The priority class of the set.
    pub class: u8,
    /// The set may make no more requests today.
    pub budget_exhausted: bool,
}

/// What a frame does to a set.
#[derive(Debug)]
pub struct SetActions {
    /// The changes to the scene, in order.
    pub actions: Vec<CutAction>,
    /// The requests that are called off.
    pub aborts: Vec<u64>,
    /// The placeholder of the anchor goes.
    pub clear_placeholder: bool,
    /// Say that the set may make no more requests.
    pub warn_budget: bool,
}

/// [`SetActions`] as a mathematical value.
#[verifier::ext_equal]
pub struct Acts {
    pub actions: Seq<CutAction>,
    pub aborts: Seq<u64>,
    pub clear_placeholder: bool,
    pub warn_budget: bool,
}

impl View for SetActions {
    type V = Acts;

    open spec fn view(&self) -> Acts {
        Acts {
            actions: self.actions@,
            aborts: self.aborts@,
            clear_placeholder: self.clear_placeholder,
            warn_budget: self.warn_budget,
        }
    }
}

/// The least depth of the first `k` tiles of a cut.
pub open spec fn least_depth(t: Seq<Node>, render: Seq<usize>, k: int) -> int
    decreases k,
{
    if k <= 1 {
        t[render[0] as int].depth
    } else {
        let d = least_depth(t, render, k - 1);
        let e = t[render[k - 1] as int].depth;
        if e < d {
            e
        } else {
            d
        }
    }
}

/// The greatest depth of the first `k` tiles of a cut.
pub open spec fn greatest_depth(t: Seq<Node>, render: Seq<usize>, k: int) -> int
    decreases k,
{
    if k <= 1 {
        t[render[0] as int].depth
    } else {
        let d = greatest_depth(t, render, k - 1);
        let e = t[render[k - 1] as int].depth;
        if e > d {
            e
        } else {
            d
        }
    }
}

/// The size and the depths of a cut; those of the last one where it is empty.
pub open spec fn cut_shape(
    t: Seq<Node>,
    render: Seq<usize>,
    last: Option<(usize, usize, usize)>,
) -> Option<(usize, usize, usize)> {
    let n = render.len() as int;
    if n == 0 {
        last
    } else {
        Some(
            (
                n as usize,
                least_depth(t, render, n) as usize,
                greatest_depth(t, render, n) as usize,
            ),
        )
    }
}

fn shape_of_cut(set: &ActiveTileset, render: &Vec<usize>) -> (r: Option<(usize, usize, usize)>)
    requires
        forall|k: int| 0 <= k < render@.len() ==> #[trigger] render@[k] < set@.tiles.tree.len(),
    ensures
        r == cut_shape(set@.tiles.tree, render@, set@.last_cut),
{
    let n: usize = render.len();
    if n == 0 {
        return set.last_cut;
    }
    let ghost t = set@.tiles.tree;
    let first: usize = render[0];
    assert(t[first as int] == set.tiles.tree.nodes@[first as int]@);
    let mut lo: usize = set.tiles.tree.nodes[first].depth;
    let mut hi: usize = lo;
    let mut k: usize = 1;
    while k < n
        invariant
            1 <= k <= n,
            n == render@.len(),
            t == set.tiles.tree@,
            forall|k: int| 0 <= k < render@.len() ==> #[trigger] render@[k] < t.len(),
            lo == least_depth(t, render@, k as int),
            hi == greatest_depth(t, render@, k as int),
        decreases n - k,
    {
        let i: usize = render[k];
        assert(t[i as int] == set.tiles.tree.nodes@[i as int]@);
        let d: usize = set.tiles.tree.nodes[i].depth;
        if d < lo {
            lo = d;
        }
        if d > hi {
            hi = d;
        }
        k = k + 1;
    }
    Some((n, lo, hi))
}

/// Something of a set is on its way.
pub open spec fn any_flying(slots: Seq<TileSlot>) -> bool {
    exists|i: int| 0 <= i < slots.len() && (#[trigger] slots[i]) is InFlight
}

fn is_flying(slots: &Vec<TileSlot>) -> (r: bool)
    ensures
        r == any_flying(slots@),
{
    let mut i: usize = 0;
    while i < slots.len()
        invariant
            i <= slots@.len(),
            forall|k: int| 0 <= k < i ==> !((#[trigger] slots@[k]) is InFlight),
        decreases slots@.len() - i,
    {
        if let TileSlot::InFlight { .. } = slots[i] {
            assert(slots@[i as int] is InFlight);
            return true;
        }
        i = i + 1;
    }
    false
}

/// What a frame makes of a set.
#[verifier::ext_equal]
pub struct Turn {
    pub set: SetModel,
    pub frame: FrameModel,
    pub acts: Acts,
    pub next: nat,
}

/// The steps of a set's turn, as far as the tiles go.
#[verifier::ext_equal]
pub struct TurnTiles {
    pub touched: Seq<u64>,
    pub want: Seq<bool>,
    pub hold: Seq<bool>,
    /// After the cut is applied.
    pub cut: Cut,
    pub wanted: Seq<bool>,
    /// After the requests that fell out are called off.
    pub kept: Seq<TileSlot>,
    pub evict: Seq<usize>,
    /// After the idle content is dropped.
    pub end: Dropping,
}

/// The steps of a set's turn.
pub open spec fn turn_tiles(
    t: TilesModel,
    p: Picked,
    visible: Seq<bool>,
    config: Tiles3dConfig,
    frame: u64,
    left: nat,
    next: nat,
) -> TurnTiles {
    let n = t.tree.len();
    let touched = Seq::new(
        n,
        |i: int|
            if p.touched[i] {
                frame
            } else {
                t.touched[i]
            },
    );
    let want = flagged(p.render, n);
    let hold = held(t.tree, want, t.slots);
    let covered = painted_over(t.tree, hold, want, visible, t.slots);
    let cut = cut_applied(
        Cut { slots: t.slots, actions: Seq::empty(), left, next },
        CutView { want, visible, hold, covered, placed: true },
    );
    let wanted = flagged(p.loads, n);
    let after = cancelled(cut.slots, wanted);
    let evict = evicted(
        Residents { slots: after, want, hold, touched },
        frame,
        config.grace_frames,
        config.max_resident_tiles as int,
    );
    let end = dropped_up_to(
        Dropping { slots: after, caches: t.caches, actions: cut.actions },
        evict,
        evict.len() as int,
    );
    TurnTiles { touched, want, hold, cut, wanted, kept: after, evict, end }
}

/// A set's turn in a frame: its cut is applied, requests that fell out are
/// called off, requests are collected, and idle content is dropped. A set
/// without a place in the scene is left alone.
pub open spec fn turn_of(
    s: SetModel,
    p: Picked,
    visible: Seq<bool>,
    turn: SetTurn,
    set_idx: usize,
    config: Tiles3dConfig,
    frame: u64,
    f: FrameModel,
    next: nat,
) -> Turn {
    if s.ecef && !turn.has_origin {
        Turn {
            set: s,
            frame: f,
            acts: Acts {
                actions: Seq::empty(),
                aborts: Seq::empty(),
                clear_placeholder: false,
                warn_budget: false,
            },
            next,
        }
    } else {
        let t = s.tiles;
        let n = t.tree.len();
        let tt = turn_tiles(t, p, visible, config, frame, f.respawns_left, next);
        let exhausted = s.live && turn.budget_exhausted;
        let paints = p.render.len() > 0;
        let clears = !s.placeholder_cleared && paints && s.owner is Some;
        let more = if f.load_slots > 0 && !exhausted && !f.halt_loads {
            candidates_up_to(
                tt.kept,
                t.tree,
                p.loads,
                p.loads.len() as int,
                set_idx,
                s.id,
                turn.class,
                any_ready(tt.kept),
            )
        } else {
            Seq::empty()
        };
        Turn {
            set: SetModel {
                tiles: TilesModel {
                    slots: tt.end.slots,
                    caches: tt.end.caches,
                    touched: tt.touched,
                    rendered: p.rendered,
                    refined: p.refined,
                    ..t
                },
                placeholder_cleared: s.placeholder_cleared || clears,
                last_cut: cut_shape(t.tree, p.render, s.last_cut),
                budget_warned: s.budget_warned || exhausted,
                ..s
            },
            frame: FrameModel {
                respawns_left: tt.cut.left,
                candidates: f.candidates + more,
                any_in_flight: f.any_in_flight || any_flying(tt.end.slots),
                pending_respawns: f.pending_respawns || any_starving(tt.want, t.slots),
                google_visible: f.google_visible || (s.live && paints),
                ground_covering: f.ground_covering || (s.ecef && paints),
                ..f
            },
            acts: Acts {
                actions: tt.end.actions,
                aborts: fallen_out(tt.cut.slots, tt.wanted, n as int),
                clear_placeholder: clears && s.anchor is Some,
                warn_budget: exhausted && !s.budget_warned,
            },
            next: tt.cut.next,
        }
    }
}

proof fn lemma_dropped_slot(d: Dropping, list: Seq<usize>, k: int, i: int)
    requires
        0 <= k <= list.len(),
        0 <= i < d.slots.len(),
        forall|j: int| 0 <= j < list.len() ==> #[trigger] list[j] < d.slots.len(),
    ensures
        dropped_up_to(d, list, k).slots.len() == d.slots.len(),
        dropped_up_to(d, list, k).slots[i] == d.slots[i] || dropped_up_to(d, list, k).slots[i]
            is NotLoaded,
    decreases k,
{
    if k > 0 {
        lemma_dropped_slot(d, list, k - 1, i);
    }
}

/// A set's turn starts no request: what is on its way after it was on its way
/// before, under the same generation.
proof fn lemma_turn_flights(
    t: TilesModel,
    p: Picked,
    visible: Seq<bool>,
    config: Tiles3dConfig,
    frame: u64,
    left: nat,
    next: nat,
    i: int,
)
    requires
        tiles_wf(t),
        picks_from(p, t.tree.len()),
        0 <= i < t.tree.len(),
        turn_tiles(t, p, visible, config, frame, left, next).end.slots[i] is InFlight,
    ensures
        turn_tiles(t, p, visible, config, frame, left, next).end.slots[i] == t.slots[i],
{
    let tt = turn_tiles(t, p, visible, config, frame, left, next);
    let c = Cut { slots: t.slots, actions: Seq::empty(), left, next };
    let covered = painted_over(t.tree, tt.hold, tt.want, visible, t.slots);
    let v = CutView { want: tt.want, visible, hold: tt.hold, covered, placed: true };
    crate::stream::cut_leaves_flights(c, v, i);
    crate::stream::hiding_keeps_content(c, v);
    assert forall|j: int| 0 <= j < tt.evict.len() implies #[trigger] tt.evict[j]
        < tt.kept.len() by {
        crate::evict::eviction_spares_the_scene(
            Residents { slots: tt.kept, want: tt.want, hold: tt.hold, touched: tt.touched },
            frame,
            config.grace_frames,
            config.max_resident_tiles as int,
            j,
        );
    }
    lemma_dropped_slot(
        Dropping { slots: tt.kept, caches: t.caches, actions: tt.cut.actions },
        tt.evict,
        tt.evict.len() as int,
        i,
    );
}

impl Tiles3dSets {
    /// Gives a set its turn in a frame. `visible` says of each tile whether what
    /// stands for it is visible.
    #[verifier::rlimit(40)]
    pub fn drive_set(
        &mut self,
        s: usize,
        config: &Tiles3dConfig,
        f: &mut Frame,
        sel: Selection,
        visible: &Vec<bool>,
        turn: SetTurn,
    ) -> (r: SetActions)
        requires
            sets_wf(old(self)@),
            s < old(self)@.sets.len(),
            picks_from(sel@, old(self)@.sets[s as int].tiles.tree.len()),
            visible@.len() == old(self)@.sets[s as int].tiles.tree.len(),
            old(self)@.next_entity + old(f)@.respawns_left <= u64::MAX,
        ensures
            ({
                let want = turn_of(
                    old(self)@.sets[s as int],
                    sel@,
                    visible@,
                    turn,
                    s,
                    *config,
                    old(self)@.frame,
                    old(f)@,
                    old(self)@.next_entity as nat,
                );
                &&& final(self)@ == (SetsModel {
                    sets: old(self)@.sets.update(s as int, want.set),
                    next_entity: want.next as u64,
                    ..old(self)@
                })
                &&& final(f)@ == want.frame
                &&& r@ == want.acts
            }),
            sets_wf(final(self)@),
            final(self)@.next_entity + final(f)@.respawns_left == old(self)@.next_entity + old(
                f,
            )@.respawns_left,
    {
        let ghost m = self@;
        let ghost f0 = f@;
        let ghost had = m.sets[s as int];
        assert(had == self.sets@[s as int]@);
        assert(set_wf(had));
        let ghost p = sel@;
        let ghost want_turn = turn_of(
            had,
            p,
            visible@,
            turn,
            s,
            *config,
            m.frame,
            f0,
            m.next_entity as nat,
        );
        if self.sets[s].ecef && !turn.has_origin {
            let r = SetActions {
                actions: Vec::new(),
                aborts: Vec::new(),
                clear_placeholder: false,
                warn_budget: false,
            };
            assert(r@ =~= want_turn.acts);
            assert(self@.sets =~= m.sets.update(s as int, had));
            return r;
        }
        let frame: u64 = self.frame;
        let mut next: u64 = self.next_entity;
        let mut left: usize = f.respawns_left;
        let ghost tt = turn_tiles(
            had.tiles,
            p,
            visible@,
            *config,
            m.frame,
            f0.respawns_left,
            m.next_entity as nat,
        );
        let set: &mut ActiveTileset = &mut self.sets[s];
        let n: usize = set.tiles.tree.len();
        set.tiles.touch(&sel.touched, frame);
        assert(set.tiles@.touched =~= tt.touched);
        let want = flags_of(&sel.render, n);
        let (hold, starved) = refinement_hold(&set.tiles.tree, &want, &set.tiles.slots);
        let covered = covered_by_coarser(
            &set.tiles.tree,
            &hold,
            &want,
            visible,
            &set.tiles.slots,
        );
        let mut actions = apply_cut(
            &mut set.tiles.slots,
            &want,
            visible,
            &hold,
            &covered,
            true,
            &mut left,
            &mut next,
        );
        assert(set.tiles.slots@ == tt.cut.slots);
        let paints = sel.render.len() > 0;
        let owned = match set.owner_id {
            Some(_) => true,
            None => false,
        };
        let clears = !set.placeholder_cleared && paints && owned;
        let anchored = match set.anchor {
            Some(_) => true,
            None => false,
        };
        if clears {
            set.placeholder_cleared = true;
        }
        let wanted = flags_of(&sel.loads, n);
        let aborts = cancel_unwanted(&mut set.tiles.slots, &wanted);
        assert(set.tiles.slots@ == tt.kept);
        let exhausted = set.live && turn.budget_exhausted;
        let warn = exhausted && !set.budget_warned;
        if exhausted {
            set.budget_warned = true;
        }
        if f.load_slots > 0 && !exhausted && !f.halt_loads {
            let mut more = collect_candidates(
                &set.tiles.tree,
                &set.tiles.slots,
                &sel.loads,
                s,
                set.id,
                turn.class,
            );
            f.candidates.append(&mut more);
        } else {
            assert(f.candidates@ =~= f0.candidates + Seq::empty());
        }
        let evict = plan_eviction(
            &set.tiles.slots,
            &want,
            &hold,
            &set.tiles.last_touched,
            frame,
            config.grace_frames,
            config.max_resident_tiles,
        );
        drop_content(&mut set.tiles.slots, &mut set.tiles.caches, &mut actions, &evict);
        assert(set.tiles.slots@ == tt.end.slots);
        set.last_cut = shape_of_cut(&*set, &sel.render);
        set.tiles.rendered = sel.rendered;
        set.tiles.refined = sel.refined;
        if set.live && paints {
            f.google_visible = true;
        }
        if set.ecef && paints {
            f.ground_covering = true;
        }
        if is_flying(&set.tiles.slots) {
            f.any_in_flight = true;
        }
        if starved {
            f.pending_respawns = true;
        }
        f.respawns_left = left;
        assert(set@ =~= want_turn.set);
        self.next_entity = next;
        assert(self.sets@[s as int]@ =~= want_turn.set);
        assert(self@.sets =~= m.sets.update(s as int, want_turn.set));
        let r = SetActions { actions, aborts, clear_placeholder: clears && anchored, warn_budget: warn };
        assert(r@ =~= want_turn.acts);
        assert(f@ =~= want_turn.frame);
        proof {
            let x = want_turn.set;
            let from = |j: int| j;
            assert forall|j: int|
                0 <= j < x.tiles.slots.len() && (#[trigger] x.tiles.slots[j]) is InFlight implies flies(
                m.sets,
                s as int,
                from(j),
                x.tiles.slots[j]->generation,
            ) by {
                lemma_turn_flights(
                    had.tiles,
                    p,
                    visible@,
                    *config,
                    m.frame,
                    f0.respawns_left,
                    m.next_entity as nat,
                    j,
                );
            }
            lemma_set_changed(m, s as int, x, from);
        }
        r
    }
}

/// A load that starts.
#[derive(Debug)]
pub struct LoadRequest {
    pub set_id: u64,
    pub generation: u64,
    pub uri: String,
    /// The set lies in the earth's own frame.
    pub georeferenced: bool,
}

/// [`LoadRequest`] as a mathematical value.
pub struct Request {
    pub set_id: u64,
    pub generation: u64,
    pub uri: Seq<char>,
    pub georeferenced: bool,
}

impl View for LoadRequest {
    type V = Request;

    open spec fn view(&self) -> Request {
        Request {
            set_id: self.set_id,
            generation: self.generation,
            uri: self.uri@,
            georeferenced: self.georeferenced,
        }
    }
}

/// The views of requests.
pub open spec fn requests_view(v: Seq<LoadRequest>) -> Seq<Request> {
    Seq::new(v.len(), |i: int| v[i]@)
}

/// The state while loads are started.
#[verifier::ext_equal]
pub struct Issue {
    pub sets: Seq<SetModel>,
    pub left: nat,
    pub next: nat,
    /// The set that each class last gave a slot to.
    pub cursors: Map<u8, u64>,
    pub requests: Seq<Request>,
}

/// A request can still be made: its tile is there, is not loaded, and has a
/// name.
pub open spec fn can_start(sets: Seq<SetModel>, c: LoadCandidate) -> bool {
    &&& c.set_idx < sets.len()
    &&& c.tile < sets[c.set_idx as int].tiles.tree.len()
    &&& sets[c.set_idx as int].tiles.slots[c.tile as int] is NotLoaded
    &&& sets[c.set_idx as int].tiles.tree[c.tile as int].uri is Some
}

/// A set with a tile on its way.
pub open spec fn set_started(s: SetModel, tile: int, g: u64) -> SetModel {
    SetModel {
        tiles: TilesModel {
            slots: s.tiles.slots.update(tile, TileSlot::InFlight { generation: g }),
            ..s.tiles
        },
        ..s
    }
}

/// A request is made where there is a slot for it.
pub open spec fn started(x: Issue, c: LoadCandidate) -> Issue {
    if x.left == 0 || !can_start(x.sets, c) {
        x
    } else {
        let s = x.sets[c.set_idx as int];
        Issue {
            sets: x.sets.update(
                c.set_idx as int,
                set_started(s, c.tile as int, x.next as u64),
            ),
            left: (x.left - 1) as nat,
            next: x.next + 1,
            cursors: x.cursors.insert(c.class, c.set_id),
            requests: x.requests.push(
                Request {
                    set_id: s.id,
                    generation: x.next as u64,
                    uri: s.tiles.tree[c.tile as int].uri->Some_0,
                    georeferenced: s.ecef,
                },
            ),
        }
    }
}

/// The first `k` requests are made where there are slots for them.
pub open spec fn started_up_to(x: Issue, cands: Seq<LoadCandidate>, k: int) -> Issue
    decreases k,
{
    if k <= 0 {
        x
    } else {
        started(started_up_to(x, cands, k - 1), cands[k - 1])
    }
}

proof fn lemma_start_wf(m: SetsModel, s: int, tile: int)
    requires
        sets_wf(m),
        0 <= s < m.sets.len(),
        0 <= tile < m.sets[s].tiles.slots.len(),
        m.next_generation < u64::MAX,
        m.sets[s].tiles.slots[tile] is NotLoaded,
    ensures
        sets_wf(
            SetsModel {
                sets: m.sets.update(s, set_started(m.sets[s], tile, m.next_generation)),
                next_generation: (m.next_generation + 1) as u64,
                ..m
            },
        ),
{
    let g0 = m.next_generation;
    let x = set_started(m.sets[s], tile, g0);
    let sets = m.sets.update(s, x);
    assert(set_wf(m.sets[s]));
    assert forall|t: int, i: int, g: u64| #[trigger] flies(sets, t, i, g) implies (t == s && i
        == tile && g == g0) || (flies(m.sets, t, i, g) && g < g0) by {
        if !(t == s && i == tile) {
            assert(flies(m.sets, t, i, g));
        }
    }
    assert forall|t: int, i: int, u: int, j: int, g: u64| #[trigger]
        flies(sets, t, i, g) && #[trigger] flies(sets, u, j, g) implies t == u && i == j by {
        if flies(m.sets, t, i, g) && flies(m.sets, u, j, g) {
            assert(t == u && i == j);
        }
    }
    assert forall|t: int| 0 <= t < sets.len() implies (#[trigger] sets[t]).id < m.next_set_id by {
        assert(m.sets[t].id < m.next_set_id);
    }
    assert forall|t: int, u: int| 0 <= t < u < sets.len() implies (#[trigger] sets[t]).id != (
    #[trigger] sets[u]).id by {
        assert(m.sets[t].id != m.sets[u].id);
    }
    assert forall|t: int| 0 <= t < sets.len() implies set_wf(#[trigger] sets[t]) by {
        assert(set_wf(m.sets[t]));
    }
}

proof fn lemma_flying_update(slots: Seq<TileSlot>, i: int, g: u64, k: int)
    requires
        0 <= i < slots.len(),
        0 <= k <= slots.len(),
        !(slots[i] is InFlight),
    ensures
        flying_up_to(slots.update(i, TileSlot::InFlight { generation: g }), k) == flying_up_to(
            slots,
            k,
        ) + if i < k {
            1nat
        } else {
            0
        },
    decreases k,
{
    if k > 0 {
        lemma_flying_update(slots, i, g, k - 1);
    }
}

proof fn lemma_flights_update(sets: Seq<SetModel>, s: int, tile: int, g: u64, k: int)
    requires
        0 <= s < sets.len(),
        0 <= k <= sets.len(),
        0 <= tile < sets[s].tiles.slots.len(),
        !(sets[s].tiles.slots[tile] is InFlight),
    ensures
        flights_up_to(sets.update(s, set_started(sets[s], tile, g)), k) == flights_up_to(sets, k)
            + if s < k {
            1nat
        } else {
            0
        },
    decreases k,
{
    if k > 0 {
        lemma_flights_update(sets, s, tile, g, k - 1);
        if s == k - 1 {
            let slots = sets[s].tiles.slots;
            lemma_flying_update(slots, tile, g, slots.len() as int);
        }
    }
}

/// Every load takes a slot: as many more tiles are on their way as slots were
/// used up. So no more tiles are on their way than the pool holds, unless more
/// were before.
pub proof fn loads_stay_in_the_pool(x: Issue, cands: Seq<LoadCandidate>, k: int)
    requires
        0 <= k <= cands.len(),
        forall|s: int|
            0 <= s < x.sets.len() ==> (#[trigger] x.sets[s]).tiles.slots.len()
                == x.sets[s].tiles.tree.len(),
    ensures
        flights(started_up_to(x, cands, k).sets) + started_up_to(x, cands, k).left == flights(
            x.sets,
        ) + x.left,
        started_up_to(x, cands, k).next + started_up_to(x, cands, k).left == x.next + x.left,
        started_up_to(x, cands, k).requests.len() + started_up_to(x, cands, k).left
            == x.requests.len() + x.left,
        started_up_to(x, cands, k).sets.len() == x.sets.len(),
        forall|s: int|
            0 <= s < x.sets.len() ==> (#[trigger] started_up_to(
                x,
                cands,
                k,
            ).sets[s]).tiles.slots.len() == started_up_to(x, cands, k).sets[s].tiles.tree.len(),
    decreases k,
{
    if k > 0 {
        loads_stay_in_the_pool(x, cands, k - 1);
        let before = started_up_to(x, cands, k - 1);
        let c = cands[k - 1];
        if before.left > 0 && can_start(before.sets, c) {
            assert(before.sets[c.set_idx as int].tiles.slots.len()
                == before.sets[c.set_idx as int].tiles.tree.len());
            lemma_flights_update(
                before.sets,
                c.set_idx as int,
                c.tile as int,
                before.next as u64,
                before.sets.len() as int,
            );
        }
    }
}

/// Candidate `i` gets a slot when its turn comes.
pub open spec fn gets_slot(x: Issue, cands: Seq<LoadCandidate>, i: int) -> bool {
    started_up_to(x, cands, i).left > 0 && can_start(started_up_to(x, cands, i).sets, cands[i])
}

/// The slot of the tile that a candidate asks for.
pub open spec fn slot_asked(sets: Seq<SetModel>, c: LoadCandidate) -> TileSlot {
    sets[c.set_idx as int].tiles.slots[c.tile as int]
}

/// The tiles of each set, and whose set it is, are the same.
pub open spec fn same_sets(a: Seq<SetModel>, b: Seq<SetModel>) -> bool {
    a.len() == b.len() && forall|s: int|
        0 <= s < a.len() ==> {
            &&& (#[trigger] b[s]).id == a[s].id
            &&& b[s].ecef == a[s].ecef
            &&& b[s].tiles.tree == a[s].tiles.tree
            &&& b[s].tiles.slots.len() == a[s].tiles.slots.len()
        }
}

/// Tile `i` of set `s` is as it was, or it was put on its way: it was not loaded,
/// a candidate asked for it, and the request made for it carries its generation,
/// its name and its set.
pub open spec fn is_left_or_started(x: Issue, e: Issue, cands: Seq<LoadCandidate>, k: int, s: int, i: int) -> bool {
    let was = x.sets[s].tiles.slots[i];
    let now = e.sets[s].tiles.slots[i];
    now == was || {
        &&& was is NotLoaded
        &&& now matches TileSlot::InFlight { generation: g }
        &&& x.next <= g < e.next
        &&& e.requests[x.requests.len() + (g - x.next)].generation == g
        &&& e.requests[x.requests.len() + (g - x.next)].set_id == x.sets[s].id
        &&& Some(e.requests[x.requests.len() + (g - x.next)].uri) == x.sets[s].tiles.tree[i].uri
        &&& e.requests[x.requests.len() + (g - x.next)].georeferenced == x.sets[s].ecef
        &&& exists|j: int| 0 <= j < k && #[trigger] asks_for(cands[j], s, i)
    }
}

/// The candidate asks for tile `i` of set `s`.
pub open spec fn asks_for(c: LoadCandidate, s: int, i: int) -> bool {
    c.set_idx == s && c.tile == i
}

/// A tile changes only where a candidate asked for it: it is then on its way under
/// a generation of its own, and the one request with that generation names it.
pub proof fn requests_name_their_tile(x: Issue, cands: Seq<LoadCandidate>, k: int)
    requires
        0 <= k <= cands.len(),
        x.next + x.left <= u64::MAX,
        forall|s: int|
            0 <= s < x.sets.len() ==> (#[trigger] x.sets[s]).tiles.slots.len()
                == x.sets[s].tiles.tree.len(),
    ensures
        ({
            let e = started_up_to(x, cands, k);
            &&& same_sets(x.sets, e.sets)
            &&& x.next <= e.next
            &&& e.next + e.left == x.next + x.left
            &&& e.requests.len() == x.requests.len() + (e.next - x.next)
            &&& forall|j: int| 0 <= j < x.requests.len() ==> #[trigger] e.requests[j] == x.requests[j]
            &&& forall|s: int, i: int|
                0 <= s < x.sets.len() && 0 <= i < x.sets[s].tiles.slots.len()
                    ==> #[trigger] is_left_or_started(x, e, cands, k, s, i)
        }),
    decreases k,
{
    if k > 0 {
        requests_name_their_tile(x, cands, k - 1);
        let b = started_up_to(x, cands, k - 1);
        let e = started_up_to(x, cands, k);
        let c = cands[k - 1];
        let got = gets_slot(x, cands, k - 1);
        assert(same_sets(x.sets, e.sets)) by {
            assert forall|s: int| 0 <= s < x.sets.len() implies {
                &&& (#[trigger] e.sets[s]).id == x.sets[s].id
                &&& e.sets[s].ecef == x.sets[s].ecef
                &&& e.sets[s].tiles.tree == x.sets[s].tiles.tree
                &&& e.sets[s].tiles.slots.len() == x.sets[s].tiles.slots.len()
            } by {
                assert(b.sets[s].id == x.sets[s].id);
            }
        }
        assert forall|s: int, i: int|
            0 <= s < x.sets.len() && 0 <= i < x.sets[s].tiles.slots.len() implies #[trigger] is_left_or_started(
        x, e, cands, k, s, i) by {
            assert(is_left_or_started(x, b, cands, k - 1, s, i));
            assert(b.sets[s].id == x.sets[s].id);
            if got && c.set_idx == s && c.tile == i {
                assert(asks_for(cands[k - 1], s, i));
                assert(e.requests[b.requests.len() as int].generation == b.next as u64);
            } else if b.sets[s].tiles.slots[i] != x.sets[s].tiles.slots[i] {
                let j = choose|j: int| 0 <= j < k - 1 && #[trigger] asks_for(cands[j], s, i);
                assert(asks_for(cands[j], s, i));
                let g = b.sets[s].tiles.slots[i]->generation;
                assert(e.requests[x.requests.len() + (g - x.next)] == b.requests[x.requests.len() + (
                g - x.next)]);
            }
        }
    }
}

/// Slots go to requests in order: a request whose tile can be loaded is passed
/// over only where no slot is left when its turn comes.
pub proof fn slots_go_out_in_order(x: Issue, cands: Seq<LoadCandidate>, k: int, i: int)
    requires
        0 <= i < k <= cands.len(),
        x.next + x.left <= u64::MAX,
        forall|s: int|
            0 <= s < x.sets.len() ==> (#[trigger] x.sets[s]).tiles.slots.len()
                == x.sets[s].tiles.tree.len(),
        can_start(x.sets, cands[i]),
    ensures
        started_up_to(x, cands, i).left > 0 ==> slot_asked(
            started_up_to(x, cands, k).sets,
            cands[i],
        ) is InFlight,
        started_up_to(x, cands, k).left > 0 ==> slot_asked(
            started_up_to(x, cands, k).sets,
            cands[i],
        ) is InFlight,
        started_up_to(x, cands, i).left == 0 ==> started_up_to(x, cands, k).sets == started_up_to(
            x,
            cands,
            i,
        ).sets,
    decreases k,
{
    let c = cands[i];
    let s = c.set_idx as int;
    let t = c.tile as int;
    let b = started_up_to(x, cands, k - 1);
    requests_name_their_tile(x, cands, k - 1);
    lemma_slots_shrink(x, cands, i, k);
    lemma_slots_shrink(x, cands, i, k - 1);
    assert(x.sets[s].tiles.slots.len() == x.sets[s].tiles.tree.len());
    assert(b.sets[s].tiles.tree == x.sets[s].tiles.tree);
    assert(is_left_or_started(x, b, cands, k - 1, s, t));
    if i < k - 1 {
        slots_go_out_in_order(x, cands, k - 1, i);
    }
}

/// Candidate `j` gets a slot of a class.
pub open spec fn gets_slot_of(x: Issue, cands: Seq<LoadCandidate>, j: int, class: u8) -> bool {
    gets_slot(x, cands, j) && cands[j].class == class
}

/// A class remembers the set that it last gave a slot to: that of the last
/// candidate that got one. Without one it remembers what it did before.
pub proof fn classes_remember_their_last_set(x: Issue, cands: Seq<LoadCandidate>, k: int, class: u8) -> (last:
    Option<int>)
    requires
        0 <= k <= cands.len(),
    ensures
        ({
            let now = started_up_to(x, cands, k).cursors;
            match last {
                Some(i) => {
                    &&& 0 <= i < k
                    &&& gets_slot_of(x, cands, i, class)
                    &&& forall|j: int| i < j < k ==> !#[trigger] gets_slot_of(x, cands, j, class)
                    &&& now.contains_key(class)
                    &&& now[class] == cands[i].set_id
                },
                None => {
                    &&& forall|j: int| 0 <= j < k ==> !#[trigger] gets_slot_of(x, cands, j, class)
                    &&& now.contains_key(class) == x.cursors.contains_key(class)
                    &&& now[class] == x.cursors[class]
                },
            }
        }),
    decreases k,
{
    if k <= 0 {
        None
    } else {
        let last = classes_remember_their_last_set(x, cands, k - 1, class);
        if gets_slot_of(x, cands, k - 1, class) {
            Some(k - 1)
        } else {
            last
        }
    }
}

proof fn lemma_slots_shrink(x: Issue, cands: Seq<LoadCandidate>, i: int, k: int)
    requires
        0 <= i <= k,
    ensures
        started_up_to(x, cands, k).left <= started_up_to(x, cands, i).left,
    decreases k - i,
{
    if i < k {
        lemma_slots_shrink(x, cands, i, k - 1);
    }
}

/// The lines of the first `k` sets.
pub open spec fn credit_lines(sets: Seq<SetModel>, k: int) -> Seq<Seq<char>>
    decreases k,
{
    if k <= 0 {
        Seq::empty()
    } else {
        let more = sets[k - 1].copyrights;
        lines_in(credit_lines(sets, k - 1), more, more.len() as int)
    }
}

/// What the scene must say of where its content comes from.
#[derive(Debug)]
pub struct TilesetCredits {
    pub lines: Vec<String>,
    /// Content of a service with sessions is on screen.
    pub google_visible: bool,
    /// A set in the earth's own frame is on screen: it is the ground.
    pub ground_covering: bool,
}

impl TilesetCredits {
    /// Nothing is on screen.
    pub fn none() -> (r: Self)
        ensures
            strings(r.lines@) == Seq::<Seq<char>>::empty(),
            !r.google_visible,
            !r.ground_covering,
    {
        let r = TilesetCredits { lines: Vec::new(), google_visible: false, ground_covering: false };
        assert(strings(r.lines@) =~= Seq::<Seq<char>>::empty());
        r
    }
}

/// What a frame ends with.
#[derive(Debug)]
pub struct FrameEnd {
    pub requests: Vec<LoadRequest>,
    pub credits: TilesetCredits,
    /// Another frame is needed: something is on its way, or has yet to be shown.
    pub redraw: bool,
}

impl Tiles3dSets {
    /// What the scene must say of where its content comes from.
    pub fn collect_credits(&self, google_visible: bool, ground_covering: bool) -> (r:
        TilesetCredits)
        ensures
            strings(r.lines@) == credit_lines(self@.sets, self@.sets.len() as int),
            r.google_visible == google_visible,
            r.ground_covering == ground_covering,
    {
        let ghost sets = self@.sets;
        let mut lines: Vec<String> = Vec::new();
        assert(strings(lines@) =~= Seq::empty());
        let mut s: usize = 0;
        while s < self.sets.len()
            invariant
                s <= self.sets@.len(),
                sets == self@.sets,
                strings(lines@) == credit_lines(sets, s as int),
            decreases self.sets@.len() - s,
        {
            assert(sets[s as int] == self.sets@[s as int]@);
            add_lines(&mut lines, &self.sets[s].copyrights);
            s = s + 1;
        }
        TilesetCredits { lines, google_visible, ground_covering }
    }

    /// Ends a frame: starts loads, over all sets, while there are slots.
    pub fn finish_frame(&mut self, f: Frame, cursors: &mut HashMap<u8, u64>) -> (r: FrameEnd)
        requires
            sets_wf(old(self)@),
            old(self)@.next_generation + f@.load_slots <= u64::MAX,
        ensures
            ({
                let cands = candidate_order(f@.candidates, old(cursors)@);
                let x = started_up_to(
                    Issue {
                        sets: old(self)@.sets,
                        left: f@.load_slots,
                        next: old(self)@.next_generation as nat,
                        cursors: old(cursors)@,
                        requests: Seq::empty(),
                    },
                    cands,
                    cands.len() as int,
                );
                &&& final(self)@ == (SetsModel {
                    sets: x.sets,
                    next_generation: x.next as u64,
                    ..old(self)@
                })
                &&& final(cursors)@ == x.cursors
                &&& requests_view(r.requests@) == x.requests
                &&& strings(r.credits.lines@) == credit_lines(x.sets, x.sets.len() as int)
                &&& r.credits.google_visible == f.google_visible
                &&& r.credits.ground_covering == f.ground_covering
                &&& r.redraw == (f.any_in_flight || x.requests.len() > 0 || f.pending_respawns)
            }),
            sets_wf(final(self)@),
    {
        broadcast use vstd::std_specs::hash::group_hash_axioms;

        let ghost m = self@;
        let ghost x0 = Issue {
            sets: m.sets,
            left: f@.load_slots,
            next: m.next_generation as nat,
            cursors: cursors@,
            requests: Seq::empty(),
        };
        let mut cands = f.candidates;
        sort_load_candidates(&mut cands, cursors);
        let mut left: usize = f.load_slots;
        let mut requests: Vec<LoadRequest> = Vec::new();
        assert(requests_view(requests@) =~= Seq::empty());
        let mut k: usize = 0;
        while k < cands.len()
            invariant
                k <= cands@.len(),
                sets_wf(self@),
                self@ == (SetsModel {
                    sets: self@.sets,
                    next_generation: self@.next_generation,
                    ..m
                }),
                self@.next_generation + left <= u64::MAX,
                started_up_to(x0, cands@, k as int) == (Issue {
                    sets: self@.sets,
                    left: left as nat,
                    next: self@.next_generation as nat,
                    cursors: cursors@,
                    requests: requests_view(requests@),
                }),
            decreases cands@.len() - k,
        {
            let c = cands[k];
            let ghost before = self@;
            if left > 0 && c.set_idx < self.sets.len() {
                let s: usize = c.set_idx;
                assert(before.sets[s as int] == self.sets@[s as int]@);
                assert(set_wf(before.sets[s as int]));
                if c.tile < self.sets[s].tiles.tree.len() {
                    let t: usize = c.tile;
                    assert(before.sets[s as int].tiles.tree[t as int]
                        == self.sets@[s as int].tiles.tree.nodes@[t as int]@);
                    let free = match self.sets[s].tiles.slots[t] {
                        TileSlot::NotLoaded => true,
                        _ => false,
                    };
                    let name: Option<String> = match &self.sets[s].tiles.tree.nodes[t].content_uri {
                        Some(u) => Some(String::from_str(u.as_str())),
                        None => None,
                    };
                    if free {
                        if let Some(uri) = name {
                            let generation: u64 = self.next_generation;
                            let req = LoadRequest {
                                set_id: self.sets[s].id,
                                generation,
                                uri,
                                georeferenced: self.sets[s].ecef,
                            };
                            let ghost had = requests_view(requests@);
                            requests.push(req);
                            assert(requests_view(requests@) =~= had.push(req@));
                            let set: &mut ActiveTileset = &mut self.sets[s];
                            set.tiles.slots.set(t, TileSlot::InFlight { generation });
                            self.next_generation = self.next_generation + 1;
                            left = left - 1;
                            let ghost cur = cursors@;
                            cursors.insert(c.class, c.set_id);
                            assert(cursors@ =~= cur.insert(c.class, c.set_id));
                            let ghost x = set_started(before.sets[s as int], t as int, generation);
                            assert(self.sets@[s as int]@ =~= x);
                            assert(self@.sets =~= before.sets.update(s as int, x));
                            proof {
                                lemma_start_wf(before, s as int, t as int);
                            }
                        }
                    }
                }
            }
            k = k + 1;
        }
        let credits = self.collect_credits(f.google_visible, f.ground_covering);
        let redraw = f.any_in_flight || requests.len() > 0 || f.pending_respawns;
        FrameEnd { requests, credits, redraw }
    }
}

/// A set's turn starts no load: no more of its tiles are on their way after it
/// than before.
pub proof fn turns_start_no_load(
    t: TilesModel,
    p: Picked,
    visible: Seq<bool>,
    config: Tiles3dConfig,
    frame: u64,
    left: nat,
    next: nat,
    k: int,
)
    requires
        tiles_wf(t),
        picks_from(p, t.tree.len()),
        0 <= k <= t.tree.len(),
    ensures
        flying_up_to(turn_tiles(t, p, visible, config, frame, left, next).end.slots, k)
            <= flying_up_to(t.slots, k),
    decreases k,
{
    if k > 0 {
        turns_start_no_load(t, p, visible, config, frame, left, next, k - 1);
        if turn_tiles(t, p, visible, config, frame, left, next).end.slots[k - 1] is InFlight {
            lemma_turn_flights(t, p, visible, config, frame, left, next, k - 1);
        }
    }
}

/// The turn of a set adds its requests behind those of the sets before it. None
/// of them says that the set starves where any tile of the set is in memory as
/// the turn begins; where none is, the first one says so.
pub proof fn turns_say_who_starves(
    s: SetModel,
    p: Picked,
    visible: Seq<bool>,
    turn: SetTurn,
    set_idx: usize,
    config: Tiles3dConfig,
    frame: u64,
    f: FrameModel,
    next: nat,
)
    requires
        tiles_wf(s.tiles),
        picks_from(p, s.tiles.tree.len()),
    ensures
        ({
            let all = turn_of(s, p, visible, turn, set_idx, config, frame, f, next).frame.candidates;
            let n = f.candidates.len() as int;
            &&& n <= all.len()
            &&& forall|j: int| 0 <= j < n ==> #[trigger] all[j] == f.candidates[j]
            &&& forall|j: int|
                n <= j < all.len() ==> {
                    let c = #[trigger] all[j];
                    c.set_idx == set_idx && c.set_id == s.id && c.class == turn.class
                }
            &&& forall|i: int, j: int|
                0 <= i < s.tiles.slots.len() && n <= j < all.len() && (
                #[trigger] s.tiles.slots[i]) is Ready ==> !(#[trigger] all[j]).starving_root
            &&& n < all.len() && (forall|i: int|
                0 <= i < s.tiles.slots.len() ==> !((#[trigger] s.tiles.slots[i]) is Ready))
                ==> all[n].starving_root
            &&& forall|j: int| n < j < all.len() ==> !(#[trigger] all[j]).starving_root
        }),
{
    let t = s.tiles;
    let all = turn_of(s, p, visible, turn, set_idx, config, frame, f, next).frame.candidates;
    let n = f.candidates.len() as int;
    let tt = turn_tiles(t, p, visible, config, frame, f.respawns_left, next);
    let c = Cut { slots: t.slots, actions: Seq::empty(), left: f.respawns_left, next };
    let covered = painted_over(t.tree, tt.hold, tt.want, visible, t.slots);
    let v = CutView { want: tt.want, visible, hold: tt.hold, covered, placed: true };
    crate::stream::hiding_keeps_content(c, v);
    assert forall|i: int| 0 <= i < t.slots.len() implies (#[trigger] tt.kept[i]) is Ready
        == t.slots[i] is Ready by {
        assert(crate::stream::is_ready(cut_applied(c, v).slots[i]) == crate::stream::is_ready(
            t.slots[i],
        ));
    }
    let at = crate::stream::requests_say_who_starves(
        tt.kept,
        t.tree,
        p.loads,
        set_idx,
        s.id,
        turn.class,
    );
    if all.len() > n {
        let more = candidates_up_to(
            tt.kept,
            t.tree,
            p.loads,
            p.loads.len() as int,
            set_idx,
            s.id,
            turn.class,
            any_ready(tt.kept),
        );
        assert(all == f.candidates + more);
        assert forall|j: int| n <= j < all.len() implies #[trigger] all[j] == more[j - n] by {}
        assert forall|i: int, j: int|
            0 <= i < t.slots.len() && n <= j < all.len() && (#[trigger] t.slots[i]) is Ready implies !(
        #[trigger] all[j]).starving_root by {
            assert(tt.kept[i] is Ready);
            assert(all[j] == more[j - n]);
        }
        assert(all[n] == more[0]);
    }
}

/// A tile of the cut that is in memory stays in memory through the set's turn.
pub proof fn turns_keep_the_cut(
    t: TilesModel,
    p: Picked,
    visible: Seq<bool>,
    config: Tiles3dConfig,
    frame: u64,
    left: nat,
    next: nat,
    i: int,
)
    requires
        tiles_wf(t),
        picks_from(p, t.tree.len()),
        0 <= i < t.tree.len(),
        t.slots[i] is Ready,
        flagged(p.render, t.tree.len())[i],
    ensures
        turn_tiles(t, p, visible, config, frame, left, next).end.slots[i] is Ready,
{
    let tt = turn_tiles(t, p, visible, config, frame, left, next);
    let c = Cut { slots: t.slots, actions: Seq::empty(), left, next };
    let covered = painted_over(t.tree, tt.hold, tt.want, visible, t.slots);
    let v = CutView { want: tt.want, visible, hold: tt.hold, covered, placed: true };
    crate::stream::hiding_keeps_content(c, v);
    assert(crate::stream::is_ready(cut_applied(c, v).slots[i]));
    let r = Residents { slots: tt.kept, want: tt.want, hold: tt.hold, touched: tt.touched };
    assert forall|j: int| 0 <= j < tt.evict.len() implies #[trigger] tt.evict[j] < tt.kept.len()
        && tt.evict[j] != i by {
        crate::evict::eviction_spares_the_scene(
            r,
            frame,
            config.grace_frames,
            config.max_resident_tiles as int,
            j,
        );
    }
    lemma_spared_slot(
        Dropping { slots: tt.kept, caches: t.caches, actions: tt.cut.actions },
        tt.evict,
        tt.evict.len() as int,
        i,
    );
}

pub proof fn lemma_spared_slot(d: Dropping, list: Seq<usize>, k: int, i: int)
    requires
        0 <= k <= list.len(),
        0 <= i < d.slots.len(),
        forall|j: int|
            0 <= j < list.len() ==> #[trigger] list[j] < d.slots.len() && list[j] != i,
    ensures
        dropped_up_to(d, list, k).slots.len() == d.slots.len(),
        dropped_up_to(d, list, k).slots[i] == d.slots[i],
    decreases k,
{
    if k > 0 {
        lemma_spared_slot(d, list, k - 1, i);
        assert(list[k - 1] != i);
    }
}

proof fn lemma_dropping_spawns_none(d: Dropping, list: Seq<usize>, k: int)
    requires
        0 <= k <= list.len(),
    ensures
        spawns(dropped_up_to(d, list, k).actions) == spawns(d.actions),
    decreases k,
{
    if k > 0 {
        lemma_dropping_spawns_none(d, list, k - 1);
        let before = dropped_up_to(d, list, k - 1);
        let after = dropped_up_to(d, list, k);
        if after.actions != before.actions {
            lemma_spawns_push(before.actions, after.actions.last());
            assert(after.actions == before.actions.push(after.actions.last()));
        }
    }
}

/// The sets of a frame share one budget of tiles that are put back into the
/// scene: each of them takes one away.
pub proof fn turns_share_the_respawns(
    s: SetModel,
    p: Picked,
    visible: Seq<bool>,
    turn: SetTurn,
    set_idx: usize,
    config: Tiles3dConfig,
    frame: u64,
    f: FrameModel,
    next: nat,
)
    ensures
        ({
            let t = turn_of(s, p, visible, turn, set_idx, config, frame, f, next);
            spawns(t.acts.actions) + t.frame.respawns_left == f.respawns_left
        }),
{
    if !(s.ecef && !turn.has_origin) {
        let tt = turn_tiles(s.tiles, p, visible, config, frame, f.respawns_left, next);
        let c = Cut { slots: s.tiles.slots, actions: Seq::empty(), left: f.respawns_left, next };
        let covered = painted_over(s.tiles.tree, tt.hold, tt.want, visible, s.tiles.slots);
        let v = CutView { want: tt.want, visible, hold: tt.hold, covered, placed: true };
        crate::stream::respawns_stay_in_budget(c, v);
        lemma_dropping_spawns_none(
            Dropping { slots: tt.kept, caches: s.tiles.caches, actions: tt.cut.actions },
            tt.evict,
            tt.evict.len() as int,
        );
    }
}

/// While loads are halted, or the pool is full, a set's turn asks for none; and
/// where no set asks for one, the frame starts none.
pub proof fn halted_frames_start_nothing(
    s: SetModel,
    p: Picked,
    visible: Seq<bool>,
    turn: SetTurn,
    set_idx: usize,
    config: Tiles3dConfig,
    frame: u64,
    f: FrameModel,
    next: nat,
    x: Issue,
)
    requires
        f.halt_loads || f.load_slots == 0,
    ensures
        ({
            let after = turn_of(s, p, visible, turn, set_idx, config, frame, f, next).frame;
            &&& after.candidates == f.candidates
            &&& after.halt_loads == f.halt_loads
            &&& after.load_slots == f.load_slots
        }),
        ({
            let none = candidate_order(Seq::empty(), x.cursors);
            started_up_to(x, none, none.len() as int) == x
        }),
{
    let after = turn_of(s, p, visible, turn, set_idx, config, frame, f, next).frame;
    assert(after.candidates =~= f.candidates);
}

/// The credits are the notices of all sets, each once, in order.
pub proof fn credits_name_every_set(sets: Seq<SetModel>, k: int)
    requires
        0 <= k <= sets.len(),
    ensures
        in_order(credit_lines(sets, k)),
        forall|y: Seq<char>| #[trigger]
            credit_lines(sets, k).contains(y) <==> exists|s: int|
                0 <= s < k && (#[trigger] sets[s]).copyrights.contains(y),
    decreases k,
{
    if k > 0 {
        credits_name_every_set(sets, k - 1);
        let had = credit_lines(sets, k - 1);
        let more = sets[k - 1].copyrights;
        all_lines_are_added(had, more, more.len() as int);
        assert forall|y: Seq<char>| #[trigger] credit_lines(sets, k).contains(y) <==> exists|s: int|
            0 <= s < k && (#[trigger] sets[s]).copyrights.contains(y) by {
            if credit_lines(sets, k).contains(y) {
                if had.contains(y) {
                    let s = choose|s: int|
                        0 <= s < k - 1 && (#[trigger] sets[s]).copyrights.contains(y);
                    assert(sets[s].copyrights.contains(y));
                } else {
                    let i = choose|i: int| 0 <= i < more.len() && more[i] == y;
                    assert(sets[k - 1].copyrights.contains(more[i]));
                }
            }
            if exists|s: int| 0 <= s < k && (#[trigger] sets[s]).copyrights.contains(y) {
                let s = choose|s: int| 0 <= s < k && (#[trigger] sets[s]).copyrights.contains(y);
                if s < k - 1 {
                    assert(sets[s].copyrights.contains(y));
                    assert(had.contains(y));
                } else {
                    let i = choose|i: int| 0 <= i < more.len() && more[i] == y;
                    assert(more[i] == y);
                }
            }
        }
    } else {
        assert forall|y: Seq<char>| !(#[trigger] credit_lines(sets, k).contains(y)) by {
            assert(credit_lines(sets, k).len() == 0);
        }
    }
}

/// How many tiles of the first `k` sets are in memory.
pub open spec fn residents_up_to(sets: Seq<SetModel>, k: int) -> nat
    decreases k,
{
    if k <= 0 {
        0
    } else {
        residents_up_to(sets, k - 1) + crate::evict::ready_count(sets[k - 1].tiles.slots)
    }
}

/// Numbers for a debugging overlay.
#[derive(Clone, Copy, Debug)]
pub struct Tiles3dDebug {
    pub tilesets: usize,
    pub resident: u128,
    pub in_flight: u128,
}

impl Tiles3dSets {
    /// How many sets there are, and how many tiles are in memory and on their
    /// way.
    pub fn debug_summary(&self) -> (r: Tiles3dDebug)
        ensures
            r.tilesets == self@.sets.len(),
            r.resident == residents_up_to(self@.sets, self@.sets.len() as int),
            r.in_flight == flights(self@.sets),
    {
        let ghost sets = self@.sets;
        let mut resident: u128 = 0;
        let mut in_flight: u128 = 0;
        let total: usize = self.sets.len();
        let mut s: usize = 0;
        while s < total
            invariant
                s <= total,
                total == self.sets@.len(),
                sets == self@.sets,
                resident == residents_up_to(sets, s as int),
                in_flight == flights_up_to(sets, s as int),
                resident <= s * 0x1_0000_0000_0000_0000,
                in_flight <= s * 0x1_0000_0000_0000_0000,
            decreases total - s,
        {
            assert(sets[s as int] == self.sets@[s as int]@);
            let ghost slots = sets[s as int].tiles.slots;
            let n: usize = self.sets[s].tiles.slots.len();
            let mut ready: usize = 0;
            let mut flying: usize = 0;
            let mut i: usize = 0;
            while i < n
                invariant
                    i <= n,
                    s < self.sets@.len(),
                    n == slots.len(),
                    slots == self.sets@[s as int].tiles.slots@,
                    ready == crate::evict::ready_up_to(slots, i as int),
                    flying == flying_up_to(slots, i as int),
                    ready <= i,
                    flying <= i,
                decreases n - i,
            {
                match self.sets[s].tiles.slots[i] {
                    TileSlot::Ready { .. } => {
                        ready = ready + 1;
                    },
                    TileSlot::InFlight { .. } => {
                        flying = flying + 1;
                    },
                    _ => {},
                }
                i = i + 1;
            }
            assert(s * 0x1_0000_0000_0000_0000 + 0x1_0000_0000_0000_0000 == (s + 1)
                * 0x1_0000_0000_0000_0000);
            resident = resident + ready as u128;
            in_flight = in_flight + flying as u128;
            s = s + 1;
        }
        Tiles3dDebug { tilesets: total, resident, in_flight }
    }
}

/// A frame starts as many requests as the pool has room for beside those that are
/// on their way; it starts none where loads are halted or the memory is half as
/// full again as its budget, and it has asked for nothing yet.
pub proof fn frames_begin_with_what_is_free(sets: Seq<SetModel>, config: Tiles3dConfig)
    requires
        resident_total(sets) <= u64::MAX,
    ensures
        ({
            let f = frame_begun(sets, config);
            let budget = config.memory_budget_bytes;
            let resident = resident_total(sets);
            &&& flights(sets) <= config.max_concurrent_loads ==> f.load_slots + flights(sets)
                == config.max_concurrent_loads
            &&& flights(sets) > config.max_concurrent_loads ==> f.load_slots == 0
            &&& config.halt_new_loads ==> f.halt_loads
            &&& 3 * budget <= u64::MAX ==> (f.halt_loads <==> config.halt_new_loads || (budget > 0
                && 2 * resident > 3 * budget))
            &&& f.respawns_left == config.max_respawns_per_frame
            &&& f.candidates.len() == 0
            &&& !f.compacted && !f.any_in_flight && !f.pending_respawns
            &&& budget == 0 || resident <= budget ==> f.pressure.0 == f.pressure.1
            &&& budget > 0 && budget < resident < 8 * budget ==> f.pressure.0 * budget == resident
                * f.pressure.1
        }),
{
    let budget = config.memory_budget_bytes;
    let resident = resident_total(sets);
    if budget > 0 && budget < resident < 8 * budget {
        let f = frame_begun(sets, config);
        assert(f.pressure.0 * budget == resident * f.pressure.1) by (nonlinear_arith)
            requires
                f.pressure.0 == resident,
                f.pressure.1 == budget,
        ;
    }
}

proof fn lemma_flying_changed(slots: Seq<TileSlot>, i: int, s: TileSlot, k: int)
    requires
        0 <= i < slots.len(),
        0 <= k <= slots.len(),
    ensures
        k <= i ==> flying_up_to(slots.update(i, s), k) == flying_up_to(slots, k),
        k > i ==> flying_up_to(slots.update(i, s), k) + (if slots[i] is InFlight {
            1int
        } else {
            0
        }) == flying_up_to(slots, k) + (if s is InFlight {
            1int
        } else {
            0
        }),
    decreases k,
{
    if k > 0 {
        lemma_flying_changed(slots, i, s, k - 1);
    }
}

proof fn lemma_flights_changed(sets: Seq<SetModel>, n: int, m: SetModel, k: int)
    requires
        0 <= n < sets.len(),
        0 <= k <= sets.len(),
    ensures
        k <= n ==> flights_up_to(sets.update(n, m), k) == flights_up_to(sets, k),
        k > n ==> flights_up_to(sets.update(n, m), k) + flying_up_to(
            sets[n].tiles.slots,
            sets[n].tiles.slots.len() as int,
        ) == flights_up_to(sets, k) + flying_up_to(m.tiles.slots, m.tiles.slots.len() as int),
    decreases k,
{
    if k > 0 {
        lemma_flights_changed(sets, n, m, k - 1);
    }
}

proof fn lemma_none_fly(slots: Seq<TileSlot>, k: int)
    requires
        0 <= k <= slots.len(),
        forall|i: int| 0 <= i < slots.len() ==> !((#[trigger] slots[i]) is InFlight),
    ensures
        flying_up_to(slots, k) == 0,
    decreases k,
{
    if k > 0 {
        lemma_none_fly(slots, k - 1);
    }
}

proof fn lemma_no_flights(sets: Seq<SetModel>, k: int)
    requires
        0 <= k <= sets.len(),
        forall|n: int, i: int|
            0 <= n < sets.len() && 0 <= i < sets[n].tiles.slots.len() ==> !((
            #[trigger] sets[n].tiles.slots[i]) is InFlight),
    ensures
        flights_up_to(sets, k) == 0,
    decreases k,
{
    if k > 0 {
        lemma_no_flights(sets, k - 1);
        let slots = sets[k - 1].tiles.slots;
        lemma_none_fly(slots, slots.len() as int);
    }
}

/// The requests on their way are counted one by one, over all sets: there are
/// none where no tile is on its way, and one more where one more tile is.
pub proof fn every_flight_counts_once(sets: Seq<SetModel>, n: int, m: SetModel, i: int, s: TileSlot)
    requires
        0 <= n < sets.len(),
        0 <= i < sets[n].tiles.slots.len(),
        !(sets[n].tiles.slots[i] is InFlight),
        s is InFlight,
        m.tiles.slots == sets[n].tiles.slots.update(i, s),
    ensures
        flights(sets.update(n, m)) == flights(sets) + 1,
        (forall|a: int, b: int|
            0 <= a < sets.len() && 0 <= b < sets[a].tiles.slots.len() ==> !((
            #[trigger] sets[a].tiles.slots[b]) is InFlight)) ==> flights(sets) == 0,
{
    let slots = sets[n].tiles.slots;
    lemma_flying_changed(slots, i, s, slots.len() as int);
    lemma_flights_changed(sets, n, m, sets.len() as int);
    if forall|a: int, b: int|
        0 <= a < sets.len() && 0 <= b < sets[a].tiles.slots.len() ==> !((
        #[trigger] sets[a].tiles.slots[b]) is InFlight) {
        lemma_no_flights(sets, sets.len() as int);
    }
}

proof fn lemma_bytes_update(slots: Seq<TileSlot>, i: int, s: TileSlot, k: int)
    requires
        0 <= i < slots.len(),
        0 <= k <= slots.len(),
        !(slots[i] is Ready),
    ensures
        k <= i ==> crate::stream::bytes_up_to(slots.update(i, s), k) == crate::stream::bytes_up_to(
            slots,
            k,
        ),
        k > i ==> crate::stream::bytes_up_to(slots.update(i, s), k) == crate::stream::bytes_up_to(
            slots,
            k,
        ) + match s {
            TileSlot::Ready { bytes, .. } => bytes as nat,
            _ => 0,
        },
    decreases k,
{
    if k > 0 {
        lemma_bytes_update(slots, i, s, k - 1);
    }
}

proof fn lemma_resident_update(sets: Seq<SetModel>, n: int, m: SetModel, k: int)
    requires
        0 <= n < sets.len(),
        0 <= k <= sets.len(),
    ensures
        k <= n ==> resident_up_to(sets.update(n, m), k) == resident_up_to(sets, k),
        k > n ==> resident_up_to(sets.update(n, m), k) + resident_bytes(sets[n].tiles.slots)
            == resident_up_to(sets, k) + resident_bytes(m.tiles.slots),
    decreases k,
{
    if k > 0 {
        lemma_resident_update(sets, n, m, k - 1);
    }
}

/// The memory of all sets is counted: it grows by the bytes of a tile whose
/// content comes in, whichever set the tile is of.
pub proof fn content_counts_with_its_bytes(sets: Seq<SetModel>, n: int, m: SetModel, i: int, entity: Option<u64>, bytes: u64)
    requires
        0 <= n < sets.len(),
        0 <= i < sets[n].tiles.slots.len(),
        !(sets[n].tiles.slots[i] is Ready),
        m.tiles.slots == sets[n].tiles.slots.update(i, (TileSlot::Ready { entity, bytes })),
    ensures
        resident_total(sets.update(n, m)) == resident_total(sets) + bytes,
        resident_total(Seq::<SetModel>::empty()) == 0,
{
    let slots = sets[n].tiles.slots;
    lemma_bytes_update(slots, i, TileSlot::Ready { entity, bytes }, slots.len() as int);
    lemma_resident_update(sets, n, m, sets.len() as int);
}

} // verus!
