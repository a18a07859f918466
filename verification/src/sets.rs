//! The tilesets that are streaming, and how they come and go.
use crate::credits::{add_notice, in_order, notice_in};
use crate::gltf::strings;
use crate::schema::Tileset;
use crate::stream::{fallen_out, TileSlot};
use crate::tiles::{compacted, fresh_tiles, grafted, many, tiles_wf, Center, Tiles, TilesModel};
use crate::tree::{kept, lemma_kept_from, opt_text, tile_nodes, TileTree};
use std::collections::HashSet;
use vstd::prelude::*;

verus! {

/// One streaming tileset.
#[derive(Debug)]
pub struct ActiveTileset {
    pub id: u64,
    pub label: String,
    pub tiles: Tiles,
    /// How many tiles there were when the tree was last compacted.
    pub compact_high_water: usize,
    /// What stands for the set in the scene.
    pub root_entity: u64,
    /// What the set is attached to.
    pub anchor: Option<u64>,
    pub owner_id: Option<String>,
    /// A threshold of its own, as the bits of an `f64`.
    pub sse_threshold_px: Option<u64>,
    pub placeholder_cleared: bool,
    /// How many tiles the last cut had, and how deep they were.
    pub last_cut: Option<(usize, usize, usize)>,
    /// The set lies in the earth's own frame.
    pub ecef: bool,
    /// The set comes from a service with sessions.
    pub live: bool,
    pub copyrights: Vec<String>,
    pub budget_warned: bool,
}

/// [`ActiveTileset`] as a mathematical value.
#[verifier::ext_equal]
pub struct SetModel {
    pub id: u64,
    pub label: Seq<char>,
    pub tiles: TilesModel,
    pub high_water: usize,
    pub root: u64,
    pub anchor: Option<u64>,
    pub owner: Option<Seq<char>>,
    pub threshold: Option<u64>,
    pub placeholder_cleared: bool,
    pub last_cut: Option<(usize, usize, usize)>,
    pub ecef: bool,
    pub live: bool,
    pub copyrights: Seq<Seq<char>>,
    pub budget_warned: bool,
}

impl View for ActiveTileset {
    type V = SetModel;

    open spec fn view(&self) -> SetModel {
        SetModel {
            id: self.id,
            label: self.label@,
            tiles: self.tiles@,
            high_water: self.compact_high_water,
            root: self.root_entity,
            anchor: self.anchor,
            owner: opt_text(self.owner_id),
            threshold: self.sse_threshold_px,
            placeholder_cleared: self.placeholder_cleared,
            last_cut: self.last_cut,
            ecef: self.ecef,
            live: self.live,
            copyrights: strings(self.copyrights@),
            budget_warned: self.budget_warned,
        }
    }
}

/// The tiles are in order, and so are the lines.
pub open spec fn set_wf(s: SetModel) -> bool {
    tiles_wf(s.tiles) && in_order(s.copyrights)
}

/// The tilesets that are streaming.
#[derive(Debug)]
pub struct Tiles3dSets {
    pub sets: Vec<ActiveTileset>,
    /// What is being attached to.
    pub pending_anchors: HashSet<u64>,
    /// What could not be attached to.
    pub failed_anchors: HashSet<u64>,
    pub frame: u64,
    pub next_set_id: u64,
    pub next_generation: u64,
    /// The next name for something in the scene.
    pub next_entity: u64,
}

/// [`Tiles3dSets`] as a mathematical value.
#[verifier::ext_equal]
pub struct SetsModel {
    pub sets: Seq<SetModel>,
    pub pending: Set<u64>,
    pub failed: Set<u64>,
    pub frame: u64,
    pub next_set_id: u64,
    pub next_generation: u64,
    pub next_entity: u64,
}

/// The views of sets.
pub open spec fn sets_view(v: Seq<ActiveTileset>) -> Seq<SetModel> {
    Seq::new(v.len(), |i: int| v[i]@)
}

impl View for Tiles3dSets {
    type V = SetsModel;

    open spec fn view(&self) -> SetsModel {
        SetsModel {
            sets: sets_view(self.sets@),
            pending: self.pending_anchors@,
            failed: self.failed_anchors@,
            frame: self.frame,
            next_set_id: self.next_set_id,
            next_generation: self.next_generation,
            next_entity: self.next_entity,
        }
    }
}

/// Tile `i` of set `s` is on its way under generation `g`.
pub open spec fn flies(sets: Seq<SetModel>, s: int, i: int, g: u64) -> bool {
    &&& 0 <= s < sets.len()
    &&& 0 <= i < sets[s].tiles.slots.len()
    &&& sets[s].tiles.slots[i] == TileSlot::InFlight { generation: g }
}

/// No two requests have the same generation, and later ones will differ from
/// all of them.
pub open spec fn generations_differ(sets: Seq<SetModel>, next: u64) -> bool {
    &&& forall|s: int, i: int, g: u64| #[trigger] flies(sets, s, i, g) ==> g < next
    &&& forall|s: int, i: int, t: int, j: int, g: u64| #[trigger]
        flies(sets, s, i, g) && #[trigger] flies(sets, t, j, g) ==> s == t && i == j
}

/// No two sets have the same number.
pub open spec fn ids_differ(sets: Seq<SetModel>, next: u64) -> bool {
    &&& forall|s: int| 0 <= s < sets.len() ==> (#[trigger] sets[s]).id < next
    &&& forall|s: int, t: int|
        0 <= s < t < sets.len() ==> (#[trigger] sets[s]).id != (#[trigger] sets[t]).id
}

/// What holds of the sets between any two steps.
pub open spec fn sets_wf(m: SetsModel) -> bool {
    &&& forall|s: int| 0 <= s < m.sets.len() ==> set_wf(#[trigger] m.sets[s])
    &&& generations_differ(m.sets, m.next_generation)
    &&& ids_differ(m.sets, m.next_set_id)
}

/// A set may change while all that is on its way in it was on its way before.
pub proof fn lemma_set_changed(m: SetsModel, s: int, x: SetModel, from: spec_fn(int) -> int)
    requires
        sets_wf(m),
        0 <= s < m.sets.len(),
        set_wf(x),
        x.id == m.sets[s].id,
        forall|i: int|
            0 <= i < x.tiles.slots.len() && (#[trigger] x.tiles.slots[i]) is InFlight ==> flies(
                m.sets,
                s,
                from(i),
                x.tiles.slots[i]->generation,
            ),
        forall|i: int, j: int|
            0 <= i < j < x.tiles.slots.len() && (#[trigger] x.tiles.slots[i]) is InFlight && (
            #[trigger] x.tiles.slots[j]) is InFlight ==> from(i) != from(j),
    ensures
        sets_wf(SetsModel { sets: m.sets.update(s, x), ..m }),
{
    let sets = m.sets.update(s, x);
    assert forall|t: int, i: int, g: u64| #[trigger] flies(sets, t, i, g) implies g
        < m.next_generation by {
        if t == s {
            assert(x.tiles.slots[i] == TileSlot::InFlight { generation: g });
            assert(flies(m.sets, s, from(i), g));
        } else {
            assert(flies(m.sets, t, i, g));
        }
    }
    assert forall|t: int, i: int, u: int, j: int, g: u64| #[trigger]
        flies(sets, t, i, g) && #[trigger] flies(sets, u, j, g) implies t == u && i == j by {
        let i0 = if t == s {
            from(i)
        } else {
            i
        };
        let j0 = if u == s {
            from(j)
        } else {
            j
        };
        if t == s {
            assert(x.tiles.slots[i] == TileSlot::InFlight { generation: g });
        }
        if u == s {
            assert(x.tiles.slots[j] == TileSlot::InFlight { generation: g });
        }
        assert(flies(m.sets, t, i0, g));
        assert(flies(m.sets, u, j0, g));
    }
    assert forall|t: int| 0 <= t < sets.len() implies (#[trigger] sets[t]).id < m.next_set_id by {
        assert(m.sets[t].id < m.next_set_id);
    }
    assert forall|t: int, u: int| 0 <= t < u < sets.len() implies (#[trigger] sets[t]).id != (
    #[trigger] sets[u]).id by {
        assert(m.sets[t].id != m.sets[u].id);
    }
}

/// Sets may leave.
pub proof fn lemma_sets_kept(m: SetsModel, keep: Seq<bool>)
    requires
        sets_wf(m),
        keep.len() == m.sets.len(),
    ensures
        sets_wf(SetsModel { sets: kept(m.sets, keep), ..m }),
{
    let sets = kept(m.sets, keep);
    assert forall|s: int| 0 <= s < sets.len() implies set_wf(#[trigger] sets[s]) && sets[s].id
        < m.next_set_id by {
        let a = lemma_kept_from(m.sets, keep, s);
    }
    assert forall|s: int, i: int, g: u64| #[trigger] flies(sets, s, i, g) implies g
        < m.next_generation by {
        let a = lemma_kept_from(m.sets, keep, s);
        assert(flies(m.sets, a, i, g));
    }
    assert forall|s: int, i: int, t: int, j: int, g: u64| #[trigger]
        flies(sets, s, i, g) && #[trigger] flies(sets, t, j, g) implies s == t && i == j by {
        let a = lemma_kept_from(m.sets, keep, s);
        let b = lemma_kept_from(m.sets, keep, t);
        assert(flies(m.sets, a, i, g));
        assert(flies(m.sets, b, j, g));
    }
    assert forall|s: int, t: int| 0 <= s < t < sets.len() implies (#[trigger] sets[s]).id != (
    #[trigger] sets[t]).id by {
        let a = lemma_kept_from(m.sets, keep, s);
        let b = lemma_kept_from(m.sets, keep, t);
        if a < b {
            assert(m.sets[a].id != m.sets[b].id);
        } else {
            assert(m.sets[b].id != m.sets[a].id);
        }
    }
}

/// The first set that is attached to `anchor`, from `s` on.
pub open spec fn attached(sets: Seq<SetModel>, anchor: u64, s: int) -> Option<int>
    decreases sets.len() - s,
{
    if s >= sets.len() {
        None
    } else if sets[s].anchor == Some(anchor) {
        Some(s)
    } else {
        attached(sets, anchor, s + 1)
    }
}

/// An anchor is taken: something streams to it, is being opened for it, or could
/// not be opened for it.
pub open spec fn is_taken(m: SetsModel, anchor: u64) -> bool {
    m.pending.contains(anchor) || m.failed.contains(anchor) || attached(m.sets, anchor, 0) is Some
}

/// A set that left.
#[derive(Debug)]
pub struct DroppedSet {
    pub root_entity: u64,
    /// The requests that are called off.
    pub aborts: Vec<u64>,
}

/// [`DroppedSet`] as a mathematical value.
pub struct Gone {
    pub root: u64,
    pub aborts: Seq<u64>,
}

impl View for DroppedSet {
    type V = Gone;

    open spec fn view(&self) -> Gone {
        Gone { root: self.root_entity, aborts: self.aborts@ }
    }
}

/// The views of sets that left.
pub open spec fn gone_view(v: Seq<DroppedSet>) -> Seq<Gone> {
    Seq::new(v.len(), |i: int| v[i]@)
}

/// The generations of what is on its way.
pub open spec fn in_flight_of(slots: Seq<TileSlot>) -> Seq<u64> {
    fallen_out(slots, many(false, slots.len()), slots.len() as int)
}

/// What leaving means for a set.
pub open spec fn gone(s: SetModel) -> Gone {
    Gone { root: s.root, aborts: in_flight_of(s.tiles.slots) }
}

/// The sets that leave.
pub open spec fn leaving(sets: Seq<SetModel>, keep: Seq<bool>) -> Seq<Gone> {
    kept(
        Seq::new(sets.len(), |i: int| gone(sets[i])),
        Seq::new(sets.len(), |i: int| !keep[i]),
    )
}

/// The generations of the requests of a set, which are called off when it leaves.
pub fn abort_in_flight(set: &ActiveTileset) -> (aborts: Vec<u64>)
    ensures
        aborts@ == in_flight_of(set@.tiles.slots),
{
    let ghost slots = set@.tiles.slots;
    let ghost none = many(false, slots.len());
    let mut aborts: Vec<u64> = Vec::new();
    let mut i: usize = 0;
    while i < set.tiles.slots.len()
        invariant
            i <= set.tiles.slots@.len(),
            slots == set.tiles.slots@,
            none == many(false, slots.len()),
            aborts@ == fallen_out(slots, none, i as int),
        decreases set.tiles.slots@.len() - i,
    {
        if let TileSlot::InFlight { generation } = set.tiles.slots[i] {
            aborts.push(generation);
        }
        i = i + 1;
    }
    aborts
}

impl Tiles3dSets {
    /// No sets.
    pub fn new() -> (r: Self)
        ensures
            r@ == (SetsModel {
                sets: Seq::empty(),
                pending: Set::empty(),
                failed: Set::empty(),
                frame: 0,
                next_set_id: 0,
                next_generation: 0,
                next_entity: 0,
            }),
            sets_wf(r@),
    {
        let r = Tiles3dSets {
            sets: Vec::new(),
            pending_anchors: HashSet::new(),
            failed_anchors: HashSet::new(),
            frame: 0,
            next_set_id: 0,
            next_generation: 0,
            next_entity: 0,
        };
        assert(r@ =~= (SetsModel {
            sets: Seq::empty(),
            pending: Set::empty(),
            failed: Set::empty(),
            frame: 0,
            next_set_id: 0,
            next_generation: 0,
            next_entity: 0,
        }));
        r
    }

    /// The place of the set that is attached to `anchor`.
    pub fn find(&self, anchor: u64) -> (r: Option<usize>)
        ensures
            match attached(self@.sets, anchor, 0) {
                Some(s) => r == Some(s as usize) && 0 <= s < self@.sets.len() && s <= usize::MAX,
                None => r is None,
            },
    {
        let ghost sets = self@.sets;
        let mut s: usize = 0;
        while s < self.sets.len()
            invariant
                s <= self.sets@.len(),
                sets == self@.sets,
                attached(sets, anchor, 0) == attached(sets, anchor, s as int),
            decreases self.sets@.len() - s,
        {
            assert(sets[s as int] == self.sets@[s as int]@);
            if let Some(a) = self.sets[s].anchor {
                if a == anchor {
                    return Some(s);
                }
            }
            s = s + 1;
        }
        None
    }

    /// Whether an anchor is taken.
    pub fn has_anchor(&self, anchor: u64) -> (r: bool)
        ensures
            r == is_taken(self@, anchor),
    {
        broadcast use vstd::std_specs::hash::group_hash_axioms;

        self.pending_anchors.contains(&anchor) || self.failed_anchors.contains(&anchor)
            || self.find(anchor).is_some()
    }

    /// What stands for the set that is attached to `anchor`. A set in the
    /// earth's own frame places itself, and is left out.
    pub fn root_entity_for_anchor(&self, anchor: u64) -> (r: Option<u64>)
        ensures
            r == match attached(self@.sets, anchor, 0) {
                Some(s) => if self@.sets[s].ecef {
                    None
                } else {
                    Some(self@.sets[s].root)
                },
                None => None,
            },
    {
        match self.find(anchor) {
            Some(s) => {
                assert(self@.sets[s as int] == self.sets@[s as int]@);
                if self.sets[s].ecef {
                    None
                } else {
                    Some(self.sets[s].root_entity)
                }
            },
            None => None,
        }
    }

    /// The number of the set that is attached to `anchor`, in any frame.
    pub fn set_id_for_anchor(&self, anchor: u64) -> (r: Option<u64>)
        ensures
            r == match attached(self@.sets, anchor, 0) {
                Some(s) => Some(self@.sets[s].id),
                None => None,
            },
    {
        match self.find(anchor) {
            Some(s) => {
                assert(self@.sets[s as int] == self.sets@[s as int]@);
                Some(self.sets[s].id)
            },
            None => None,
        }
    }

    /// Starts to attach, unless the anchor is taken. Returns whether something
    /// is to be opened.
    pub fn attach(&mut self, anchor: u64) -> (open: bool)
        requires
            sets_wf(old(self)@),
        ensures
            open == !is_taken(old(self)@, anchor),
            final(self)@ == if open {
                SetsModel { pending: old(self)@.pending.insert(anchor), ..old(self)@ }
            } else {
                old(self)@
            },
            sets_wf(final(self)@),
    {
        broadcast use vstd::std_specs::hash::group_hash_axioms;

        let ghost m = self@;
        if self.has_anchor(anchor) {
            return false;
        }
        self.pending_anchors.insert(anchor);
        assert(self@ =~= (SetsModel { pending: m.pending.insert(anchor), ..m }));
        true
    }

    /// Drops the sets that are not kept, and returns what that takes.
    pub fn drop_sets(&mut self, keep: &Vec<bool>) -> (out: Vec<DroppedSet>)
        requires
            sets_wf(old(self)@),
            keep@.len() == old(self)@.sets.len(),
        ensures
            final(self)@ == (SetsModel { sets: kept(old(self)@.sets, keep@), ..old(self)@ }),
            gone_view(out@) == leaving(old(self)@.sets, keep@),
            sets_wf(final(self)@),
    {
        let ghost m = self@;
        let ghost all = Seq::new(m.sets.len(), |i: int| gone(m.sets[i]));
        let ghost lost = Seq::new(m.sets.len(), |i: int| !keep@[i]);
        let mut out: Vec<DroppedSet> = Vec::new();
        let n: usize = self.sets.len();
        let mut k: usize = 0;
        let mut at: usize = 0;
        assert(m.sets.take(0) =~= Seq::empty());
        assert(all.take(0) =~= Seq::empty());
        assert(gone_view(out@) =~= kept(all.take(0), lost));
        assert(self@.sets =~= kept(m.sets.take(0), keep@) + m.sets.skip(0));
        while k < n
            invariant
                k <= n,
                n == m.sets.len(),
                keep@.len() == n,
                at <= k,
                at == kept(m.sets.take(k as int), keep@).len(),
                all == Seq::new(m.sets.len(), |i: int| gone(m.sets[i])),
                lost == Seq::new(m.sets.len(), |i: int| !keep@[i]),
                self@ == (SetsModel {
                    sets: kept(m.sets.take(k as int), keep@) + m.sets.skip(k as int),
                    ..m
                }),
                gone_view(out@) == kept(all.take(k as int), lost),
            decreases n - k,
        {
            let ghost now = self@.sets;
            assert(m.sets.take(k + 1).drop_last() =~= m.sets.take(k as int));
            assert(all.take(k + 1).drop_last() =~= all.take(k as int));
            assert(now[at as int] == m.sets[k as int]);
            assert(now.len() == self.sets@.len());
            if keep[k] {
                at = at + 1;
                assert(self@.sets =~= kept(m.sets.take(k + 1), keep@) + m.sets.skip(k + 1));
            } else {
                assert(self.sets@[at as int]@ == m.sets[k as int]);
                let d = DroppedSet {
                    root_entity: self.sets[at].root_entity,
                    aborts: abort_in_flight(&self.sets[at]),
                };
                assert(d@ == gone(m.sets[k as int]));
                let ghost had = gone_view(out@);
                out.push(d);
                assert(gone_view(out@) =~= had.push(d@));
                self.sets.remove(at);
                assert(self@.sets =~= now.remove(at as int));
                assert(self@.sets =~= kept(m.sets.take(k + 1), keep@) + m.sets.skip(k + 1));
            }
            k = k + 1;
        }
        assert(m.sets.take(n as int) =~= m.sets);
        assert(all.take(n as int) =~= all);
        assert(self@.sets =~= kept(m.sets, keep@));
        proof {
            lemma_sets_kept(m, keep@);
        }
        out
    }

    /// Takes away what is attached to an anchor, and forgets what was being
    /// opened or could not be opened for it.
    pub fn detach(&mut self, anchor: u64) -> (out: Vec<DroppedSet>)
        requires
            sets_wf(old(self)@),
        ensures
            ({
                let keep = Seq::new(
                    old(self)@.sets.len(),
                    |i: int| old(self)@.sets[i].anchor != Some(anchor),
                );
                &&& final(self)@ == (SetsModel {
                    sets: kept(old(self)@.sets, keep),
                    pending: old(self)@.pending.remove(anchor),
                    failed: old(self)@.failed.remove(anchor),
                    ..old(self)@
                })
                &&& gone_view(out@) == leaving(old(self)@.sets, keep)
            }),
            sets_wf(final(self)@),
    {
        broadcast use vstd::std_specs::hash::group_hash_axioms;

        let ghost m = self@;
        self.pending_anchors.remove(&anchor);
        self.failed_anchors.remove(&anchor);
        assert(self@ =~= (SetsModel {
            pending: m.pending.remove(anchor),
            failed: m.failed.remove(anchor),
            ..m
        }));
        let mut keep: Vec<bool> = Vec::new();
        let mut i: usize = 0;
        while i < self.sets.len()
            invariant
                i <= self.sets@.len(),
                m.sets == self@.sets,
                keep@.len() == i,
                forall|k: int|
                    0 <= k < i ==> #[trigger] keep@[k] == (m.sets[k].anchor != Some(anchor)),
            decreases self.sets@.len() - i,
        {
            assert(m.sets[i as int] == self.sets@[i as int]@);
            let k = match self.sets[i].anchor {
                Some(a) => a != anchor,
                None => true,
            };
            keep.push(k);
            i = i + 1;
        }
        assert(keep@ =~= Seq::new(
            m.sets.len(),
            |i: int| m.sets[i].anchor != Some(anchor),
        ));
        self.drop_sets(&keep)
    }
}

/// After a detach the anchor is free.
pub proof fn detached_anchors_are_free(m: SetsModel, anchor: u64)
    ensures
        ({
            let keep = Seq::new(m.sets.len(), |i: int| m.sets[i].anchor != Some(anchor));
            !is_taken(
                SetsModel {
                    sets: kept(m.sets, keep),
                    pending: m.pending.remove(anchor),
                    failed: m.failed.remove(anchor),
                    ..m
                },
                anchor,
            )
        }),
{
    let keep = Seq::new(m.sets.len(), |i: int| m.sets[i].anchor != Some(anchor));
    let left = kept(m.sets, keep);
    assert forall|s: int| 0 <= s < left.len() implies (#[trigger] left[s]).anchor != Some(
        anchor,
    ) by {
        let a = lemma_kept_from(m.sets, keep, s);
    }
    lemma_unattached(left, anchor, 0);
}

proof fn lemma_unattached(sets: Seq<SetModel>, anchor: u64, s: int)
    requires
        0 <= s <= sets.len(),
        forall|k: int| 0 <= k < sets.len() ==> (#[trigger] sets[k]).anchor != Some(anchor),
    ensures
        attached(sets, anchor, s) is None,
    decreases sets.len() - s,
{
    if s < sets.len() {
        lemma_unattached(sets, anchor, s + 1);
    }
}

/// What a set is attached to.
#[derive(Debug)]
pub struct AttachTarget {
    pub anchor: u64,
    pub owner_id: Option<String>,
    /// A threshold of its own, as the bits of an `f64`.
    pub sse_threshold_px: Option<u64>,
}

/// [`AttachTarget`] as a mathematical value.
pub struct Target {
    pub anchor: u64,
    pub owner: Option<Seq<char>>,
    pub threshold: Option<u64>,
}

/// The target, where there is one.
pub open spec fn target_view(a: Option<AttachTarget>) -> Option<Target> {
    match a {
        Some(t) => Some(
            Target {
                anchor: t.anchor,
                owner: opt_text(t.owner_id),
                threshold: t.sse_threshold_px,
            },
        ),
        None => None,
    }
}

/// What opening a tileset came to.
#[derive(Debug)]
pub enum OpenResult {
    Tileset { tileset: Tileset, live: bool, georeferenced: bool },
    /// It was read, and cannot be used.
    Unusable,
    /// It could not be read.
    Failed,
}

/// A set that was opened.
#[derive(Clone, Copy, Debug, PartialEq, Eq, Structural)]
pub struct NewSet {
    pub set_id: u64,
    pub root_entity: u64,
    /// What the root hangs under. A set in the earth's own frame hangs under
    /// nothing.
    pub parent: Option<u64>,
}

/// The set that an opened tileset becomes.
pub open spec fn new_set(
    m: SetsModel,
    label: Seq<char>,
    target: Option<Target>,
    tileset: Tileset,
    live: bool,
    georeferenced: bool,
) -> SetModel {
    let tree = tile_nodes(tileset.root, None, 0, 0);
    SetModel {
        id: m.next_set_id,
        label,
        tiles: fresh_tiles(tree),
        high_water: tree.len() as usize,
        root: m.next_entity,
        anchor: match target {
            Some(t) => Some(t.anchor),
            None => None,
        },
        owner: match target {
            Some(t) => t.owner,
            None => None,
        },
        threshold: match target {
            Some(t) => t.threshold,
            None => None,
        },
        placeholder_cleared: false,
        last_cut: None,
        ecef: live || georeferenced,
        live,
        copyrights: Seq::empty(),
        budget_warned: false,
    }
}

/// What an open came to, and the sets after it. A set whose anchor was given up
/// or is gone is dropped.
pub open spec fn opened(
    m: SetsModel,
    label: Seq<char>,
    target: Option<Target>,
    anchor_alive: bool,
    result: OpenResult,
) -> (SetsModel, Option<NewSet>) {
    let after = match target {
        Some(t) => SetsModel { pending: m.pending.remove(t.anchor), ..m },
        None => m,
    };
    let wanted = match target {
        Some(t) => m.pending.contains(t.anchor) && anchor_alive,
        None => true,
    };
    let failed = match target {
        Some(t) => SetsModel { failed: after.failed.insert(t.anchor), ..after },
        None => after,
    };
    match result {
        OpenResult::Failed => (failed, None),
        OpenResult::Unusable => if wanted {
            (failed, None)
        } else {
            (after, None)
        },
        OpenResult::Tileset { tileset, live, georeferenced } => if !wanted {
            (after, None)
        } else {
            let s = new_set(m, label, target, tileset, live, georeferenced);
            (
                SetsModel {
                    sets: after.sets.push(s),
                    next_set_id: (m.next_set_id + 1) as u64,
                    next_entity: (m.next_entity + 1) as u64,
                    ..after
                },
                Some(
                    NewSet {
                        set_id: s.id,
                        root_entity: s.root,
                        parent: if s.ecef {
                            None
                        } else {
                            s.anchor
                        },
                    },
                ),
            )
        },
    }
}

proof fn lemma_pushed(m: SetsModel, x: SetModel)
    requires
        sets_wf(m),
        set_wf(x),
        x.id == m.next_set_id,
        m.next_set_id < u64::MAX,
        forall|i: int| 0 <= i < x.tiles.slots.len() ==> !((#[trigger] x.tiles.slots[i]) is InFlight),
    ensures
        sets_wf(
            SetsModel {
                sets: m.sets.push(x),
                next_set_id: (m.next_set_id + 1) as u64,
                ..m
            },
        ),
{
    let sets = m.sets.push(x);
    assert forall|s: int, i: int, g: u64| #[trigger] flies(sets, s, i, g) implies flies(
        m.sets,
        s,
        i,
        g,
    ) by {
        if s == m.sets.len() {
            assert(x.tiles.slots[i] is InFlight);
        }
    }
    assert forall|s: int, t: int| 0 <= s < t < sets.len() implies (#[trigger] sets[s]).id != (
    #[trigger] sets[t]).id by {
        if t < m.sets.len() {
            assert(m.sets[s].id != m.sets[t].id);
        } else {
            assert(m.sets[s].id < m.next_set_id);
        }
    }
    assert forall|s: int| 0 <= s < sets.len() implies (#[trigger] sets[s]).id < m.next_set_id
        + 1 by {
        if s < m.sets.len() {
            assert(m.sets[s].id < m.next_set_id);
        }
    }
}

impl Tiles3dSets {
    /// Takes in what opening a tileset came to.
    pub fn tileset_opened(
        &mut self,
        label: String,
        attach: Option<AttachTarget>,
        anchor_alive: bool,
        result: OpenResult,
    ) -> (r: Option<NewSet>)
        requires
            sets_wf(old(self)@),
            old(self)@.next_set_id < u64::MAX,
            old(self)@.next_entity < u64::MAX,
        ensures
            (final(self)@, r) == opened(
                old(self)@,
                label@,
                target_view(attach),
                anchor_alive,
                result,
            ),
            sets_wf(final(self)@),
    {
        broadcast use vstd::std_specs::hash::group_hash_axioms;

        let ghost m = self@;
        let ghost target = target_view(attach);
        let anchor: Option<u64> = match &attach {
            Some(t) => Some(t.anchor),
            None => None,
        };
        let mut wanted = true;
        if let Some(a) = anchor {
            let pending = self.pending_anchors.remove(&a);
            wanted = pending && anchor_alive;
        }
        let ghost after = match target {
            Some(t) => SetsModel { pending: m.pending.remove(t.anchor), ..m },
            None => m,
        };
        assert(self@ =~= after);
        match result {
            OpenResult::Failed => {
                if let Some(a) = anchor {
                    self.failed_anchors.insert(a);
                    assert(self@ =~= (SetsModel { failed: after.failed.insert(a), ..after }));
                }
                None
            },
            OpenResult::Unusable => {
                if wanted {
                    if let Some(a) = anchor {
                        self.failed_anchors.insert(a);
                        assert(self@ =~= (SetsModel { failed: after.failed.insert(a), ..after }));
                    }
                }
                None
            },
            OpenResult::Tileset { tileset, live, georeferenced } => {
                if !wanted {
                    return None;
                }
                let tree = TileTree::build(&tileset);
                let n: usize = tree.len();
                let tiles = Tiles::new(tree);
                let (owner_id, sse_threshold_px) = match attach {
                    Some(t) => (t.owner_id, t.sse_threshold_px),
                    None => (None, None),
                };
                let set = ActiveTileset {
                    id: self.next_set_id,
                    label,
                    tiles,
                    compact_high_water: n,
                    root_entity: self.next_entity,
                    anchor,
                    owner_id,
                    sse_threshold_px,
                    placeholder_cleared: false,
                    last_cut: None,
                    ecef: live || georeferenced,
                    live,
                    copyrights: Vec::new(),
                    budget_warned: false,
                };
                let r = NewSet {
                    set_id: set.id,
                    root_entity: set.root_entity,
                    parent: if set.ecef {
                        None
                    } else {
                        set.anchor
                    },
                };
                assert(set@.copyrights =~= Seq::empty());
                assert(set@ =~= new_set(m, label@, target, tileset, live, georeferenced));
                proof {
                    lemma_pushed(after, set@);
                }
                let ghost had = self@.sets;
                let ghost added = set@;
                self.sets.push(set);
                self.next_set_id = self.next_set_id + 1;
                self.next_entity = self.next_entity + 1;
                assert(self@.sets =~= had.push(added));
                Some(r)
            },
        }
    }
}

/// What fetching the content of a tile came to.
#[derive(Debug)]
pub enum Fetched {
    /// Another tileset.
    Subtree(Tileset),
    /// Content: its center, its copyright notice, its bytes in memory, and what
    /// is kept of it.
    Content { rtc_center: Option<Center>, copyright: Option<String>, bytes: u64, cache: Vec<u64> },
    /// Another tileset that cannot be used.
    UnusableSubtree,
    /// It cannot be had.
    Failed,
}

/// What is done with fetched content.
#[derive(Clone, Copy, Debug, PartialEq, Eq, Structural)]
pub enum Received {
    /// Nobody waits for it any more.
    Dropped,
    /// It was put under the tile.
    Grafted { tile: usize },
    /// The set has no place in the scene yet; the tile is asked for again.
    Requeued { tile: usize },
    /// It is put into the scene, hidden.
    Spawned { tile: usize, entity: u64 },
    /// The tile is not asked for again.
    Failed { tile: usize },
}

impl Received {
    /// Whether it counts against what one frame takes in: what could be read
    /// does, unless nobody waits for it any more.
    pub fn counts(&self, read: bool) -> (r: bool)
        ensures
            r == (read && !(self is Dropped)),
    {
        match self {
            Received::Dropped => false,
            _ => read,
        }
    }
}

/// The place of the set with this number, from `s` on.
pub open spec fn set_with_id(sets: Seq<SetModel>, id: u64, s: int) -> Option<int>
    decreases sets.len() - s,
{
    if s >= sets.len() {
        None
    } else if sets[s].id == id {
        Some(s)
    } else {
        set_with_id(sets, id, s + 1)
    }
}

/// The tile that is on its way under a generation, from `i` on.
pub open spec fn tile_of_generation(slots: Seq<TileSlot>, g: u64, i: int) -> Option<int>
    decreases slots.len() - i,
{
    if i >= slots.len() {
        None
    } else if slots[i] == (TileSlot::InFlight { generation: g }) {
        Some(i)
    } else {
        tile_of_generation(slots, g, i + 1)
    }
}

/// The lines with those of a notice.
pub open spec fn noticed(lines: Seq<Seq<char>>, notice: Option<Seq<char>>) -> Seq<Seq<char>> {
    match notice {
        Some(n) => notice_in(lines, n, 0),
        None => lines,
    }
}

/// A set after content arrived for tile `i`.
pub open spec fn arrived(s: SetModel, i: int, fetched: Fetched, placed: bool, entity: u64) -> (
    SetModel,
    Received,
) {
    let t = s.tiles;
    let tile = i as usize;
    match fetched {
        Fetched::Subtree(external) => (
            SetModel { tiles: grafted(t, i, external), ..s },
            Received::Grafted { tile },
        ),
        Fetched::Content { rtc_center, copyright, bytes, cache } => {
            let lines = noticed(s.copyrights, opt_text(copyright));
            let rtc = t.rtc.update(i, rtc_center);
            if placed {
                (
                    SetModel {
                        tiles: TilesModel {
                            slots: t.slots.update(
                                i,
                                TileSlot::Ready { entity: Some(entity), bytes },
                            ),
                            caches: t.caches.update(i, cache@),
                            rtc,
                            ..t
                        },
                        copyrights: lines,
                        ..s
                    },
                    Received::Spawned { tile, entity },
                )
            } else {
                (
                    SetModel {
                        tiles: TilesModel {
                            slots: t.slots.update(i, TileSlot::NotLoaded),
                            rtc,
                            ..t
                        },
                        copyrights: lines,
                        ..s
                    },
                    Received::Requeued { tile },
                )
            }
        },
        _ => (
            SetModel {
                tiles: TilesModel { slots: t.slots.update(i, TileSlot::Failed), ..t },
                ..s
            },
            Received::Failed { tile },
        ),
    }
}

/// The sets after content arrived under a generation. It goes to the tile that
/// waits for that generation, wherever the tile stands by now; content that no
/// tile waits for is dropped.
pub open spec fn received(m: SetsModel, set_id: u64, g: u64, fetched: Fetched, has_origin: bool) -> (
    SetsModel,
    Received,
) {
    match set_with_id(m.sets, set_id, 0) {
        None => (m, Received::Dropped),
        Some(s) => match tile_of_generation(m.sets[s].tiles.slots, g, 0) {
            None => (m, Received::Dropped),
            Some(i) => {
                let placed = !m.sets[s].ecef || has_origin;
                let (x, r) = arrived(m.sets[s], i, fetched, placed, m.next_entity);
                (
                    SetsModel {
                        sets: m.sets.update(s, x),
                        next_entity: if r is Spawned {
                            (m.next_entity + 1) as u64
                        } else {
                            m.next_entity
                        },
                        ..m
                    },
                    r,
                )
            },
        },
    }
}

impl Tiles3dSets {
    /// The set with a number, and its tile that waits for a generation.
    pub fn waiting_tile(&self, set_id: u64, generation: u64) -> (r: Option<(usize, usize)>)
        ensures
            match r {
                Some((s, i)) => {
                    &&& set_with_id(self@.sets, set_id, 0) == Some(s as int)
                    &&& tile_of_generation(self@.sets[s as int].tiles.slots, generation, 0) == Some(
                        i as int,
                    )
                    &&& s < self@.sets.len()
                    &&& i < self@.sets[s as int].tiles.slots.len()
                },
                None => match set_with_id(self@.sets, set_id, 0) {
                    Some(s) => tile_of_generation(self@.sets[s].tiles.slots, generation, 0) is None,
                    None => true,
                },
            },
    {
        let ghost m = self@;
        let mut s: usize = 0;
        while s < self.sets.len() && self.sets[s].id != set_id
            invariant
                s <= self.sets@.len(),
                m == self@,
                set_with_id(m.sets, set_id, 0) == set_with_id(m.sets, set_id, s as int),
            decreases self.sets@.len() - s,
        {
            assert(m.sets[s as int] == self.sets@[s as int]@);
            s = s + 1;
        }
        if s >= self.sets.len() {
            return None;
        }
        assert(m.sets[s as int] == self.sets@[s as int]@);
        let ghost slots = m.sets[s as int].tiles.slots;
        let mut i: usize = 0;
        let n: usize = self.sets[s].tiles.slots.len();
        let mut found = false;
        while i < n && !found
            invariant
                i <= n,
                s < self.sets@.len(),
                n == slots.len(),
                slots == self.sets@[s as int].tiles.slots@,
                tile_of_generation(slots, generation, 0) == tile_of_generation(
                    slots,
                    generation,
                    i as int,
                ),
                found ==> i < n && slots[i as int] == (TileSlot::InFlight { generation }),
            decreases n - i, (if found { 0int } else { 1int }),
        {
            if let TileSlot::InFlight { generation: g } = self.sets[s].tiles.slots[i] {
                if g == generation {
                    found = true;
                }
            }
            if !found {
                i = i + 1;
            }
        }
        if found {
            Some((s, i))
        } else {
            None
        }
    }

    /// Takes in what fetching the content of a tile came to. `has_origin` says
    /// that the earth's frame has a place in the scene.
    pub fn receive_content(
        &mut self,
        set_id: u64,
        generation: u64,
        fetched: Fetched,
        has_origin: bool,
    ) -> (r: Received)
        requires
            sets_wf(old(self)@),
            old(self)@.next_entity < u64::MAX,
        ensures
            (final(self)@, r) == received(old(self)@, set_id, generation, fetched, has_origin),
            sets_wf(final(self)@),
    {
        let ghost m = self@;
        let (s, i) = match self.waiting_tile(set_id, generation) {
            Some(at) => at,
            None => return Received::Dropped,
        };
        assert(m.sets[s as int] == self.sets@[s as int]@);
        let ghost had = m.sets[s as int];
        assert(tiles_wf(had.tiles)) by {
            assert(set_wf(m.sets[s as int]));
        }
        let placed = !self.sets[s].ecef || has_origin;
        let entity: u64 = self.next_entity;
        let ghost want = arrived(had, i as int, fetched, placed, entity);
        let set: &mut ActiveTileset = &mut self.sets[s];
        let r = match fetched {
            Fetched::Subtree(external) => {
                set.tiles.graft_external(i, &external);
                Received::Grafted { tile: i }
            },
            Fetched::Content { rtc_center, copyright, bytes, cache } => {
                if let Some(notice) = &copyright {
                    add_notice(&mut set.copyrights, notice.as_str());
                }
                set.tiles.rtc_centers.set(i, rtc_center);
                if placed {
                    let ghost caches = crate::evict::lists(set.tiles.caches@);
                    set.tiles.caches.set(i, cache);
                    assert(crate::evict::lists(set.tiles.caches@) =~= caches.update(
                        i as int,
                        cache@,
                    ));
                    set.tiles.slots.set(i, TileSlot::Ready { entity: Some(entity), bytes });
                    Received::Spawned { tile: i, entity }
                } else {
                    set.tiles.slots.set(i, TileSlot::NotLoaded);
                    Received::Requeued { tile: i }
                }
            },
            Fetched::UnusableSubtree => {
                set.tiles.slots.set(i, TileSlot::Failed);
                Received::Failed { tile: i }
            },
            Fetched::Failed => {
                set.tiles.slots.set(i, TileSlot::Failed);
                Received::Failed { tile: i }
            },
        };
        if let Received::Spawned { .. } = r {
            self.next_entity = self.next_entity + 1;
        }
        assert(self.sets@[s as int]@ =~= want.0);
        assert(self@.sets =~= m.sets.update(s as int, want.0));
        proof {
            lemma_arrived(m, s as int, i as int, fetched, placed, entity);
        }
        r
    }
}

/// The slots of a set after content arrived: tile `i` no longer waits, and no
/// other request came or went.
proof fn lemma_arrived(m: SetsModel, s: int, i: int, fetched: Fetched, placed: bool, entity: u64)
    requires
        sets_wf(m),
        0 <= s < m.sets.len(),
        0 <= i < m.sets[s].tiles.tree.len(),
        tiles_wf(arrived(m.sets[s], i, fetched, placed, entity).0.tiles),
    ensures
        sets_wf(
            SetsModel {
                sets: m.sets.update(s, arrived(m.sets[s], i, fetched, placed, entity).0),
                ..m
            },
        ),
{
    let had = m.sets[s];
    let x = arrived(had, i, fetched, placed, entity).0;
    assert(set_wf(had));
    assert(in_order(x.copyrights)) by {
        if let Fetched::Content { rtc_center, copyright, bytes, cache } = fetched {
            if let Some(n) = opt_text(copyright) {
                crate::credits::notices_stay_in_order(had.copyrights, n, 0);
            }
        }
    }
    let from = |j: int| j;
    assert forall|j: int|
        0 <= j < x.tiles.slots.len() && (#[trigger] x.tiles.slots[j]) is InFlight implies flies(
        m.sets,
        s,
        from(j),
        x.tiles.slots[j]->generation,
    ) by {
        assert(j < had.tiles.slots.len());
        assert(had.tiles.slots[j] == x.tiles.slots[j]);
    }
    lemma_set_changed(m, s, x, from);
}

/// Content reaches the tile that asked for it, and no other: a generation is on
/// its way in one place at most.
pub proof fn replies_find_their_tile(m: SetsModel, s: int, i: int, g: u64)
    requires
        sets_wf(m),
        flies(m.sets, s, i, g),
    ensures
        set_with_id(m.sets, m.sets[s].id, 0) == Some(s),
        tile_of_generation(m.sets[s].tiles.slots, g, 0) == Some(i),
        forall|t: int, j: int| #[trigger] flies(m.sets, t, j, g) ==> t == s && j == i,
{
    lemma_first_id(m, s, 0);
    lemma_first_generation(m, s, i, g, 0);
    assert forall|t: int, j: int| #[trigger] flies(m.sets, t, j, g) implies t == s && j == i by {
        assert(flies(m.sets, s, i, g));
    }
}

proof fn lemma_first_id(m: SetsModel, s: int, k: int)
    requires
        sets_wf(m),
        0 <= k <= s < m.sets.len(),
    ensures
        set_with_id(m.sets, m.sets[s].id, k) == Some(s),
    decreases s - k,
{
    if k < s {
        assert(m.sets[k].id != m.sets[s].id);
        lemma_first_id(m, s, k + 1);
    }
}

proof fn lemma_first_generation(m: SetsModel, s: int, i: int, g: u64, k: int)
    requires
        sets_wf(m),
        flies(m.sets, s, i, g),
        0 <= k <= i,
    ensures
        tile_of_generation(m.sets[s].tiles.slots, g, k) == Some(i),
    decreases i - k,
{
    if k < i {
        if m.sets[s].tiles.slots[k] == (TileSlot::InFlight { generation: g }) {
            assert(flies(m.sets, s, k, g));
        }
        lemma_first_generation(m, s, i, g, k + 1);
    }
}

proof fn lemma_attached(sets: Seq<SetModel>, anchor: u64, s: int)
    requires
        0 <= s <= sets.len(),
    ensures
        attached(sets, anchor, s) matches Some(i) ==> s <= i < sets.len() && sets[i].anchor == Some(
            anchor,
        ) && forall|k: int| s <= k < i ==> #[trigger] sets[k].anchor != Some(anchor),
        attached(sets, anchor, s) is None ==> forall|k: int|
            s <= k < sets.len() ==> #[trigger] sets[k].anchor != Some(anchor),
    decreases sets.len() - s,
{
    if s < sets.len() && sets[s].anchor != Some(anchor) {
        lemma_attached(sets, anchor, s + 1);
    }
}

/// An anchor is free where nothing is being opened for it, nothing failed to open
/// for it, and no set streams to it, and nowhere else.
pub proof fn anchors_are_taken_by_someone(m: SetsModel, anchor: u64)
    ensures
        is_taken(m, anchor) <==> m.pending.contains(anchor) || m.failed.contains(anchor) || exists|
            i: int,
        |
            0 <= i < m.sets.len() && (#[trigger] m.sets[i]).anchor == Some(anchor),
{
    lemma_attached(m.sets, anchor, 0);
}

} // verus!
