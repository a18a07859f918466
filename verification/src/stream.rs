//! The decisions of the streamer about one tileset: what is shown, what is
//! fetched, and what is dropped.
use crate::sorting::{stable_order, stable_sort, Rank, Ranked};
use crate::tree::{above, over_seed, tree_wf, under_seed, Node, TileTree};
use std::collections::HashMap;
use vstd::prelude::*;

verus! {

/// The state of a tile's content.
#[derive(Clone, Copy, Debug, PartialEq, Eq, Structural)]
pub enum TileSlot {
    NotLoaded,
    /// On its way, under a generation of its own.
    InFlight { generation: u64 },
    /// In memory. `entity` is what stands for it in the scene; a tile outside the
    /// cut has none, and keeps its content.
    Ready { entity: Option<u64>, bytes: u64 },
    /// It cannot be had.
    Failed,
}

/// Content that is in memory.
pub open spec fn is_ready(s: TileSlot) -> bool {
    s is Ready
}

/// Content that is in memory without anything in the scene.
pub open spec fn is_bare(s: TileSlot) -> bool {
    s matches TileSlot::Ready { entity: None, .. }
}

/// Content that has something in the scene.
pub open spec fn is_spawned(s: TileSlot) -> bool {
    s matches TileSlot::Ready { entity: Some(_), .. }
}

/// How a traversal sees the content of a tile.
#[derive(Clone, Copy, Debug, PartialEq, Eq, Structural)]
pub enum TileContent {
    /// There is none.
    Absent,
    Pending,
    Ready,
    Failed,
}

/// How a traversal sees a tile.
pub open spec fn content_of(slot: TileSlot, node: Node) -> TileContent {
    if node.uri is None {
        TileContent::Absent
    } else {
        match slot {
            TileSlot::Ready { .. } => TileContent::Ready,
            TileSlot::Failed => TileContent::Failed,
            _ => TileContent::Pending,
        }
    }
}

/// How a traversal sees the tiles of a set.
pub fn tiles_content(tree: &TileTree, slots: &Vec<TileSlot>) -> (r: Vec<TileContent>)
    requires
        slots@.len() == tree@.len(),
    ensures
        r@ == Seq::new(tree@.len(), |i: int| content_of(slots@[i], tree@[i])),
{
    let mut r: Vec<TileContent> = Vec::new();
    let mut i: usize = 0;
    while i < tree.nodes.len()
        invariant
            i <= tree.nodes@.len(),
            slots@.len() == tree@.len(),
            r@.len() == i,
            forall|k: int| 0 <= k < i ==> #[trigger] r@[k] == content_of(slots@[k], tree@[k]),
        decreases tree.nodes@.len() - i,
    {
        assert(tree@[i as int] == tree.nodes@[i as int]@);
        let c = match tree.nodes[i].content_uri {
            None => TileContent::Absent,
            Some(_) => match slots[i] {
                TileSlot::Ready { .. } => TileContent::Ready,
                TileSlot::Failed => TileContent::Failed,
                _ => TileContent::Pending,
            },
        };
        r.push(c);
        i = i + 1;
    }
    assert(r@ =~= Seq::new(tree@.len(), |i: int| content_of(slots@[i], tree@[i])));
    r
}

/// The tiles of a list, as flags.
pub open spec fn flagged(list: Seq<usize>, n: nat) -> Seq<bool> {
    Seq::new(n, |i: int| exists|k: int| 0 <= k < list.len() && #[trigger] list[k] == i)
}

/// The tiles of a list, as flags.
pub fn flags_of(list: &Vec<usize>, n: usize) -> (r: Vec<bool>)
    requires
        forall|k: int| 0 <= k < list@.len() ==> #[trigger] list@[k] < n,
    ensures
        r@ == flagged(list@, n as nat),
{
    let mut r: Vec<bool> = Vec::new();
    let mut i: usize = 0;
    while i < n
        invariant
            i <= n,
            r@.len() == i,
            forall|j: int| 0 <= j < i ==> !#[trigger] r@[j],
        decreases n - i,
    {
        r.push(false);
        i = i + 1;
    }
    let mut k: usize = 0;
    while k < list.len()
        invariant
            k <= list@.len(),
            r@.len() == n,
            forall|k: int| 0 <= k < list@.len() ==> #[trigger] list@[k] < n,
            forall|j: int|
                0 <= j < n ==> (#[trigger] r@[j] <==> exists|m: int|
                    0 <= m < k && #[trigger] list@[m] == j),
        decreases list@.len() - k,
    {
        let t: usize = list[k];
        let ghost before = r@;
        r.set(t, true);
        k = k + 1;
        assert forall|j: int| 0 <= j < n implies (#[trigger] r@[j] <==> exists|m: int|
            0 <= m < k && #[trigger] list@[m] == j) by {
            if j == t {
                assert(list@[k - 1] == j);
            }
            if before[j] {
                let m = choose|m: int| 0 <= m < k - 1 && #[trigger] list@[m] == j;
                assert(list@[m] == j);
            }
        }
    }
    assert(r@ =~= flagged(list@, n as nat));
    r
}

/// The wanted tiles that have nothing in the scene.
pub open spec fn starving(want: Seq<bool>, slots: Seq<TileSlot>) -> Seq<bool> {
    Seq::new(slots.len(), |i: int| want[i] && is_bare(slots[i]))
}

/// Tile `j` may be covering for a starving tile: it is above or below one.
pub open spec fn covers(t: Seq<Node>, starved: Seq<bool>, j: int) -> bool {
    over_seed(t, starved, j) || under_seed(t, starved, j)
}

/// The tiles that must stay in the scene for now: those above or below a
/// starving tile, and no others.
pub open spec fn held(t: Seq<Node>, want: Seq<bool>, slots: Seq<TileSlot>) -> Seq<bool> {
    Seq::new(t.len(), |j: int| covers(t, starving(want, slots), j))
}

/// Some tile is starving.
pub open spec fn any_starving(want: Seq<bool>, slots: Seq<TileSlot>) -> bool {
    exists|i: int| 0 <= i < slots.len() && want[i] && is_bare(#[trigger] slots[i])
}

/// Which tiles outside the cut must stay in the scene, and whether some wanted
/// tile has nothing there. What covers the place of a starving tile is above it
/// while the view refines, and below it while it coarsens.
pub fn refinement_hold(tree: &TileTree, want_visible: &Vec<bool>, slots: &Vec<TileSlot>) -> (r: (
    Vec<bool>,
    bool,
))
    requires
        tree_wf(tree@),
        want_visible@.len() == tree@.len(),
        slots@.len() == tree@.len(),
    ensures
        r.0@ == held(tree@, want_visible@, slots@),
        r.1 == any_starving(want_visible@, slots@),
{
    let n: usize = tree.len();
    let mut seed: Vec<bool> = Vec::new();
    let mut starved = false;
    let mut i: usize = 0;
    while i < n
        invariant
            i <= n,
            n == tree@.len(),
            want_visible@.len() == n,
            slots@.len() == n,
            seed@.len() == i,
            forall|k: int|
                0 <= k < i ==> #[trigger] seed@[k] == (want_visible@[k] && is_bare(slots@[k])),
            starved <==> exists|k: int|
                0 <= k < i && want_visible@[k] && is_bare(#[trigger] slots@[k]),
        decreases n - i,
    {
        let bare = match slots[i] {
            TileSlot::Ready { entity: None, .. } => true,
            _ => false,
        };
        let s = want_visible[i] && bare;
        assert(is_bare(slots@[i as int]) == bare);
        seed.push(s);
        if s {
            starved = true;
        }
        i = i + 1;
    }
    assert(seed@ =~= starving(want_visible@, slots@));
    let over = tree.mark_over(&seed);
    let under = tree.mark_under(&seed);
    let mut hold: Vec<bool> = Vec::new();
    let mut j: usize = 0;
    while j < n
        invariant
            j <= n,
            n == tree@.len(),
            over@.len() == n,
            under@.len() == n,
            over@ == Seq::new(tree@.len(), |j: int| over_seed(tree@, seed@, j)),
            under@ == Seq::new(tree@.len(), |j: int| under_seed(tree@, seed@, j)),
            hold@.len() == j,
            forall|k: int| 0 <= k < j ==> #[trigger] hold@[k] == covers(tree@, seed@, k),
        decreases n - j,
    {
        hold.push(over[j] || under[j]);
        j = j + 1;
    }
    assert(hold@ =~= held(tree@, want_visible@, slots@));
    (hold, starved)
}

/// The held tiles that are painting: in the scene, visible, and outside the cut.
pub open spec fn painting(hold: Seq<bool>, want: Seq<bool>, visible: Seq<bool>, slots: Seq<TileSlot>) -> Seq<bool> {
    Seq::new(
        slots.len(),
        |i: int| hold[i] && !want[i] && is_spawned(slots[i]) && visible[i],
    )
}

/// The tiles whose place a coarser, held tile is painting.
pub open spec fn painted_over(
    t: Seq<Node>,
    hold: Seq<bool>,
    want: Seq<bool>,
    visible: Seq<bool>,
    slots: Seq<TileSlot>,
) -> Seq<bool> {
    Seq::new(t.len(), |i: int| under_seed(t, painting(hold, want, visible, slots), i))
}

/// The tiles whose place a coarser, held tile is painting. They wait until it
/// leaves.
pub fn covered_by_coarser(
    tree: &TileTree,
    hold: &Vec<bool>,
    want: &Vec<bool>,
    visible: &Vec<bool>,
    slots: &Vec<TileSlot>,
) -> (r: Vec<bool>)
    requires
        tree_wf(tree@),
        hold@.len() == tree@.len(),
        want@.len() == tree@.len(),
        visible@.len() == tree@.len(),
        slots@.len() == tree@.len(),
    ensures
        r@ == painted_over(tree@, hold@, want@, visible@, slots@),
{
    let n: usize = tree.len();
    let mut seed: Vec<bool> = Vec::new();
    let mut i: usize = 0;
    while i < n
        invariant
            i <= n,
            n == tree@.len(),
            hold@.len() == n,
            want@.len() == n,
            visible@.len() == n,
            slots@.len() == n,
            seed@.len() == i,
            forall|k: int|
                0 <= k < i ==> #[trigger] seed@[k] == (hold@[k] && !want@[k] && is_spawned(
                    slots@[k],
                ) && visible@[k]),
        decreases n - i,
    {
        let spawned = match slots[i] {
            TileSlot::Ready { entity: Some(_), .. } => true,
            _ => false,
        };
        assert(is_spawned(slots@[i as int]) == spawned);
        seed.push(hold[i] && !want[i] && spawned && visible[i]);
        i = i + 1;
    }
    assert(seed@ =~= painting(hold@, want@, visible@, slots@));
    tree.mark_under(&seed)
}

/// A change to the scene.
#[derive(Clone, Copy, Debug, PartialEq, Eq, Structural)]
pub enum CutAction {
    /// Make what stands for a tile visible.
    Show { entity: u64 },
    /// Put a tile into the scene, from the content that it kept.
    Spawn { tile: usize, entity: u64, visible: bool },
    /// Take what stands for a tile out of the scene.
    Despawn { entity: u64 },
}

/// The tiles of a set while the cut is applied.
pub struct Cut {
    pub slots: Seq<TileSlot>,
    pub actions: Seq<CutAction>,
    /// How many tiles may still be put back into the scene.
    pub left: nat,
    /// The next name for something in the scene.
    pub next: nat,
}

/// What the cut is applied with.
pub struct CutView {
    pub want: Seq<bool>,
    pub visible: Seq<bool>,
    pub hold: Seq<bool>,
    pub covered: Seq<bool>,
    /// The set has a place in the scene.
    pub placed: bool,
}

/// A wanted tile is shown, or put back into the scene while the budget lasts. It
/// waits, hidden, while a coarser tile is painting its place.
pub open spec fn shown(c: Cut, i: int, v: CutView) -> Cut {
    match c.slots[i] {
        TileSlot::Ready { entity, bytes } => if !v.want[i] {
            c
        } else {
            match entity {
                Some(e) => if v.covered[i] || v.visible[i] {
                    c
                } else {
                    Cut { actions: c.actions.push(CutAction::Show { entity: e }), ..c }
                },
                None => if c.left == 0 || !v.placed {
                    c
                } else {
                    Cut {
                        slots: c.slots.update(
                            i,
                            TileSlot::Ready { entity: Some(c.next as u64), bytes },
                        ),
                        actions: c.actions.push(
                            CutAction::Spawn {
                                tile: i as usize,
                                entity: c.next as u64,
                                visible: !v.covered[i],
                            },
                        ),
                        left: (c.left - 1) as nat,
                        next: c.next + 1,
                    }
                },
            }
        },
        _ => c,
    }
}

/// The first `k` tiles are shown.
pub open spec fn shown_up_to(c: Cut, k: int, v: CutView) -> Cut
    decreases k,
{
    if k <= 0 {
        c
    } else {
        shown(shown_up_to(c, k - 1, v), k - 1, v)
    }
}

/// A tile outside the cut that covers for no other leaves the scene, and keeps
/// its content.
pub open spec fn hidden(c: Cut, i: int, v: CutView) -> Cut {
    match c.slots[i] {
        TileSlot::Ready { entity: Some(e), bytes } => if !v.want[i] && v.placed && !v.hold[i] {
            Cut {
                slots: c.slots.update(i, TileSlot::Ready { entity: None, bytes }),
                actions: c.actions.push(CutAction::Despawn { entity: e }),
                ..c
            }
        } else {
            c
        },
        _ => c,
    }
}

/// The first `k` tiles leave where they should.
pub open spec fn hidden_up_to(c: Cut, k: int, v: CutView) -> Cut
    decreases k,
{
    if k <= 0 {
        c
    } else {
        hidden(hidden_up_to(c, k - 1, v), k - 1, v)
    }
}

/// The cut applied: what enters before what leaves.
pub open spec fn cut_applied(c: Cut, v: CutView) -> Cut {
    hidden_up_to(shown_up_to(c, c.slots.len() as int, v), c.slots.len() as int, v)
}

/// How many tiles some changes put into the scene.
pub open spec fn spawns(actions: Seq<CutAction>) -> nat
    decreases actions.len(),
{
    if actions.len() == 0 {
        0
    } else {
        spawns(actions.drop_last()) + if actions.last() is Spawn {
            1nat
        } else {
            0
        }
    }
}

pub proof fn lemma_spawns_push(actions: Seq<CutAction>, a: CutAction)
    ensures
        spawns(actions.push(a)) == spawns(actions) + if a is Spawn {
            1nat
        } else {
            0
        },
{
    assert(actions.push(a).drop_last() =~= actions);
}

proof fn lemma_shown_len(c: Cut, k: int, v: CutView)
    requires
        0 <= k <= c.slots.len(),
    ensures
        shown_up_to(c, k, v).slots.len() == c.slots.len(),
        shown_up_to(c, k, v).left <= c.left,
        shown_up_to(c, k, v).next + shown_up_to(c, k, v).left == c.next + c.left,
        spawns(shown_up_to(c, k, v).actions) + shown_up_to(c, k, v).left == spawns(c.actions)
            + c.left,
    decreases k,
{
    if k > 0 {
        lemma_shown_len(c, k - 1, v);
        let before = shown_up_to(c, k - 1, v);
        let after = shown_up_to(c, k, v);
        if after.actions != before.actions {
            lemma_spawns_push(before.actions, after.actions.last());
            assert(after.actions == before.actions.push(after.actions.last()));
        }
    }
}

proof fn lemma_hidden_len(c: Cut, k: int, v: CutView)
    requires
        0 <= k <= c.slots.len(),
    ensures
        hidden_up_to(c, k, v).slots.len() == c.slots.len(),
        hidden_up_to(c, k, v).left == c.left,
        hidden_up_to(c, k, v).next == c.next,
        spawns(hidden_up_to(c, k, v).actions) == spawns(c.actions),
    decreases k,
{
    if k > 0 {
        lemma_hidden_len(c, k - 1, v);
        let before = hidden_up_to(c, k - 1, v);
        let after = hidden_up_to(c, k, v);
        if after.actions != before.actions {
            lemma_spawns_push(before.actions, after.actions.last());
            assert(after.actions == before.actions.push(after.actions.last()));
        }
    }
}

/// What the cut makes of each tile: showing touches only wanted tiles that have
/// nothing in the scene.
proof fn lemma_shown_slot(c: Cut, k: int, v: CutView, i: int)
    requires
        0 <= k <= c.slots.len(),
        0 <= i < c.slots.len(),
    ensures
        ({
            let now = shown_up_to(c, k, v).slots[i];
            ||| now == c.slots[i]
            ||| i < k && v.want[i] && v.placed && is_bare(c.slots[i]) && is_spawned(now)
                && now->bytes == c.slots[i]->bytes
        }),
        i < k && v.want[i] && is_bare(shown_up_to(c, k, v).slots[i]) ==> !v.placed || shown_up_to(
            c,
            k,
            v,
        ).left == 0,
    decreases k,
{
    if k > 0 {
        lemma_shown_len(c, k - 1, v);
        lemma_shown_slot(c, k - 1, v, i);
    }
}

proof fn lemma_hidden_slot(c: Cut, k: int, v: CutView, i: int)
    requires
        0 <= k <= c.slots.len(),
        0 <= i < c.slots.len(),
    ensures
        hidden_up_to(c, k, v).slots[i] == if i < k && is_spawned(c.slots[i]) && !v.want[i]
            && v.placed && !v.hold[i] {
            TileSlot::Ready { entity: None, bytes: c.slots[i]->bytes }
        } else {
            c.slots[i]
        },
    decreases k,
{
    if k > 0 {
        lemma_hidden_len(c, k - 1, v);
        lemma_hidden_slot(c, k - 1, v, i);
        lemma_hidden_slot(c, k - 1, v, k - 1);
    }
}

/// Tile `i` is visible after the cut is applied.
pub open spec fn seen(c: Cut, v: CutView, i: int) -> bool {
    is_spawned(cut_applied(c, v).slots[i]) && (v.visible[i] || (v.want[i] && !v.covered[i]))
}

/// What stands for a tile in the scene, where something does.
pub open spec fn name_of(s: TileSlot) -> u64 {
    s->entity->Some_0
}

/// What is visible after some changes, of what was visible before them.
pub open spec fn performed(scene: Set<u64>, actions: Seq<CutAction>) -> Set<u64>
    decreases actions.len(),
{
    if actions.len() == 0 {
        scene
    } else {
        let before = performed(scene, actions.drop_last());
        match actions.last() {
            CutAction::Show { entity } => before.insert(entity),
            CutAction::Spawn { entity, visible, .. } => if visible {
                before.insert(entity)
            } else {
                before.remove(entity)
            },
            CutAction::Despawn { entity } => before.remove(entity),
        }
    }
}

/// Tile `i` is in the scene, and visible.
pub open spec fn shows(slots: Seq<TileSlot>, scene: Set<u64>, i: int) -> bool {
    is_spawned(slots[i]) && scene.contains(name_of(slots[i]))
}

/// No two tiles share what stands for them, and the names from `next` on are
/// free.
pub open spec fn well_named(slots: Seq<TileSlot>, scene: Set<u64>, next: nat) -> bool {
    &&& forall|i: int|
        0 <= i < slots.len() && is_spawned(#[trigger] slots[i]) ==> name_of(slots[i]) < next
    &&& forall|i: int, j: int|
        0 <= i < j < slots.len() && is_spawned(#[trigger] slots[i]) && is_spawned(
            #[trigger] slots[j],
        ) ==> name_of(slots[i]) != name_of(slots[j])
    &&& forall|e: u64| #[trigger] scene.contains(e) ==> e < next
}

pub proof fn lemma_performed_push(scene: Set<u64>, actions: Seq<CutAction>, a: CutAction)
    ensures
        performed(scene, actions.push(a)) == match a {
            CutAction::Show { entity } => performed(scene, actions).insert(entity),
            CutAction::Spawn { entity, visible, .. } => if visible {
                performed(scene, actions).insert(entity)
            } else {
                performed(scene, actions).remove(entity)
            },
            CutAction::Despawn { entity } => performed(scene, actions).remove(entity),
        },
{
    assert(actions.push(a).drop_last() =~= actions);
}

proof fn lemma_shown_scene(c: Cut, k: int, v: CutView, scene: Set<u64>)
    requires
        0 <= k <= c.slots.len(),
        c.actions.len() == 0,
        v.visible.len() == c.slots.len(),
        well_named(c.slots, scene, c.next),
        c.next + c.left <= u64::MAX,
        forall|i: int|
            0 <= i < c.slots.len() ==> #[trigger] v.visible[i] == shows(c.slots, scene, i),
    ensures
        ({
            let m = shown_up_to(c, k, v);
            let now = performed(scene, m.actions);
            &&& well_named(m.slots, now, m.next)
            &&& forall|i: int|
                0 <= i < c.slots.len() ==> #[trigger] shows(m.slots, now, i) == (is_spawned(
                    m.slots[i],
                ) && (v.visible[i] || (i < k && v.want[i] && !v.covered[i])))
        }),
    decreases k,
{
    if k > 0 {
        let q = k - 1;
        lemma_shown_scene(c, q, v, scene);
        lemma_shown_len(c, q, v);
        lemma_shown_len(c, k, v);
        lemma_shown_slot(c, q, v, q);
        let b = shown_up_to(c, q, v);
        let m = shown_up_to(c, k, v);
        let was = performed(scene, b.actions);
        let now = performed(scene, m.actions);
        assert(v.visible[q] == shows(c.slots, scene, q));
        assert(shows(b.slots, was, q) == (is_spawned(b.slots[q]) && v.visible[q]));
        if m.actions.len() != b.actions.len() {
            lemma_performed_push(scene, b.actions, m.actions.last());
            assert(m.actions == b.actions.push(m.actions.last()));
        }
        assert forall|i: int| 0 <= i < c.slots.len() implies #[trigger] shows(m.slots, now, i) == (
        is_spawned(m.slots[i]) && (v.visible[i] || (i < k && v.want[i] && !v.covered[i]))) by {
            assert(shows(b.slots, was, i) == (is_spawned(b.slots[i]) && (v.visible[i] || (i < q
                && v.want[i] && !v.covered[i]))));
            if i != q {
                assert(m.slots[i] == b.slots[i]);
            }
        }
    } else {
        assert(performed(scene, c.actions) == scene);
    }
}

proof fn lemma_hidden_scene(c: Cut, k: int, v: CutView, scene: Set<u64>)
    requires
        0 <= k <= c.slots.len(),
        well_named(c.slots, performed(scene, c.actions), c.next),
    ensures
        ({
            let m = hidden_up_to(c, k, v);
            let was = performed(scene, c.actions);
            let now = performed(scene, m.actions);
            &&& well_named(m.slots, now, m.next)
            &&& forall|i: int|
                0 <= i < c.slots.len() ==> #[trigger] shows(m.slots, now, i) == (is_spawned(
                    m.slots[i],
                ) && shows(c.slots, was, i))
        }),
    decreases k,
{
    let was = performed(scene, c.actions);
    if k > 0 {
        let q = k - 1;
        lemma_hidden_scene(c, q, v, scene);
        lemma_hidden_len(c, q, v);
        lemma_hidden_len(c, k, v);
        lemma_hidden_slot(c, q, v, q);
        let b = hidden_up_to(c, q, v);
        let m = hidden_up_to(c, k, v);
        let mid = performed(scene, b.actions);
        let now = performed(scene, m.actions);
        if m.actions.len() != b.actions.len() {
            lemma_performed_push(scene, b.actions, m.actions.last());
            assert(m.actions == b.actions.push(m.actions.last()));
        }
        assert forall|i: int| 0 <= i < c.slots.len() implies #[trigger] shows(m.slots, now, i) == (
        is_spawned(m.slots[i]) && shows(c.slots, was, i)) by {
            assert(shows(b.slots, mid, i) == (is_spawned(b.slots[i]) && shows(c.slots, was, i)));
            if i != q {
                assert(m.slots[i] == b.slots[i]);
            }
        }
    } else {
        assert forall|i: int| 0 <= i < c.slots.len() implies #[trigger] shows(c.slots, was, i) == (
        is_spawned(c.slots[i]) && shows(c.slots, was, i)) by {}
    }
}

/// What is visible after the changes of a cut are made is what the cut shows.
pub proof fn the_scene_follows_the_cut(c: Cut, v: CutView, scene: Set<u64>)
    requires
        c.actions.len() == 0,
        v.visible.len() == c.slots.len(),
        well_named(c.slots, scene, c.next),
        c.next + c.left <= u64::MAX,
        forall|i: int|
            0 <= i < c.slots.len() ==> #[trigger] v.visible[i] == shows(c.slots, scene, i),
    ensures
        ({
            let after = cut_applied(c, v);
            let now = performed(scene, after.actions);
            &&& well_named(after.slots, now, after.next)
            &&& forall|i: int|
                0 <= i < c.slots.len() ==> #[trigger] shows(after.slots, now, i) == seen(c, v, i)
        }),
{
    let n = c.slots.len() as int;
    let mid = shown_up_to(c, n, v);
    let after = cut_applied(c, v);
    let then = performed(scene, mid.actions);
    let now = performed(scene, after.actions);
    lemma_shown_scene(c, n, v, scene);
    lemma_shown_len(c, n, v);
    lemma_hidden_scene(mid, n, v, scene);
    assert forall|i: int| 0 <= i < n implies #[trigger] shows(after.slots, now, i) == seen(
        c,
        v,
        i,
    ) by {
        lemma_hidden_slot(mid, n, v, i);
        assert(shows(after.slots, now, i) == (is_spawned(after.slots[i]) && shows(
            mid.slots,
            then,
            i,
        )));
    }
}

/// While a coarse tile that paints is replaced by finer ones below it that are in
/// memory, one rung is visible: the coarse tile alone, or all the fine ones and
/// not it.
pub proof fn refinement_shows_one_rung(t: Seq<Node>, c: Cut, v: CutView, r: int)
    requires
        c.slots.len() == t.len(),
        v.want.len() == t.len(),
        v.visible.len() == t.len(),
        v.hold == held(t, v.want, c.slots),
        v.covered == painted_over(t, v.hold, v.want, v.visible, c.slots),
        v.placed,
        0 <= r < t.len(),
        is_spawned(c.slots[r]),
        v.visible[r],
        !v.want[r],
        forall|i: int|
            0 <= i < t.len() && #[trigger] v.want[i] ==> above(t, r, i) && is_ready(c.slots[i])
                && !v.visible[i],
    ensures
        seen(c, v, r) == any_starving(v.want, c.slots),
        seen(c, v, r) ==> forall|i: int|
            0 <= i < t.len() && #[trigger] v.want[i] ==> !seen(c, v, i),
        !seen(c, v, r) ==> forall|i: int|
            0 <= i < t.len() && #[trigger] v.want[i] ==> seen(c, v, i),
{
    let n = c.slots.len() as int;
    let mid = shown_up_to(c, n, v);
    lemma_shown_len(c, n, v);
    lemma_shown_slot(c, n, v, r);
    lemma_hidden_slot(mid, n, v, r);
    let seed = starving(v.want, c.slots);
    if any_starving(v.want, c.slots) {
        let s = choose|s: int| 0 <= s < n && v.want[s] && is_bare(#[trigger] c.slots[s]);
        assert(v.want[s]);
        assert(seed[s]);
        assert(over_seed(t, seed, r));
        assert(v.hold[r]);
        let paint = painting(v.hold, v.want, v.visible, c.slots);
        assert(paint[r]);
        assert forall|i: int| 0 <= i < n && #[trigger] v.want[i] implies v.covered[i] by {
            assert(under_seed(t, paint, i));
        }
    } else {
        lemma_fed(t, v.want, v.visible, c.slots);
        assert forall|i: int| 0 <= i < n && #[trigger] v.want[i] implies seen(c, v, i) by {
            lemma_shown_slot(c, n, v, i);
            lemma_hidden_slot(mid, n, v, i);
            assert(!is_bare(c.slots[i]));
        }
    }
}

/// Where no wanted tile is starving, none must stay, and none is covered.
pub proof fn lemma_fed(t: Seq<Node>, want: Seq<bool>, visible: Seq<bool>, slots: Seq<TileSlot>)
    requires
        slots.len() == t.len(),
        !any_starving(want, slots),
    ensures
        ({
            let hold = held(t, want, slots);
            let covered = painted_over(t, hold, want, visible, slots);
            forall|i: int| 0 <= i < t.len() ==> !(#[trigger] hold[i]) && !covered[i]
        }),
{
    let seed = starving(want, slots);
    let hold = held(t, want, slots);
    let paint = painting(hold, want, visible, slots);
    assert forall|i: int| 0 <= i < t.len() implies !(#[trigger] hold[i]) by {
        assert forall|k: int| 0 <= k < seed.len() implies !(#[trigger] seed[k]) by {
            assert(is_bare(slots[k]) ==> !want[k]);
        }
    }
    assert forall|i: int| 0 <= i < t.len() implies !(#[trigger] painted_over(
        t,
        hold,
        want,
        visible,
        slots,
    )[i]) by {
        assert forall|k: int| 0 <= k < paint.len() implies !(#[trigger] paint[k]) by {
            assert(!hold[k]);
        }
    }
}

/// How many of the first `k` tiles are wanted and have nothing in the scene.
pub open spec fn bare_up_to(want: Seq<bool>, slots: Seq<TileSlot>, k: int) -> nat
    decreases k,
{
    if k <= 0 {
        0
    } else {
        bare_up_to(want, slots, k - 1) + if want[k - 1] && is_bare(slots[k - 1]) {
            1nat
        } else {
            0
        }
    }
}

/// How many tiles are wanted and have nothing in the scene.
pub open spec fn bare_count(want: Seq<bool>, slots: Seq<TileSlot>) -> nat {
    bare_up_to(want, slots, slots.len() as int)
}

pub proof fn lemma_bare_same(want: Seq<bool>, a: Seq<TileSlot>, b: Seq<TileSlot>, k: int)
    requires
        0 <= k <= a.len(),
        a.len() == b.len(),
        forall|i: int| 0 <= i < k && want[i] ==> is_bare(#[trigger] a[i]) == is_bare(b[i]),
    ensures
        bare_up_to(want, a, k) == bare_up_to(want, b, k),
    decreases k,
{
    if k > 0 {
        lemma_bare_same(want, a, b, k - 1);
        assert(want[k - 1] ==> is_bare(a[k - 1]) == is_bare(b[k - 1]));
    }
}

proof fn lemma_bare_filled(want: Seq<bool>, slots: Seq<TileSlot>, q: int, s: TileSlot, k: int)
    requires
        0 <= q < k <= slots.len(),
        want[q],
        is_bare(slots[q]),
        !is_bare(s),
    ensures
        bare_up_to(want, slots.update(q, s), k) + 1 == bare_up_to(want, slots, k),
    decreases k,
{
    if q == k - 1 {
        lemma_bare_same(want, slots, slots.update(q, s), q);
    } else {
        lemma_bare_filled(want, slots, q, s, k - 1);
    }
}

pub proof fn lemma_bare_bounds(want: Seq<bool>, slots: Seq<TileSlot>, k: int)
    requires
        0 <= k <= slots.len(),
    ensures
        bare_up_to(want, slots, k) <= k,
        bare_up_to(want, slots, k) == 0 <==> forall|i: int|
            0 <= i < k && want[i] ==> !is_bare(#[trigger] slots[i]),
    decreases k,
{
    if k > 0 {
        lemma_bare_bounds(want, slots, k - 1);
    }
}

proof fn lemma_shown_bare(c: Cut, k: int, v: CutView)
    requires
        0 <= k <= c.slots.len(),
    ensures
        bare_count(v.want, shown_up_to(c, k, v).slots) + c.left == bare_count(v.want, c.slots)
            + shown_up_to(c, k, v).left,
    decreases k,
{
    if k > 0 {
        lemma_shown_bare(c, k - 1, v);
        lemma_shown_len(c, k - 1, v);
        let b = shown_up_to(c, k - 1, v);
        let m = shown_up_to(c, k, v);
        if m.left != b.left {
            lemma_bare_filled(
                v.want,
                b.slots,
                k - 1,
                m.slots[k - 1],
                c.slots.len() as int,
            );
        }
    }
}

/// Each tile that is put into the scene leaves one fewer that waits, and while
/// the budget lasts none waits after the cut.
pub proof fn waiting_tiles_get_fewer(c: Cut, v: CutView)
    requires
        v.placed,
    ensures
        bare_count(v.want, cut_applied(c, v).slots) + c.left == bare_count(v.want, c.slots)
            + cut_applied(c, v).left,
        cut_applied(c, v).left > 0 ==> bare_count(v.want, cut_applied(c, v).slots) == 0,
{
    let n = c.slots.len() as int;
    let mid = shown_up_to(c, n, v);
    let after = cut_applied(c, v);
    lemma_shown_bare(c, n, v);
    lemma_shown_len(c, n, v);
    lemma_hidden_len(mid, n, v);
    assert forall|i: int| 0 <= i < n && v.want[i] implies is_bare(#[trigger] mid.slots[i])
        == is_bare(after.slots[i]) by {
        lemma_hidden_slot(mid, n, v, i);
    }
    lemma_bare_same(v.want, mid.slots, after.slots, n);
    if after.left > 0 {
        assert forall|i: int| 0 <= i < n && v.want[i] implies !is_bare(
            #[trigger] mid.slots[i],
        ) by {
            lemma_shown_slot(c, n, v, i);
        }
        lemma_bare_bounds(v.want, mid.slots, n);
    }
}

/// A tile that must stay in the scene is never taken out of it by the cut, and a
/// wanted tile neither: where a wanted tile is left without anything in the
/// scene, all that may be covering for it is still there. So a change of detail
/// never opens a hole.
pub proof fn swaps_open_no_hole(t: Seq<Node>, c: Cut, v: CutView, i: int, j: int)
    requires
        c.slots.len() == t.len(),
        v.want.len() == t.len(),
        v.hold == held(t, v.want, c.slots),
        0 <= i < t.len(),
        0 <= j < t.len(),
        v.want[i],
        is_bare(cut_applied(c, v).slots[i]),
        above(t, j, i) || above(t, i, j),
        is_spawned(c.slots[j]),
    ensures
        cut_applied(c, v).slots[j] == c.slots[j],
{
    let n = c.slots.len() as int;
    let mid = shown_up_to(c, n, v);
    lemma_shown_len(c, n, v);
    lemma_shown_slot(c, n, v, i);
    lemma_shown_slot(c, n, v, j);
    lemma_hidden_slot(mid, n, v, i);
    lemma_hidden_slot(mid, n, v, j);
    let seed = starving(v.want, c.slots);
    assert(seed[i]);
    if above(t, j, i) {
        assert(over_seed(t, seed, j));
    } else {
        assert(under_seed(t, seed, j));
    }
    assert(v.hold[j]);
}

/// A wanted tile that is in memory and has nothing in the scene is put there in
/// the same frame, unless the budget is used up or the set has no place. It is
/// visible at once, unless a coarser tile is painting its place.
pub proof fn entries_are_prompt(c: Cut, v: CutView, i: int)
    requires
        0 <= i < c.slots.len(),
        v.want[i],
        is_ready(c.slots[i]),
        v.placed,
        cut_applied(c, v).left > 0,
    ensures
        is_spawned(cut_applied(c, v).slots[i]),
        !v.covered[i] ==> seen(c, v, i),
{
    let n = c.slots.len() as int;
    let mid = shown_up_to(c, n, v);
    lemma_shown_len(c, n, v);
    lemma_shown_slot(c, n, v, i);
    lemma_hidden_len(mid, n, v);
    lemma_hidden_slot(mid, n, v, i);
}

/// A wanted tile that is in the scene stays there as it is.
pub proof fn cut_keeps_the_wanted(c: Cut, v: CutView, i: int)
    requires
        0 <= i < c.slots.len(),
        v.want[i],
        is_spawned(c.slots[i]),
    ensures
        cut_applied(c, v).slots[i] == c.slots[i],
{
    let n = c.slots.len() as int;
    lemma_shown_len(c, n, v);
    lemma_shown_slot(c, n, v, i);
    lemma_hidden_slot(shown_up_to(c, n, v), n, v, i);
}

/// A held tile that is in the scene stays there as it is.
pub proof fn cut_keeps_the_held(c: Cut, v: CutView, i: int)
    requires
        0 <= i < c.slots.len(),
        v.hold[i],
        is_spawned(c.slots[i]),
    ensures
        cut_applied(c, v).slots[i] == c.slots[i],
{
    let n = c.slots.len() as int;
    lemma_shown_len(c, n, v);
    lemma_shown_slot(c, n, v, i);
    lemma_hidden_slot(shown_up_to(c, n, v), n, v, i);
}

/// A tile outside the cut that is not held leaves the scene.
pub proof fn cut_lets_the_rest_go(c: Cut, v: CutView, i: int)
    requires
        0 <= i < c.slots.len(),
        !v.want[i],
        !v.hold[i],
        v.placed,
    ensures
        !is_spawned(cut_applied(c, v).slots[i]),
{
    let n = c.slots.len() as int;
    lemma_shown_len(c, n, v);
    lemma_hidden_slot(shown_up_to(c, n, v), n, v, i);
}

/// Coarsening leaves no gap: in the frame in which a coarse tile enters the
/// scene, the finer tiles below it that it replaces stay visible under it.
pub proof fn coarsening_overlaps(t: Seq<Node>, c: Cut, v: CutView, i: int, j: int)
    requires
        c.slots.len() == t.len(),
        v.want.len() == t.len(),
        v.hold == held(t, v.want, c.slots),
        v.placed,
        0 <= i < t.len(),
        0 <= j < t.len(),
        v.want[i],
        is_bare(c.slots[i]),
        !v.covered[i],
        above(t, i, j),
        is_spawned(c.slots[j]),
        v.visible[j],
        cut_applied(c, v).left > 0,
    ensures
        seen(c, v, i),
        seen(c, v, j),
{
    entries_are_prompt(c, v, i);
    let n = c.slots.len() as int;
    let mid = shown_up_to(c, n, v);
    lemma_shown_len(c, n, v);
    lemma_shown_slot(c, n, v, j);
    lemma_hidden_slot(mid, n, v, j);
    let seed = starving(v.want, c.slots);
    assert(seed[i]);
    assert(under_seed(t, seed, j));
    assert(v.hold[j]);
}

/// The bytes of what is in memory among the first `k` tiles.
pub open spec fn bytes_up_to(slots: Seq<TileSlot>, k: int) -> nat
    decreases k,
{
    if k <= 0 {
        0
    } else {
        bytes_up_to(slots, k - 1) + match slots[k - 1] {
            TileSlot::Ready { bytes, .. } => bytes as nat,
            _ => 0,
        }
    }
}

/// The bytes of what is in memory.
pub open spec fn resident_bytes(slots: Seq<TileSlot>) -> nat {
    bytes_up_to(slots, slots.len() as int)
}

/// Tiles that leave or enter the scene keep their content: which tiles are in
/// memory is the same before and after, and so are the bytes of each and of all.
pub proof fn hiding_keeps_content(c: Cut, v: CutView)
    ensures
        cut_applied(c, v).slots.len() == c.slots.len(),
        forall|i: int|
            0 <= i < c.slots.len() ==> is_ready(#[trigger] cut_applied(c, v).slots[i]) == is_ready(
                c.slots[i],
            ) && (is_ready(c.slots[i]) ==> cut_applied(c, v).slots[i]->bytes == c.slots[i]->bytes),
        resident_bytes(cut_applied(c, v).slots) == resident_bytes(c.slots),
{
    let n = c.slots.len() as int;
    let mid = shown_up_to(c, n, v);
    let after = cut_applied(c, v);
    lemma_shown_len(c, n, v);
    lemma_hidden_len(mid, n, v);
    assert forall|i: int| 0 <= i < n implies is_ready(#[trigger] after.slots[i]) == is_ready(
        c.slots[i],
    ) && (is_ready(c.slots[i]) ==> after.slots[i]->bytes == c.slots[i]->bytes) by {
        lemma_shown_slot(c, n, v, i);
        lemma_hidden_slot(mid, n, v, i);
    }
    lemma_same_bytes(c.slots, after.slots, n);
}

proof fn lemma_same_bytes(a: Seq<TileSlot>, b: Seq<TileSlot>, k: int)
    requires
        0 <= k <= a.len(),
        a.len() == b.len(),
        forall|i: int|
            0 <= i < a.len() ==> is_ready(#[trigger] b[i]) == is_ready(a[i]) && (is_ready(a[i])
                ==> b[i]->bytes == a[i]->bytes),
    ensures
        bytes_up_to(a, k) == bytes_up_to(b, k),
    decreases k,
{
    if k > 0 {
        lemma_same_bytes(a, b, k - 1);
        assert(is_ready(b[k - 1]) == is_ready(a[k - 1]));
    }
}

/// What stands for a tile in the scene.
pub open spec fn stands_for(slot: TileSlot, e: u64) -> bool {
    match slot {
        TileSlot::Ready { entity, .. } => entity == Some(e),
        _ => false,
    }
}

/// A change to the scene makes nothing visible over a coarser tile that is
/// painting.
pub open spec fn is_uncovered(c: Cut, v: CutView, a: CutAction) -> bool {
    match a {
        CutAction::Spawn { tile, visible, .. } => visible ==> exists|i: int|
            0 <= i < c.slots.len() && i as usize == tile && !#[trigger] v.covered[i],
        CutAction::Show { entity } => exists|i: int|
            0 <= i < c.slots.len() && !#[trigger] v.covered[i] && stands_for(c.slots[i], entity),
        CutAction::Despawn { .. } => true,
    }
}

/// What enters the scene while a coarser tile is painting its place stays
/// hidden: fine tiles are never drawn over the coarse ones that they replace.
pub proof fn fine_waits_for_coarse(c: Cut, v: CutView)
    requires
        c.actions.len() == 0,
    ensures
        forall|a: int|
            0 <= a < cut_applied(c, v).actions.len() ==> is_uncovered(
                c,
                v,
                #[trigger] cut_applied(c, v).actions[a],
            ),
{
    let n = c.slots.len() as int;
    lemma_shown_uncovered(c, v, n);
    lemma_shown_len(c, n, v);
    lemma_hidden_actions(shown_up_to(c, n, v), v, n);
}

proof fn lemma_shown_uncovered(c: Cut, v: CutView, k: int)
    requires
        0 <= k <= c.slots.len(),
        c.actions.len() == 0,
    ensures
        forall|a: int|
            0 <= a < shown_up_to(c, k, v).actions.len() ==> is_uncovered(
                c,
                v,
                #[trigger] shown_up_to(c, k, v).actions[a],
            ),
    decreases k,
{
    if k > 0 {
        lemma_shown_uncovered(c, v, k - 1);
        let before = shown_up_to(c, k - 1, v);
        let now = shown_up_to(c, k, v);
        lemma_shown_slot(c, k - 1, v, k - 1);
        assert forall|a: int| 0 <= a < now.actions.len() implies is_uncovered(
            c,
            v,
            #[trigger] now.actions[a],
        ) by {
            if a < before.actions.len() {
                assert(now.actions[a] == before.actions[a]);
            } else {
                assert(v.covered[k - 1] == v.covered[k - 1]);
            }
        }
    }
}

proof fn lemma_hidden_actions(c: Cut, v: CutView, k: int)
    requires
        0 <= k <= c.slots.len(),
    ensures
        hidden_up_to(c, k, v).actions.len() >= c.actions.len(),
        forall|a: int|
            0 <= a < hidden_up_to(c, k, v).actions.len() ==> (#[trigger] hidden_up_to(
                c,
                k,
                v,
            ).actions[a]) is Despawn || (a < c.actions.len() && hidden_up_to(c, k, v).actions[a]
                == c.actions[a]),
    decreases k,
{
    if k > 0 {
        lemma_hidden_actions(c, v, k - 1);
    }
}

/// The cut starts no request and calls none off.
pub proof fn cut_leaves_flights(c: Cut, v: CutView, i: int)
    requires
        0 <= i < c.slots.len(),
    ensures
        cut_applied(c, v).slots.len() == c.slots.len(),
        cut_applied(c, v).slots[i] is InFlight || c.slots[i] is InFlight ==> cut_applied(
            c,
            v,
        ).slots[i] == c.slots[i],
{
    let n = c.slots.len() as int;
    let mid = shown_up_to(c, n, v);
    lemma_shown_len(c, n, v);
    lemma_shown_slot(c, n, v, i);
    lemma_hidden_len(mid, n, v);
    lemma_hidden_slot(mid, n, v, i);
}

/// The tiles among the first `k` that have something in the scene, with what
/// stands for them there.
pub open spec fn standing_up_to(slots: Seq<TileSlot>, k: int) -> Seq<(usize, u64)>
    decreases k,
{
    if k <= 0 {
        Seq::empty()
    } else {
        let before = standing_up_to(slots, k - 1);
        match slots[k - 1] {
            TileSlot::Ready { entity: Some(e), .. } => before.push(((k - 1) as usize, e)),
            _ => before,
        }
    }
}

/// The tiles that have something in the scene: what is placed anew when the
/// origin of the world moves. A tile without anything there is placed when it
/// enters.
pub fn standing_tiles(slots: &Vec<TileSlot>) -> (r: Vec<(usize, u64)>)
    ensures
        r@ == standing_up_to(slots@, slots@.len() as int),
{
    let mut out: Vec<(usize, u64)> = Vec::new();
    let mut i: usize = 0;
    while i < slots.len()
        invariant
            i <= slots@.len(),
            out@ == standing_up_to(slots@, i as int),
        decreases slots@.len() - i,
    {
        if let TileSlot::Ready { entity: Some(e), .. } = slots[i] {
            out.push((i, e));
        }
        i = i + 1;
    }
    out
}

/// No more tiles are put back into the scene than the budget allows.
pub proof fn respawns_stay_in_budget(c: Cut, v: CutView)
    ensures
        cut_applied(c, v).next - c.next == c.left - cut_applied(c, v).left,
        spawns(cut_applied(c, v).actions) - spawns(c.actions) == c.left - cut_applied(c, v).left,
        cut_applied(c, v).left <= c.left,
{
    let n = c.slots.len() as int;
    lemma_shown_len(c, n, v);
    lemma_hidden_len(shown_up_to(c, n, v), n, v);
}

/// Applies the cut to the tiles of a set, and returns the changes to the scene.
/// `left` is how many tiles may still be put back into it, over all sets;
/// `next` is the next name for something in the scene.
pub fn apply_cut(
    slots: &mut Vec<TileSlot>,
    want: &Vec<bool>,
    visible: &Vec<bool>,
    hold: &Vec<bool>,
    covered: &Vec<bool>,
    placed: bool,
    left: &mut usize,
    next: &mut u64,
) -> (actions: Vec<CutAction>)
    requires
        want@.len() == old(slots)@.len(),
        visible@.len() == old(slots)@.len(),
        hold@.len() == old(slots)@.len(),
        covered@.len() == old(slots)@.len(),
        *old(next) + *old(left) <= u64::MAX,
    ensures
        ({
            let c = Cut {
                slots: old(slots)@,
                actions: Seq::empty(),
                left: *old(left) as nat,
                next: *old(next) as nat,
            };
            let v = CutView {
                want: want@,
                visible: visible@,
                hold: hold@,
                covered: covered@,
                placed,
            };
            cut_applied(c, v) == (Cut {
                slots: final(slots)@,
                actions: actions@,
                left: *final(left) as nat,
                next: *final(next) as nat,
            })
        }),
        *final(next) + *final(left) == *old(next) + *old(left),
        final(slots)@.len() == old(slots)@.len(),
{
    let n: usize = slots.len();
    let ghost v = CutView { want: want@, visible: visible@, hold: hold@, covered: covered@, placed };
    let ghost c = Cut {
        slots: slots@,
        actions: Seq::empty(),
        left: *left as nat,
        next: *next as nat,
    };
    let mut actions: Vec<CutAction> = Vec::new();
    assert(actions@ =~= Seq::empty());
    let mut i: usize = 0;
    while i < n
        invariant
            i <= n,
            n == c.slots.len(),
            n == slots@.len(),
            want@.len() == n,
            visible@.len() == n,
            hold@.len() == n,
            covered@.len() == n,
            v == (CutView { want: want@, visible: visible@, hold: hold@, covered: covered@, placed }),
            *next + *left == c.next + c.left,
            c.next + c.left <= u64::MAX,
            shown_up_to(c, i as int, v) == (Cut {
                slots: slots@,
                actions: actions@,
                left: *left as nat,
                next: *next as nat,
            }),
        decreases n - i,
    {
        if let TileSlot::Ready { entity, bytes } = slots[i] {
            if want[i] {
                match entity {
                    Some(e) => {
                        if !covered[i] && !visible[i] {
                            actions.push(CutAction::Show { entity: e });
                        }
                    },
                    None => {
                        if *left > 0 && placed {
                            let e: u64 = *next;
                            slots.set(i, TileSlot::Ready { entity: Some(e), bytes });
                            actions.push(
                                CutAction::Spawn { tile: i, entity: e, visible: !covered[i] },
                            );
                            *left = *left - 1;
                            *next = *next + 1;
                        }
                    },
                }
            }
        }
        i = i + 1;
    }
    let ghost mid = shown_up_to(c, n as int, v);
    let mut k: usize = 0;
    while k < n
        invariant
            k <= n,
            n == mid.slots.len(),
            n == slots@.len(),
            want@.len() == n,
            hold@.len() == n,
            v.want == want@,
            v.hold == hold@,
            v.placed == placed,
            hidden_up_to(mid, k as int, v) == (Cut {
                slots: slots@,
                actions: actions@,
                left: *left as nat,
                next: *next as nat,
            }),
        decreases n - k,
    {
        if let TileSlot::Ready { entity: Some(e), bytes } = slots[k] {
            if !want[k] && placed && !hold[k] {
                slots.set(k, TileSlot::Ready { entity: None, bytes });
                actions.push(CutAction::Despawn { entity: e });
            }
        }
        k = k + 1;
    }
    proof {
        lemma_shown_len(c, n as int, v);
        lemma_hidden_len(mid, n as int, v);
    }
    actions
}

/// A request that fell out of the wanted ones.
pub open spec fn is_unwanted(slot: TileSlot, wanted: bool) -> bool {
    slot is InFlight && !wanted
}

/// The tiles after the requests that fell out are called off.
pub open spec fn cancelled(slots: Seq<TileSlot>, wanted: Seq<bool>) -> Seq<TileSlot> {
    Seq::new(
        slots.len(),
        |i: int|
            if is_unwanted(slots[i], wanted[i]) {
                TileSlot::NotLoaded
            } else {
                slots[i]
            },
    )
}

/// The generations of the requests that fell out, among the first `k` tiles.
pub open spec fn fallen_out(slots: Seq<TileSlot>, wanted: Seq<bool>, k: int) -> Seq<u64>
    decreases k,
{
    if k <= 0 {
        Seq::empty()
    } else if is_unwanted(slots[k - 1], wanted[k - 1]) {
        fallen_out(slots, wanted, k - 1).push(slots[k - 1]->generation)
    } else {
        fallen_out(slots, wanted, k - 1)
    }
}

/// Frees the slots of the requests that are no longer wanted, and returns their
/// generations.
pub fn cancel_unwanted(slots: &mut Vec<TileSlot>, wanted: &Vec<bool>) -> (aborts: Vec<u64>)
    requires
        wanted@.len() == old(slots)@.len(),
    ensures
        final(slots)@ == cancelled(old(slots)@, wanted@),
        aborts@ == fallen_out(old(slots)@, wanted@, old(slots)@.len() as int),
{
    let ghost had = slots@;
    let mut aborts: Vec<u64> = Vec::new();
    let mut i: usize = 0;
    while i < slots.len()
        invariant
            i <= slots@.len(),
            slots@.len() == had.len(),
            wanted@.len() == had.len(),
            forall|k: int| 0 <= k < i ==> #[trigger] slots@[k] == cancelled(had, wanted@)[k],
            forall|k: int| i <= k < had.len() ==> #[trigger] slots@[k] == had[k],
            aborts@ == fallen_out(had, wanted@, i as int),
        decreases slots@.len() - i,
    {
        if let TileSlot::InFlight { generation } = slots[i] {
            if !wanted[i] {
                aborts.push(generation);
                slots.set(i, TileSlot::NotLoaded);
            }
        }
        i = i + 1;
    }
    assert(slots@ =~= cancelled(had, wanted@));
    aborts
}

/// A tile that could be requested.
#[derive(Clone, Copy, Debug, PartialEq, Eq, Structural)]
pub struct LoadCandidate {
    /// The place of the set among all sets in this frame.
    pub set_idx: usize,
    pub set_id: u64,
    pub tile: usize,
    /// The priority class of the set; lower comes first.
    pub class: u8,
    /// The first request of a set that has nothing in memory.
    pub starving_root: bool,
    /// The place among the requests of the set.
    pub within: usize,
}

/// A tile that could be requested: it has content that is not there.
pub open spec fn is_issuable(slots: Seq<TileSlot>, t: Seq<Node>, i: int) -> bool {
    slots[i] is NotLoaded && t[i].uri is Some
}

/// The requests of a set, from the first `k` tiles that it wants.
pub open spec fn candidates_up_to(
    slots: Seq<TileSlot>,
    t: Seq<Node>,
    loads: Seq<usize>,
    k: int,
    set_idx: usize,
    set_id: u64,
    class: u8,
    has_ready: bool,
) -> Seq<LoadCandidate>
    decreases k,
{
    if k <= 0 {
        Seq::empty()
    } else {
        let before = candidates_up_to(slots, t, loads, k - 1, set_idx, set_id, class, has_ready);
        if is_issuable(slots, t, loads[k - 1] as int) {
            before.push(
                LoadCandidate {
                    set_idx,
                    set_id,
                    tile: loads[k - 1],
                    class,
                    starving_root: !has_ready && before.len() == 0,
                    within: before.len() as usize,
                },
            )
        } else {
            before
        }
    }
}

/// Something of the set is in memory.
pub open spec fn any_ready(slots: Seq<TileSlot>) -> bool {
    exists|i: int| 0 <= i < slots.len() && is_ready(#[trigger] slots[i])
}

fn has_ready(slots: &Vec<TileSlot>) -> (r: bool)
    ensures
        r == any_ready(slots@),
{
    let mut i: usize = 0;
    while i < slots.len()
        invariant
            i <= slots@.len(),
            forall|k: int| 0 <= k < i ==> !is_ready(#[trigger] slots@[k]),
        decreases slots@.len() - i,
    {
        if let TileSlot::Ready { .. } = slots[i] {
            assert(is_ready(slots@[i as int]));
            return true;
        }
        i = i + 1;
    }
    false
}

/// Collects the requests of a set, in the order in which it wants them.
pub fn collect_candidates(
    tree: &TileTree,
    slots: &Vec<TileSlot>,
    loads: &Vec<usize>,
    set_idx: usize,
    set_id: u64,
    class: u8,
) -> (r: Vec<LoadCandidate>)
    requires
        slots@.len() == tree@.len(),
        forall|k: int| 0 <= k < loads@.len() ==> #[trigger] loads@[k] < tree@.len(),
    ensures
        r@ == candidates_up_to(
            slots@,
            tree@,
            loads@,
            loads@.len() as int,
            set_idx,
            set_id,
            class,
            any_ready(slots@),
        ),
{
    let ready = has_ready(slots);
    let mut r: Vec<LoadCandidate> = Vec::new();
    let mut k: usize = 0;
    while k < loads.len()
        invariant
            k <= loads@.len(),
            slots@.len() == tree@.len(),
            ready == any_ready(slots@),
            forall|k: int| 0 <= k < loads@.len() ==> #[trigger] loads@[k] < tree@.len(),
            r@ == candidates_up_to(
                slots@,
                tree@,
                loads@,
                k as int,
                set_idx,
                set_id,
                class,
                ready,
            ),
        decreases loads@.len() - k,
    {
        let t: usize = loads[k];
        assert(tree@[t as int] == tree.nodes@[t as int]@);
        let free = match slots[t] {
            TileSlot::NotLoaded => true,
            _ => false,
        };
        let named = match tree.nodes[t].content_uri {
            Some(_) => true,
            None => false,
        };
        if free && named {
            let within: usize = r.len();
            r.push(
                LoadCandidate {
                    set_idx,
                    set_id,
                    tile: t,
                    class,
                    starving_root: !ready && within == 0,
                    within,
                },
            );
        }
        k = k + 1;
    }
    r
}

proof fn lemma_requests(
    slots: Seq<TileSlot>,
    t: Seq<Node>,
    loads: Seq<usize>,
    k: int,
    set_idx: usize,
    set_id: u64,
    class: u8,
    ready: bool,
) -> (at: Seq<int>)
    requires
        0 <= k <= loads.len(),
    ensures
        ({
            let out = candidates_up_to(slots, t, loads, k, set_idx, set_id, class, ready);
            &&& at.len() == out.len()
            &&& forall|j: int|
                0 <= j < out.len() ==> {
                    let c = #[trigger] out[j];
                    &&& 0 <= at[j] < k
                    &&& c.tile == loads[at[j]]
                    &&& slots[c.tile as int] is NotLoaded
                    &&& t[c.tile as int].uri is Some
                    &&& c.set_idx == set_idx && c.set_id == set_id && c.class == class
                    &&& c.within == j as usize
                    &&& c.starving_root == (!ready && j == 0)
                }
            &&& forall|i: int, j: int| 0 <= i < j < at.len() ==> #[trigger] at[i] < #[trigger] at[j]
            &&& forall|i: int|
                0 <= i < k && slots[#[trigger] loads[i] as int] is NotLoaded
                    && t[loads[i] as int].uri is Some ==> at.contains(i)
        }),
    decreases k,
{
    if k <= 0 {
        Seq::empty()
    } else {
        let had = lemma_requests(slots, t, loads, k - 1, set_idx, set_id, class, ready);
        if slots[loads[k - 1] as int] is NotLoaded && t[loads[k - 1] as int].uri is Some {
            let at = had.push(k - 1);
            let before = candidates_up_to(slots, t, loads, k - 1, set_idx, set_id, class, ready);
            let out = candidates_up_to(slots, t, loads, k, set_idx, set_id, class, ready);
            assert forall|j: int| 0 <= j < before.len() implies #[trigger] out[j] == before[j]
                && 0 <= at[j] < k - 1 by {
                assert(at[j] == had[j]);
                assert(before[j].tile == loads[had[j]]);
            }
            assert forall|i: int, j: int| 0 <= i < j < at.len() implies #[trigger] at[i]
                < #[trigger] at[j] by {
                assert(out[i] == before[i]);
                assert(at[i] == had[i]);
                if j < before.len() {
                    assert(at[j] == had[j]);
                }
            }
            assert forall|i: int|
                0 <= i < k && slots[#[trigger] loads[i] as int] is NotLoaded
                    && t[loads[i] as int].uri is Some implies at.contains(i) by {
                if i < k - 1 {
                    let x = had.index_of(i);
                    assert(at[x] == i);
                } else {
                    assert(at[had.len() as int] == i);
                }
            }
            at
        } else {
            had
        }
    }
}

/// A set requests what it wants and has not got, in the order in which it wants
/// it. A request says that the set starves only where no tile of the set is in
/// memory, whichever it is; then the first one says so, and no other.
pub proof fn requests_say_who_starves(
    slots: Seq<TileSlot>,
    t: Seq<Node>,
    loads: Seq<usize>,
    set_idx: usize,
    set_id: u64,
    class: u8,
) -> (at: Seq<int>)
    ensures
        ({
            let out = candidates_up_to(
                slots,
                t,
                loads,
                loads.len() as int,
                set_idx,
                set_id,
                class,
                any_ready(slots),
            );
            &&& forall|i: int, j: int|
                0 <= i < slots.len() && 0 <= j < out.len() && (#[trigger] slots[i]) is Ready
                    ==> !(#[trigger] out[j]).starving_root
            &&& out.len() > 0 && (forall|i: int|
                0 <= i < slots.len() ==> !((#[trigger] slots[i]) is Ready)) ==> out[0].starving_root
            &&& forall|j: int| 0 < j < out.len() ==> !(#[trigger] out[j]).starving_root
            &&& at.len() == out.len()
            &&& forall|j: int|
                0 <= j < out.len() ==> {
                    let c = #[trigger] out[j];
                    &&& 0 <= at[j] < loads.len()
                    &&& c.tile == loads[at[j]]
                    &&& slots[c.tile as int] is NotLoaded
                    &&& t[c.tile as int].uri is Some
                    &&& c.set_idx == set_idx && c.set_id == set_id && c.class == class
                    &&& c.within == j as usize
                }
            &&& forall|i: int, j: int| 0 <= i < j < at.len() ==> #[trigger] at[i] < #[trigger] at[j]
            &&& forall|i: int|
                0 <= i < loads.len() && slots[#[trigger] loads[i] as int] is NotLoaded
                    && t[loads[i] as int].uri is Some ==> at.contains(i)
        }),
{
    let n = loads.len() as int;
    let ready = any_ready(slots);
    let at = lemma_requests(slots, t, loads, n, set_idx, set_id, class, ready);
    let out = candidates_up_to(slots, t, loads, n, set_idx, set_id, class, ready);
    assert forall|i: int, j: int|
        0 <= i < slots.len() && 0 <= j < out.len() && (#[trigger] slots[i]) is Ready implies !(
    #[trigger] out[j]).starving_root by {
        assert(is_ready(slots[i]));
    }
    at
}

/// The set that a class last gave a slot to; the largest number where it gave
/// none.
pub open spec fn cursor_of(cursors: Map<u8, u64>, class: u8) -> u64 {
    if cursors.contains_key(class) {
        cursors[class]
    } else {
        u64::MAX
    }
}

/// Where a request comes: first requests of sets with nothing to show before
/// all others; then by class; then every set's first request before any set's
/// second; then the sets past the last one that got a slot before the others.
pub open spec fn candidate_rank(c: LoadCandidate, cursors: Map<u8, u64>) -> Rank {
    (
        if c.starving_root {
            0
        } else {
            1
        },
        c.class as u64,
        c.within as u64,
        if c.set_id <= cursor_of(cursors, c.class) {
            1
        } else {
            0
        },
        c.set_id,
    )
}

/// A request with its rank.
#[derive(Clone, Copy)]
pub struct Keyed {
    pub key: Rank,
    pub item: LoadCandidate,
}

impl Ranked for Keyed {
    open spec fn rank(self) -> Rank {
        self.key
    }

    fn get_rank(&self) -> (r: Rank) {
        self.key
    }
}

/// Requests with their ranks.
pub open spec fn keyed(cands: Seq<LoadCandidate>, cursors: Map<u8, u64>) -> Seq<Keyed> {
    Seq::new(
        cands.len(),
        |i: int| (Keyed { key: candidate_rank(cands[i], cursors), item: cands[i] }),
    )
}

/// The requests in the order in which they get slots.
pub open spec fn candidate_order(cands: Seq<LoadCandidate>, cursors: Map<u8, u64>) -> Seq<
    LoadCandidate,
> {
    Seq::new(cands.len(), |i: int| stable_order(keyed(cands, cursors))[i].item)
}

/// Puts requests into the order in which they get slots.
pub fn sort_load_candidates(cands: &mut Vec<LoadCandidate>, cursors: &HashMap<u8, u64>)
    ensures
        final(cands)@ == candidate_order(old(cands)@, cursors@),
{
    broadcast use vstd::std_specs::hash::group_hash_axioms;

    let ghost had = cands@;
    let mut pairs: Vec<Keyed> = Vec::new();
    let mut i: usize = 0;
    while i < cands.len()
        invariant
            i <= cands@.len(),
            pairs@.len() == i,
            forall|k: int|
                0 <= k < i ==> #[trigger] pairs@[k] == (Keyed {
                    key: candidate_rank(cands@[k], cursors@),
                    item: cands@[k],
                }),
        decreases cands@.len() - i,
    {
        let c = cands[i];
        let cursor: u64 = match cursors.get(&c.class) {
            Some(id) => *id,
            None => u64::MAX,
        };
        let key: Rank = (
            if c.starving_root {
                0
            } else {
                1
            },
            c.class as u64,
            c.within as u64,
            if c.set_id <= cursor {
                1
            } else {
                0
            },
            c.set_id,
        );
        pairs.push(Keyed { key, item: c });
        i = i + 1;
    }
    assert(pairs@ =~= keyed(had, cursors@));
    let sorted = stable_sort(&pairs);
    let mut out: Vec<LoadCandidate> = Vec::new();
    let mut k: usize = 0;
    while k < sorted.len()
        invariant
            k <= sorted@.len(),
            out@.len() == k,
            forall|j: int| 0 <= j < k ==> #[trigger] out@[j] == sorted@[j].item,
        decreases sorted@.len() - k,
    {
        out.push(sorted[k].item);
        k = k + 1;
    }
    assert(out@ =~= candidate_order(had, cursors@));
    *cands = out;
}

/// The order of requests is a rearrangement of them by rank.
proof fn lemma_candidate_order(cands: Seq<LoadCandidate>, cursors: Map<u8, u64>, i: int, j: int)
    requires
        0 <= i < j < cands.len(),
    ensures
        crate::sorting::rank_le(
            candidate_rank(candidate_order(cands, cursors)[i], cursors),
            candidate_rank(candidate_order(cands, cursors)[j], cursors),
        ),
{
    let k = keyed(cands, cursors);
    let out = stable_order(k);
    crate::sorting::lemma_stable_order_exists(k);
    lemma_ordered_key(cands, cursors, i);
    lemma_ordered_key(cands, cursors, j);
    assert(crate::sorting::rank_le(out[i].rank(), out[j].rank()));
}

proof fn lemma_ordered_key(cands: Seq<LoadCandidate>, cursors: Map<u8, u64>, i: int)
    requires
        0 <= i < cands.len(),
    ensures
        ({
            let o = stable_order(keyed(cands, cursors))[i];
            o.key == candidate_rank(o.item, cursors) && cands.contains(o.item)
        }),
{
    let k = keyed(cands, cursors);
    let out = stable_order(k);
    crate::sorting::lemma_stable_order_exists(k);
    assert(out.to_multiset().count(out[i]) > 0) by {
        out.to_multiset_ensures();
        assert(out.contains(out[i]));
    }
    k.to_multiset_ensures();
    assert(k.contains(out[i]));
    let m = choose|m: int| 0 <= m < k.len() && k[m] == out[i];
    assert(cands[m] == out[i].item);
}

/// The first request of a set with nothing in memory comes before every request
/// of a set that has something, whatever their classes.
pub proof fn starving_sets_come_first(
    cands: Seq<LoadCandidate>,
    cursors: Map<u8, u64>,
    i: int,
    j: int,
)
    requires
        0 <= i < cands.len(),
        0 <= j < cands.len(),
        candidate_order(cands, cursors)[i].starving_root,
        !candidate_order(cands, cursors)[j].starving_root,
    ensures
        i < j,
{
    if j < i {
        lemma_candidate_order(cands, cursors, j, i);
    }
}

/// Among first requests, and among others, a lower class comes first.
pub proof fn lower_classes_come_first(
    cands: Seq<LoadCandidate>,
    cursors: Map<u8, u64>,
    i: int,
    j: int,
)
    requires
        0 <= i < cands.len(),
        0 <= j < cands.len(),
        candidate_order(cands, cursors)[i].starving_root == candidate_order(
            cands,
            cursors,
        )[j].starving_root,
        candidate_order(cands, cursors)[i].class < candidate_order(cands, cursors)[j].class,
    ensures
        i < j,
{
    if j < i {
        lemma_candidate_order(cands, cursors, j, i);
    }
}

/// Within a class every set's request number `k` comes before any set's request
/// number `k + 1`; so each set keeps its own order.
pub proof fn sets_take_turns(
    cands: Seq<LoadCandidate>,
    cursors: Map<u8, u64>,
    i: int,
    j: int,
)
    requires
        0 <= i < cands.len(),
        0 <= j < cands.len(),
        candidate_order(cands, cursors)[i].starving_root == candidate_order(
            cands,
            cursors,
        )[j].starving_root,
        candidate_order(cands, cursors)[i].class == candidate_order(cands, cursors)[j].class,
        candidate_order(cands, cursors)[i].within < candidate_order(cands, cursors)[j].within,
    ensures
        i < j,
{
    if j < i {
        lemma_candidate_order(cands, cursors, j, i);
    }
}

/// Among requests of equal standing, the sets past the one that last got a slot
/// come first, and then each group goes by set.
pub proof fn turns_rotate(cands: Seq<LoadCandidate>, cursors: Map<u8, u64>, i: int, j: int)
    requires
        0 <= i < cands.len(),
        0 <= j < cands.len(),
        ({
            let a = candidate_order(cands, cursors)[i];
            let b = candidate_order(cands, cursors)[j];
            let cursor = cursor_of(cursors, a.class);
            &&& a.starving_root == b.starving_root
            &&& a.class == b.class
            &&& a.within == b.within
            &&& ((a.set_id > cursor && b.set_id <= cursor) || ((a.set_id > cursor) == (b.set_id
                > cursor) && a.set_id < b.set_id))
        }),
    ensures
        i < j,
{
    if j < i {
        lemma_candidate_order(cands, cursors, j, i);
    }
}

/// Ordering the requests neither loses nor invents one.
pub proof fn ordering_keeps_requests(cands: Seq<LoadCandidate>, cursors: Map<u8, u64>, i: int)
    requires
        0 <= i < cands.len(),
    ensures
        candidate_order(cands, cursors).len() == cands.len(),
        cands.contains(candidate_order(cands, cursors)[i]),
        candidate_order(cands, cursors).contains(cands[i]),
{
    lemma_ordered_key(cands, cursors, i);
    let k = keyed(cands, cursors);
    let out = stable_order(k);
    crate::sorting::lemma_stable_order_exists(k);
    k.to_multiset_ensures();
    out.to_multiset_ensures();
    assert(k.contains(k[i]));
    assert(out.to_multiset().count(k[i]) > 0);
    assert(out.contains(k[i]));
    let m = choose|m: int| 0 <= m < out.len() && out[m] == k[i];
    assert(candidate_order(cands, cursors)[m] == cands[i]);
}

/// How much the threshold is raised under memory pressure, as a fraction: not at
/// all within the budget, by the overshoot above it, and eight times at most.
pub open spec fn pressure_of(resident: u64, budget: u64) -> (u64, u64) {
    if budget == 0 || resident <= budget {
        (1, 1)
    } else if resident >= 8 * budget {
        (8, 1)
    } else {
        (resident, budget)
    }
}

/// How much the threshold is raised under memory pressure, as a fraction.
pub fn memory_pressure_factor(resident_bytes: u64, budget_bytes: u64) -> (r: (u64, u64))
    ensures
        r == pressure_of(resident_bytes, budget_bytes),
{
    if budget_bytes == 0 || resident_bytes <= budget_bytes {
        return (1, 1);
    }
    if resident_bytes as u128 >= 8 * budget_bytes as u128 {
        (8, 1)
    } else {
        (resident_bytes, budget_bytes)
    }
}

/// The threshold is never lowered, and never raised more than eight times.
pub proof fn pressure_is_bounded(resident: u64, budget: u64)
    ensures
        0 < pressure_of(resident, budget).1,
        pressure_of(resident, budget).1 <= pressure_of(resident, budget).0 <= 8 * pressure_of(
            resident,
            budget,
        ).1,
{
}

/// More in memory never lowers the threshold.
pub proof fn pressure_grows(a: u64, b: u64, budget: u64)
    requires
        a <= b,
    ensures
        pressure_of(a, budget).0 * pressure_of(b, budget).1 <= pressure_of(b, budget).0
            * pressure_of(a, budget).1,
{
    let (an, ad) = pressure_of(a, budget);
    let (bn, bd) = pressure_of(b, budget);
    if ad == bd {
        assert(an * bd <= bn * ad) by (nonlinear_arith)
            requires
                an <= bn,
                ad == bd,
        ;
    } else if ad == 1 {
        assert(an * bd <= bn * ad) by (nonlinear_arith)
            requires
                an == 1,
                ad == 1,
                bd <= bn,
        ;
    } else {
        assert(an * bd <= bn * ad) by (nonlinear_arith)
            requires
                bd == 1,
                bn == 8,
                an <= 8 * ad,
        ;
    }
}

/// No new loads start: more than half again as much as the budget is in memory.
pub open spec fn over_hard_stop(resident: u64, budget: u64) -> bool {
    let triple = if 3 * budget > u64::MAX {
        u64::MAX as int
    } else {
        3 * budget
    };
    budget > 0 && resident > triple / 2
}

/// Whether new loads stop.
pub fn hard_stopped(resident_bytes: u64, budget_bytes: u64) -> (r: bool)
    ensures
        r == over_hard_stop(resident_bytes, budget_bytes),
{
    let triple: u128 = 3 * budget_bytes as u128;
    let top: u128 = if triple > u64::MAX as u128 {
        u64::MAX as u128
    } else {
        triple
    };
    budget_bytes > 0 && resident_bytes as u128 > top / 2
}

} // verus!
