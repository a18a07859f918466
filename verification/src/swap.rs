//! Swaps, frame after frame: what is visible while the cut moves from one tile to
//! finer ones below it, or from tiles to coarser ones above them.
use crate::evict::{dropped_up_to, Dropping, Residents};
use crate::frame::{picks_from, turn_of, turn_tiles, FrameModel, Picked, SetTurn, Tiles3dConfig};
use crate::sets::SetModel;
use crate::stream::{
    any_starving, bare_count, cut_applied, flagged, held, is_bare, is_ready, is_spawned,
    lemma_bare_bounds, lemma_bare_same, lemma_fed, lemma_performed_push, name_of, painted_over,
    performed, seen, shows, well_named, Cut, CutView,
};
use crate::tiles::tiles_wf;
use crate::tree::{above, above_is_transitive, under_seed, Node};
use vstd::prelude::*;

verus! {

/// A set, what is visible in the scene, and the next name for something in it.
pub struct Stage {
    pub set: SetModel,
    pub scene: Set<u64>,
    pub next: nat,
}

/// What a frame brings to the turn of a set.
pub struct Step {
    pub picked: Picked,
    pub turn: SetTurn,
    pub set_idx: usize,
    pub frame: u64,
    pub state: FrameModel,
}

/// Which tiles are visible.
pub open spec fn visible_in(s: Stage) -> Seq<bool> {
    Seq::new(
        s.set.tiles.tree.len(),
        |i: int| shows(s.set.tiles.slots, s.scene, i),
    )
}

/// The turn of the set, and the changes to the scene that it asks for.
pub open spec fn stepped(s: Stage, f: Step, config: Tiles3dConfig) -> Stage {
    let t = turn_of(
        s.set,
        f.picked,
        visible_in(s),
        f.turn,
        f.set_idx,
        config,
        f.frame,
        f.state,
        s.next,
    );
    Stage { set: t.set, scene: performed(s.scene, t.acts.actions), next: t.next }
}

/// What may happen between two turns of a set: other tiles are requested and
/// arrive, and other sets take their turns. The tiles of the cut and those in the
/// scene are left as they are.
pub open spec fn meanwhile(a: Stage, b: Stage, want: Seq<bool>) -> bool {
    let before = a.set.tiles;
    let after = b.set.tiles;
    &&& tiles_wf(after)
    &&& after.tree == before.tree
    &&& a.next <= b.next
    &&& forall|e: u64| #[trigger] b.scene.contains(e) ==> e < b.next
    &&& forall|i: int|
        0 <= i < before.tree.len() && (want[i] || is_spawned(before.slots[i]) || is_spawned(
            after.slots[i],
        )) ==> #[trigger] after.slots[i] == before.slots[i]
    &&& forall|i: int|
        0 <= i < before.tree.len() ==> shows(after.slots, b.scene, i) == #[trigger] shows(
            before.slots,
            a.scene,
            i,
        )
}

/// A frame whose cut is `want`, and in which the set may put something into the
/// scene.
pub open spec fn wants(s: Stage, f: Step, want: Seq<bool>) -> bool {
    let n = s.set.tiles.tree.len();
    &&& picks_from(f.picked, n)
    &&& flagged(f.picked.render, n) == want
    &&& !s.set.ecef || f.turn.has_origin
    &&& f.state.respawns_left > 0
}

/// Tile `r` is the only one that is visible, and the cut is below it and in
/// memory.
pub open spec fn coarse(s: Stage, want: Seq<bool>, r: int) -> bool {
    let t = s.set.tiles;
    &&& 0 <= r < t.tree.len()
    &&& !want[r]
    &&& shows(t.slots, s.scene, r)
    &&& forall|i: int|
        0 <= i < t.tree.len() && i != r ==> !(#[trigger] shows(t.slots, s.scene, i))
    &&& forall|i: int|
        0 <= i < t.tree.len() && #[trigger] want[i] ==> above(t.tree, r, i) && is_ready(t.slots[i])
}

/// The tiles of the cut are the ones that are visible.
pub open spec fn fine(s: Stage, want: Seq<bool>) -> bool {
    let t = s.set.tiles;
    forall|i: int| 0 <= i < t.tree.len() ==> #[trigger] shows(t.slots, s.scene, i) == want[i]
}

proof fn lemma_dropped_scene(d: Dropping, list: Seq<usize>, k: int, scene: Set<u64>, next: nat)
    requires
        0 <= k <= list.len(),
        d.caches.len() == d.slots.len(),
        forall|j: int| 0 <= j < list.len() ==> #[trigger] list[j] < d.slots.len(),
        well_named(d.slots, performed(scene, d.actions), next),
    ensures
        ({
            let e = dropped_up_to(d, list, k);
            let was = performed(scene, d.actions);
            let now = performed(scene, e.actions);
            &&& e.slots.len() == d.slots.len()
            &&& e.caches.len() == d.caches.len()
            &&& well_named(e.slots, now, next)
            &&& forall|i: int|
                0 <= i < d.slots.len() ==> #[trigger] shows(e.slots, now, i) == (is_spawned(
                    e.slots[i],
                ) && shows(d.slots, was, i))
        }),
    decreases k,
{
    let was = performed(scene, d.actions);
    if k > 0 {
        lemma_dropped_scene(d, list, k - 1, scene, next);
        let b = dropped_up_to(d, list, k - 1);
        let e = dropped_up_to(d, list, k);
        let mid = performed(scene, b.actions);
        let now = performed(scene, e.actions);
        let q = list[k - 1] as int;
        if e.actions.len() != b.actions.len() {
            lemma_performed_push(scene, b.actions, e.actions.last());
            assert(e.actions == b.actions.push(e.actions.last()));
        }
        assert forall|i: int| 0 <= i < d.slots.len() implies #[trigger] shows(e.slots, now, i) == (
        is_spawned(e.slots[i]) && shows(d.slots, was, i)) by {
            assert(shows(b.slots, mid, i) == (is_spawned(b.slots[i]) && shows(d.slots, was, i)));
            if i != q {
                assert(e.slots[i] == b.slots[i]);
            }
        }
    } else {
        assert forall|i: int| 0 <= i < d.slots.len() implies #[trigger] shows(d.slots, was, i) == (
        is_spawned(d.slots[i]) && shows(d.slots, was, i)) by {}
    }
}

/// What the turn of a set works with.
spec fn cut_of(s: Stage, f: Step) -> Cut {
    Cut {
        slots: s.set.tiles.slots,
        actions: Seq::empty(),
        left: f.state.respawns_left,
        next: s.next,
    }
}

spec fn view_of(s: Stage, want: Seq<bool>) -> CutView {
    let t = s.set.tiles;
    let hold = held(t.tree, want, t.slots);
    CutView {
        want,
        visible: visible_in(s),
        hold,
        covered: painted_over(t.tree, hold, want, visible_in(s), t.slots),
        placed: true,
    }
}

/// What a turn makes of a set: what is visible is what the cut shows, of what
/// stays in memory; the tiles of the cut, and those that cover for one, stay as
/// the cut leaves them.
proof fn lemma_step(s: Stage, f: Step, config: Tiles3dConfig, want: Seq<bool>)
    requires
        tiles_wf(s.set.tiles),
        well_named(s.set.tiles.slots, s.scene, s.next),
        wants(s, f, want),
        s.next + f.state.respawns_left <= u64::MAX,
    ensures
        ({
            let x = stepped(s, f, config);
            let c = cut_of(s, f);
            let v = view_of(s, want);
            let cut = cut_applied(c, v);
            let n = s.set.tiles.tree.len();
            &&& tiles_wf(x.set.tiles)
            &&& x.set.tiles.tree == s.set.tiles.tree
            &&& x.set.ecef == s.set.ecef
            &&& well_named(x.set.tiles.slots, x.scene, x.next)
            &&& forall|i: int|
                0 <= i < n ==> #[trigger] shows(x.set.tiles.slots, x.scene, i) == (is_spawned(
                    x.set.tiles.slots[i],
                ) && seen(c, v, i))
            &&& forall|i: int|
                0 <= i < n && is_ready(cut.slots[i]) && (want[i] || v.hold[i])
                    ==> #[trigger] x.set.tiles.slots[i] == cut.slots[i]
            &&& x.next + bare_count(want, x.set.tiles.slots) == s.next + bare_count(
                want,
                s.set.tiles.slots,
            )
            &&& bare_count(want, x.set.tiles.slots) > 0 ==> bare_count(want, x.set.tiles.slots)
                < bare_count(want, s.set.tiles.slots)
        }),
{
    let x = stepped(s, f, config);
    let t = s.set.tiles;
    let n = t.tree.len();
    let vis = visible_in(s);
    let tt = turn_tiles(t, f.picked, vis, config, f.frame, f.state.respawns_left, s.next);
    let c = cut_of(s, f);
    let v = view_of(s, want);
    let cut = cut_applied(c, v);
    assert(tt.cut == cut);
    assert forall|i: int| 0 <= i < n implies #[trigger] v.visible[i] == shows(
        c.slots,
        s.scene,
        i,
    ) by {}
    crate::stream::the_scene_follows_the_cut(c, v, s.scene);
    crate::stream::hiding_keeps_content(c, v);
    crate::stream::respawns_stay_in_budget(c, v);
    crate::stream::waiting_tiles_get_fewer(c, v);
    let then = performed(s.scene, cut.actions);
    // Calling requests off touches nothing that is in memory.
    let kept = tt.kept;
    assert forall|i: int|
        0 <= i < n && (is_ready(#[trigger] cut.slots[i]) || is_ready(kept[i])) implies kept[i]
        == cut.slots[i] by {}
    assert(well_named(kept, then, cut.next)) by {
        assert forall|i: int| 0 <= i < n && is_spawned(#[trigger] kept[i]) implies name_of(kept[i])
            < cut.next by {
            assert(is_spawned(cut.slots[i]));
        }
        assert forall|i: int, j: int|
            0 <= i < j < n && is_spawned(#[trigger] kept[i]) && is_spawned(
                #[trigger] kept[j],
            ) implies name_of(kept[i]) != name_of(kept[j]) by {
            assert(is_spawned(cut.slots[i]) && is_spawned(cut.slots[j]));
        }
    }
    let r = Residents { slots: kept, want: tt.want, hold: tt.hold, touched: tt.touched };
    assert forall|j: int| 0 <= j < tt.evict.len() implies #[trigger] tt.evict[j] < n
        && !want[tt.evict[j] as int] && !v.hold[tt.evict[j] as int] by {
        crate::evict::eviction_spares_the_scene(
            r,
            f.frame,
            config.grace_frames,
            config.max_resident_tiles as int,
            j,
        );
    }
    let d = Dropping { slots: kept, caches: t.caches, actions: cut.actions };
    let m = tt.evict.len() as int;
    lemma_dropped_scene(d, tt.evict, m, s.scene, cut.next);
    let end = dropped_up_to(d, tt.evict, m);
    assert(x.set.tiles.slots == end.slots);
    assert(x.scene == performed(s.scene, end.actions));
    assert forall|i: int| 0 <= i < n implies #[trigger] shows(end.slots, x.scene, i) == (is_spawned(
        end.slots[i],
    ) && seen(c, v, i)) by {
        assert(shows(kept, then, i) == shows(cut.slots, then, i)) by {
            assert(is_ready(cut.slots[i]) || is_ready(kept[i]) ==> kept[i] == cut.slots[i]);
        }
        assert(shows(cut.slots, then, i) == seen(c, v, i));
    }
    assert forall|i: int| 0 <= i < n && (want[i] || v.hold[i]) implies #[trigger] end.slots[i]
        == kept[i] by {
        crate::frame::lemma_spared_slot(d, tt.evict, m, i);
    }
    assert forall|i: int|
        0 <= i < n && is_ready(cut.slots[i]) && (want[i] || v.hold[i]) implies #[trigger] end.slots[i]
        == cut.slots[i] by {
        assert(end.slots[i] == kept[i]);
    }
    assert forall|i: int| 0 <= i < n && want[i] implies is_bare(#[trigger] cut.slots[i]) == is_bare(
        end.slots[i],
    ) by {
        assert(end.slots[i] == kept[i]);
    }
    lemma_bare_same(want, cut.slots, end.slots, n as int);
}

/// A frame keeps a coarse tile alone while a tile of the cut waits to enter the
/// scene, and swaps it for the cut when none does; after that the cut stays.
proof fn lemma_swap_step(s: Stage, f: Step, config: Tiles3dConfig, want: Seq<bool>, r: int)
    requires
        tiles_wf(s.set.tiles),
        well_named(s.set.tiles.slots, s.scene, s.next),
        wants(s, f, want),
        s.next + f.state.respawns_left <= u64::MAX,
        coarse(s, want, r) || fine(s, want),
    ensures
        ({
            let x = stepped(s, f, config);
            if coarse(s, want, r) && bare_count(want, s.set.tiles.slots) > 0 {
                coarse(x, want, r)
            } else {
                fine(x, want) && bare_count(want, x.set.tiles.slots) == 0
            }
        }),
{
    let x = stepped(s, f, config);
    let t = s.set.tiles;
    let n = t.tree.len();
    let c = cut_of(s, f);
    let v = view_of(s, want);
    let cut = cut_applied(c, v);
    lemma_step(s, f, config, want);
    crate::stream::hiding_keeps_content(c, v);
    lemma_bare_bounds(want, t.slots, n as int);
    if coarse(s, want, r) {
        assert forall|i: int| 0 <= i < n && #[trigger] v.want[i] implies above(t.tree, r, i)
            && is_ready(c.slots[i]) && !v.visible[i] by {
            assert(want[i]);
            assert(!shows(t.slots, s.scene, i));
        }
        crate::stream::refinement_shows_one_rung(t.tree, c, v, r);
        if bare_count(want, t.slots) > 0 {
            let b = choose|b: int| 0 <= b < n && want[b] && is_bare(#[trigger] t.slots[b]);
            assert(any_starving(want, t.slots));
            assert(seen(c, v, r));
            let seed = crate::stream::starving(want, t.slots);
            assert(seed[b]);
            assert(want[b]);
            assert(crate::tree::over_seed(t.tree, seed, r));
            assert(v.hold[r]);
            assert(x.set.tiles.slots[r] == cut.slots[r]);
            assert forall|i: int| 0 <= i < n && i != r implies !(#[trigger] shows(
                x.set.tiles.slots,
                x.scene,
                i,
            )) by {
                assert(!shows(t.slots, s.scene, i));
                if want[i] {
                    assert(v.want[i]);
                }
            }
            assert forall|i: int| 0 <= i < n && #[trigger] want[i] implies is_ready(
                x.set.tiles.slots[i],
            ) by {
                assert(is_ready(cut.slots[i]));
                assert(x.set.tiles.slots[i] == cut.slots[i]);
            }
        } else {
            assert(!any_starving(want, t.slots));
            assert(!seen(c, v, r));
            assert forall|i: int| 0 <= i < n implies #[trigger] shows(x.set.tiles.slots, x.scene, i)
                == want[i] by {
                if want[i] {
                    assert(v.want[i]);
                    assert(is_ready(cut.slots[i]));
                    assert(x.set.tiles.slots[i] == cut.slots[i]);
                } else if i != r {
                    assert(!shows(t.slots, s.scene, i));
                }
            }
        }
    } else {
        assert forall|i: int| 0 <= i < n && want[i] implies !is_bare(#[trigger] t.slots[i]) by {
            assert(shows(t.slots, s.scene, i));
        }
        assert(!any_starving(want, t.slots));
        lemma_fed(t.tree, want, visible_in(s), t.slots);
        assert forall|i: int| 0 <= i < n implies #[trigger] shows(x.set.tiles.slots, x.scene, i)
            == want[i] by {
            assert(shows(t.slots, s.scene, i) == want[i]);
            if want[i] {
                assert(is_ready(cut.slots[i]));
                assert(x.set.tiles.slots[i] == cut.slots[i]);
                crate::stream::cut_keeps_the_wanted(c, v, i);
            }
        }
    }
}

/// Between two turns nothing appears, disappears or changes its name.
proof fn lemma_meanwhile(a: Stage, b: Stage, want: Seq<bool>, r: int)
    requires
        tiles_wf(a.set.tiles),
        well_named(a.set.tiles.slots, a.scene, a.next),
        meanwhile(a, b, want),
    ensures
        well_named(b.set.tiles.slots, b.scene, b.next),
        bare_count(want, b.set.tiles.slots) == bare_count(want, a.set.tiles.slots),
        coarse(b, want, r) == coarse(a, want, r),
        fine(b, want) == fine(a, want),
{
    let before = a.set.tiles.slots;
    let after = b.set.tiles.slots;
    let n = before.len() as int;
    assert forall|i: int| 0 <= i < n && is_spawned(#[trigger] after[i]) implies is_spawned(
        before[i],
    ) && name_of(after[i]) == name_of(before[i]) by {}
    lemma_bare_same(want, before, after, n);
    assert forall|i: int| 0 <= i < n implies #[trigger] shows(after, b.scene, i) == shows(
        before,
        a.scene,
        i,
    ) by {}
}

/// No tile of the cut is above another.
pub open spec fn is_cut(t: Seq<Node>, want: Seq<bool>) -> bool {
    forall|i: int, j: int|
        0 <= i < t.len() && 0 <= j < t.len() && #[trigger] want[i] && #[trigger] want[j] ==> !above(
            t,
            i,
            j,
        )
}

/// What is visible lies in the cut or below it, and the cut is in memory. The
/// place of each tile of the cut is painted: by the tile itself, or by all of the
/// tiles `was` below it.
pub open spec fn gapless(s: Stage, want: Seq<bool>, was: Seq<bool>) -> bool {
    let t = s.set.tiles;
    &&& forall|i: int|
        0 <= i < t.tree.len() && #[trigger] want[i] ==> is_ready(t.slots[i]) && (shows(
            t.slots,
            s.scene,
            i,
        ) || paints_below(s, was, i))
    &&& forall|j: int|
        0 <= j < t.tree.len() && #[trigger] shows(t.slots, s.scene, j) ==> want[j] || under_seed(
            t.tree,
            want,
            j,
        )
}

/// The tiles `was` below tile `i` are visible.
pub open spec fn paints_below(s: Stage, was: Seq<bool>, i: int) -> bool {
    let t = s.set.tiles;
    forall|j: int|
        0 <= j < t.tree.len() && was[j] && above(t.tree, i, j) ==> #[trigger] shows(
            t.slots,
            s.scene,
            j,
        )
}

/// A frame of a coarsening leaves no gap, and is over when no tile of the cut
/// waits to enter the scene.
proof fn lemma_coarsen_step(
    s: Stage,
    f: Step,
    config: Tiles3dConfig,
    want: Seq<bool>,
    was: Seq<bool>,
)
    requires
        tiles_wf(s.set.tiles),
        well_named(s.set.tiles.slots, s.scene, s.next),
        wants(s, f, want),
        s.next + f.state.respawns_left <= u64::MAX,
        is_cut(s.set.tiles.tree, want),
        gapless(s, want, was),
    ensures
        gapless(stepped(s, f, config), want, was),
        bare_count(want, s.set.tiles.slots) == 0 ==> fine(stepped(s, f, config), want),
{
    let x = stepped(s, f, config);
    let t = s.set.tiles;
    let n = t.tree.len();
    let c = cut_of(s, f);
    let v = view_of(s, want);
    let cut = cut_applied(c, v);
    let seed = crate::stream::starving(want, t.slots);
    lemma_step(s, f, config, want);
    crate::stream::hiding_keeps_content(c, v);
    lemma_bare_bounds(want, t.slots, n as int);
    // Nothing coarser than the cut is visible.
    let paint = crate::stream::painting(v.hold, want, visible_in(s), t.slots);
    assert forall|i: int| 0 <= i < n && #[trigger] want[i] implies !v.covered[i] by {
        if under_seed(t.tree, paint, i) {
            let a = choose|a: int| 0 <= a < paint.len() && #[trigger] paint[a] && above(t.tree, a, i);
            assert(shows(t.slots, s.scene, a));
            assert(!want[a]);
            let b = choose|b: int| 0 <= b < want.len() && #[trigger] want[b] && above(t.tree, b, a);
            above_is_transitive(t.tree, b, a, i);
        }
    }
    assert forall|i: int| 0 <= i < n && #[trigger] want[i] implies is_ready(x.set.tiles.slots[i]) && (
    shows(x.set.tiles.slots, x.scene, i) || paints_below(x, was, i)) by {
        assert(is_ready(cut.slots[i]));
        assert(x.set.tiles.slots[i] == cut.slots[i]);
        if is_spawned(cut.slots[i]) {
            assert(shows(x.set.tiles.slots, x.scene, i));
        } else {
            if is_spawned(c.slots[i]) {
                crate::stream::cut_keeps_the_wanted(c, v, i);
            }
            assert(!shows(t.slots, s.scene, i));
            assert(seed[i]);
            assert forall|j: int| 0 <= j < n && was[j] && above(t.tree, i, j) implies #[trigger] shows(
                x.set.tiles.slots,
                x.scene,
                j,
            ) by {
                assert(shows(t.slots, s.scene, j));
                assert(under_seed(t.tree, seed, j));
                assert(v.hold[j]);
                crate::stream::cut_keeps_the_held(c, v, j);
                assert(x.set.tiles.slots[j] == cut.slots[j]);
            }
        }
    }
    assert forall|j: int|
        0 <= j < n && #[trigger] shows(x.set.tiles.slots, x.scene, j) implies want[j] || under_seed(
        t.tree,
        want,
        j,
    ) by {
        if !want[j] {
            assert(shows(t.slots, s.scene, j));
        }
    }
    if bare_count(want, t.slots) == 0 {
        assert(!any_starving(want, t.slots));
        lemma_fed(t.tree, want, visible_in(s), t.slots);
        assert forall|i: int| 0 <= i < n implies #[trigger] shows(x.set.tiles.slots, x.scene, i)
            == want[i] by {
            if want[i] {
                assert(is_ready(cut.slots[i]));
                assert(x.set.tiles.slots[i] == cut.slots[i]);
                crate::stream::cut_keeps_the_wanted(c, v, i);
            } else {
                assert(!v.hold[i]);
                crate::stream::cut_lets_the_rest_go(c, v, i);
            }
        }
    }
}

proof fn lemma_gapless_meanwhile(a: Stage, b: Stage, want: Seq<bool>, was: Seq<bool>)
    requires
        meanwhile(a, b, want),
        gapless(a, want, was),
    ensures
        gapless(b, want, was),
{
    let n = a.set.tiles.tree.len();
    assert forall|i: int| 0 <= i < n implies #[trigger] shows(b.set.tiles.slots, b.scene, i)
        == shows(a.set.tiles.slots, a.scene, i) by {}
    assert forall|i: int| 0 <= i < n && #[trigger] want[i] implies is_ready(b.set.tiles.slots[i])
        && (shows(b.set.tiles.slots, b.scene, i) || paints_below(b, was, i)) by {
        assert(b.set.tiles.slots[i] == a.set.tiles.slots[i]);
        if paints_below(a, was, i) {
            assert(paints_below(b, was, i));
        }
    }
}

/// In frame `j` of a run the cut is `want`.
pub open spec fn frame_in(
    run: Seq<Stage>,
    steps: Seq<Step>,
    config: Tiles3dConfig,
    want: Seq<bool>,
    j: int,
) -> bool {
    &&& wants(run[j], steps[j], want)
    &&& run[j].next + steps[j].state.respawns_left <= u64::MAX
    &&& meanwhile(stepped(run[j], steps[j], config), run[j + 1], want)
}

/// A refinement swaps in one frame, and it ends. From a tile that is visible
/// alone to a cut of tiles below it that are in memory, after every frame either
/// that tile alone is visible, or exactly the tiles of the cut are; after more
/// frames than tiles had to enter the scene, it is the cut, and the cut stays.
pub proof fn refinements_swap_in_one_frame(
    run: Seq<Stage>,
    steps: Seq<Step>,
    config: Tiles3dConfig,
    want: Seq<bool>,
    r: int,
    k: int,
)
    requires
        tiles_wf(run[0].set.tiles),
        well_named(run[0].set.tiles.slots, run[0].scene, run[0].next),
        coarse(run[0], want, r),
        run.len() == steps.len() + 1,
        forall|j: int| 0 <= j < steps.len() ==> #[trigger] frame_in(run, steps, config, want, j),
        0 <= k < run.len(),
    ensures
        coarse(run[k], want, r) || fine(run[k], want),
        k > bare_count(want, run[0].set.tiles.slots) ==> fine(run[k], want),
        0 < k && fine(run[k - 1], want) ==> fine(run[k], want),
{
    lemma_frames(run, steps, config, want, r, k);
}

/// What holds after `k` frames.
proof fn lemma_frames(
    run: Seq<Stage>,
    steps: Seq<Step>,
    config: Tiles3dConfig,
    want: Seq<bool>,
    r: int,
    k: int,
)
    requires
        tiles_wf(run[0].set.tiles),
        well_named(run[0].set.tiles.slots, run[0].scene, run[0].next),
        coarse(run[0], want, r),
        run.len() == steps.len() + 1,
        forall|j: int| 0 <= j < steps.len() ==> #[trigger] frame_in(run, steps, config, want, j),
        0 <= k < run.len(),
    ensures
        ({
            let x = run[k];
            let had = bare_count(want, run[0].set.tiles.slots);
            let has = bare_count(want, x.set.tiles.slots);
            &&& tiles_wf(x.set.tiles)
            &&& well_named(x.set.tiles.slots, x.scene, x.next)
            &&& x.set.tiles.tree == run[0].set.tiles.tree
            &&& coarse(x, want, r) || fine(x, want)
            &&& has == 0 || has + k <= had
            &&& k > had ==> fine(x, want)
            &&& 0 < k && fine(run[k - 1], want) ==> fine(x, want)
        }),
    decreases k,
{
    if k > 0 {
        lemma_frames(run, steps, config, want, r, k - 1);
        let b = run[k - 1];
        let f = steps[k - 1];
        assert(frame_in(run, steps, config, want, k - 1));
        let e = stepped(b, f, config);
        lemma_step(b, f, config, want);
        lemma_swap_step(b, f, config, want, r);
        lemma_meanwhile(e, run[k], want, r);
    }
}

/// A coarsening leaves no gap, and it ends. From tiles that lie in a cut or below
/// it to that cut, whose tiles are in memory: after every frame the place of each
/// tile of the cut is painted, by the tile itself or by all that painted it at
/// first; after more frames than tiles had to enter the scene, exactly the tiles
/// of the cut are visible.
pub proof fn coarsenings_leave_no_gap(
    run: Seq<Stage>,
    steps: Seq<Step>,
    config: Tiles3dConfig,
    want: Seq<bool>,
    k: int,
)
    requires
        tiles_wf(run[0].set.tiles),
        well_named(run[0].set.tiles.slots, run[0].scene, run[0].next),
        is_cut(run[0].set.tiles.tree, want),
        forall|i: int|
            0 <= i < run[0].set.tiles.tree.len() && #[trigger] want[i] ==> is_ready(
                run[0].set.tiles.slots[i],
            ),
        forall|j: int|
            0 <= j < run[0].set.tiles.tree.len() && #[trigger] visible_in(run[0])[j] ==> want[j]
                || under_seed(run[0].set.tiles.tree, want, j),
        run.len() == steps.len() + 1,
        forall|j: int| 0 <= j < steps.len() ==> #[trigger] frame_in(run, steps, config, want, j),
        0 <= k < run.len(),
    ensures
        gapless(run[k], want, visible_in(run[0])),
        k > bare_count(want, run[0].set.tiles.slots) ==> fine(run[k], want),
{
    let was = visible_in(run[0]);
    let t = run[0].set.tiles;
    assert forall|i: int| 0 <= i < t.tree.len() implies paints_below(run[0], was, i) by {
        assert forall|j: int|
            0 <= j < t.tree.len() && was[j] && above(t.tree, i, j) implies #[trigger] shows(
            t.slots,
            run[0].scene,
            j,
        ) by {}
    }
    assert forall|j: int| 0 <= j < t.tree.len() && #[trigger] shows(t.slots, run[0].scene, j) implies
        want[j] || under_seed(t.tree, want, j) by {
        assert(was[j]);
    }
    lemma_coarsen_frames(run, steps, config, want, was, k);
}

proof fn lemma_coarsen_frames(
    run: Seq<Stage>,
    steps: Seq<Step>,
    config: Tiles3dConfig,
    want: Seq<bool>,
    was: Seq<bool>,
    k: int,
)
    requires
        tiles_wf(run[0].set.tiles),
        well_named(run[0].set.tiles.slots, run[0].scene, run[0].next),
        is_cut(run[0].set.tiles.tree, want),
        gapless(run[0], want, was),
        run.len() == steps.len() + 1,
        forall|j: int| 0 <= j < steps.len() ==> #[trigger] frame_in(run, steps, config, want, j),
        0 <= k < run.len(),
    ensures
        ({
            let x = run[k];
            let had = bare_count(want, run[0].set.tiles.slots);
            let has = bare_count(want, x.set.tiles.slots);
            &&& tiles_wf(x.set.tiles)
            &&& well_named(x.set.tiles.slots, x.scene, x.next)
            &&& x.set.tiles.tree == run[0].set.tiles.tree
            &&& gapless(x, want, was)
            &&& has == 0 || has + k <= had
            &&& k > had ==> fine(x, want)
        }),
    decreases k,
{
    if k > 0 {
        lemma_coarsen_frames(run, steps, config, want, was, k - 1);
        let b = run[k - 1];
        let f = steps[k - 1];
        assert(frame_in(run, steps, config, want, k - 1));
        let e = stepped(b, f, config);
        lemma_step(b, f, config, want);
        lemma_coarsen_step(b, f, config, want, was);
        lemma_meanwhile(e, run[k], want, 0);
        lemma_gapless_meanwhile(e, run[k], want, was);
    }
}

} // verus!
