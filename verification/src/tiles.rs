//! The tiles of a set, and what is known of each.
use crate::evict::{age, lists};
use crate::schema::Tileset;
use crate::stream::TileSlot;
use crate::tree::{
    above, closed_up, gather, kept, lemma_kept, lemma_rank_grows, moved, opt_text, rank, retained,
    tile_nodes, tree_wf, within, Node, TileTree,
};
use crate::uri::{dir_prefix, rebase_uri, rebased, uri_dir_prefix};
use vstd::prelude::*;

verus! {

/// The center that the content of a tile is relative to, as the bits of three
/// `f64`.
pub type Center = [u64; 3];

/// Another tileset that was put under a tile.
#[derive(Debug)]
pub struct GraftRecord {
    /// The tile that named it.
    pub at: usize,
    /// Where its root stands.
    pub child_root: usize,
    /// The name, with which it can be had again.
    pub uri: String,
}

/// [`GraftRecord`] as a mathematical value.
pub struct Graft {
    pub at: int,
    pub child_root: int,
    pub uri: Seq<char>,
}

impl View for GraftRecord {
    type V = Graft;

    open spec fn view(&self) -> Graft {
        Graft { at: self.at as int, child_root: self.child_root as int, uri: self.uri@ }
    }
}

/// The views of grafts.
pub open spec fn grafts_view(v: Seq<GraftRecord>) -> Seq<Graft> {
    Seq::new(v.len(), |i: int| v[i]@)
}

/// The tiles of a set, and what is known of each.
#[derive(Debug)]
pub struct Tiles {
    pub tree: TileTree,
    pub slots: Vec<TileSlot>,
    /// What a tile in memory keeps, so that it can be put back into the scene.
    pub caches: Vec<Vec<u64>>,
    /// Whether the tile was rendered in the last frame.
    pub rendered: Vec<bool>,
    /// Whether the tile was refined in the last frame.
    pub refined: Vec<bool>,
    /// When the tile was last wanted.
    pub last_touched: Vec<u64>,
    pub rtc_centers: Vec<Option<Center>>,
    pub grafts: Vec<GraftRecord>,
}

/// [`Tiles`] as a mathematical value.
#[verifier::ext_equal]
pub struct TilesModel {
    pub tree: Seq<Node>,
    pub slots: Seq<TileSlot>,
    pub caches: Seq<Seq<u64>>,
    pub rendered: Seq<bool>,
    pub refined: Seq<bool>,
    pub touched: Seq<u64>,
    pub rtc: Seq<Option<Center>>,
    pub grafts: Seq<Graft>,
}

impl View for Tiles {
    type V = TilesModel;

    open spec fn view(&self) -> TilesModel {
        TilesModel {
            tree: self.tree@,
            slots: self.slots@,
            caches: lists(self.caches@),
            rendered: self.rendered@,
            refined: self.refined@,
            touched: self.last_touched@,
            rtc: self.rtc_centers@,
            grafts: grafts_view(self.grafts@),
        }
    }
}

/// Everything is known of every tile, and every graft is under its tile.
pub open spec fn tiles_wf(m: TilesModel) -> bool {
    let n = m.tree.len();
    &&& tree_wf(m.tree)
    &&& n <= usize::MAX
    &&& m.slots.len() == n
    &&& m.caches.len() == n
    &&& m.rendered.len() == n
    &&& m.refined.len() == n
    &&& m.touched.len() == n
    &&& m.rtc.len() == n
    &&& forall|k: int| 0 <= k < m.grafts.len() ==> graft_stands(m.tree, #[trigger] m.grafts[k])
}

/// A graft is under its tile.
pub open spec fn graft_stands(t: Seq<Node>, g: Graft) -> bool {
    0 <= g.at < g.child_root < t.len() && t[g.child_root].parent == Some(g.at as usize)
}

/// A value, many times.
pub open spec fn many<T>(x: T, n: nat) -> Seq<T> {
    Seq::new(n, |i: int| x)
}

/// Fills a list up to `n`.
fn fill<T: Copy>(v: &mut Vec<T>, n: usize, x: T)
    requires
        old(v)@.len() <= n,
    ensures
        final(v)@ == old(v)@ + many(x, (n - old(v)@.len()) as nat),
{
    let ghost had = v@;
    assert(had =~= had + many(x, 0));
    while v.len() < n
        invariant
            had.len() <= v@.len() <= n,
            v@ == had + many(x, (v@.len() - had.len()) as nat),
        decreases n - v@.len(),
    {
        v.push(x);
        assert(v@ =~= had + many(x, (v@.len() - had.len()) as nat));
    }
}

fn fill_lists(v: &mut Vec<Vec<u64>>, n: usize)
    requires
        old(v)@.len() <= n,
    ensures
        lists(final(v)@) == lists(old(v)@) + many(Seq::<u64>::empty(), (n - old(v)@.len()) as nat),
{
    let ghost had = lists(v@);
    assert(had =~= had + many(Seq::<u64>::empty(), 0));
    while v.len() < n
        invariant
            had.len() <= v@.len() <= n,
            lists(v@) == had + many(Seq::<u64>::empty(), (v@.len() - had.len()) as nat),
        decreases n - v@.len(),
    {
        let none: Vec<u64> = Vec::new();
        assert(none@ =~= Seq::empty());
        let ghost before = lists(v@);
        v.push(none);
        assert(lists(v@) =~= before.push(Seq::empty()));
        assert(lists(v@) =~= had + many(Seq::<u64>::empty(), (v@.len() - had.len()) as nat));
    }
}

/// The tiles of a new set: nothing is loaded.
pub open spec fn fresh_tiles(t: Seq<Node>) -> TilesModel {
    TilesModel {
        tree: t,
        slots: many(TileSlot::NotLoaded, t.len()),
        caches: many(Seq::empty(), t.len()),
        rendered: many(false, t.len()),
        refined: many(false, t.len()),
        touched: many(0, t.len()),
        rtc: many(None, t.len()),
        grafts: Seq::empty(),
    }
}

/// A name seen from the tileset that holds it.
pub open spec fn seen_from(node: Node, consumed: Option<Seq<char>>) -> Node {
    match (consumed, node.uri) {
        (Some(c), Some(u)) => match dir_prefix(c) {
            Some(prefix) => Node { uri: Some(rebased(prefix, u)), ..node },
            None => node,
        },
        _ => node,
    }
}

/// The tree with another tileset under tile `at`: its relative names are seen
/// from where it lies, and the name of the tileset itself is used up.
pub open spec fn grafted_tree(t: Seq<Node>, at: int, external: Tileset) -> Seq<Node> {
    let more = tile_nodes(external.root, Some(at as usize), t[at].depth + 1, t.len() as int);
    let named = Seq::new(more.len(), |i: int| seen_from(more[i], t[at].uri));
    t.update(at, Node { uri: None, ..t[at] }) + named
}

/// The tiles with another tileset under tile `at`.
pub open spec fn grafted(m: TilesModel, at: int, external: Tileset) -> TilesModel {
    let tree = grafted_tree(m.tree, at, external);
    let more = (tree.len() - m.tree.len()) as nat;
    TilesModel {
        tree,
        slots: (m.slots + many(TileSlot::NotLoaded, more)).update(at, TileSlot::NotLoaded),
        caches: m.caches + many(Seq::empty(), more),
        rendered: m.rendered + many(false, more),
        refined: m.refined + many(false, more),
        touched: m.touched + many(0, more),
        rtc: m.rtc + many(None, more),
        grafts: match m.tree[at].uri {
            Some(uri) => m.grafts.push(
                Graft { at, child_root: m.tree.len() as int, uri },
            ),
            None => m.grafts,
        },
    }
}

/// A tile that is in memory or on its way.
pub open spec fn is_busy(s: TileSlot) -> bool {
    s is Ready || s is InFlight
}

/// A graft can be taken away: it has not been wanted for longer than the grace
/// period, and nothing in it is in memory or on its way.
pub open spec fn is_prunable(m: TilesModel, keep: Seq<bool>, r: int, frame: u64, grace: u64) -> bool {
    &&& keep[r]
    &&& age(frame, m.touched[r]) > grace
    &&& forall|x: int|
        0 <= x < m.tree.len() && within(m.tree, r, x) ==> !is_busy(#[trigger] m.slots[x])
}

/// The tiles that stay after the first `k` grafts are looked at.
pub open spec fn keep_up_to(m: TilesModel, k: int, frame: u64, grace: u64) -> Seq<bool>
    decreases k,
{
    if k <= 0 {
        many(true, m.tree.len())
    } else {
        let keep = keep_up_to(m, k - 1, frame, grace);
        let r = m.grafts[k - 1].child_root;
        if is_prunable(m, keep, r, frame, grace) {
            Seq::new(m.tree.len(), |x: int| keep[x] && !within(m.tree, r, x))
        } else {
            keep
        }
    }
}

/// The tiles that stay.
pub open spec fn kept_tiles(m: TilesModel, frame: u64, grace: u64) -> Seq<bool> {
    keep_up_to(m, m.grafts.len() as int, frame, grace)
}

/// The tree after the names of the first `k` grafts that go are put back.
pub open spec fn restored_up_to(t: Seq<Node>, grafts: Seq<Graft>, keep: Seq<bool>, k: int) -> Seq<Node>
    decreases k,
{
    if k <= 0 {
        t
    } else {
        let before = restored_up_to(t, grafts, keep, k - 1);
        let g = grafts[k - 1];
        if keep[g.at] && !keep[g.child_root] {
            before.update(g.at, Node { uri: Some(g.uri), ..before[g.at] })
        } else {
            before
        }
    }
}

/// The grafts among the first `k` that stay, by their new places.
pub open spec fn grafts_kept_up_to(grafts: Seq<Graft>, keep: Seq<bool>, k: int) -> Seq<Graft>
    decreases k,
{
    if k <= 0 {
        Seq::empty()
    } else {
        let before = grafts_kept_up_to(grafts, keep, k - 1);
        let g = grafts[k - 1];
        if keep[g.child_root] {
            before.push(
                Graft {
                    at: rank(keep, g.at) as int,
                    child_root: rank(keep, g.child_root) as int,
                    uri: g.uri,
                },
            )
        } else {
            before
        }
    }
}

/// Every tile stays.
pub open spec fn keeps_all(keep: Seq<bool>) -> bool {
    forall|x: int| 0 <= x < keep.len() ==> #[trigger] keep[x]
}

/// The tiles after the grafts that nobody looks at are taken away. The tiles
/// that named them can name them again.
pub open spec fn compacted(m: TilesModel, frame: u64, grace: u64) -> TilesModel {
    let keep = kept_tiles(m, frame, grace);
    if keeps_all(keep) {
        m
    } else {
        TilesModel {
            tree: retained(
                restored_up_to(m.tree, m.grafts, keep, m.grafts.len() as int),
                keep,
            ),
            slots: kept(m.slots, keep),
            caches: kept(m.caches, keep),
            rendered: kept(m.rendered, keep),
            refined: kept(m.refined, keep),
            touched: kept(m.touched, keep),
            rtc: kept(m.rtc, keep),
            grafts: grafts_kept_up_to(m.grafts, keep, m.grafts.len() as int),
        }
    }
}

pub proof fn lemma_keep(m: TilesModel, k: int, frame: u64, grace: u64)
    requires
        tiles_wf(m),
        0 <= k <= m.grafts.len(),
    ensures
        keep_up_to(m, k, frame, grace).len() == m.tree.len(),
        closed_up(m.tree, keep_up_to(m, k, frame, grace)),
        forall|x: int|
            0 <= x < m.tree.len() && is_busy(#[trigger] m.slots[x]) ==> keep_up_to(
                m,
                k,
                frame,
                grace,
            )[x],
    decreases k,
{
    let keep = keep_up_to(m, k, frame, grace);
    if k > 0 {
        lemma_keep(m, k - 1, frame, grace);
        let before = keep_up_to(m, k - 1, frame, grace);
        let r = m.grafts[k - 1].child_root;
        if is_prunable(m, before, r, frame, grace) {
            assert forall|i: int|
                #![trigger m.tree[i]]
                0 <= i < m.tree.len() && keep[i] implies match m.tree[i].parent {
                Some(p) => keep[p as int],
                None => true,
            } by {
                if let Some(p) = m.tree[i].parent {
                    if within(m.tree, r, p as int) {
                        assert(above(m.tree, r, i));
                    }
                }
            }
        }
    }
}

/// Compaction takes away nothing that is in memory or on its way, and with a
/// tile that stays, everything above it stays.
pub proof fn compaction_spares_what_is_used(m: TilesModel, frame: u64, grace: u64)
    requires
        tiles_wf(m),
    ensures
        closed_up(m.tree, kept_tiles(m, frame, grace)),
        forall|x: int|
            0 <= x < m.tree.len() && is_busy(#[trigger] m.slots[x]) ==> kept_tiles(
                m,
                frame,
                grace,
            )[x],
{
    lemma_keep(m, m.grafts.len() as int, frame, grace);
}

/// Compaction takes away whole grafts only: what goes is under a graft that has
/// not been wanted for longer than the grace period.
pub proof fn compaction_takes_whole_grafts(m: TilesModel, frame: u64, grace: u64, k: int, x: int)
    requires
        tiles_wf(m),
        0 <= k <= m.grafts.len(),
        0 <= x < m.tree.len(),
        !keep_up_to(m, k, frame, grace)[x],
    ensures
        exists|g: int|
            0 <= g < k && within(m.tree, (#[trigger] m.grafts[g]).child_root, x) && age(
                frame,
                m.touched[m.grafts[g].child_root],
            ) > grace,
    decreases k,
{
    if k > 0 {
        if !keep_up_to(m, k - 1, frame, grace)[x] {
            compaction_takes_whole_grafts(m, frame, grace, k - 1, x);
            let g = choose|g: int|
                0 <= g < k - 1 && within(m.tree, (#[trigger] m.grafts[g]).child_root, x) && age(
                    frame,
                    m.touched[m.grafts[g].child_root],
                ) > grace;
            assert(0 <= g < k && within(m.tree, m.grafts[g].child_root, x));
        } else {
            assert(within(m.tree, m.grafts[k - 1].child_root, x));
        }
    }
}

proof fn lemma_restored(t: Seq<Node>, grafts: Seq<Graft>, keep: Seq<bool>, k: int)
    requires
        0 <= k <= grafts.len(),
        forall|j: int| 0 <= j < grafts.len() ==> graft_stands(t, #[trigger] grafts[j]),
        tree_wf(t),
    ensures
        restored_up_to(t, grafts, keep, k).len() == t.len(),
        forall|i: int|
            0 <= i < t.len() ==> (#[trigger] restored_up_to(t, grafts, keep, k)[i]).parent
                == t[i].parent && restored_up_to(t, grafts, keep, k)[i].depth == t[i].depth,
        tree_wf(restored_up_to(t, grafts, keep, k)),
    decreases k,
{
    if k > 0 {
        lemma_restored(t, grafts, keep, k - 1);
        let before = restored_up_to(t, grafts, keep, k - 1);
        let r = restored_up_to(t, grafts, keep, k);
        assert(graft_stands(t, grafts[k - 1]));
        assert forall|i: int| 0 <= i < r.len() implies match (#[trigger] r[i]).parent {
            Some(p) => p < i && r[i].depth == r[p as int].depth + 1,
            None => r[i].depth == 0,
        } by {
            assert(before[i].parent == t[i].parent);
            if let Some(p) = t[i].parent {
                assert(t[i].depth == t[p as int].depth + 1);
                assert(before[p as int].depth == t[p as int].depth);
            }
        }
    }
}

proof fn lemma_closed_same(t: Seq<Node>, u: Seq<Node>, keep: Seq<bool>)
    requires
        t.len() == u.len(),
        closed_up(t, keep),
        forall|i: int| 0 <= i < t.len() ==> (#[trigger] u[i]).parent == t[i].parent,
    ensures
        closed_up(u, keep),
{
    assert forall|i: int| #![trigger u[i]] 0 <= i < u.len() && keep[i] implies match u[i].parent {
        Some(p) => keep[p as int],
        None => true,
    } by {
        assert(t[i].parent == u[i].parent);
    }
}

proof fn lemma_grafts_kept(t: Seq<Node>, r: Seq<Node>, grafts: Seq<Graft>, keep: Seq<bool>, k: int)
    requires
        0 <= k <= grafts.len(),
        t.len() == keep.len(),
        t.len() <= usize::MAX,
        r.len() == t.len(),
        tree_wf(t),
        closed_up(t, keep),
        forall|i: int| 0 <= i < t.len() ==> (#[trigger] r[i]).parent == t[i].parent,
        forall|j: int| 0 <= j < grafts.len() ==> graft_stands(t, #[trigger] grafts[j]),
    ensures
        forall|j: int|
            0 <= j < grafts_kept_up_to(grafts, keep, k).len() ==> graft_stands(
                retained(r, keep),
                #[trigger] grafts_kept_up_to(grafts, keep, k)[j],
            ),
    decreases k,
{
    if k > 0 {
        lemma_grafts_kept(t, r, grafts, keep, k - 1);
        let before = grafts_kept_up_to(grafts, keep, k - 1);
        let now = grafts_kept_up_to(grafts, keep, k);
        let g = grafts[k - 1];
        assert(graft_stands(t, g));
        assert forall|j: int| 0 <= j < now.len() implies graft_stands(
            retained(r, keep),
            #[trigger] now[j],
        ) by {
            if j < before.len() {
                assert(now[j] == before[j]);
            } else {
                assert(t[g.child_root].parent == Some(g.at as usize));
                assert(g.at as usize == g.at);
                assert(keep[g.at]);
                lemma_rank_grows(keep, g.at, g.child_root);
                lemma_rank_grows(keep, 0, g.at);
                let m = Seq::new(r.len(), |i: int| moved(r[i], keep));
                lemma_kept(m, keep);
                assert(crate::tree::stands(m, keep, g.child_root));
                assert(m[g.child_root] == moved(r[g.child_root], keep));
                assert(r[g.child_root].parent == t[g.child_root].parent);
            }
        }
    }
}

/// Compaction keeps the tiles in order.
pub proof fn compaction_keeps_order(m: TilesModel, frame: u64, grace: u64)
    requires
        tiles_wf(m),
    ensures
        tiles_wf(compacted(m, frame, grace)),
        compacted(m, frame, grace).tree.len() <= m.tree.len(),
{
    let keep = kept_tiles(m, frame, grace);
    if !keeps_all(keep) {
        lemma_keep(m, m.grafts.len() as int, frame, grace);
        let k = m.grafts.len() as int;
        let r = restored_up_to(m.tree, m.grafts, keep, k);
        lemma_restored(m.tree, m.grafts, keep, k);
        lemma_closed_same(m.tree, r, keep);
        crate::tree::lemma_retained_wf(r, keep);
        lemma_grafts_kept(m.tree, r, m.grafts, keep, k);
        lemma_kept(Seq::new(r.len(), |i: int| moved(r[i], keep)), keep);
        lemma_kept(m.slots, keep);
        lemma_kept(m.caches, keep);
        lemma_kept(m.rendered, keep);
        lemma_kept(m.refined, keep);
        lemma_kept(m.touched, keep);
        lemma_kept(m.rtc, keep);
        lemma_rank_grows(keep, 0, keep.len() as int);
    }
}

fn gather_lists(v: &Vec<Vec<u64>>, keep: &Vec<bool>) -> (r: Vec<Vec<u64>>)
    requires
        v@.len() == keep@.len(),
    ensures
        lists(r@) == kept(lists(v@), keep@),
{
    let ghost w = lists(v@);
    let mut r: Vec<Vec<u64>> = Vec::new();
    let mut i: usize = 0;
    assert(w.take(0) =~= Seq::empty());
    assert(lists(r@) =~= kept(w.take(0), keep@));
    while i < v.len()
        invariant
            i <= v@.len(),
            v@.len() == keep@.len(),
            w == lists(v@),
            lists(r@) == kept(w.take(i as int), keep@),
        decreases v@.len() - i,
    {
        assert(w.take(i + 1).drop_last() =~= w.take(i as int));
        if keep[i] {
            let ghost had = lists(r@);
            let copy = v[i].clone();
            assert(copy@ =~= v@[i as int]@);
            r.push(copy);
            assert(lists(r@) =~= had.push(w[i as int]));
        }
        i = i + 1;
    }
    assert(w.take(v@.len() as int) =~= w);
    r
}

impl Tiles {
    /// The tiles of a new set.
    pub fn new(tree: TileTree) -> (r: Self)
        requires
            tree_wf(tree@),
        ensures
            r@ == fresh_tiles(tree@),
            tiles_wf(r@),
    {
        let n: usize = tree.len();
        let mut slots: Vec<TileSlot> = Vec::new();
        fill(&mut slots, n, TileSlot::NotLoaded);
        let mut caches: Vec<Vec<u64>> = Vec::new();
        fill_lists(&mut caches, n);
        let mut rendered: Vec<bool> = Vec::new();
        fill(&mut rendered, n, false);
        let mut refined: Vec<bool> = Vec::new();
        fill(&mut refined, n, false);
        let mut last_touched: Vec<u64> = Vec::new();
        fill(&mut last_touched, n, 0);
        let mut rtc_centers: Vec<Option<Center>> = Vec::new();
        fill(&mut rtc_centers, n, None);
        let r = Tiles {
            tree,
            slots,
            caches,
            rendered,
            refined,
            last_touched,
            rtc_centers,
            grafts: Vec::new(),
        };
        assert(r@ =~= fresh_tiles(r.tree@));
        r
    }

    /// Marks the tiles that were wanted in this frame.
    pub fn touch(&mut self, touched: &Vec<bool>, frame: u64)
        requires
            tiles_wf(old(self)@),
            touched@.len() == old(self)@.tree.len(),
        ensures
            final(self)@ == (TilesModel {
                touched: Seq::new(
                    old(self)@.touched.len(),
                    |i: int|
                        if touched@[i] {
                            frame
                        } else {
                            old(self)@.touched[i]
                        },
                ),
                ..old(self)@
            }),
    {
        let ghost had = self@;
        let n: usize = self.last_touched.len();
        let mut i: usize = 0;
        while i < n
            invariant
                i <= n,
                n == had.touched.len(),
                touched@.len() == n,
                self.last_touched@.len() == n,
                self@ == (TilesModel { touched: self.last_touched@, ..had }),
                forall|k: int|
                    0 <= k < i ==> #[trigger] self.last_touched@[k] == if touched@[k] {
                        frame
                    } else {
                        had.touched[k]
                    },
                forall|k: int| i <= k < n ==> #[trigger] self.last_touched@[k] == had.touched[k],
            decreases n - i,
        {
            if touched[i] {
                self.last_touched.set(i, frame);
            }
            i = i + 1;
        }
        assert(self@ =~= (TilesModel {
            touched: Seq::new(
                had.touched.len(),
                |i: int|
                    if touched@[i] {
                        frame
                    } else {
                        had.touched[i]
                    },
            ),
            ..had
        }));
    }

    /// Takes away the grafts that nobody looks at, and returns how many tiles
    /// went, and of each tile whether it stayed. The tiles that named them can
    /// name them again.
    pub fn compact_grafted_subtrees(&mut self, frame: u64, grace: u64) -> (r: (usize, Vec<bool>))
        requires
            tiles_wf(old(self)@),
        ensures
            final(self)@ == compacted(old(self)@, frame, grace),
            tiles_wf(final(self)@),
            r.0 == old(self)@.tree.len() - final(self)@.tree.len(),
            r.1@ == kept_tiles(old(self)@, frame, grace),
    {
        let ghost m = self@;
        let n: usize = self.tree.len();
        let mut keep: Vec<bool> = Vec::new();
        fill(&mut keep, n, true);
        assert(keep@ =~= many(true, m.tree.len()));
        let mut any = false;
        let mut k: usize = 0;
        while k < self.grafts.len()
            invariant
                k <= self.grafts@.len(),
                m == self@,
                tiles_wf(m),
                n == m.tree.len(),
                keep@ == keep_up_to(m, k as int, frame, grace),
                keep@.len() == n,
                any == !keeps_all(keep@),
            decreases self.grafts@.len() - k,
        {
            let r: usize = self.grafts[k].child_root;
            assert(graft_stands(m.tree, m.grafts[k as int]));
            assert(m.grafts[k as int].child_root == r);
            let seen: u64 = self.last_touched[r];
            let old: u64 = if frame >= seen {
                frame - seen
            } else {
                0
            };
            if keep[r] && old > grace {
                let mut seed: Vec<bool> = Vec::new();
                fill(&mut seed, n, false);
                seed.set(r, true);
                let under = self.tree.mark_under(&seed);
                assert forall|x: int| 0 <= x < n implies #[trigger] under@[x] == above(
                    m.tree,
                    r as int,
                    x,
                ) by {
                    if above(m.tree, r as int, x) {
                        assert(seed@[r as int]);
                    }
                }
                let mut busy = false;
                let mut x: usize = 0;
                while x < n
                    invariant
                        x <= n,
                        r < n,
                        n == m.tree.len(),
                        m == self@,
                        tiles_wf(m),
                        under@.len() == n,
                        forall|x: int|
                            0 <= x < n ==> #[trigger] under@[x] == above(m.tree, r as int, x),
                        busy <==> exists|y: int|
                            0 <= y < x && within(m.tree, r as int, y) && is_busy(
                                #[trigger] m.slots[y],
                            ),
                    decreases n - x,
                {
                    let used = match self.slots[x] {
                        TileSlot::Ready { .. } => true,
                        TileSlot::InFlight { .. } => true,
                        _ => false,
                    };
                    assert(is_busy(m.slots[x as int]) == used);
                    if (x == r || under[x]) && used {
                        busy = true;
                    }
                    x = x + 1;
                }
                if !busy {
                    assert(is_prunable(m, keep@, r as int, frame, grace));
                    let ghost before = keep@;
                    let mut y: usize = 0;
                    while y < n
                        invariant
                            y <= n,
                            r < n,
                            n == m.tree.len(),
                            under@.len() == n,
                            keep@.len() == n,
                            before.len() == n,
                            forall|x: int|
                                0 <= x < n ==> #[trigger] under@[x] == above(m.tree, r as int, x),
                            forall|x: int|
                                0 <= x < y ==> #[trigger] keep@[x] == (before[x] && !within(
                                    m.tree,
                                    r as int,
                                    x,
                                )),
                            forall|x: int| y <= x < n ==> #[trigger] keep@[x] == before[x],
                        decreases n - y,
                    {
                        if y == r || under[y] {
                            keep.set(y, false);
                        }
                        y = y + 1;
                    }
                    any = true;
                    assert(!keep@[r as int]);
                    assert(keep@ =~= keep_up_to(m, k + 1, frame, grace));
                }
            }
            k = k + 1;
        }
        if !any {
            return (0, keep);
        }
        proof {
            lemma_keep(m, m.grafts.len() as int, frame, grace);
            compaction_keeps_order(m, frame, grace);
        }
        // Put the names of the grafts that go back where they were.
        let mut g: usize = 0;
        while g < self.grafts.len()
            invariant
                g <= self.grafts@.len(),
                n == m.tree.len(),
                tiles_wf(m),
                keep@.len() == n,
                self@ == (TilesModel {
                    tree: restored_up_to(m.tree, m.grafts, keep@, g as int),
                    ..m
                }),
            decreases self.grafts@.len() - g,
        {
            proof {
                lemma_restored(m.tree, m.grafts, keep@, g as int);
            }
            let at: usize = self.grafts[g].at;
            let child: usize = self.grafts[g].child_root;
            assert(graft_stands(m.tree, m.grafts[g as int]));
            assert(self@.grafts[g as int] == self.grafts@[g as int]@);
            if keep[at] && !keep[child] {
                let uri = String::from_str(self.grafts[g].uri.as_str());
                let ghost t = self.tree@;
                self.tree.nodes[at].content_uri = Some(uri);
                assert(self.tree@ =~= t.update(
                    at as int,
                    Node { uri: Some(uri@), ..t[at as int] },
                ));
            }
            g = g + 1;
        }
        let ghost r = restored_up_to(m.tree, m.grafts, keep@, m.grafts.len() as int);
        proof {
            lemma_restored(m.tree, m.grafts, keep@, m.grafts.len() as int);
            lemma_closed_same(m.tree, r, keep@);
        }
        self.slots = gather(&self.slots, &keep);
        self.caches = gather_lists(&self.caches, &keep);
        self.last_touched = gather(&self.last_touched, &keep);
        self.rtc_centers = gather(&self.rtc_centers, &keep);
        self.rendered = gather(&self.rendered, &keep);
        self.refined = gather(&self.refined, &keep);
        let map = self.tree.retain(&keep);
        let ghost all = grafts_view(self.grafts@);
        let mut left: Vec<GraftRecord> = Vec::new();
        let mut j: usize = 0;
        assert(grafts_view(left@) =~= Seq::empty());
        while j < self.grafts.len()
            invariant
                j <= self.grafts@.len(),
                all == grafts_view(self.grafts@),
                all == m.grafts,
                tiles_wf(m),
                n == m.tree.len(),
                keep@.len() == n,
                map@.len() == n,
                forall|i: int| 0 <= i < n ==> #[trigger] map@[i] == rank(keep@, i),
                grafts_view(left@) == grafts_kept_up_to(all, keep@, j as int),
            decreases self.grafts@.len() - j,
        {
            let rec = &self.grafts[j];
            assert(graft_stands(m.tree, m.grafts[j as int]));
            assert(all[j as int] == rec@);
            if keep[rec.child_root] {
                let moved = GraftRecord {
                    at: map[rec.at],
                    child_root: map[rec.child_root],
                    uri: String::from_str(rec.uri.as_str()),
                };
                let ghost had = grafts_view(left@);
                left.push(moved);
                assert(grafts_view(left@) =~= had.push(moved@));
            }
            j = j + 1;
        }
        self.grafts = left;
        assert(self@ =~= compacted(m, frame, grace));
        (n - self.tree.len(), keep)
    }

    /// Puts another tileset under tile `at`.
    pub fn graft_external(&mut self, at: usize, external: &Tileset)
        requires
            tiles_wf(old(self)@),
            at < old(self)@.tree.len(),
        ensures
            final(self)@ == grafted(old(self)@, at as int, *external),
            tiles_wf(final(self)@),
    {
        let ghost m = self@;
        let consumed: Option<String> = match &self.tree.nodes[at].content_uri {
            Some(u) => Some(String::from_str(u.as_str())),
            None => None,
        };
        assert(m.tree[at as int] == self.tree.nodes@[at as int]@);
        assert(opt_text(consumed) == m.tree[at as int].uri);
        let first: usize = self.tree.graft(at, external);
        let ghost more = tile_nodes(
            external.root,
            Some(at),
            m.tree[at as int].depth + 1,
            m.tree.len() as int,
        );
        let n: usize = self.tree.len();
        let prefix: Option<String> = match &consumed {
            Some(u) => uri_dir_prefix(u.as_str()),
            None => None,
        };
        let ghost whole = self.tree@;
        if let Some(p) = &prefix {
            let mut i: usize = first;
            while i < n
                invariant
                    first <= i <= n,
                    first == m.tree.len(),
                    n == whole.len(),
                    self.tree@.len() == n,
                    consumed is Some,
                    opt_text(consumed) == m.tree[at as int].uri,
                    dir_prefix(consumed->Some_0@) == Some(p@),
                    forall|k: int|
                        0 <= k < n ==> #[trigger] self.tree@[k] == if first <= k < i {
                            seen_from(whole[k], m.tree[at as int].uri)
                        } else {
                            whole[k]
                        },
                    self@ == (TilesModel { tree: self.tree@, ..m }),
                decreases n - i,
            {
                let fresh: Option<String> = match &self.tree.nodes[i].content_uri {
                    Some(u) => Some(rebase_uri(p.as_str(), u.as_str())),
                    None => None,
                };
                let ghost t = self.tree@;
                assert(t[i as int] == self.tree.nodes@[i as int]@);
                self.tree.nodes[i].content_uri = fresh;
                assert(self.tree@ =~= t.update(
                    i as int,
                    seen_from(whole[i as int], m.tree[at as int].uri),
                ));
                i = i + 1;
            }
        }
        let ghost t = self.tree@;
        assert forall|k: int| 0 <= k < n implies #[trigger] t[k] == if k >= first {
            seen_from(whole[k], m.tree[at as int].uri)
        } else {
            whole[k]
        } by {
            if prefix is None && k >= first {
                assert(seen_from(whole[k], m.tree[at as int].uri) == whole[k]);
            }
        }
        self.tree.nodes[at].content_uri = None;
        assert(self.tree@ =~= t.update(at as int, Node { uri: None, ..t[at as int] }));
        assert(self.tree@ =~= grafted_tree(m.tree, at as int, *external)) by {
            assert(whole =~= m.tree + more);
        }
        assert(tree_wf(self.tree@)) by {
            assert forall|i: int| 0 <= i < n implies match (#[trigger] self.tree@[i]).parent {
                Some(p) => p < i && self.tree@[i].depth == self.tree@[p as int].depth + 1,
                None => self.tree@[i].depth == 0,
            } by {
                assert(self.tree@[i].parent == whole[i].parent);
                assert(self.tree@[i].depth == whole[i].depth);
                if let Some(p) = whole[i].parent {
                    assert(self.tree@[p as int].depth == whole[p as int].depth);
                }
            }
        }
        fill(&mut self.slots, n, TileSlot::NotLoaded);
        fill_lists(&mut self.caches, n);
        fill(&mut self.last_touched, n, 0);
        fill(&mut self.rtc_centers, n, None);
        fill(&mut self.rendered, n, false);
        fill(&mut self.refined, n, false);
        self.slots.set(at, TileSlot::NotLoaded);
        if let Some(uri) = consumed {
            let rec = GraftRecord { at, child_root: first, uri };
            let ghost had = grafts_view(self.grafts@);
            self.grafts.push(rec);
            assert(grafts_view(self.grafts@) =~= had.push(rec@));
        }
        assert(self@ =~= grafted(m, at as int, *external));
        assert forall|k: int| 0 <= k < self@.grafts.len() implies graft_stands(
            self@.tree,
            #[trigger] self@.grafts[k],
        ) by {
            if k < m.grafts.len() {
                assert(graft_stands(m.tree, m.grafts[k]));
                let c = m.grafts[k].child_root;
                assert(self@.tree[c].parent == whole[c].parent);
            } else {
                assert(whole[first as int] == more[0]);
                assert(self@.tree[first as int].parent == whole[first as int].parent);
            }
        }
    }
}

} // verus!
