//! The tree of a tileset, as far as streaming goes: who is under whom, and where
//! the content is.
use crate::schema::{Tile, Tileset};
use crate::text;
use vstd::prelude::*;

verus! {

/// A tile of the tree. A parent stands before its children.
#[derive(Debug)]
pub struct TileNode {
    pub parent: Option<usize>,
    /// How many tiles are above this one.
    pub depth: usize,
    pub content_uri: Option<String>,
}

/// [`TileNode`] as a mathematical value.
pub struct Node {
    pub parent: Option<usize>,
    pub depth: int,
    pub uri: Option<Seq<char>>,
}

/// The text, where there is one.
pub open spec fn opt_text(s: Option<String>) -> Option<Seq<char>> {
    match s {
        Some(t) => Some(t@),
        None => None,
    }
}

impl View for TileNode {
    type V = Node;

    open spec fn view(&self) -> Node {
        Node { parent: self.parent, depth: self.depth as int, uri: opt_text(self.content_uri) }
    }
}

/// The tiles of a tileset.
#[derive(Debug)]
pub struct TileTree {
    pub nodes: Vec<TileNode>,
}

impl View for TileTree {
    type V = Seq<Node>;

    open spec fn view(&self) -> Seq<Node> {
        Seq::new(self.nodes@.len(), |i: int| self.nodes@[i]@)
    }
}

/// Parents stand before their children, and depths count them.
pub open spec fn tree_wf(t: Seq<Node>) -> bool {
    forall|i: int|
        0 <= i < t.len() ==> match (#[trigger] t[i]).parent {
            Some(p) => p < i && t[i].depth == t[p as int].depth + 1,
            None => t[i].depth == 0,
        }
}

/// Tile `a` is above tile `i`.
pub open spec fn above(t: Seq<Node>, a: int, i: int) -> bool
    decreases i,
{
    0 <= i < t.len() && match t[i].parent {
        Some(p) => p < i && (p == a || above(t, a, p as int)),
        None => false,
    }
}

/// Tile `c` is right under tile `p`.
pub open spec fn child_of(t: Seq<Node>, c: int, p: int) -> bool {
    match t[c].parent {
        Some(q) => q == p,
        None => false,
    }
}

/// Tile `i` is tile `r` or under it.
pub open spec fn within(t: Seq<Node>, r: int, i: int) -> bool {
    i == r || above(t, r, i)
}

/// A tile is above another only if it stands before it.
pub proof fn above_is_before(t: Seq<Node>, a: int, i: int)
    requires
        above(t, a, i),
    ensures
        0 <= a < i,
    decreases i,
{
    let p = t[i].parent->Some_0 as int;
    if p != a {
        above_is_before(t, a, p);
    }
}

/// What is above a tile is above everything under it.
pub proof fn above_is_transitive(t: Seq<Node>, a: int, b: int, c: int)
    requires
        above(t, a, b),
        above(t, b, c),
    ensures
        above(t, a, c),
    decreases c,
{
    let p = t[c].parent->Some_0 as int;
    if p != b {
        above_is_transitive(t, a, b, p);
    }
}

/// Of two tiles above a third, one is above the other.
pub proof fn above_is_a_line(t: Seq<Node>, a: int, b: int, c: int)
    requires
        above(t, a, c),
        above(t, b, c),
    ensures
        a == b || above(t, a, b) || above(t, b, a),
    decreases c,
{
    let p = t[c].parent->Some_0 as int;
    if p != a && p != b {
        above_is_a_line(t, a, b, p);
    }
}

/// The tile right under `a` on the way to `i`.
proof fn lemma_step_down(t: Seq<Node>, a: int, i: int) -> (c: int)
    requires
        above(t, a, i),
    ensures
        a < c <= i,
        c < t.len(),
        child_of(t, c, a as int),
        c == i || above(t, c, i),
    decreases i,
{
    above_is_before(t, a, i);
    let p = t[i].parent->Some_0 as int;
    if p == a {
        i
    } else {
        let c = lemma_step_down(t, a, p);
        if c != p {
            assert(above(t, c, i));
        } else {
            assert(above(t, p, i));
        }
        c
    }
}

/// Some seed is above tile `j`.
pub open spec fn under_seed(t: Seq<Node>, seed: Seq<bool>, j: int) -> bool {
    exists|a: int| 0 <= a < seed.len() && #[trigger] seed[a] && above(t, a, j)
}

/// Some seed is under tile `j`.
pub open spec fn over_seed(t: Seq<Node>, seed: Seq<bool>, j: int) -> bool {
    exists|i: int| 0 <= i < seed.len() && #[trigger] seed[i] && above(t, j, i)
}

proof fn lemma_under_step(t: Seq<Node>, seed: Seq<bool>, j: int)
    requires
        tree_wf(t),
        0 <= j < t.len(),
        seed.len() == t.len(),
    ensures
        under_seed(t, seed, j) == match t[j].parent {
            Some(p) => seed[p as int] || under_seed(t, seed, p as int),
            None => false,
        },
{
    if let Some(p) = t[j].parent {
        if seed[p as int] {
            assert(above(t, p as int, j));
        }
        if under_seed(t, seed, p as int) {
            let a = choose|a: int|
                0 <= a < seed.len() && #[trigger] seed[a] && above(t, a, p as int);
            assert(above(t, a, j));
        }
    }
}

proof fn lemma_over_step(t: Seq<Node>, seed: Seq<bool>, j: int)
    requires
        tree_wf(t),
        0 <= j < t.len(),
        seed.len() == t.len(),
    ensures
        over_seed(t, seed, j) <==> exists|c: int|
            j < c < t.len() && #[trigger] child_of(t, c, j as int) && (seed[c]
                || over_seed(t, seed, c)),
{
    if over_seed(t, seed, j) {
        let i = choose|i: int| 0 <= i < seed.len() && #[trigger] seed[i] && above(t, j, i);
        let c = lemma_step_down(t, j, i);
        assert(child_of(t, c, j as int));
        if c != i {
            assert(over_seed(t, seed, c));
        }
    }
    if exists|c: int|
        j < c < t.len() && #[trigger] child_of(t, c, j as int) && (seed[c] || over_seed(
            t,
            seed,
            c,
        )) {
        let c = choose|c: int|
            j < c < t.len() && #[trigger] child_of(t, c, j as int) && (seed[c]
                || over_seed(t, seed, c));
        assert(above(t, j, c));
        if !seed[c] {
            let i = choose|i: int| 0 <= i < seed.len() && #[trigger] seed[i] && above(t, c, i);
            above_is_transitive(t, j, c, i);
        }
    }
}

impl TileTree {
    /// How many tiles there are.
    pub fn len(&self) -> (n: usize)
        ensures
            n == self@.len(),
    {
        self.nodes.len()
    }

    /// Marks the tiles that have a seed above them.
    pub fn mark_under(&self, seed: &Vec<bool>) -> (r: Vec<bool>)
        requires
            tree_wf(self@),
            seed@.len() == self@.len(),
        ensures
            r@ == Seq::new(self@.len(), |j: int| under_seed(self@, seed@, j)),
    {
        let ghost t = self@;
        let mut r: Vec<bool> = Vec::new();
        let mut j: usize = 0;
        while j < self.nodes.len()
            invariant
                j <= self.nodes@.len(),
                t == self@,
                tree_wf(t),
                seed@.len() == t.len(),
                r@.len() == j,
                forall|k: int| 0 <= k < j ==> #[trigger] r@[k] == under_seed(t, seed@, k),
            decreases self.nodes@.len() - j,
        {
            assert(t[j as int] == self.nodes@[j as int]@);
            proof {
                lemma_under_step(t, seed@, j as int);
            }
            let m = match self.nodes[j].parent {
                Some(p) => seed[p] || r[p],
                None => false,
            };
            r.push(m);
            j = j + 1;
        }
        assert(r@ =~= Seq::new(self@.len(), |j: int| under_seed(self@, seed@, j)));
        r
    }

    /// Marks the tiles that have a seed under them.
    pub fn mark_over(&self, seed: &Vec<bool>) -> (r: Vec<bool>)
        requires
            tree_wf(self@),
            seed@.len() == self@.len(),
        ensures
            r@ == Seq::new(self@.len(), |j: int| over_seed(self@, seed@, j)),
    {
        let ghost t = self@;
        let n: usize = self.nodes.len();
        let mut r: Vec<bool> = Vec::new();
        let mut i: usize = 0;
        while i < n
            invariant
                i <= n,
                r@.len() == i,
                forall|k: int| 0 <= k < i ==> !#[trigger] r@[k],
            decreases n - i,
        {
            r.push(false);
            i = i + 1;
        }
        let mut k: usize = n;
        while k > 0
            invariant
                k <= n,
                n == self.nodes@.len(),
                t == self@,
                tree_wf(t),
                seed@.len() == t.len(),
                r@.len() == n,
                forall|j: int|
                    0 <= j < n ==> (#[trigger] r@[j] <==> exists|c: int|
                        k <= c < n && #[trigger] child_of(t, c, j as int) && (seed@[c]
                            || over_seed(t, seed@, c))),
            decreases k,
        {
            let ghost before = r@;
            let ghost k0 = k as int;
            k = k - 1;
            assert(t[k as int] == self.nodes@[k as int]@);
            proof {
                lemma_over_step(t, seed@, k as int);
                assert(r@[k as int] == over_seed(t, seed@, k as int)) by {
                    if over_seed(t, seed@, k as int) {
                        let c = choose|c: int|
                            k < c < t.len() && #[trigger] child_of(t, c, k as int) && (
                            seed@[c] || over_seed(t, seed@, c));
                        assert(k0 <= c < n && child_of(t, c, k as int));
                    }
                }
            }
            if seed[k] || r[k] {
                if let Some(p) = self.nodes[k].parent {
                    r.set(p, true);
                }
            }
            assert forall|j: int| 0 <= j < n implies (#[trigger] r@[j] <==> exists|c: int|
                k <= c < n && #[trigger] child_of(t, c, j as int) && (seed@[c]
                    || over_seed(t, seed@, c))) by {
                if before[j] {
                    let c = choose|c: int|
                        k0 <= c < n && #[trigger] child_of(t, c, j as int) && (seed@[c]
                            || over_seed(t, seed@, c));
                    assert(k <= c < n && child_of(t, c, j as int));
                }
                if r@[j] && !before[j] {
                    assert(child_of(t, k as int, j));
                }
                if exists|c: int|
                    k <= c < n && #[trigger] child_of(t, c, j as int) && (seed@[c]
                        || over_seed(t, seed@, c)) {
                    let c = choose|c: int|
                        k <= c < n && #[trigger] child_of(t, c, j as int) && (seed@[c]
                            || over_seed(t, seed@, c));
                    if c >= k0 {
                        assert(before[j]);
                    }
                }
            }
        }
        assert forall|j: int| 0 <= j < n implies #[trigger] r@[j] == over_seed(t, seed@, j) by {
            lemma_over_step(t, seed@, j);
            if over_seed(t, seed@, j) {
                let c = choose|c: int|
                    j < c < t.len() && #[trigger] child_of(t, c, j as int) && (seed@[c]
                        || over_seed(t, seed@, c));
                assert(0 <= c < n && child_of(t, c, j as int));
            }
            if r@[j] {
                let c = choose|c: int|
                    0 <= c < n && #[trigger] child_of(t, c, j as int) && (seed@[c]
                        || over_seed(t, seed@, c));
                assert(j < c < t.len());
            }
        }
        assert(r@ =~= Seq::new(self@.len(), |j: int| over_seed(self@, seed@, j)));
        r
    }
}

/// Where the content of a tile is.
pub open spec fn uri_of(t: Tile) -> Option<Seq<char>> {
    match t.content {
        Some(c) => Some(c.uri@),
        None => None,
    }
}

/// The tiles of a subtree, a tile before its children, where the first of them
/// becomes tile `base`.
pub open spec fn tile_nodes(t: Tile, parent: Option<usize>, depth: int, base: int) -> Seq<Node>
    decreases t, 0int,
{
    proof {
        assert(decreases_to!(t => t.children));
        assert(decreases_to!(t.children => t.children@));
    }
    seq![Node { parent, depth, uri: uri_of(t) }] + forest_nodes(
        t.children@,
        t.children@.len() as int,
        Some(base as usize),
        depth + 1,
        base + 1,
    )
}

/// The tiles of the first `k` subtrees of a list.
pub open spec fn forest_nodes(
    list: Seq<Tile>,
    k: int,
    parent: Option<usize>,
    depth: int,
    base: int,
) -> Seq<Node>
    decreases list, k,
{
    if k <= 0 || k > list.len() {
        Seq::empty()
    } else {
        proof {
            assert(decreases_to!(list => list[k - 1]));
        }
        let before = forest_nodes(list, k - 1, parent, depth, base);
        before + tile_nodes(list[k - 1], parent, depth, base + before.len())
    }
}

/// The views of tiles.
pub open spec fn nodes_view(v: Seq<TileNode>) -> Seq<Node> {
    Seq::new(v.len(), |i: int| v[i]@)
}

/// A tile with this parent and depth may be put at the end of `t`.
pub open spec fn may_follow(t: Seq<Node>, parent: Option<usize>, depth: int) -> bool {
    match parent {
        Some(p) => p < t.len() && depth == t[p as int].depth + 1,
        None => depth == 0,
    }
}

/// A parent is never deeper than it stands.
proof fn lemma_depth(t: Seq<Node>, i: int)
    requires
        tree_wf(t),
        0 <= i < t.len(),
    ensures
        0 <= t[i].depth <= i,
    decreases i,
{
    if let Some(p) = t[i].parent {
        lemma_depth(t, p as int);
    }
}

fn copy_uri(t: &Tile) -> (r: Option<String>)
    ensures
        opt_text(r) == uri_of(*t),
{
    match &t.content {
        Some(c) => Some(String::from_str(c.uri.as_str())),
        None => None,
    }
}

fn push_tile(out: &mut Vec<TileNode>, t: &Tile, parent: Option<usize>, depth: usize)
    requires
        tree_wf(nodes_view(old(out)@)),
        may_follow(nodes_view(old(out)@), parent, depth as int),
    ensures
        nodes_view(final(out)@) == nodes_view(old(out)@) + tile_nodes(
            *t,
            parent,
            depth as int,
            old(out)@.len() as int,
        ),
        tree_wf(nodes_view(final(out)@)),
    decreases *t, 0int,
{
    let ghost had = nodes_view(out@);
    let base: usize = out.len();
    proof {
        if let Some(p) = parent {
            lemma_depth(had, p as int);
        }
    }
    let node = TileNode { parent, depth, content_uri: copy_uri(t) };
    let ghost first = seq![node@];
    out.push(node);
    assert(nodes_view(out@) =~= had + first);
    assert(tree_wf(nodes_view(out@))) by {
        assert forall|i: int| 0 <= i < nodes_view(out@).len() implies match (
        #[trigger] nodes_view(out@)[i]).parent {
            Some(p) => p < i && nodes_view(out@)[i].depth == nodes_view(out@)[p as int].depth + 1,
            None => nodes_view(out@)[i].depth == 0,
        } by {
            if i < had.len() {
                assert(nodes_view(out@)[i] == had[i]);
            }
        }
    }
    let len: usize = out.len();
    proof {
        assert(decreases_to!(*t => t.children));
        assert(decreases_to!(t.children => t.children@));
    }
    push_forest(out, &t.children, Some(base), depth + 1);
    assert(nodes_view(out@) =~= had + tile_nodes(*t, parent, depth as int, had.len() as int));
}

fn push_forest(out: &mut Vec<TileNode>, list: &Vec<Tile>, parent: Option<usize>, depth: usize)
    requires
        tree_wf(nodes_view(old(out)@)),
        may_follow(nodes_view(old(out)@), parent, depth as int),
    ensures
        nodes_view(final(out)@) == nodes_view(old(out)@) + forest_nodes(
            list@,
            list@.len() as int,
            parent,
            depth as int,
            old(out)@.len() as int,
        ),
        tree_wf(nodes_view(final(out)@)),
    decreases list@, 1int,
{
    let ghost had = nodes_view(out@);
    let ghost base = had.len() as int;
    let mut k: usize = 0;
    assert(had + forest_nodes(list@, 0, parent, depth as int, base) =~= had);
    while k < list.len()
        invariant
            k <= list@.len(),
            base == had.len(),
            tree_wf(had),
            may_follow(had, parent, depth as int),
            nodes_view(out@) == had + forest_nodes(list@, k as int, parent, depth as int, base),
            tree_wf(nodes_view(out@)),
        decreases list@.len() - k,
    {
        let ghost before = forest_nodes(list@, k as int, parent, depth as int, base);
        proof {
            assert(decreases_to!(list@ => list@[k as int]));
            if let Some(p) = parent {
                assert(nodes_view(out@)[p as int] == had[p as int]);
            }
        }
        push_tile(out, &list[k], parent, depth);
        assert(nodes_view(out@) =~= had + (before + tile_nodes(
            list@[k as int],
            parent,
            depth as int,
            base + before.len(),
        )));
        k = k + 1;
    }
}

impl TileTree {
    /// The tree of a tileset, a tile before its children.
    pub fn build(ts: &Tileset) -> (r: Self)
        ensures
            r@ == tile_nodes(ts.root, None, 0, 0),
            tree_wf(r@),
    {
        let mut nodes: Vec<TileNode> = Vec::new();
        assert(nodes_view(nodes@) =~= Seq::empty());
        push_tile(&mut nodes, &ts.root, None, 0);
        let r = TileTree { nodes };
        assert(Seq::<Node>::empty() + tile_nodes(ts.root, None, 0, 0) =~= tile_nodes(
            ts.root,
            None,
            0,
            0,
        ));
        assert(r@ =~= nodes_view(r.nodes@));
        r
    }

    /// Puts another tileset under tile `at`, behind all the tiles that are
    /// there, and returns where its root stands.
    pub fn graft(&mut self, at: usize, external: &Tileset) -> (new_root: usize)
        requires
            tree_wf(old(self)@),
            at < old(self)@.len(),
        ensures
            new_root == old(self)@.len(),
            final(self)@ == old(self)@ + tile_nodes(
                external.root,
                Some(at),
                old(self)@[at as int].depth + 1,
                old(self)@.len() as int,
            ),
            tree_wf(final(self)@),
    {
        let ghost had = self@;
        let new_root: usize = self.nodes.len();
        let depth: usize = self.nodes[at].depth;
        proof {
            assert(nodes_view(self.nodes@) =~= had);
            lemma_depth(had, at as int);
        }
        push_tile(&mut self.nodes, &external.root, Some(at), depth + 1);
        assert(self@ =~= nodes_view(self.nodes@));
        new_root
    }

    /// The tiles right under tile `i`, in order.
    pub fn children_of(&self, i: usize) -> (r: Vec<usize>)
        ensures
            r@ == children_up_to(self@, i as int, self@.len() as int),
    {
        let ghost t = self@;
        let mut r: Vec<usize> = Vec::new();
        let mut c: usize = 0;
        while c < self.nodes.len()
            invariant
                c <= self.nodes@.len(),
                t == self@,
                r@ == children_up_to(t, i as int, c as int),
            decreases self.nodes@.len() - c,
        {
            assert(t[c as int] == self.nodes@[c as int]@);
            if let Some(p) = self.nodes[c].parent {
                if p == i {
                    r.push(c);
                }
            }
            c = c + 1;
        }
        r
    }
}

/// The tiles right under tile `i` among the first `k`, in order.
pub open spec fn children_up_to(t: Seq<Node>, i: int, k: int) -> Seq<usize>
    decreases k,
{
    if k <= 0 {
        Seq::empty()
    } else if child_of(t, k - 1, i) {
        children_up_to(t, i, k - 1).push((k - 1) as usize)
    } else {
        children_up_to(t, i, k - 1)
    }
}

/// How many of the first `i` flags are set.
pub open spec fn rank(keep: Seq<bool>, i: int) -> nat
    decreases i,
{
    if i <= 0 {
        0
    } else {
        rank(keep, i - 1) + if keep[i - 1] {
            1nat
        } else {
            0
        }
    }
}

/// The entries whose flag is set, in order.
pub open spec fn kept<T>(v: Seq<T>, keep: Seq<bool>) -> Seq<T>
    decreases v.len(),
{
    if v.len() == 0 {
        Seq::empty()
    } else if keep[v.len() - 1] {
        kept(v.drop_last(), keep).push(v.last())
    } else {
        kept(v.drop_last(), keep)
    }
}

/// Ranks grow with the position.
pub proof fn lemma_rank_grows(keep: Seq<bool>, i: int, j: int)
    requires
        0 <= i <= j,
    ensures
        rank(keep, i) <= rank(keep, j) <= rank(keep, i) + (j - i),
        i < j && keep[i] ==> rank(keep, i) < rank(keep, j),
    decreases j - i,
{
    if i < j {
        lemma_rank_grows(keep, i, j - 1);
    }
}

/// Entry `i` stands where its rank says.
pub open spec fn stands<T>(v: Seq<T>, keep: Seq<bool>, i: int) -> bool {
    rank(keep, i) < kept(v, keep).len() && kept(v, keep)[rank(keep, i) as int] == v[i]
}

/// A kept entry stands where its rank says.
pub proof fn lemma_kept<T>(v: Seq<T>, keep: Seq<bool>)
    ensures
        kept(v, keep).len() == rank(keep, v.len() as int),
        forall|i: int|
            0 <= i < v.len() && #[trigger] keep[i] ==> stands(v, keep, i),
    decreases v.len(),
{
    if v.len() > 0 {
        let n = v.len() - 1;
        let w = v.drop_last();
        lemma_kept(w, keep);
        assert forall|i: int|
            0 <= i < v.len() && #[trigger] keep[i] implies stands(v, keep, i) by {
            if i < n {
                assert(w[i] == v[i]);
                lemma_rank_grows(keep, i, n);
            }
        }
    }
}

/// Every entry that remains was at some kept place.
pub proof fn lemma_kept_from<T>(v: Seq<T>, keep: Seq<bool>, j: int) -> (i: int)
    requires
        0 <= j < kept(v, keep).len(),
    ensures
        0 <= i < v.len(),
        keep[i],
        rank(keep, i) == j,
        kept(v, keep)[j] == v[i],
    decreases v.len(),
{
    lemma_kept(v, keep);
    let n = v.len() - 1;
    let w = v.drop_last();
    lemma_kept(w, keep);
    if keep[n] && j == kept(w, keep).len() {
        n
    } else {
        let i = lemma_kept_from(w, keep, j);
        assert(w[i] == v[i]);
        i
    }
}

/// With a kept tile its parent is kept.
pub open spec fn closed_up(t: Seq<Node>, keep: Seq<bool>) -> bool {
    forall|i: int|
        #![trigger t[i]]
        0 <= i < t.len() && keep[i] ==> match t[i].parent {
            Some(p) => keep[p as int],
            None => true,
        }
}

/// A tile whose parent is named by its new place.
pub open spec fn moved(n: Node, keep: Seq<bool>) -> Node {
    Node {
        parent: match n.parent {
            Some(p) => Some(rank(keep, p as int) as usize),
            None => None,
        },
        depth: n.depth,
        uri: n.uri,
    }
}

/// The tree of the kept tiles.
pub open spec fn retained(t: Seq<Node>, keep: Seq<bool>) -> Seq<Node> {
    kept(Seq::new(t.len(), |i: int| moved(t[i], keep)), keep)
}

pub proof fn lemma_retained_wf(t: Seq<Node>, keep: Seq<bool>)
    requires
        tree_wf(t),
        keep.len() == t.len(),
        t.len() <= usize::MAX,
        closed_up(t, keep),
    ensures
        tree_wf(retained(t, keep)),
{
    let m = Seq::new(t.len(), |i: int| moved(t[i], keep));
    let r = retained(t, keep);
    assert forall|j: int| 0 <= j < r.len() implies match (#[trigger] r[j]).parent {
        Some(p) => p < j && r[j].depth == r[p as int].depth + 1,
        None => r[j].depth == 0,
    } by {
        let i = lemma_kept_from(m, keep, j);
        assert(r[j] == moved(t[i], keep));
        if let Some(p) = t[i].parent {
            lemma_rank_grows(keep, p as int, i);
            lemma_rank_grows(keep, 0, p as int);
            lemma_kept(m, keep);
            assert(m[p as int] == moved(t[p as int], keep));
        }
    }
}

/// The entries whose flag is set, in order.
pub fn gather<T: Copy>(v: &Vec<T>, keep: &Vec<bool>) -> (r: Vec<T>)
    requires
        v@.len() == keep@.len(),
    ensures
        r@ == kept(v@, keep@),
{
    let mut r: Vec<T> = Vec::new();
    let mut i: usize = 0;
    assert(v@.take(0) =~= Seq::empty());
    while i < v.len()
        invariant
            i <= v@.len(),
            v@.len() == keep@.len(),
            r@ == kept(v@.take(i as int), keep@),
        decreases v@.len() - i,
    {
        assert(v@.take(i + 1).drop_last() =~= v@.take(i as int));
        if keep[i] {
            r.push(v[i]);
        }
        i = i + 1;
    }
    assert(v@.take(v@.len() as int) =~= v@);
    r
}

impl TileTree {
    /// Drops the tiles that are not kept and names the parents of the others by
    /// their new places. Returns the new place of each kept tile.
    pub fn retain(&mut self, keep: &Vec<bool>) -> (map: Vec<usize>)
        requires
            tree_wf(old(self)@),
            keep@.len() == old(self)@.len(),
            closed_up(old(self)@, keep@),
        ensures
            final(self)@ == retained(old(self)@, keep@),
            tree_wf(final(self)@),
            map@.len() == keep@.len(),
            forall|i: int| 0 <= i < keep@.len() ==> #[trigger] map@[i] == rank(keep@, i),
    {
        let ghost t = self@;
        let ghost m = Seq::new(t.len(), |i: int| moved(t[i], keep@));
        let n: usize = self.nodes.len();
        let mut map: Vec<usize> = Vec::new();
        let mut next: usize = 0;
        let mut i: usize = 0;
        while i < n
            invariant
                i <= n,
                n == keep@.len(),
                map@.len() == i,
                next == rank(keep@, i as int),
                next <= i,
                forall|k: int| 0 <= k < i ==> #[trigger] map@[k] == rank(keep@, k),
            decreases n - i,
        {
            map.push(next);
            if keep[i] {
                next = next + 1;
            }
            i = i + 1;
        }
        let mut out: Vec<TileNode> = Vec::new();
        let mut k: usize = 0;
        assert(m.take(0) =~= Seq::empty());
        assert(nodes_view(out@) =~= kept(m.take(0), keep@));
        while k < n
            invariant
                k <= n,
                n == keep@.len(),
                n == self.nodes@.len(),
                t == self@,
                tree_wf(t),
                m == Seq::new(t.len(), |i: int| moved(t[i], keep@)),
                map@.len() == n,
                forall|k: int| 0 <= k < n ==> #[trigger] map@[k] == rank(keep@, k),
                nodes_view(out@) == kept(m.take(k as int), keep@),
            decreases n - k,
        {
            assert(m.take(k + 1).drop_last() =~= m.take(k as int));
            assert(t[k as int] == self.nodes@[k as int]@);
            if keep[k] {
                let old_node = &self.nodes[k];
                let parent = match old_node.parent {
                    Some(p) => Some(map[p]),
                    None => None,
                };
                let content_uri = match &old_node.content_uri {
                    Some(u) => Some(String::from_str(u.as_str())),
                    None => None,
                };
                let node = TileNode { parent, depth: old_node.depth, content_uri };
                let ghost had = nodes_view(out@);
                assert(node@ == m[k as int]);
                out.push(node);
                assert(nodes_view(out@) =~= had.push(node@));
            }
            k = k + 1;
        }
        proof {
            assert(m.take(n as int) =~= m);
            lemma_retained_wf(t, keep@);
        }
        self.nodes = out;
        assert(self@ =~= nodes_view(self.nodes@));
        map
    }
}

} // verus!
