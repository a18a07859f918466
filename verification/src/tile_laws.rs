//! What becomes of the tiles of a set: when they are built, grafted, dropped,
//! called off, and when their content arrives.
use crate::evict::{
    evicted, expired_up_to, is_expired, is_idle, spare_up_to, Aged, Residents,
};
use crate::schema::{Tile, Tileset};
use crate::sets::{flies, received, sets_wf, Fetched, Received, SetsModel};
use crate::sorting::stable_order;
use crate::stream::{cancelled, fallen_out, TileSlot};
use crate::tiles::{
    compacted, grafted, kept_tiles, keeps_all, lemma_keep, restored_up_to, seen_from,
    tiles_wf, Graft, TilesModel,
};
use crate::tree::{forest_nodes, lemma_kept, moved, rank, tile_nodes, Node};
use vstd::prelude::*;

verus! {

/// Where a list of idle tiles has tile `i`.
proof fn lemma_lists(r: Residents, k: int, frame: u64, grace: u64, i: int)
    requires
        0 <= k <= r.slots.len() <= usize::MAX,
    ensures
        ({
            let old = expired_up_to(r, k, frame, grace);
            let spare = spare_up_to(r, k, frame, grace);
            &&& forall|j: int|
                0 <= j < old.len() ==> (#[trigger] old[j]) < k && is_expired(
                    r,
                    old[j] as int,
                    frame,
                    grace,
                )
            &&& forall|j: int|
                0 <= j < spare.len() ==> (#[trigger] spare[j]).tile < k && spare[j].seen
                    == r.touched[spare[j].tile as int] && is_idle(r, spare[j].tile as int)
                    && !is_expired(r, spare[j].tile as int, frame, grace)
            &&& 0 <= i < k && is_expired(r, i, frame, grace) ==> old.contains(i as usize)
            &&& 0 <= i < k && is_idle(r, i) && !is_expired(r, i, frame, grace) ==> spare.contains(
                Aged { tile: i as usize, seen: r.touched[i] },
            )
        }),
    decreases k,
{
    if k > 0 {
        lemma_lists(r, k - 1, frame, grace, i);
        let had = expired_up_to(r, k - 1, frame, grace);
        let old = expired_up_to(r, k, frame, grace);
        let was = spare_up_to(r, k - 1, frame, grace);
        let spare = spare_up_to(r, k, frame, grace);
        if 0 <= i < k && is_expired(r, i, frame, grace) {
            if i < k - 1 {
                let j = had.index_of(i as usize);
                assert(old[j] == i as usize);
            } else {
                assert(old[had.len() as int] == i as usize);
            }
        }
        if 0 <= i < k && is_idle(r, i) && !is_expired(r, i, frame, grace) {
            let a = Aged { tile: i as usize, seen: r.touched[i] };
            if i < k - 1 {
                let j = was.index_of(a);
                assert(spare[j] == a);
            } else {
                assert(spare[was.len() as int] == a);
            }
        }
    }
}

/// What was not wanted for longest leaves first: a tile that is dropped was last
/// wanted no later than one that could have been dropped and was not. A tile that
/// was not wanted for longer than the grace period is dropped in any case.
pub proof fn the_oldest_leave_first(r: Residents, frame: u64, grace: u64, max: int, gone: int, stays: int)
    requires
        r.slots.len() <= usize::MAX,
        r.touched.len() == r.slots.len(),
        0 <= max,
        0 <= gone < r.slots.len(),
        0 <= stays < r.slots.len(),
        evicted(r, frame, grace, max).contains(gone as usize),
        !evicted(r, frame, grace, max).contains(stays as usize),
        r.slots[stays] is Ready,
        !r.want[stays],
        !r.hold[stays],
    ensures
        r.touched[gone] <= r.touched[stays],
        r.touched[stays] <= frame ==> frame - r.touched[stays] <= grace,
{
    let n = r.slots.len() as int;
    let old = expired_up_to(r, n, frame, grace);
    let spare = spare_up_to(r, n, frame, grace);
    let out = evicted(r, frame, grace, max);
    lemma_lists(r, n, frame, grace, stays);
    lemma_lists(r, n, frame, grace, gone);
    assert(crate::stream::is_ready(r.slots[stays]));
    assert(is_idle(r, stays));
    if is_expired(r, stays, frame, grace) {
        let j = old.index_of(stays as usize);
        assert(out[j] == stays as usize);
    }
    let at = out.index_of(gone as usize);
    if at < old.len() {
        assert(old[at] == out[at]);
        assert(is_expired(r, gone, frame, grace));
    } else {
        let order = stable_order(spare);
        crate::sorting::lemma_stable_order_exists(spare);
        order.to_multiset_ensures();
        spare.to_multiset_ensures();
        let m = at - old.len();
        assert(out[at] == order[m].tile);
        assert(order.contains(order[m]));
        assert(spare.to_multiset().count(order[m]) > 0);
        assert(spare.contains(order[m]));
        let p = spare.index_of(order[m]);
        assert(spare[p].tile == gone);
        let a = Aged { tile: stays as usize, seen: r.touched[stays] };
        assert(spare.contains(a));
        assert(spare.to_multiset().count(a) > 0);
        assert(order.to_multiset().count(a) > 0);
        assert(order.contains(a));
        let q = order.index_of(a);
        if q <= m {
            assert(out[old.len() + q] == order[q].tile);
        }
        assert(crate::sorting::rank_le(
            crate::sorting::Ranked::rank(order[m]),
            crate::sorting::Ranked::rank(order[q]),
        ));
    }
}

/// A request that fell out of the wanted ones is called off: its tile is free
/// again and its generation is given up. Every other tile stays as it is, and
/// nothing else is given up.
pub proof fn only_unwanted_requests_are_called_off(slots: Seq<TileSlot>, wanted: Seq<bool>, k: int)
    requires
        0 <= k <= slots.len(),
        wanted.len() == slots.len(),
    ensures
        cancelled(slots, wanted).len() == slots.len(),
        forall|i: int|
            0 <= i < slots.len() ==> #[trigger] cancelled(slots, wanted)[i] == if slots[i] is InFlight
                && !wanted[i] {
                TileSlot::NotLoaded
            } else {
                slots[i]
            },
        forall|i: int|
            0 <= i < k && !wanted[i] ==> ((#[trigger] slots[i]) matches TileSlot::InFlight {
                generation: g,
            } ==> fallen_out(slots, wanted, k).contains(g)),
        forall|j: int|
            0 <= j < fallen_out(slots, wanted, k).len() ==> exists|i: int|
                0 <= i < k && !wanted[i] && #[trigger] slots[i] == (TileSlot::InFlight {
                    generation: #[trigger] fallen_out(slots, wanted, k)[j],
                }),
    decreases k,
{
    if k > 0 {
        only_unwanted_requests_are_called_off(slots, wanted, k - 1);
        let had = fallen_out(slots, wanted, k - 1);
        let out = fallen_out(slots, wanted, k);
        assert forall|i: int| 0 <= i < k && !wanted[i] implies ((
        #[trigger] slots[i]) matches TileSlot::InFlight { generation: g } ==> out.contains(g)) by {
            if let TileSlot::InFlight { generation: g } = slots[i] {
                if i < k - 1 {
                    let j = had.index_of(g);
                    assert(out[j] == g);
                } else {
                    assert(out[had.len() as int] == g);
                }
            }
        }
        assert forall|j: int| 0 <= j < out.len() implies exists|i: int|
            0 <= i < k && !wanted[i] && #[trigger] slots[i] == (TileSlot::InFlight {
                generation: #[trigger] out[j],
            }) by {
            if j < had.len() {
                assert(out[j] == had[j]);
                let i = choose|i: int|
                    0 <= i < k - 1 && !wanted[i] && #[trigger] slots[i] == (TileSlot::InFlight {
                        generation: had[j],
                    });
                assert(slots[i] == (TileSlot::InFlight { generation: out[j] }));
            } else {
                assert(slots[k - 1] == (TileSlot::InFlight { generation: out[j] }));
            }
        }
    }
}

/// All tiles but tile `i` of set `s` are as they were.
pub open spec fn only_changes(m: SetsModel, n: SetsModel, s: int, i: int) -> bool {
    &&& n.sets.len() == m.sets.len()
    &&& forall|t: int| 0 <= t < m.sets.len() && t != s ==> #[trigger] n.sets[t] == m.sets[t]
    &&& n.sets[s].tiles.tree == m.sets[s].tiles.tree
    &&& n.sets[s].tiles.slots.len() == m.sets[s].tiles.slots.len()
    &&& forall|j: int|
        0 <= j < m.sets[s].tiles.slots.len() && j != i ==> #[trigger] n.sets[s].tiles.slots[j]
            == m.sets[s].tiles.slots[j]
    &&& forall|j: int|
        0 <= j < m.sets[s].tiles.caches.len() && j != i ==> #[trigger] n.sets[s].tiles.caches[j]
            == m.sets[s].tiles.caches[j]
}

/// Content that arrives goes to the tile that waits for it: it is in memory with
/// its bytes and what is kept of it, and stands for something new in the scene.
/// Where the set has no place yet, the tile is asked for again; what cannot be had
/// is not. No other tile changes.
pub proof fn content_goes_to_its_tile(m: SetsModel, s: int, i: int, g: u64, fetched: Fetched, has_origin: bool)
    requires
        sets_wf(m),
        m.next_entity < u64::MAX,
        flies(m.sets, s, i, g),
        !(fetched is Subtree),
    ensures
        ({
            let (n, r) = received(m, m.sets[s].id, g, fetched, has_origin);
            let t = n.sets[s].tiles;
            &&& only_changes(m, n, s, i)
            &&& match fetched {
                Fetched::Content { rtc_center, bytes, cache, .. } => if !m.sets[s].ecef || has_origin {
                    &&& r == (Received::Spawned { tile: i as usize, entity: m.next_entity })
                    &&& t.slots[i] == (TileSlot::Ready { entity: Some(m.next_entity), bytes })
                    &&& t.caches[i] == cache@
                    &&& t.rtc[i] == rtc_center
                    &&& n.next_entity == m.next_entity + 1
                } else {
                    &&& r == (Received::Requeued { tile: i as usize })
                    &&& t.slots[i] is NotLoaded
                    &&& t.rtc[i] == rtc_center
                    &&& n.next_entity == m.next_entity
                },
                _ => {
                    &&& r == (Received::Failed { tile: i as usize })
                    &&& t.slots[i] is Failed
                    &&& n.next_entity == m.next_entity
                },
            }
        }),
{
    crate::sets::replies_find_their_tile(m, s, i, g);
    assert(crate::sets::set_wf(m.sets[s]));
}

/// Content that no tile waits for changes nothing.
pub proof fn late_content_is_dropped(m: SetsModel, set_id: u64, g: u64, fetched: Fetched, has_origin: bool)
    requires
        forall|s: int, i: int| #[trigger] flies(m.sets, s, i, g) ==> m.sets[s].id != set_id,
    ensures
        received(m, set_id, g, fetched, has_origin) == (m, Received::Dropped),
{
    if let Some(s) = crate::sets::set_with_id(m.sets, set_id, 0) {
        lemma_id(m, set_id, 0);
        if let Some(i) = crate::sets::tile_of_generation(m.sets[s].tiles.slots, g, 0) {
            lemma_generation(m.sets[s].tiles.slots, g, 0);
            assert(flies(m.sets, s, i, g));
        }
    }
}

proof fn lemma_id(m: SetsModel, id: u64, k: int)
    requires
        0 <= k,
    ensures
        crate::sets::set_with_id(m.sets, id, k) matches Some(s) ==> k <= s < m.sets.len()
            && m.sets[s].id == id,
    decreases m.sets.len() - k,
{
    if k < m.sets.len() && m.sets[k].id != id {
        lemma_id(m, id, k + 1);
    }
}

proof fn lemma_generation(slots: Seq<TileSlot>, g: u64, k: int)
    requires
        0 <= k,
    ensures
        crate::sets::tile_of_generation(slots, g, k) matches Some(i) ==> k <= i < slots.len()
            && slots[i] == (TileSlot::InFlight { generation: g }),
    decreases slots.len() - k,
{
    if k < slots.len() && slots[k] != (TileSlot::InFlight { generation: g }) {
        lemma_generation(slots, g, k + 1);
    }
}

/// How many tiles a subtree has.
pub open spec fn size_of(t: Tile) -> nat
    decreases t, 0int,
{
    proof {
        assert(decreases_to!(t => t.children));
        assert(decreases_to!(t.children => t.children@));
    }
    1 + sizes_up_to(t.children@, t.children@.len() as int)
}

/// How many tiles the first `k` subtrees have.
pub open spec fn sizes_up_to(list: Seq<Tile>, k: int) -> nat
    decreases list, k,
{
    if k <= 0 || k > list.len() {
        0
    } else {
        proof {
            assert(decreases_to!(list => list[k - 1]));
        }
        sizes_up_to(list, k - 1) + size_of(list[k - 1])
    }
}

proof fn lemma_forest(list: Seq<Tile>, k: int, parent: Option<usize>, depth: int, base: int)
    requires
        0 <= k <= list.len(),
    ensures
        forest_nodes(list, k, parent, depth, base).len() == sizes_up_to(list, k),
        forall|c: int|
            0 <= c < k ==> {
                let from = #[trigger] sizes_up_to(list, c) as int;
                let till = from + size_of(list[c]);
                &&& till <= sizes_up_to(list, k)
                &&& forest_nodes(list, k, parent, depth, base).subrange(from, till) == tile_nodes(
                    list[c],
                    parent,
                    depth,
                    base + from,
                )
            },
    decreases list, k, 0int,
{
    if k > 0 {
        lemma_forest(list, k - 1, parent, depth, base);
        assert(decreases_to!(list => list[k - 1]));
        let before = forest_nodes(list, k - 1, parent, depth, base);
        let all = forest_nodes(list, k, parent, depth, base);
        lemma_size(list[k - 1], parent, depth, base + before.len());
        assert forall|c: int| 0 <= c < k implies {
            let from = #[trigger] sizes_up_to(list, c) as int;
            let till = from + size_of(list[c]);
            &&& till <= sizes_up_to(list, k)
            &&& all.subrange(from, till) == tile_nodes(list[c], parent, depth, base + from)
        } by {
            let from = sizes_up_to(list, c) as int;
            let till = from + size_of(list[c]);
            if c < k - 1 {
                assert(all.subrange(from, till) =~= before.subrange(from, till));
            } else {
                assert(all.subrange(from, till) =~= tile_nodes(
                    list[c],
                    parent,
                    depth,
                    base + from,
                ));
            }
        }
    }
}

proof fn lemma_size(t: Tile, parent: Option<usize>, depth: int, base: int)
    ensures
        tile_nodes(t, parent, depth, base).len() == size_of(t),
    decreases t, 0int, 1int,
{
    assert(decreases_to!(t => t.children));
    assert(decreases_to!(t.children => t.children@));
    lemma_forest(t.children@, t.children@.len() as int, Some(base as usize), depth + 1, base + 1);
}

/// A tile of a tileset becomes one tile of the tree, with its name; behind it come
/// the subtrees of its children, in order, each one deeper and right under it. So
/// no tile is lost, and none is under another than its own parent.
pub proof fn trees_mirror_their_tileset(t: Tile, parent: Option<usize>, depth: int, base: int, c: int)
    ensures
        ({
            let nodes = tile_nodes(t, parent, depth, base);
            let list = t.children@;
            &&& nodes.len() == 1 + sizes_up_to(list, list.len() as int)
            &&& nodes[0].parent == parent
            &&& nodes[0].depth == depth
            &&& nodes[0].uri == match t.content {
                Some(content) => Some(content.uri@),
                None => None,
            }
            &&& 0 <= c < list.len() ==> {
                let from = 1 + sizes_up_to(list, c) as int;
                let till = from + size_of(list[c]);
                let below = nodes.subrange(from, till);
                &&& till <= nodes.len()
                &&& below == tile_nodes(list[c], Some(base as usize), depth + 1, base + from)
                &&& below[0].parent == Some(base as usize)
                &&& below[0].depth == depth + 1
            }
        }),
{
    let list = t.children@;
    let n = list.len() as int;
    let nodes = tile_nodes(t, parent, depth, base);
    let below = forest_nodes(list, n, Some(base as usize), depth + 1, base + 1);
    lemma_forest(list, n, Some(base as usize), depth + 1, base + 1);
    if 0 <= c < n {
        let from = sizes_up_to(list, c) as int;
        let till = from + size_of(list[c]);
        assert(nodes.subrange(1 + from, 1 + till) =~= below.subrange(from, till));
        lemma_size(list[c], Some(base as usize), depth + 1, base + 1 + from);
    }
}

/// A tileset is grafted behind the tiles that are there, right under the tile that
/// named it, which names it no more; that tile and the new ones are not loaded.
/// Every other tile stays as it is. The graft is remembered with the name.
pub proof fn grafts_come_behind(m: TilesModel, at: int, external: Tileset, i: int)
    requires
        tiles_wf(m),
        0 <= at < m.tree.len(),
        0 <= i < m.tree.len(),
    ensures
        ({
            let g = grafted(m, at, external);
            let n = m.tree.len() as int;
            &&& g.tree.len() == n + size_of(external.root)
            &&& g.slots.len() == g.tree.len()
            &&& i != at ==> g.tree[i] == m.tree[i] && g.slots[i] == m.slots[i] && g.caches[i]
                == m.caches[i] && g.touched[i] == m.touched[i]
            &&& g.tree[at].uri is None
            &&& g.tree[at].parent == m.tree[at].parent
            &&& g.tree[at].depth == m.tree[at].depth
            &&& g.slots[at] is NotLoaded
            &&& g.tree[n].parent == Some(at as usize)
            &&& g.tree[n].depth == m.tree[at].depth + 1
            &&& forall|j: int| n <= j < g.tree.len() ==> (#[trigger] g.slots[j]) is NotLoaded
            &&& m.tree[at].uri matches Some(name) ==> g.grafts.len() == m.grafts.len() + 1
                && g.grafts.last() == (Graft { at, child_root: n, uri: name })
        }),
{
    lemma_size(
        external.root,
        Some(at as usize),
        m.tree[at].depth + 1,
        m.tree.len() as int,
    );
}

/// Somewhere in the name stands `://`.
pub open spec fn has_web_mark(u: Seq<char>) -> bool {
    exists|i: int| 0 <= i <= u.len() - 3 && #[trigger] u.subrange(i, i + 3) == seq![':', '/', '/']
}

proof fn lemma_web_mark(u: Seq<char>)
    ensures
        has_web_mark(u) == crate::uri::has_scheme(u),
{
    if has_web_mark(u) {
        let i = choose|i: int|
            0 <= i <= u.len() - 3 && #[trigger] u.subrange(i, i + 3) == seq![':', '/', '/'];
        let w = u.subrange(i, i + 3);
        assert(w[0] == u[i] && w[1] == u[i + 1] && w[2] == u[i + 2]);
    }
    if crate::uri::has_scheme(u) {
        let i = choose|i: int|
            0 <= i && i + 3 <= u.len() && #[trigger] u[i] == ':' && u[i + 1] == '/' && u[i + 2] == '/';
        assert(u.subrange(i, i + 3) =~= seq![':', '/', '/']);
    }
}

proof fn lemma_no_query(s: Seq<char>, i: int)
    requires
        0 <= i <= s.len(),
        forall|k: int| 0 <= k < s.len() ==> (#[trigger] s[k]) != '?' && s[k] != '#',
    ensures
        crate::uri::path_end(s, i) == s.len(),
    decreases s.len() - i,
{
    if i < s.len() {
        assert(s[i] != '?' && s[i] != '#');
        lemma_no_query(s, i + 1);
    }
}

/// A name in a grafted tileset is seen from where that tileset lies: a relative one
/// comes behind the directory of the tileset, any other stays as it is.
pub proof fn grafted_names_are_seen_from_their_tileset(
    m: TilesModel,
    at: int,
    external: Tileset,
    j: int,
    dir: Seq<char>,
    file: Seq<char>,
)
    requires
        tiles_wf(m),
        0 <= at < m.tree.len(),
        m.tree[at].uri == Some(dir + seq!['/'] + file),
        !file.contains('/'),
        !dir.contains('?'),
        !dir.contains('#'),
        !file.contains('?'),
        !file.contains('#'),
        0 <= j < size_of(external.root),
    ensures
        ({
            let own = tile_nodes(
                external.root,
                Some(at as usize),
                m.tree[at].depth + 1,
                m.tree.len() as int,
            )[j].uri;
            let now = grafted(m, at, external).tree[m.tree.len() + j].uri;
            match own {
                None => now is None,
                Some(u) => if (u.len() > 0 && u[0] == '/') || has_web_mark(u) {
                    now == Some(u)
                } else {
                    now == Some(dir + seq!['/'] + u)
                },
            }
        }),
{
    let n = m.tree.len() as int;
    let more = tile_nodes(external.root, Some(at as usize), m.tree[at].depth + 1, n);
    lemma_size(external.root, Some(at as usize), m.tree[at].depth + 1, n);
    let name = dir + seq!['/'] + file;
    assert(grafted(m, at, external).tree[n + j] == seen_from(more[j], Some(name)));
    lemma_last_slash(dir, file, name.len() as int);
    if let Some(u) = more[j].uri {
        lemma_web_mark(u);
    }
    assert forall|k: int| 0 <= k < name.len() implies (#[trigger] name[k]) != '?' && name[k] != '#' by {
        if k < dir.len() {
            assert(dir.contains(dir[k]));
        } else if k > dir.len() {
            assert(file.contains(file[k - dir.len() - 1]));
        }
    }
    lemma_no_query(name, 0);
    assert(name.take(dir.len() + 1int) =~= dir + seq!['/']);
}

proof fn lemma_last_slash(dir: Seq<char>, file: Seq<char>, k: int)
    requires
        !file.contains('/'),
        dir.len() < k <= dir.len() + 1 + file.len(),
    ensures
        crate::uri::last_slash(dir + seq!['/'] + file, k) == Some(dir.len() as int),
    decreases k,
{
    let name = dir + seq!['/'] + file;
    if k > dir.len() + 1 {
        assert(name[k - 1] == file[k - 2 - dir.len()]);
        assert(file.contains(file[k - 2 - dir.len()]));
        lemma_last_slash(dir, file, k - 1);
    }
}

/// Graft `k` goes: its tiles leave, and the tile that named it stays.
pub open spec fn goes(grafts: Seq<Graft>, keep: Seq<bool>, k: int) -> bool {
    0 <= k < grafts.len() && keep[grafts[k].at] && !keep[grafts[k].child_root]
}

proof fn lemma_restored_name(t: Seq<Node>, grafts: Seq<Graft>, keep: Seq<bool>, n: int, i: int)
    requires
        0 <= n <= grafts.len(),
        0 <= i < t.len(),
        forall|k: int| 0 <= k < grafts.len() ==> 0 <= (#[trigger] grafts[k]).at < t.len(),
    ensures
        ({
            let u = restored_up_to(t, grafts, keep, n);
            &&& u.len() == t.len()
            &&& u[i].parent == t[i].parent
            &&& u[i].depth == t[i].depth
            &&& u[i] == t[i] || exists|k: int|
                k < n && #[trigger] goes(grafts, keep, k) && grafts[k].at == i && u[i].uri == Some(
                    grafts[k].uri,
                )
            &&& (exists|k: int| k < n && #[trigger] goes(grafts, keep, k) && grafts[k].at == i) ==> exists|
                k: int,
            |
                k < n && #[trigger] goes(grafts, keep, k) && grafts[k].at == i && u[i].uri == Some(
                    grafts[k].uri,
                )
        }),
    decreases n,
{
    if n > 0 {
        lemma_restored_name(t, grafts, keep, n - 1, i);
        let b = restored_up_to(t, grafts, keep, n - 1);
        let u = restored_up_to(t, grafts, keep, n);
        let g = grafts[n - 1];
        if goes(grafts, keep, n - 1) && g.at == i {
            assert(u[i].uri == Some(g.uri));
        } else {
            assert(u[i] == b[i]);
        }
    }
}

/// Compaction carries every tile that stays along, with all that belongs to it:
/// what is in memory, when it was last wanted, and its parent. A tile whose graft
/// goes names that tileset again, so that it can be had once more.
pub proof fn compaction_carries_tiles_along(m: TilesModel, frame: u64, grace: u64, i: int)
    requires
        tiles_wf(m),
        0 <= i < m.tree.len(),
        kept_tiles(m, frame, grace)[i],
        !keeps_all(kept_tiles(m, frame, grace)),
        forall|k: int| 0 <= k < m.grafts.len() ==> 0 <= (#[trigger] m.grafts[k]).at < m.tree.len(),
    ensures
        ({
            let keep = kept_tiles(m, frame, grace);
            let c = compacted(m, frame, grace);
            let j = rank(keep, i) as int;
            &&& j < c.tree.len()
            &&& c.slots[j] == m.slots[i]
            &&& c.caches[j] == m.caches[i]
            &&& c.touched[j] == m.touched[i]
            &&& c.rtc[j] == m.rtc[i]
            &&& c.rendered[j] == m.rendered[i]
            &&& c.refined[j] == m.refined[i]
            &&& c.tree[j].depth == m.tree[i].depth
            &&& match m.tree[i].parent {
                Some(p) => c.tree[j].parent == Some(rank(keep, p as int) as usize),
                None => c.tree[j].parent is None,
            }
            &&& if exists|k: int| #[trigger] goes(m.grafts, keep, k) && m.grafts[k].at == i {
                exists|k: int| #[trigger]
                    goes(m.grafts, keep, k) && m.grafts[k].at == i && c.tree[j].uri == Some(
                        m.grafts[k].uri,
                    )
            } else {
                c.tree[j].uri == m.tree[i].uri
            }
        }),
{
    let keep = kept_tiles(m, frame, grace);
    let n = m.grafts.len() as int;
    lemma_keep(m, n, frame, grace);
    let r = restored_up_to(m.tree, m.grafts, keep, n);
    lemma_restored_name(m.tree, m.grafts, keep, n, i);
    let all = Seq::new(r.len(), |x: int| moved(r[x], keep));
    lemma_kept(all, keep);
    lemma_kept(m.slots, keep);
    lemma_kept(m.caches, keep);
    lemma_kept(m.touched, keep);
    lemma_kept(m.rtc, keep);
    lemma_kept(m.rendered, keep);
    lemma_kept(m.refined, keep);
    assert(keep[i]);
    assert(crate::tree::stands(all, keep, i));
    assert(crate::tree::stands(m.slots, keep, i));
    assert(crate::tree::stands(m.caches, keep, i));
    assert(crate::tree::stands(m.touched, keep, i));
    assert(crate::tree::stands(m.rtc, keep, i));
    assert(crate::tree::stands(m.rendered, keep, i));
    assert(crate::tree::stands(m.refined, keep, i));
}

/// A tileset that was opened for an anchor that still waits becomes a set on that
/// anchor, with nothing loaded, and the anchor waits no more. For an anchor that
/// was given up, or is gone, nothing is added.
pub proof fn opened_tilesets_go_to_their_anchor(
    m: SetsModel,
    label: Seq<char>,
    target: crate::sets::Target,
    alive: bool,
    tileset: Tileset,
    live: bool,
    georeferenced: bool,
)
    requires
        sets_wf(m),
        m.next_set_id < u64::MAX,
        m.next_entity < u64::MAX,
    ensures
        ({
            let (n, r) = crate::sets::opened(
                m,
                label,
                Some(target),
                alive,
                crate::sets::OpenResult::Tileset { tileset, live, georeferenced },
            );
            &&& !n.pending.contains(target.anchor)
            &&& n.failed == m.failed
            &&& if m.pending.contains(target.anchor) && alive {
                let s = n.sets.last();
                &&& r is Some
                &&& n.sets.len() == m.sets.len() + 1
                &&& forall|t: int| 0 <= t < m.sets.len() ==> #[trigger] n.sets[t] == m.sets[t]
                &&& s.anchor == Some(target.anchor)
                &&& s.owner == target.owner
                &&& s.threshold == target.threshold
                &&& s.label == label
                &&& s.id == m.next_set_id
                &&& s.root == m.next_entity
                &&& s.tiles.tree == tile_nodes(tileset.root, None, 0, 0)
                &&& s.tiles.slots.len() == s.tiles.tree.len()
                &&& forall|i: int|
                    0 <= i < s.tiles.slots.len() ==> (#[trigger] s.tiles.slots[i]) is NotLoaded
                &&& s.ecef == (live || georeferenced)
                &&& r->Some_0.parent == if live || georeferenced {
                    None
                } else {
                    Some(target.anchor)
                }
                &&& r->Some_0.set_id == s.id
                &&& r->Some_0.root_entity == s.root
            } else {
                r is None && n.sets == m.sets
            }
        }),
{
}

/// A tileset that could not be opened marks its anchor, so that it is not tried
/// again, and adds nothing.
pub proof fn failed_opens_mark_their_anchor(m: SetsModel, label: Seq<char>, target: crate::sets::Target, alive: bool)
    ensures
        ({
            let (n, r) = crate::sets::opened(
                m,
                label,
                Some(target),
                alive,
                crate::sets::OpenResult::Failed,
            );
            &&& r is None
            &&& n.sets == m.sets
            &&& n.failed.contains(target.anchor)
            &&& !n.pending.contains(target.anchor)
            &&& crate::sets::is_taken(n, target.anchor)
        }),
{
}

proof fn lemma_kept_above(t: Seq<Node>, keep: Seq<bool>, r: int, x: int)
    requires
        crate::tree::closed_up(t, keep),
        crate::tree::above(t, r, x),
        keep[x],
    ensures
        keep[r],
    decreases x,
{
    if let Some(p) = t[x].parent {
        assert(keep[p as int]);
        if p != r {
            lemma_kept_above(t, keep, r, p as int);
        }
    }
}

proof fn lemma_stays_gone(m: TilesModel, frame: u64, grace: u64, a: int, b: int, x: int)
    requires
        tiles_wf(m),
        0 <= a <= b <= m.grafts.len(),
        0 <= x < m.tree.len(),
        !crate::tiles::keep_up_to(m, a, frame, grace)[x],
    ensures
        !crate::tiles::keep_up_to(m, b, frame, grace)[x],
    decreases b - a,
{
    if a < b {
        lemma_stays_gone(m, frame, grace, a, b - 1, x);
        crate::tiles::lemma_keep(m, b - 1, frame, grace);
    }
}

/// A graft that has not been wanted for longer than the grace period, and of which
/// nothing is in memory or on its way, is taken away, root and all.
pub proof fn idle_grafts_leave(m: TilesModel, frame: u64, grace: u64, g: int, x: int)
    requires
        tiles_wf(m),
        0 <= g < m.grafts.len(),
        frame > m.touched[m.grafts[g].child_root],
        frame - m.touched[m.grafts[g].child_root] > grace,
        0 <= x < m.tree.len(),
        crate::tree::within(m.tree, m.grafts[g].child_root, x),
        forall|y: int|
            0 <= y < m.tree.len() && crate::tree::within(m.tree, m.grafts[g].child_root, y) ==> !((
            #[trigger] m.slots[y]) is Ready) && !(m.slots[y] is InFlight),
    ensures
        !kept_tiles(m, frame, grace)[x],
{
    let r = m.grafts[g].child_root;
    let keep = crate::tiles::keep_up_to(m, g, frame, grace);
    crate::tiles::lemma_keep(m, g, frame, grace);
    if !keep[r] {
        if x != r && keep[x] {
            assert(crate::tree::above(m.tree, r, x));
            lemma_kept_above(m.tree, keep, r, x);
        }
        lemma_stays_gone(m, frame, grace, g, m.grafts.len() as int, x);
    } else {
        assert(crate::tiles::is_prunable(m, keep, r, frame, grace));
        assert(!crate::tiles::keep_up_to(m, g + 1, frame, grace)[x]);
        lemma_stays_gone(m, frame, grace, g + 1, m.grafts.len() as int, x);
    }
}

} // verus!
