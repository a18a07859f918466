//! What is drawn of a document.
use crate::scene::{
    cost_of, items_of, list_items, mesh_items, node_items, own_items, roots_drawn, sum_of,
    texture_of, DrawKind, Drawn, ImageSource, IndexSize, ItemSize, Shape,
};
use vstd::prelude::*;

verus! {

/// A way through the node graph: each node is there, and each after the first is
/// a child of the one before it.
pub open spec fn is_way(s: Shape, way: Seq<usize>) -> bool {
    &&& way.len() > 0
    &&& forall|i: int| 0 <= i < way.len() ==> #[trigger] way[i] < s.nodes.len()
    &&& forall|i: int|
        0 < i < way.len() ==> s.nodes[way[i - 1] as int].children.contains(#[trigger] way[i])
}

/// Primitive `k` of mesh `m` is drawn, and how: triangles always, points where
/// they are wanted, and nothing else.
pub open spec fn is_drawn(s: Shape, m: int, k: int, kind: DrawKind, points: bool) -> bool {
    &&& 0 <= m < s.modes.len()
    &&& 0 <= k < s.modes[m].len()
    &&& match kind {
        DrawKind::Triangles => s.modes[m][k] == 4,
        DrawKind::Points => s.modes[m][k] == 0 && points,
    }
}

/// `d` is a primitive of the node at the end of the way, which it lists behind
/// `chain`.
pub open spec fn ends_at(s: Shape, chain: Seq<usize>, d: Drawn, way: Seq<usize>, points: bool) -> bool {
    &&& d.transform == chain + way
    &&& s.nodes[way.last() as int].mesh matches Some(m) && d.mesh == m
    &&& is_drawn(s, d.mesh, d.primitive, d.kind, points)
}

/// `d` is drawn under a node that `list` names.
pub open spec fn drawn_under(s: Shape, list: Seq<usize>, chain: Seq<usize>, d: Drawn, points: bool) -> bool {
    exists|way: Seq<usize>|
        is_way(s, way) && list.contains(way[0]) && #[trigger] ends_at(s, chain, d, way, points)
}

/// One item lists the way behind `chain`, and is primitive `k` of mesh `m`.
pub open spec fn was_drawn(items: Seq<Drawn>, transform: Seq<usize>, m: int, k: int, kind: DrawKind) -> bool {
    items.contains(Drawn { transform, mesh: m, primitive: k, kind })
}

proof fn lemma_mesh(s: Shape, m: int, k: int, chain: Seq<usize>, points: bool)
    requires
        0 <= m < s.modes.len(),
        0 <= k <= s.modes[m].len(),
    ensures
        ({
            let items = mesh_items(s.modes[m], k, m, chain, points);
            &&& forall|j: int|
                0 <= j < items.len() ==> {
                    let d = #[trigger] items[j];
                    d.transform == chain && d.mesh == m && d.primitive < k && is_drawn(
                        s,
                        m,
                        d.primitive,
                        d.kind,
                        points,
                    )
                }
            &&& forall|i: int, j: int|
                0 <= i < j < items.len() ==> (#[trigger] items[i]).primitive < (
                #[trigger] items[j]).primitive
            &&& forall|p: int, kind: DrawKind|
                p < k && #[trigger] is_drawn(s, m, p, kind, points) ==> was_drawn(
                    items,
                    chain,
                    m,
                    p,
                    kind,
                )
        }),
    decreases k,
{
    if k > 0 {
        lemma_mesh(s, m, k - 1, chain, points);
        let had = mesh_items(s.modes[m], k - 1, m, chain, points);
        let items = mesh_items(s.modes[m], k, m, chain, points);
        assert forall|p: int, kind: DrawKind|
            p < k && #[trigger] is_drawn(s, m, p, kind, points) implies was_drawn(
            items,
            chain,
            m,
            p,
            kind,
        ) by {
            let d = Drawn { transform: chain, mesh: m, primitive: p, kind };
            if p < k - 1 {
                let j = had.index_of(d);
                assert(items[j] == d);
            } else {
                assert(items[had.len() as int] == d);
            }
        }
    }
}

proof fn lemma_own(s: Shape, ix: usize, chain: Seq<usize>, points: bool)
    requires
        ix < s.nodes.len(),
    ensures
        ({
            let own = own_items(s, s.nodes[ix as int], chain.push(ix), points);
            &&& forall|j: int|
                0 <= j < own.len() ==> ends_at(s, chain, #[trigger] own[j], seq![ix], points)
            &&& forall|k: int, kind: DrawKind|
                s.nodes[ix as int].mesh is Some && #[trigger] is_drawn(
                    s,
                    s.nodes[ix as int].mesh->Some_0 as int,
                    k,
                    kind,
                    points,
                ) ==> was_drawn(
                    own,
                    chain.push(ix),
                    s.nodes[ix as int].mesh->Some_0 as int,
                    k,
                    kind,
                )
        }),
{
    assert(chain + seq![ix] =~= chain.push(ix));
    if let Some(m) = s.nodes[ix as int].mesh {
        if m < s.modes.len() {
            lemma_mesh(s, m as int, s.modes[m as int].len() as int, chain.push(ix), points);
        }
    }
}

proof fn lemma_node_sound(s: Shape, ix: usize, chain: Seq<usize>, fuel: nat, points: bool, j: int)
    requires
        node_items(s, ix, chain, fuel, points) is Some,
        0 <= j < node_items(s, ix, chain, fuel, points)->Some_0.len(),
    ensures
        drawn_under(s, seq![ix], chain, node_items(s, ix, chain, fuel, points)->Some_0[j], points),
    decreases fuel, 0int, 0int,
{
    let d = node_items(s, ix, chain, fuel, points)->Some_0[j];
    let node = s.nodes[ix as int];
    let down = chain.push(ix);
    let own = own_items(s, node, down, points);
    lemma_own(s, ix, chain, points);
    assert(seq![ix].contains(ix)) by {
        assert(seq![ix][0] == ix);
    }
    if j < own.len() {
        assert(d == own[j]);
        assert(is_way(s, seq![ix]));
        assert(ends_at(s, chain, d, seq![ix], points));
    } else {
        let n = node.children.len() as int;
        lemma_list_sound(s, node.children, n, down, (fuel - 1) as nat, points, j - own.len());
        let rest = choose|way: Seq<usize>|
            is_way(s, way) && node.children.contains(way[0]) && #[trigger] ends_at(
                s,
                down,
                d,
                way,
                points,
            );
        let way = seq![ix] + rest;
        assert(down + rest =~= chain + way);
        assert(way.last() == rest.last());
        assert forall|i: int| 0 < i < way.len() implies s.nodes[way[i - 1] as int].children.contains(
            #[trigger] way[i],
        ) by {
            assert(way[i] == rest[i - 1]);
            if i > 1 {
                assert(way[i - 1] == rest[i - 2]);
            }
        }
        assert(is_way(s, way));
        assert(ends_at(s, chain, d, way, points));
    }
}

proof fn lemma_list_sound(s: Shape, list: Seq<usize>, n: int, chain: Seq<usize>, fuel: nat, points: bool, j: int)
    requires
        0 <= n <= list.len(),
        list_items(s, list, n, chain, fuel, points) is Some,
        0 <= j < list_items(s, list, n, chain, fuel, points)->Some_0.len(),
    ensures
        drawn_under(s, list, chain, list_items(s, list, n, chain, fuel, points)->Some_0[j], points),
    decreases fuel, 1int, n,
{
    let items = list_items(s, list, n, chain, fuel, points)->Some_0;
    let before = list_items(s, list, n - 1, chain, fuel, points)->Some_0;
    let d = items[j];
    if j < before.len() {
        lemma_list_sound(s, list, n - 1, chain, fuel, points, j);
        assert(before[j] == d);
    } else {
        let ix = list[n - 1];
        lemma_node_sound(s, ix, chain, fuel, points, j - before.len());
        let way = choose|way: Seq<usize>|
            is_way(s, way) && seq![ix].contains(way[0]) && #[trigger] ends_at(
                s,
                chain,
                d,
                way,
                points,
            );
        assert(way[0] == ix);
        assert(ends_at(s, chain, d, way, points));
    }
}

proof fn lemma_node_complete(
    s: Shape,
    ix: usize,
    chain: Seq<usize>,
    fuel: nat,
    points: bool,
    way: Seq<usize>,
    m: usize,
    k: int,
    kind: DrawKind,
)
    requires
        node_items(s, ix, chain, fuel, points) is Some,
        is_way(s, way),
        way[0] == ix,
        s.nodes[way.last() as int].mesh == Some(m),
        is_drawn(s, m as int, k, kind, points),
    ensures
        was_drawn(
            node_items(s, ix, chain, fuel, points)->Some_0,
            chain + way,
            m as int,
            k,
            kind,
        ),
    decreases fuel, 0int, 0int,
{
    let items = node_items(s, ix, chain, fuel, points)->Some_0;
    let node = s.nodes[ix as int];
    let down = chain.push(ix);
    let own = own_items(s, node, down, points);
    let d = Drawn { transform: chain + way, mesh: m as int, primitive: k, kind };
    lemma_own(s, ix, chain, points);
    if way.len() == 1 {
        assert(chain + way =~= down);
        let j = own.index_of(d);
        assert(items[j] == d);
    } else {
        let rest = way.drop_first();
        assert(rest.last() == way.last());
        assert(node.children.contains(way[1]));
        assert forall|i: int| 0 <= i < rest.len() implies #[trigger] rest[i] < s.nodes.len() by {
            assert(rest[i] == way[i + 1]);
        }
        assert forall|i: int| 0 < i < rest.len() implies s.nodes[rest[i - 1] as int].children.contains(
            #[trigger] rest[i],
        ) by {
            assert(rest[i] == way[i + 1]);
            assert(rest[i - 1] == way[i]);
        }
        let n = node.children.len() as int;
        assert(node.children.take(n) =~= node.children);
        lemma_list_complete(
            s,
            node.children,
            n,
            down,
            (fuel - 1) as nat,
            points,
            rest,
            m,
            k,
            kind,
        );
        assert(down + rest =~= chain + way);
        let below = list_items(s, node.children, n, down, (fuel - 1) as nat, points)->Some_0;
        let j = below.index_of(d);
        assert(items[own.len() + j] == d);
    }
}

proof fn lemma_list_complete(
    s: Shape,
    list: Seq<usize>,
    n: int,
    chain: Seq<usize>,
    fuel: nat,
    points: bool,
    way: Seq<usize>,
    m: usize,
    k: int,
    kind: DrawKind,
)
    requires
        0 <= n <= list.len(),
        list_items(s, list, n, chain, fuel, points) is Some,
        is_way(s, way),
        list.take(n).contains(way[0]),
        s.nodes[way.last() as int].mesh == Some(m),
        is_drawn(s, m as int, k, kind, points),
    ensures
        was_drawn(
            list_items(s, list, n, chain, fuel, points)->Some_0,
            chain + way,
            m as int,
            k,
            kind,
        ),
    decreases fuel, 1int, n,
{
    let items = list_items(s, list, n, chain, fuel, points)->Some_0;
    let before = list_items(s, list, n - 1, chain, fuel, points)->Some_0;
    let d = Drawn { transform: chain + way, mesh: m as int, primitive: k, kind };
    let i = list.take(n).index_of(way[0]);
    if i < n - 1 {
        assert(list.take(n - 1)[i] == way[0]);
        lemma_list_complete(s, list, n - 1, chain, fuel, points, way, m, k, kind);
        let j = before.index_of(d);
        assert(items[j] == d);
    } else {
        lemma_node_complete(s, way[0], chain, fuel, points, way, m, k, kind);
        let more = node_items(s, way[0], chain, fuel, points)->Some_0;
        let j = more.index_of(d);
        assert(items[before.len() + j] == d);
    }
}

/// The scene that is drawn: the default one, else the first.
pub open spec fn roots_of(s: Shape) -> Seq<usize> {
    let i = match s.default_scene {
        Some(i) => i as int,
        None => 0,
    };
    if i < s.scenes.len() {
        s.scenes[i]
    } else {
        Seq::empty()
    }
}

/// What is drawn lists a way through the node graph: it starts at a root of the
/// scene, each next node is a child of the one before it, and it ends at the node
/// whose mesh holds the primitive.
pub proof fn items_list_their_way(s: Shape, points: bool, j: int)
    requires
        items_of(s, points) is Some,
        0 <= j < items_of(s, points)->Some_0.len(),
    ensures
        ({
            let d = items_of(s, points)->Some_0[j];
            &&& is_way(s, d.transform)
            &&& roots_of(s).contains(d.transform[0])
            &&& s.nodes[d.transform.last() as int].mesh matches Some(m) && d.mesh == m
            &&& is_drawn(s, d.mesh, d.primitive, d.kind, points)
        }),
{
    let roots = roots_of(s);
    let d = items_of(s, points)->Some_0[j];
    let none = Seq::<usize>::empty();
    lemma_list_sound(s, roots, roots.len() as int, none, s.nodes.len(), points, j);
    let way = choose|way: Seq<usize>|
        is_way(s, way) && roots.contains(way[0]) && #[trigger] ends_at(s, none, d, way, points);
    assert(none + way =~= way);
}

/// Every primitive of triangles, and of points where they are wanted, at the end
/// of a way from a root of the scene is drawn.
pub proof fn all_items_are_drawn(s: Shape, points: bool, way: Seq<usize>, m: usize, k: int, kind: DrawKind)
    requires
        items_of(s, points) is Some,
        is_way(s, way),
        roots_of(s).contains(way[0]),
        s.nodes[way.last() as int].mesh == Some(m),
        is_drawn(s, m as int, k, kind, points),
    ensures
        items_of(s, points)->Some_0.contains(
            Drawn { transform: way, mesh: m as int, primitive: k, kind },
        ),
{
    let roots = roots_of(s);
    let none = Seq::<usize>::empty();
    let n = roots.len() as int;
    assert(roots.take(n) =~= roots);
    lemma_list_complete(s, roots, n, none, s.nodes.len(), points, way, m, k, kind);
    assert(none + way =~= way);
}

/// Some way on from a node that `list` names has more than `fuel` nodes.
pub open spec fn goes_deeper(s: Shape, list: Seq<usize>, fuel: nat) -> bool {
    exists|way: Seq<usize>| #[trigger] is_way(s, way) && list.contains(way[0]) && way.len() > fuel
}

proof fn lemma_node_deep(s: Shape, ix: usize, chain: Seq<usize>, fuel: nat, points: bool)
    requires
        node_items(s, ix, chain, fuel, points) is None,
    ensures
        goes_deeper(s, seq![ix], fuel),
    decreases fuel, 0int, 0int,
{
    assert(seq![ix].contains(ix)) by {
        assert(seq![ix][0] == ix);
    }
    if fuel == 0 {
        assert(is_way(s, seq![ix]));
    } else {
        let children = s.nodes[ix as int].children;
        let left = (fuel - 1) as nat;
        lemma_list_deep(s, children, children.len() as int, chain.push(ix), left, points);
        let rest = choose|way: Seq<usize>| #[trigger]
            is_way(s, way) && children.contains(way[0]) && way.len() > left;
        let way = seq![ix] + rest;
        assert forall|i: int| 0 < i < way.len() implies s.nodes[way[i - 1] as int].children.contains(
            #[trigger] way[i],
        ) by {
            assert(way[i] == rest[i - 1]);
            if i > 1 {
                assert(way[i - 1] == rest[i - 2]);
            }
        }
        assert(is_way(s, way));
    }
}

proof fn lemma_list_deep(s: Shape, list: Seq<usize>, n: int, chain: Seq<usize>, fuel: nat, points: bool)
    requires
        0 <= n <= list.len(),
        list_items(s, list, n, chain, fuel, points) is None,
    ensures
        goes_deeper(s, list, fuel),
    decreases fuel, 1int, n,
{
    if n > 0 {
        if list_items(s, list, n - 1, chain, fuel, points) is None {
            lemma_list_deep(s, list, n - 1, chain, fuel, points);
        } else {
            let ix = list[n - 1];
            lemma_node_deep(s, ix, chain, fuel, points);
            let way = choose|way: Seq<usize>| #[trigger]
                is_way(s, way) && seq![ix].contains(way[0]) && way.len() > fuel;
            assert(way[0] == ix);
            assert(list.contains(way[0]));
        }
    }
}

/// A scene is drawn unless some way from its roots has more nodes than there are,
/// so that one comes twice.
pub proof fn only_cycles_are_refused(s: Shape, points: bool)
    ensures
        items_of(s, points) is None ==> goes_deeper(s, roots_drawn(s), s.nodes.len()),
{
    if items_of(s, points) is None {
        let roots = roots_drawn(s);
        lemma_list_deep(s, roots, roots.len() as int, Seq::empty(), s.nodes.len(), points);
    }
}

/// What an item takes: the bytes of all its attributes, two for a short index and
/// four for a long one, or the records at their size.
pub open spec fn takes(i: ItemSize, n: int) -> bool {
    match i {
        ItemSize::Mesh { attributes, indices } => n == sum_of(attributes@) + match indices {
            IndexSize::Absent => 0int,
            IndexSize::U16(c) => c + c,
            IndexSize::U32(c) => c + c + c + c,
        },
        ItemSize::Records { count, size } => n == count * size,
    }
}

/// Costs add up, item by item and attribute by attribute.
pub proof fn costs_add_up(items: Seq<ItemSize>, i: ItemSize, sizes: Seq<u64>, n: u64)
    ensures
        cost_of(Seq::<ItemSize>::empty()) == 0,
        takes(i, cost_of(items.push(i)) - cost_of(items)),
        sum_of(Seq::<u64>::empty()) == 0,
        sum_of(sizes.push(n)) == sum_of(sizes) + n,
{
    assert(items.push(i).drop_last() =~= items);
    assert(sizes.push(n).drop_last() =~= sizes);
}

/// The bytes of a texture are those of its view in the container's own chunk, and
/// they are handed out wherever they are there.
pub proof fn textures_are_cut_from_the_chunk(source: ImageSource, chunk: Seq<u8>, k: int)
    requires
        source is View,
        !source->external,
        source->offset + source->length <= chunk.len(),
        0 <= k < source->length,
    ensures
        ({
            let r = texture_of(source, Some(chunk));
            r is Ok && r->Ok_0.len() == source->length && r->Ok_0[k] == chunk[source->offset + k]
        }),
{
}

proof fn lemma_same_start(s: Shape, a: Seq<usize>, b: Seq<usize>, k: int, chain: Seq<usize>, fuel: nat, points: bool)
    requires
        0 <= k <= a.len(),
    ensures
        list_items(s, a + b, k, chain, fuel, points) == list_items(s, a, k, chain, fuel, points),
    decreases k,
{
    if k > 0 {
        lemma_same_start(s, a, b, k - 1, chain, fuel, points);
        assert((a + b)[k - 1] == a[k - 1]);
    }
}

proof fn lemma_walked_in_order(s: Shape, a: Seq<usize>, b: Seq<usize>, k: int, chain: Seq<usize>, fuel: nat, points: bool)
    requires
        0 <= k <= b.len(),
        list_items(s, a + b, a.len() + k, chain, fuel, points) is Some,
    ensures
        list_items(s, a, a.len() as int, chain, fuel, points) is Some,
        list_items(s, b, k, chain, fuel, points) is Some,
        list_items(s, a + b, a.len() + k, chain, fuel, points)->Some_0 == list_items(
            s,
            a,
            a.len() as int,
            chain,
            fuel,
            points,
        )->Some_0 + list_items(s, b, k, chain, fuel, points)->Some_0,
    decreases k,
{
    let x = list_items(s, a, a.len() as int, chain, fuel, points)->Some_0;
    if k == 0 {
        lemma_same_start(s, a, b, a.len() as int, chain, fuel, points);
        assert(x + Seq::<Drawn>::empty() =~= x);
    } else {
        lemma_walked_in_order(s, a, b, k - 1, chain, fuel, points);
        assert((a + b)[a.len() + k - 1] == b[k - 1]);
        let before = list_items(s, b, k - 1, chain, fuel, points)->Some_0;
        let more = node_items(s, b[k - 1], chain, fuel, points)->Some_0;
        assert((x + before) + more =~= x + (before + more));
    }
}

/// Nodes are drawn in the order of their list: what is under the first of them
/// comes before what is under the others.
pub proof fn nodes_are_drawn_in_order(s: Shape, a: Seq<usize>, b: Seq<usize>, chain: Seq<usize>, fuel: nat, points: bool)
    requires
        list_items(s, a + b, (a + b).len() as int, chain, fuel, points) is Some,
    ensures
        list_items(s, a, a.len() as int, chain, fuel, points) is Some,
        list_items(s, b, b.len() as int, chain, fuel, points) is Some,
        list_items(s, a + b, (a + b).len() as int, chain, fuel, points)->Some_0 == list_items(
            s,
            a,
            a.len() as int,
            chain,
            fuel,
            points,
        )->Some_0 + list_items(s, b, b.len() as int, chain, fuel, points)->Some_0,
{
    lemma_walked_in_order(s, a, b, b.len() as int, chain, fuel, points);
}

} // verus!
