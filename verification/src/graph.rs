//! Ways through the node graph of a document.
use crate::json::Tree;
use vstd::prelude::*;

verus! {

/// One of the items is the index `ix`.
pub open spec fn names(list: Seq<Tree>, ix: u64) -> bool {
    exists|i: int| 0 <= i < list.len() && (#[trigger] list[i]).as_u64() == Some(ix)
}

/// Node `ix` of a document.
pub open spec fn node_at(t: Tree, ix: u64) -> Tree {
    t.at("nodes"@).item(ix as int)
}

/// Each node of the way after the first is a child of the one before it.
pub open spec fn is_linked(t: Tree, way: Seq<u64>) -> bool {
    forall|i: int|
        0 < i < way.len() ==> names(
            node_at(t, way[i - 1]).at("children"@).items(),
            #[trigger] way[i],
        )
}

/// A way that starts at node `ix`.
pub open spec fn starts_at(t: Tree, ix: u64, way: Seq<u64>) -> bool {
    way.len() > 0 && way[0] == ix && is_linked(t, way)
}

/// A way that starts at a node that `list` names.
pub open spec fn starts_in(t: Tree, list: Seq<Tree>, way: Seq<u64>) -> bool {
    way.len() > 0 && names(list, way[0]) && is_linked(t, way)
}

/// The primitives of the mesh of a node.
pub open spec fn prims_at(t: Tree, ix: u64) -> Seq<Tree> {
    match node_at(t, ix).at("mesh"@).as_u64() {
        Some(m) => t.at("meshes"@).item(m as int).at("primitives"@).items(),
        None => Seq::empty(),
    }
}

/// A node before a way that starts at one of its children.
pub proof fn lemma_way_longer(t: Tree, ix: u64, rest: Seq<u64>)
    requires
        starts_in(t, node_at(t, ix).at("children"@).items(), rest),
    ensures
        starts_at(t, ix, seq![ix] + rest),
{
    let way = seq![ix] + rest;
    assert forall|i: int| 0 < i < way.len() implies names(
        node_at(t, way[i - 1]).at("children"@).items(),
        #[trigger] way[i],
    ) by {
        assert(way[i] == rest[i - 1]);
        if i > 1 {
            assert(way[i - 1] == rest[i - 2]);
        }
    }
}

/// What is left of a way without its first node.
pub proof fn lemma_way_shorter(t: Tree, ix: u64, way: Seq<u64>)
    requires
        starts_at(t, ix, way),
        way.len() > 1,
    ensures
        starts_in(t, node_at(t, ix).at("children"@).items(), way.drop_first()),
        starts_at(t, way[1], way.drop_first()),
        way == seq![ix] + way.drop_first(),
{
    let rest = way.drop_first();
    assert(way =~= seq![ix] + rest);
    assert(names(node_at(t, way[0]).at("children"@).items(), way[1]));
    assert forall|i: int| 0 < i < rest.len() implies names(
        node_at(t, rest[i - 1]).at("children"@).items(),
        #[trigger] rest[i],
    ) by {
        assert(rest[i] == way[i + 1]);
        assert(rest[i - 1] == way[i]);
    }
}

} // verus!
