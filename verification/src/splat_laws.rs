//! What decoding splats gives back of a document.
use crate::gltf::{accessor_of, Message};
use crate::gltf_laws::{
    accessors_read_what_is_stored, bytes_of, described_accessors_are_read, fits, is_kind,
    is_number_type, is_stored, lemma_stored, says, Reading,
};
use crate::graph::{
    lemma_way_longer, lemma_way_shorter, names, node_at, prims_at, starts_at, starts_in,
};
use crate::json::Tree;
use crate::splat::{
    child_splats, document_splats, mesh_splats, node_splats, own_splats, splats_of, Found,
    Splats,
};
use vstd::prelude::*;

verus! {

/// The nodes of a way, as a decoded primitive lists them.
pub open spec fn steps(way: Seq<u64>) -> Seq<usize> {
    Seq::new(way.len(), |i: int| way[i] as usize)
}

/// Primitive `k` of a list is one of splats.
pub open spec fn is_splats(prims: Seq<Tree>, k: int) -> bool {
    0 <= k < prims.len() && !(prims[k].at("attributes"@).at("KHR_gaussian_splatting:ROTATION"@) is Null)
}

/// `e` is primitive `k` of the node at the end of the way, and lists the way
/// behind `chain`.
pub open spec fn is_prim(
    t: Tree,
    bin: Option<Seq<u8>>,
    chain: Seq<usize>,
    e: (Seq<usize>, Splats),
    way: Seq<u64>,
    k: int,
) -> bool {
    let prims = prims_at(t, way.last());
    &&& is_splats(prims, k)
    &&& e.0 == chain + steps(way)
    &&& splats_of(t, bin, prims[k].at("attributes"@)) == Ok::<Splats, Message>(e.1)
}

/// `e` is a primitive under node `ix`.
pub open spec fn under_node(t: Tree, bin: Option<Seq<u8>>, ix: u64, chain: Seq<usize>, e: (Seq<usize>, Splats)) -> bool {
    exists|way: Seq<u64>, k: int|
        starts_at(t, ix, way) && #[trigger] is_prim(t, bin, chain, e, way, k)
}

/// `e` is a primitive under one of the nodes that `list` names.
pub open spec fn under_list(t: Tree, bin: Option<Seq<u8>>, list: Seq<Tree>, chain: Seq<usize>, e: (Seq<usize>, Splats)) -> bool {
    exists|way: Seq<u64>, k: int|
        starts_in(t, list, way) && #[trigger] is_prim(t, bin, chain, e, way, k)
}

/// Primitive `k` of a list of splats was found.
pub open spec fn was_found(
    t: Tree,
    bin: Option<Seq<u8>>,
    found: Found,
    chain: Seq<usize>,
    prim: Tree,
) -> bool {
    exists|j: int|
        0 <= j < found.len() && (#[trigger] found[j]).0 == chain && splats_of(
            t,
            bin,
            prim.at("attributes"@),
        ) == Ok::<Splats, Message>(found[j].1)
}

proof fn lemma_mesh(t: Tree, bin: Option<Seq<u8>>, prims: Seq<Tree>, k: int, chain: Seq<usize>)
    requires
        0 <= k <= prims.len(),
        mesh_splats(t, bin, prims, k, chain) is Ok,
    ensures
        ({
            let found = mesh_splats(t, bin, prims, k, chain)->Ok_0;
            &&& forall|j: int|
                0 <= j < found.len() ==> (#[trigger] found[j]).0 == chain && exists|p: int|
                    #[trigger] is_splats(prims, p) && splats_of(t, bin, prims[p].at("attributes"@))
                        == Ok::<Splats, Message>(found[j].1)
            &&& forall|p: int|
                0 <= p < k && #[trigger] is_splats(prims, p) ==> was_found(
                    t,
                    bin,
                    found,
                    chain,
                    prims[p],
                )
        }),
    decreases k,
{
    if k > 0 {
        lemma_mesh(t, bin, prims, k - 1, chain);
        let before = mesh_splats(t, bin, prims, k - 1, chain)->Ok_0;
        let found = mesh_splats(t, bin, prims, k, chain)->Ok_0;
        assert forall|j: int| 0 <= j < found.len() implies (#[trigger] found[j]).0 == chain && exists|
            p: int,
        | #[trigger]
            is_splats(prims, p) && splats_of(t, bin, prims[p].at("attributes"@)) == Ok::<
                Splats,
                Message,
            >(found[j].1) by {
            if j < before.len() {
                assert(found[j] == before[j]);
            } else {
                assert(is_splats(prims, k - 1));
            }
        }
        assert forall|p: int| 0 <= p < k && #[trigger] is_splats(prims, p) implies was_found(
            t,
            bin,
            found,
            chain,
            prims[p],
        ) by {
            if p < k - 1 {
                assert(was_found(t, bin, before, chain, prims[p]));
                let j = choose|j: int|
                    0 <= j < before.len() && (#[trigger] before[j]).0 == chain && splats_of(
                        t,
                        bin,
                        prims[p].at("attributes"@),
                    ) == Ok::<Splats, Message>(before[j].1);
                assert(found[j] == before[j]);
            } else {
                assert(found[before.len() as int].0 == chain);
            }
        }
    }
}

/// What is found under a node or a list lies at the end of a way from there.
proof fn lemma_node_sound(t: Tree, bin: Option<Seq<u8>>, ix: u64, chain: Seq<usize>, fuel: nat, j: int)
    requires
        node_splats(t, bin, ix, chain, fuel) is Ok,
        0 <= j < node_splats(t, bin, ix, chain, fuel)->Ok_0.len(),
    ensures
        under_node(t, bin, ix, chain, node_splats(t, bin, ix, chain, fuel)->Ok_0[j]),
    decreases fuel, 0int, 0int,
{
    let node = node_at(t, ix);
    let down = chain.push(ix as usize);
    let own = own_splats(t, bin, node, down)->Ok_0;
    let found = node_splats(t, bin, ix, chain, fuel)->Ok_0;
    let e = found[j];
    if j < own.len() {
        assert(e == own[j]);
        let prims = prims_at(t, ix);
        lemma_mesh(t, bin, prims, prims.len() as int, down);
        let k = choose|p: int| #[trigger]
            is_splats(prims, p) && splats_of(t, bin, prims[p].at("attributes"@)) == Ok::<
                Splats,
                Message,
            >(e.1);
        let way = seq![ix];
        assert(chain + steps(way) =~= down);
        assert(starts_at(t, ix, way));
        assert(is_prim(t, bin, chain, e, way, k));
    } else {
        let children = node.at("children"@).items();
        lemma_list_sound(
            t,
            bin,
            children,
            children.len() as int,
            down,
            (fuel - 1) as nat,
            "bad child index"@,
            j - own.len(),
        );
        let (rest, k) = choose|way: Seq<u64>, k: int|
            starts_in(t, children, way) && #[trigger] is_prim(t, bin, down, e, way, k);
        let way = seq![ix] + rest;
        lemma_way_longer(t, ix, rest);
        assert(chain + steps(way) =~= down + steps(rest));
        assert(way.last() == rest.last());
        assert(is_prim(t, bin, chain, e, way, k));
    }
}

proof fn lemma_list_sound(
    t: Tree,
    bin: Option<Seq<u8>>,
    list: Seq<Tree>,
    k: int,
    chain: Seq<usize>,
    fuel: nat,
    bad: Message,
    j: int,
)
    requires
        0 <= k <= list.len(),
        child_splats(t, bin, list, k, chain, fuel, bad) is Ok,
        0 <= j < child_splats(t, bin, list, k, chain, fuel, bad)->Ok_0.len(),
    ensures
        under_list(t, bin, list, chain, child_splats(t, bin, list, k, chain, fuel, bad)->Ok_0[j]),
    decreases fuel, 1int, k,
{
    let found = child_splats(t, bin, list, k, chain, fuel, bad)->Ok_0;
    let before = child_splats(t, bin, list, k - 1, chain, fuel, bad)->Ok_0;
    let e = found[j];
    if j < before.len() {
        lemma_list_sound(t, bin, list, k - 1, chain, fuel, bad, j);
        assert(before[j] == e);
    } else {
        let ix = list[k - 1].as_u64()->Some_0;
        lemma_node_sound(t, bin, ix, chain, fuel, j - before.len());
        let (way, p) = choose|way: Seq<u64>, p: int|
            starts_at(t, ix, way) && #[trigger] is_prim(t, bin, chain, e, way, p);
        assert(names(list, ix));
        assert(starts_in(t, list, way));
        assert(is_prim(t, bin, chain, e, way, p));
    }
}

/// Everything at the end of a way from a node is found.
proof fn lemma_node_complete(t: Tree, bin: Option<Seq<u8>>, ix: u64, chain: Seq<usize>, fuel: nat, way: Seq<u64>, k: int)
    requires
        node_splats(t, bin, ix, chain, fuel) is Ok,
        starts_at(t, ix, way),
        is_splats(prims_at(t, way.last()), k),
    ensures
        was_found(
            t,
            bin,
            node_splats(t, bin, ix, chain, fuel)->Ok_0,
            chain + steps(way),
            prims_at(t, way.last())[k],
        ),
    decreases fuel, 0int, 0int,
{
    let node = node_at(t, ix);
    let down = chain.push(ix as usize);
    let own = own_splats(t, bin, node, down)->Ok_0;
    let found = node_splats(t, bin, ix, chain, fuel)->Ok_0;
    let prim = prims_at(t, way.last())[k];
    if way.len() == 1 {
        let prims = prims_at(t, ix);
        lemma_mesh(t, bin, prims, prims.len() as int, down);
        assert(was_found(t, bin, own, down, prim));
        let j = choose|j: int|
            0 <= j < own.len() && (#[trigger] own[j]).0 == down && splats_of(
                t,
                bin,
                prim.at("attributes"@),
            ) == Ok::<Splats, Message>(own[j].1);
        assert(found[j] == own[j]);
        assert(chain + steps(way) =~= down);
    } else {
        lemma_way_shorter(t, ix, way);
        let rest = way.drop_first();
        let children = node.at("children"@).items();
        let n = children.len() as int;
        assert(rest.last() == way.last());
        assert(children.take(n) =~= children);
        lemma_list_complete(
            t,
            bin,
            children,
            n,
            down,
            (fuel - 1) as nat,
            "bad child index"@,
            rest,
            k,
        );
        let below = child_splats(t, bin, children, n, down, (fuel - 1) as nat, "bad child index"@)->Ok_0;
        let j = choose|j: int|
            0 <= j < below.len() && (#[trigger] below[j]).0 == down + steps(rest) && splats_of(
                t,
                bin,
                prim.at("attributes"@),
            ) == Ok::<Splats, Message>(below[j].1);
        assert(found[own.len() + j] == below[j]);
        assert(chain + steps(way) =~= down + steps(rest));
    }
}

proof fn lemma_list_complete(
    t: Tree,
    bin: Option<Seq<u8>>,
    list: Seq<Tree>,
    n: int,
    chain: Seq<usize>,
    fuel: nat,
    bad: Message,
    way: Seq<u64>,
    k: int,
)
    requires
        0 <= n <= list.len(),
        child_splats(t, bin, list, n, chain, fuel, bad) is Ok,
        starts_in(t, list.take(n), way),
        is_splats(prims_at(t, way.last()), k),
    ensures
        was_found(
            t,
            bin,
            child_splats(t, bin, list, n, chain, fuel, bad)->Ok_0,
            chain + steps(way),
            prims_at(t, way.last())[k],
        ),
    decreases fuel, 1int, n,
{
    let found = child_splats(t, bin, list, n, chain, fuel, bad)->Ok_0;
    let before = child_splats(t, bin, list, n - 1, chain, fuel, bad)->Ok_0;
    let prim = prims_at(t, way.last())[k];
    let i = choose|i: int|
        0 <= i < list.take(n).len() && (#[trigger] list.take(n)[i]).as_u64() == Some(way[0]);
    if i < n - 1 {
        assert(list.take(n - 1)[i] == list.take(n)[i]);
        lemma_list_complete(t, bin, list, n - 1, chain, fuel, bad, way, k);
        let j = choose|j: int|
            0 <= j < before.len() && (#[trigger] before[j]).0 == chain + steps(way) && splats_of(
                t,
                bin,
                prim.at("attributes"@),
            ) == Ok::<Splats, Message>(before[j].1);
        assert(found[j] == before[j]);
    } else {
        let more = node_splats(t, bin, way[0], chain, fuel)->Ok_0;
        lemma_node_complete(t, bin, way[0], chain, fuel, way, k);
        let j = choose|j: int|
            0 <= j < more.len() && (#[trigger] more[j]).0 == chain + steps(way) && splats_of(
                t,
                bin,
                prim.at("attributes"@),
            ) == Ok::<Splats, Message>(more[j].1);
        assert(found[before.len() + j] == more[j]);
    }
}

/// The roots of the scene that is decoded.
pub open spec fn roots_of(t: Tree) -> Seq<Tree> {
    let scene = match t.at("scene"@).as_u64() {
        Some(v) => v as int,
        None => 0,
    };
    t.at("scenes"@).item(scene).at("nodes"@).items()
}

/// Each decoded primitive lists a way through the node graph: it starts at a root
/// of the scene, each next node is a child of the one before it, and it ends at
/// the node whose mesh holds the primitive.
pub proof fn splats_list_their_way(t: Tree, bin: Option<Seq<u8>>, j: int) -> (r: (Seq<u64>, int))
    requires
        document_splats(t, bin) is Ok,
        0 <= j < document_splats(t, bin)->Ok_0.len(),
    ensures
        ({
            let (way, k) = r;
            let e = document_splats(t, bin)->Ok_0[j];
            let prims = prims_at(t, way.last());
            &&& starts_in(t, roots_of(t), way)
            &&& e.0.len() == way.len()
            &&& forall|i: int| 0 <= i < way.len() ==> #[trigger] e.0[i] == way[i] as usize
            &&& is_splats(prims, k)
            &&& splats_of(t, bin, prims[k].at("attributes"@)) == Ok::<Splats, Message>(e.1)
        }),
{
    let roots = roots_of(t);
    let e = document_splats(t, bin)->Ok_0[j];
    let none = Seq::<usize>::empty();
    lemma_list_sound(
        t,
        bin,
        roots,
        roots.len() as int,
        none,
        t.at("nodes"@).items().len(),
        "bad node index"@,
        j,
    );
    let (way, k) = choose|way: Seq<u64>, k: int|
        starts_in(t, roots, way) && #[trigger] is_prim(t, bin, none, e, way, k);
    assert(none + steps(way) =~= steps(way));
    (way, k)
}

/// Every primitive of splats at the end of a way from a root of the scene is
/// decoded, with that way.
pub proof fn all_splats_are_decoded(t: Tree, bin: Option<Seq<u8>>, way: Seq<u64>, k: int) -> (j: int)
    requires
        document_splats(t, bin) is Ok,
        starts_in(t, roots_of(t), way),
        is_splats(prims_at(t, way.last()), k),
    ensures
        0 <= j < document_splats(t, bin)->Ok_0.len(),
        ({
            let e = document_splats(t, bin)->Ok_0[j];
            &&& e.0.len() == way.len()
            &&& forall|i: int| 0 <= i < way.len() ==> #[trigger] e.0[i] == way[i] as usize
            &&& splats_of(t, bin, prims_at(t, way.last())[k].at("attributes"@)) == Ok::<
                Splats,
                Message,
            >(e.1)
        }),
{
    let roots = roots_of(t);
    let found = document_splats(t, bin)->Ok_0;
    let none = Seq::<usize>::empty();
    let prim = prims_at(t, way.last())[k];
    assert(roots.take(roots.len() as int) =~= roots);
    lemma_list_complete(
        t,
        bin,
        roots,
        roots.len() as int,
        none,
        t.at("nodes"@).items().len(),
        "bad node index"@,
        way,
        k,
    );
    assert(none + steps(way) =~= steps(way));
    choose|j: int|
        0 <= j < found.len() && (#[trigger] found[j]).0 == steps(way) && splats_of(
            t,
            bin,
            prim.at("attributes"@),
        ) == Ok::<Splats, Message>(found[j].1)
}

/// The splats of a primitive are what its attributes store: a position, a
/// rotation, a scale, an opacity and a color for each, the harmonic one where
/// there is one.
pub proof fn splats_read_what_is_stored(t: Tree, bin: Option<Seq<u8>>, attrs: Tree)
    requires
        splats_of(t, bin, attrs) is Ok,
    ensures
        ({
            let s = splats_of(t, bin, attrs)->Ok_0;
            let harmonic = attrs.at("KHR_gaussian_splatting:SH_DEGREE_0_COEF_0"@);
            &&& is_stored(t, bin, attrs.at("POSITION"@), 3, s.positions)
            &&& is_stored(t, bin, attrs.at("KHR_gaussian_splatting:ROTATION"@), 4, s.rotations)
            &&& is_stored(t, bin, attrs.at("KHR_gaussian_splatting:SCALE"@), 3, s.scales)
            &&& is_stored(t, bin, attrs.at("KHR_gaussian_splatting:OPACITY"@), 1, s.opacities)
            &&& s.harmonic == (harmonic.as_u64() is Some)
            &&& if s.harmonic {
                is_stored(t, bin, harmonic, 3, s.color)
            } else {
                is_stored(t, bin, attrs.at("COLOR_0"@), 4, s.color)
            }
            &&& s.rotations.len() == s.positions.len()
            &&& s.scales.len() == s.positions.len()
            &&& s.opacities.len() == s.positions.len()
            &&& s.color.len() >= s.positions.len()
        }),
{
    let harmonic = attrs.at("KHR_gaussian_splatting:SH_DEGREE_0_COEF_0"@);
    lemma_stored(t, bin, attrs.at("POSITION"@), 3);
    lemma_stored(t, bin, attrs.at("KHR_gaussian_splatting:ROTATION"@), 4);
    lemma_stored(t, bin, attrs.at("KHR_gaussian_splatting:SCALE"@), 3);
    lemma_stored(t, bin, attrs.at("KHR_gaussian_splatting:OPACITY"@), 1);
    if harmonic.as_u64() is Some {
        lemma_stored(t, bin, harmonic, 3);
    } else {
        lemma_stored(t, bin, attrs.at("COLOR_0"@), 4);
    }
}

/// The document describes `count` elements of `n` numbers under `attr`, and they
/// are there.
pub open spec fn is_described(t: Tree, bin: Seq<u8>, attr: Tree, n: int, count: u64) -> bool {
    exists|ix: u64, r: Reading|
        attr.as_u64() == Some(ix) && r.count == count && is_number_type(r.code) && is_kind(
            t.at("accessors"@).item(ix as int).at("type"@),
            n,
        ) && #[trigger] says(t, ix as int, n * bytes_of(r.code), r) && fits(
            r,
            n * bytes_of(r.code),
            bin,
        )
}

proof fn lemma_described(t: Tree, bin: Seq<u8>, attr: Tree, n: int, count: u64)
    requires
        is_described(t, bin, attr, n, count),
    ensures
        attr.as_u64() is Some,
        accessor_of(t, Some(bin), attr.as_u64()->Some_0 as int, n) is Ok,
        accessor_of(t, Some(bin), attr.as_u64()->Some_0 as int, n)->Ok_0.len() == count,
{
    let (ix, r) = choose|ix: u64, r: Reading|
        attr.as_u64() == Some(ix) && r.count == count && is_number_type(r.code) && is_kind(
            t.at("accessors"@).item(ix as int).at("type"@),
            n,
        ) && #[trigger] says(t, ix as int, n * bytes_of(r.code), r) && fits(
            r,
            n * bytes_of(r.code),
            bin,
        );
    described_accessors_are_read(t, bin, ix as int, n, r);
    let q = accessors_read_what_is_stored(t, Some(bin), ix as int, n);
    assert(q.count == r.count);
}

/// A primitive that holds as many of each attribute is decoded, with harmonics or
/// plain colors.
pub proof fn described_splats_are_decoded(t: Tree, bin: Seq<u8>, attrs: Tree, count: u64)
    requires
        is_described(t, bin, attrs.at("POSITION"@), 3, count),
        is_described(t, bin, attrs.at("KHR_gaussian_splatting:ROTATION"@), 4, count),
        is_described(t, bin, attrs.at("KHR_gaussian_splatting:SCALE"@), 3, count),
        is_described(t, bin, attrs.at("KHR_gaussian_splatting:OPACITY"@), 1, count),
        is_described(t, bin, attrs.at("KHR_gaussian_splatting:SH_DEGREE_0_COEF_0"@), 3, count) || (
        attrs.at("KHR_gaussian_splatting:SH_DEGREE_0_COEF_0"@) is Null && is_described(
            t,
            bin,
            attrs.at("COLOR_0"@),
            4,
            count,
        )),
    ensures
        splats_of(t, Some(bin), attrs) is Ok,
        splats_of(t, Some(bin), attrs)->Ok_0.positions.len() == count,
{
    lemma_described(t, bin, attrs.at("POSITION"@), 3, count);
    lemma_described(t, bin, attrs.at("KHR_gaussian_splatting:ROTATION"@), 4, count);
    lemma_described(t, bin, attrs.at("KHR_gaussian_splatting:SCALE"@), 3, count);
    lemma_described(t, bin, attrs.at("KHR_gaussian_splatting:OPACITY"@), 1, count);
    let harmonic = attrs.at("KHR_gaussian_splatting:SH_DEGREE_0_COEF_0"@);
    if harmonic is Null {
        lemma_described(t, bin, attrs.at("COLOR_0"@), 4, count);
    } else {
        lemma_described(t, bin, harmonic, 3, count);
    }
}

/// A node that is there, whose mesh, where it names one, has primitives, each
/// without a rotation or with splats that decode, and whose children are indices.
pub open spec fn is_sound(t: Tree, bin: Option<Seq<u8>>, ix: u64) -> bool {
    let node = node_at(t, ix);
    let mesh = node.at("mesh"@).as_u64();
    let prims = t.at("meshes"@).item(mesh->Some_0 as int).at("primitives"@);
    let children = node.at("children"@);
    &&& !(node is Null)
    &&& mesh is Some ==> prims is Array && forall|k: int|
        0 <= k < prims.items().len() ==> is_decodable(t, bin, #[trigger] prims.items()[k])
    &&& children is Array ==> forall|k: int|
        0 <= k < children.items().len() ==> (#[trigger] children.items()[k]).as_u64() is Some
}

/// A primitive without a rotation, or with splats that decode.
pub open spec fn is_decodable(t: Tree, bin: Option<Seq<u8>>, prim: Tree) -> bool {
    let attrs = prim.at("attributes"@);
    attrs.at("KHR_gaussian_splatting:ROTATION"@) is Null || splats_of(t, bin, attrs) is Ok
}

/// What stops decoding on a way: more nodes than `fuel`, or a last node that is
/// unsound.
pub open spec fn is_blocked(t: Tree, bin: Option<Seq<u8>>, fuel: nat, way: Seq<u64>) -> bool {
    way.len() > fuel || !is_sound(t, bin, way.last())
}

/// Some way on from a node that `list` names stops decoding.
pub open spec fn blocked_in(t: Tree, bin: Option<Seq<u8>>, list: Seq<Tree>, fuel: nat) -> bool {
    exists|way: Seq<u64>| starts_in(t, list, way) && #[trigger] is_blocked(t, bin, fuel, way)
}

/// Some way on from node `ix` stops decoding.
pub open spec fn blocked_at(t: Tree, bin: Option<Seq<u8>>, ix: u64, fuel: nat) -> bool {
    exists|way: Seq<u64>| starts_at(t, ix, way) && #[trigger] is_blocked(t, bin, fuel, way)
}

proof fn lemma_decodable(t: Tree, bin: Option<Seq<u8>>, prims: Seq<Tree>, k: int, chain: Seq<usize>)
    requires
        0 <= k <= prims.len(),
        forall|i: int| 0 <= i < prims.len() ==> is_decodable(t, bin, #[trigger] prims[i]),
    ensures
        mesh_splats(t, bin, prims, k, chain) is Ok,
    decreases k,
{
    if k > 0 {
        lemma_decodable(t, bin, prims, k - 1, chain);
        assert(is_decodable(t, bin, prims[k - 1]));
    }
}

proof fn lemma_node_taken(t: Tree, bin: Option<Seq<u8>>, ix: u64, chain: Seq<usize>, fuel: nat)
    requires
        !blocked_at(t, bin, ix, fuel),
    ensures
        node_splats(t, bin, ix, chain, fuel) is Ok,
    decreases fuel, 0int, 0int,
{
    let node = node_at(t, ix);
    let one = seq![ix];
    assert(starts_at(t, ix, one));
    assert(!is_blocked(t, bin, fuel, one));
    assert(one.last() == ix);
    let down = chain.push(ix as usize);
    if let Some(m) = node.at("mesh"@).as_u64() {
        let prims = t.at("meshes"@).item(m as int).at("primitives"@).items();
        lemma_decodable(t, bin, prims, prims.len() as int, down);
    }
    if node.at("children"@) is Array {
        let children = node.at("children"@).items();
        let left = (fuel - 1) as nat;
        assert(!blocked_in(t, bin, children, left)) by {
            if blocked_in(t, bin, children, left) {
                let rest = choose|way: Seq<u64>|
                    starts_in(t, children, way) && #[trigger] is_blocked(t, bin, left, way);
                lemma_way_longer(t, ix, rest);
                let way = seq![ix] + rest;
                assert(way.last() == rest.last());
                assert(is_blocked(t, bin, fuel, way));
            }
        }
        lemma_list_taken(
            t,
            bin,
            children,
            children.len() as int,
            down,
            left,
            "bad child index"@,
        );
    }
}

proof fn lemma_list_taken(
    t: Tree,
    bin: Option<Seq<u8>>,
    list: Seq<Tree>,
    n: int,
    chain: Seq<usize>,
    fuel: nat,
    bad: Message,
)
    requires
        0 <= n <= list.len(),
        forall|k: int| 0 <= k < list.len() ==> (#[trigger] list[k]).as_u64() is Some,
        !blocked_in(t, bin, list, fuel),
    ensures
        child_splats(t, bin, list, n, chain, fuel, bad) is Ok,
    decreases fuel, 1int, n,
{
    if n > 0 {
        lemma_list_taken(t, bin, list, n - 1, chain, fuel, bad);
        let ix = list[n - 1].as_u64()->Some_0;
        assert(names(list, ix));
        assert(!blocked_at(t, bin, ix, fuel)) by {
            if blocked_at(t, bin, ix, fuel) {
                let way = choose|way: Seq<u64>|
                    starts_at(t, ix, way) && #[trigger] is_blocked(t, bin, fuel, way);
                assert(starts_in(t, list, way));
            }
        }
        lemma_node_taken(t, bin, ix, chain, fuel);
    }
}

/// A document whose scene lists its roots, where every node on a way from them is
/// sound and no way has more nodes than there are, is decoded.
pub proof fn sound_documents_are_decoded(t: Tree, bin: Option<Seq<u8>>, scene: int)
    requires
        scene == match t.at("scene"@).as_u64() {
            Some(v) => v as int,
            None => 0,
        },
        t.at("scenes"@).item(scene).at("nodes"@) is Array,
        forall|k: int|
            0 <= k < t.at("scenes"@).item(scene).at("nodes"@).items().len() ==> (
            #[trigger] t.at("scenes"@).item(scene).at("nodes"@).items()[k]).as_u64() is Some,
        !blocked_in(
            t,
            bin,
            t.at("scenes"@).item(scene).at("nodes"@).items(),
            t.at("nodes"@).items().len(),
        ),
    ensures
        document_splats(t, bin) is Ok,
{
    let roots = t.at("scenes"@).item(scene).at("nodes"@).items();
    lemma_list_taken(
        t,
        bin,
        roots,
        roots.len() as int,
        Seq::empty(),
        t.at("nodes"@).items().len(),
        "bad node index"@,
    );
}

proof fn lemma_same_start(t: Tree, bin: Option<Seq<u8>>, a: Seq<Tree>, b: Seq<Tree>, k: int, chain: Seq<usize>, fuel: nat, bad: Message)
    requires
        0 <= k <= a.len(),
    ensures
        child_splats(t, bin, a + b, k, chain, fuel, bad) == child_splats(
            t,
            bin,
            a,
            k,
            chain,
            fuel,
            bad,
        ),
    decreases k,
{
    if k > 0 {
        lemma_same_start(t, bin, a, b, k - 1, chain, fuel, bad);
        assert((a + b)[k - 1] == a[k - 1]);
    }
}

proof fn lemma_walked_in_order(t: Tree, bin: Option<Seq<u8>>, a: Seq<Tree>, b: Seq<Tree>, k: int, chain: Seq<usize>, fuel: nat, bad: Message)
    requires
        0 <= k <= b.len(),
        child_splats(t, bin, a + b, a.len() + k, chain, fuel, bad) is Ok,
    ensures
        child_splats(t, bin, a, a.len() as int, chain, fuel, bad) is Ok,
        child_splats(t, bin, b, k, chain, fuel, bad) is Ok,
        child_splats(t, bin, a + b, a.len() + k, chain, fuel, bad)->Ok_0 == child_splats(
            t,
            bin,
            a,
            a.len() as int,
            chain,
            fuel,
            bad,
        )->Ok_0 + child_splats(t, bin, b, k, chain, fuel, bad)->Ok_0,
    decreases k,
{
    let x = child_splats(t, bin, a, a.len() as int, chain, fuel, bad)->Ok_0;
    if k == 0 {
        lemma_same_start(t, bin, a, b, a.len() as int, chain, fuel, bad);
        assert(x + child_splats(t, bin, b, 0, chain, fuel, bad)->Ok_0 =~= x);
    } else {
        lemma_walked_in_order(t, bin, a, b, k - 1, chain, fuel, bad);
        assert((a + b)[a.len() + k - 1] == b[k - 1]);
        let before = child_splats(t, bin, b, k - 1, chain, fuel, bad)->Ok_0;
        let more = node_splats(t, bin, b[k - 1].as_u64()->Some_0, chain, fuel)->Ok_0;
        assert((x + before) + more =~= x + (before + more));
    }
}

/// Nodes are decoded in the order of their list: the splats under the first of
/// them come before those under the others.
pub proof fn nodes_are_decoded_in_order(t: Tree, bin: Option<Seq<u8>>, a: Seq<Tree>, b: Seq<Tree>, chain: Seq<usize>, fuel: nat, bad: Message)
    requires
        child_splats(t, bin, a + b, (a + b).len() as int, chain, fuel, bad) is Ok,
    ensures
        child_splats(t, bin, a, a.len() as int, chain, fuel, bad) is Ok,
        child_splats(t, bin, b, b.len() as int, chain, fuel, bad) is Ok,
        child_splats(t, bin, a + b, (a + b).len() as int, chain, fuel, bad)->Ok_0 == child_splats(
            t,
            bin,
            a,
            a.len() as int,
            chain,
            fuel,
            bad,
        )->Ok_0 + child_splats(t, bin, b, b.len() as int, chain, fuel, bad)->Ok_0,
{
    lemma_walked_in_order(t, bin, a, b, b.len() as int, chain, fuel, bad);
}

} // verus!
