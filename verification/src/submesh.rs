//! Cutting some triangles out of a mesh. Numbers with a fraction are held as the
//! bits of an `f32`.
use std::collections::HashMap;
use vstd::prelude::*;

verus! {

/// A list of triangles, with what belongs to each vertex.
#[derive(Debug)]
pub struct TriangleMesh {
    pub positions: Vec<[u32; 3]>,
    pub normals: Option<Vec<[u32; 3]>>,
    pub uvs: Option<Vec<[u32; 2]>>,
    pub colors: Option<Vec<[u32; 4]>>,
    /// Three vertices per triangle; where absent, the vertices come in threes.
    pub indices: Option<Vec<u32>>,
}

/// The list, where there is one.
pub open spec fn list_of<T>(v: Option<Vec<T>>) -> Option<Seq<T>> {
    match v {
        Some(l) => Some(l@),
        None => None,
    }
}

/// The vertex at corner `c`, where there is one.
pub open spec fn vertex_at(indices: Option<Seq<u32>>, vertices: int, c: int) -> Option<int> {
    let v = match indices {
        Some(ix) => if c < ix.len() {
            Some(ix[c] as int)
        } else {
            None
        },
        None => Some(c),
    };
    match v {
        Some(i) => if i < vertices {
            Some(i)
        } else {
            None
        },
        None => None,
    }
}

/// The vertices that were used, in the order of their first use, and the new
/// indices.
#[verifier::ext_equal]
pub struct Picks {
    pub order: Seq<int>,
    pub indices: Seq<int>,
}

/// Where a vertex stands among those used; their number where it does not.
pub open spec fn place_of(order: Seq<int>, v: int) -> int
    decreases order.len(),
{
    if order.len() == 0 {
        0
    } else if order[0] == v {
        0
    } else {
        1 + place_of(order.drop_first(), v)
    }
}

/// One more corner.
pub open spec fn picked(p: Picks, v: Option<int>) -> Picks {
    match v {
        Some(i) => {
            let at = place_of(p.order, i);
            Picks {
                order: if at < p.order.len() {
                    p.order
                } else {
                    p.order.push(i)
                },
                indices: p.indices.push(at),
            }
        },
        None => p,
    }
}

/// The first `k` corners of the triangles in `tris`, three to a triangle.
pub open spec fn picks_up_to(indices: Option<Seq<u32>>, vertices: int, tris: Seq<usize>, k: int) -> Picks
    decreases k,
{
    if k <= 0 {
        Picks { order: Seq::empty(), indices: Seq::empty() }
    } else {
        let c = k - 1;
        picked(
            picks_up_to(indices, vertices, tris, k - 1),
            vertex_at(indices, vertices, 3 * tris[c / 3] + c % 3),
        )
    }
}

/// All corners of the triangles in `tris`.
pub open spec fn picks_of(indices: Option<Seq<u32>>, vertices: int, tris: Seq<usize>) -> Picks {
    picks_up_to(indices, vertices, tris, 3 * tris.len() as int)
}

/// The entries at some places.
pub open spec fn taken<T>(v: Seq<T>, order: Seq<int>) -> Seq<T> {
    Seq::new(order.len(), |i: int| v[order[i]])
}

/// The entries at some places, where there is a list and any place.
pub open spec fn taken_opt<T>(v: Option<Seq<T>>, order: Seq<int>) -> Option<Seq<T>> {
    match v {
        Some(l) => if order.len() > 0 {
            Some(taken(l, order))
        } else {
            None
        },
        None => None,
    }
}

/// The indices as numbers.
pub open spec fn as_ints(v: Seq<u32>) -> Seq<int> {
    Seq::new(v.len(), |i: int| v[i] as int)
}

/// The places as numbers.
pub open spec fn places(v: Seq<usize>) -> Seq<int> {
    Seq::new(v.len(), |i: int| v[i] as int)
}

/// Every vertex has all that any has.
pub open spec fn mesh_wf(m: TriangleMesh) -> bool {
    let n = m.positions@.len();
    &&& n <= u32::MAX
    &&& m.normals matches Some(v) ==> v@.len() >= n
    &&& m.uvs matches Some(v) ==> v@.len() >= n
    &&& m.colors matches Some(v) ==> v@.len() >= n
}

/// No vertex is used twice, and all are there.
pub open spec fn order_wf(order: Seq<int>, vertices: int) -> bool {
    &&& forall|i: int| 0 <= i < order.len() ==> 0 <= #[trigger] order[i] < vertices
    &&& forall|i: int, j: int|
        0 <= i < j < order.len() ==> #[trigger] order[i] != #[trigger] order[j]
}

proof fn lemma_place(order: Seq<int>, v: int)
    ensures
        0 <= place_of(order, v) <= order.len(),
        place_of(order, v) < order.len() ==> order[place_of(order, v)] == v,
        forall|i: int| 0 <= i < place_of(order, v) ==> #[trigger] order[i] != v,
    decreases order.len(),
{
    if order.len() > 0 && order[0] != v {
        let rest = order.drop_first();
        lemma_place(rest, v);
        assert forall|i: int| 0 <= i < place_of(order, v) implies #[trigger] order[i] != v by {
            if i > 0 {
                assert(rest[i - 1] == order[i]);
            }
        }
    }
}

proof fn lemma_distinct(order: Seq<int>, n: int)
    requires
        order_wf(order, n),
        0 <= n,
    ensures
        order.len() <= n,
    decreases n,
{
    if n == 0 {
        if order.len() > 0 {
            let first = order[0];
            assert(0 <= first < n);
        }
    } else if exists|k: int| 0 <= k < order.len() && order[k] == n - 1 {
        let k = choose|k: int| 0 <= k < order.len() && order[k] == n - 1;
        let rest = order.remove(k);
        assert forall|i: int| 0 <= i < rest.len() implies 0 <= #[trigger] rest[i] < n - 1 by {
            if i < k {
                assert(order[i] != order[k]);
            } else {
                assert(order[k] != order[i + 1]);
            }
        }
        assert forall|i: int, j: int| 0 <= i < j < rest.len() implies #[trigger] rest[i]
            != #[trigger] rest[j] by {
            let a = if i < k {
                i
            } else {
                i + 1
            };
            let b = if j < k {
                j
            } else {
                j + 1
            };
            assert(order[a] != order[b]);
        }
        lemma_distinct(rest, n - 1);
    } else {
        assert forall|i: int| 0 <= i < order.len() implies 0 <= #[trigger] order[i] < n - 1 by {
            assert(order[i] != n - 1);
        }
        lemma_distinct(order, n - 1);
    }
}

proof fn lemma_picked_wf(p: Picks, v: Option<int>, vertices: int)
    requires
        order_wf(p.order, vertices),
        v matches Some(i) ==> 0 <= i < vertices,
    ensures
        order_wf(picked(p, v).order, vertices),
{
    if let Some(i) = v {
        lemma_place(p.order, i);
    }
}

fn gather_rows<T: Copy>(v: &Vec<T>, order: &Vec<usize>) -> (r: Vec<T>)
    requires
        forall|i: int| 0 <= i < order@.len() ==> #[trigger] order@[i] < v@.len(),
    ensures
        r@ == taken(v@, places(order@)),
{
    let mut r: Vec<T> = Vec::new();
    let mut i: usize = 0;
    while i < order.len()
        invariant
            i <= order@.len(),
            forall|i: int| 0 <= i < order@.len() ==> #[trigger] order@[i] < v@.len(),
            r@.len() == i,
            forall|k: int| 0 <= k < i ==> #[trigger] r@[k] == v@[order@[k] as int],
        decreases order@.len() - i,
    {
        r.push(v[order[i]]);
        i = i + 1;
    }
    assert(r@ =~= taken(v@, places(order@)));
    r
}

fn gather_opt<T: Copy>(v: &Option<Vec<T>>, order: &Vec<usize>) -> (r: Option<Vec<T>>)
    requires
        *v matches Some(l) ==> forall|i: int|
            0 <= i < order@.len() ==> #[trigger] order@[i] < l@.len(),
    ensures
        list_of(r) == taken_opt(list_of(*v), places(order@)),
{
    match v {
        Some(l) => if order.len() > 0 {
            Some(gather_rows(l, order))
        } else {
            None
        },
        None => None,
    }
}

/// Builds a mesh of some triangles of another, with the vertices that they use
/// and no others.
pub fn build_submesh(mesh: &TriangleMesh, tris: &Vec<usize>) -> (out: TriangleMesh)
    requires
        mesh_wf(*mesh),
    ensures
        ({
            let p = picks_of(list_of(mesh.indices), mesh.positions@.len() as int, tris@);
            &&& out.positions@ == taken(mesh.positions@, p.order)
            &&& list_of(out.normals) == taken_opt(list_of(mesh.normals), p.order)
            &&& list_of(out.uvs) == taken_opt(list_of(mesh.uvs), p.order)
            &&& list_of(out.colors) == taken_opt(list_of(mesh.colors), p.order)
            &&& out.indices matches Some(ix) && as_ints(ix@) == p.indices
        }),
{
    broadcast use vstd::std_specs::hash::group_hash_axioms;

    let ghost source = list_of(mesh.indices);
    let n: usize = mesh.positions.len();
    let mut remap: HashMap<usize, u32> = HashMap::new();
    let mut order: Vec<usize> = Vec::new();
    let mut indices: Vec<u32> = Vec::new();
    let mut t: usize = 0;
    let ghost start = picks_up_to(source, n as int, tris@, 0);
    assert(places(order@) =~= start.order);
    assert(as_ints(indices@) =~= start.indices);
    while t < tris.len()
        invariant
            t <= tris@.len(),
            source == list_of(mesh.indices),
            n == mesh.positions@.len(),
            n <= u32::MAX,
            order_wf(places(order@), n as int),
            picks_up_to(source, n as int, tris@, 3 * t) == (Picks {
                order: places(order@),
                indices: as_ints(indices@),
            }),
            forall|v: usize| #[trigger]
                remap@.contains_key(v) <==> place_of(places(order@), v as int) < order@.len(),
            forall|v: usize| #[trigger]
                remap@.contains_key(v) ==> remap@[v] == place_of(places(order@), v as int),
        decreases tris@.len() - t,
    {
        let mut k: usize = 0;
        while k < 3
            invariant
                k <= 3,
                t < tris@.len(),
                source == list_of(mesh.indices),
                n == mesh.positions@.len(),
                n <= u32::MAX,
                order_wf(places(order@), n as int),
                picks_up_to(source, n as int, tris@, 3 * t + k) == (Picks {
                    order: places(order@),
                    indices: as_ints(indices@),
                }),
                forall|v: usize| #[trigger]
                    remap@.contains_key(v) <==> place_of(places(order@), v as int) < order@.len(),
                forall|v: usize| #[trigger]
                    remap@.contains_key(v) ==> remap@[v] == place_of(places(order@), v as int),
            decreases 3 - k,
        {
            let ghost p = Picks { order: places(order@), indices: as_ints(indices@) };
            let corner: u128 = 3 * tris[t] as u128 + k as u128;
            let vertex: Option<usize> = match &mesh.indices {
                Some(ix) => {
                    let total: usize = ix.len();
                    if corner < total as u128 {
                        let i: u32 = ix[corner as usize];
                        if (i as u64) < n as u64 {
                            Some(i as usize)
                        } else {
                            None
                        }
                    } else {
                        None
                    }
                },
                None => if corner < n as u128 {
                    Some(corner as usize)
                } else {
                    None
                },
            };
            proof {
                assert((3 * t + k) / 3 == t);
                assert((3 * t + k) % 3 == k);
            }
            let ghost v = vertex_at(source, n as int, corner as int);
            assert(v == match vertex {
                Some(i) => Some(i as int),
                None => None,
            });
            proof {
                lemma_picked_wf(p, v, n as int);
            }
            if let Some(i) = vertex {
                proof {
                    lemma_place(p.order, i as int);
                    lemma_distinct(p.order, n as int);
                }
                let found: Option<u32> = match remap.get(&i) {
                    Some(l) => Some(*l),
                    None => None,
                };
                let local: u32 = match found {
                    Some(l) => l,
                    None => {
                        let l: u32 = order.len() as u32;
                        remap.insert(i, l);
                        order.push(i);
                        assert(places(order@) =~= p.order.push(i as int));
                        assert forall|v: usize| #[trigger] remap@.contains_key(v) <==> place_of(
                            places(order@),
                            v as int,
                        ) < order@.len() by {
                            lemma_place_push(p.order, i as int, v as int);
                        }
                        assert forall|v: usize| #[trigger] remap@.contains_key(v) implies remap@[v]
                            == place_of(places(order@), v as int) by {
                            lemma_place_push(p.order, i as int, v as int);
                        }
                        l
                    },
                };
                indices.push(local);
                assert(as_ints(indices@) =~= p.indices.push(local as int));
            }
            k = k + 1;
        }
        t = t + 1;
    }
    let ghost done = picks_of(source, n as int, tris@);
    assert(done.order == places(order@));
    assert forall|i: int| 0 <= i < order@.len() implies #[trigger] order@[i] < n by {
        assert(places(order@)[i] < n);
    }
    TriangleMesh {
        positions: gather_rows(&mesh.positions, &order),
        normals: gather_opt(&mesh.normals, &order),
        uvs: gather_opt(&mesh.uvs, &order),
        colors: gather_opt(&mesh.colors, &order),
        indices: Some(indices),
    }
}

proof fn lemma_place_push(order: Seq<int>, x: int, v: int)
    requires
        place_of(order, x) == order.len(),
    ensures
        place_of(order.push(x), v) == if v == x {
            order.len() as int
        } else if place_of(order, v) < order.len() {
            place_of(order, v)
        } else {
            order.len() as int + 1
        },
    decreases order.len(),
{
    lemma_place(order, x);
    lemma_place(order, v);
    if order.len() == 0 {
        let o = order.push(x);
        assert(o.drop_first() =~= Seq::<int>::empty());
        assert(place_of(o.drop_first(), v) == 0);
    } else {
        assert(order.push(x).drop_first() =~= order.drop_first().push(x));
        assert(order[0] != x);
        lemma_place_push(order.drop_first(), x, v);
    }
}

/// Each corner of the new mesh is at the vertex that it was at before.
pub proof fn submeshes_keep_their_corners(
    indices: Option<Seq<u32>>,
    vertices: int,
    tris: Seq<usize>,
    k: int,
)
    requires
        0 <= k <= 3 * tris.len(),
        0 <= vertices,
    ensures
        ({
            let p = picks_up_to(indices, vertices, tris, k);
            &&& order_wf(p.order, vertices)
            &&& forall|j: int|
                0 <= j < p.indices.len() ==> 0 <= #[trigger] p.indices[j] < p.order.len()
            &&& k > 0 ==> match vertex_at(indices, vertices, 3 * tris[(k - 1) / 3] + (k - 1) % 3) {
                Some(v) => p.indices.len() > 0 && p.order[p.indices.last()] == v,
                None => true,
            }
        }),
    decreases k,
{
    if k > 0 {
        submeshes_keep_their_corners(indices, vertices, tris, k - 1);
        let p = picks_up_to(indices, vertices, tris, k - 1);
        let v = vertex_at(indices, vertices, 3 * tris[(k - 1) / 3] + (k - 1) % 3);
        if let Some(i) = v {
            lemma_place(p.order, i);
            assert(0 <= i < vertices);
            lemma_picked_wf(p, v, vertices);
        }
    }
}

/// The vertex at a corner of a triangle of the source mesh.
pub open spec fn source_vertex(indices: Option<Seq<u32>>, tri: int, c: int) -> int {
    match indices {
        Some(ix) => ix[3 * tri + c] as int,
        None => 3 * tri + c,
    }
}

/// The corner of the triangle is there, and so is its vertex.
pub open spec fn is_whole(indices: Option<Seq<u32>>, vertices: int, tri: int, c: int) -> bool {
    &&& indices is Some ==> 3 * tri + c < indices->Some_0.len()
    &&& source_vertex(indices, tri, c) < vertices
}

/// Where the triangles and their vertices are there, the new mesh draws just
/// them, in their order, and every vertex of it is drawn.
pub proof fn submeshes_draw_the_same_triangles(
    indices: Option<Seq<u32>>,
    vertices: int,
    tris: Seq<usize>,
    k: int,
)
    requires
        0 <= k <= 3 * tris.len(),
        0 <= vertices,
        forall|j: int, c: int|
            0 <= j < tris.len() && 0 <= c < 3 ==> #[trigger] is_whole(
                indices,
                vertices,
                tris[j] as int,
                c,
            ),
    ensures
        ({
            let p = picks_up_to(indices, vertices, tris, k);
            &&& p.indices.len() == k
            &&& forall|j: int|
                0 <= j < k ==> 0 <= #[trigger] p.indices[j] < p.order.len()
                    && p.order[p.indices[j]] == source_vertex(indices, tris[j / 3] as int, j % 3)
            &&& forall|i: int| 0 <= i < p.order.len() ==> p.indices.contains(i)
        }),
    decreases k,
{
    if k > 0 {
        submeshes_draw_the_same_triangles(indices, vertices, tris, k - 1);
        let c = k - 1;
        let before = picks_up_to(indices, vertices, tris, c);
        let p = picks_up_to(indices, vertices, tris, k);
        let v = source_vertex(indices, tris[c / 3] as int, c % 3);
        assert(is_whole(indices, vertices, tris[c / 3] as int, c % 3));
        assert(vertex_at(indices, vertices, 3 * tris[c / 3] + c % 3) == Some(v));
        lemma_place(before.order, v);
        let at = place_of(before.order, v);
        assert(p.indices == before.indices.push(at));
        assert forall|j: int| 0 <= j < k implies 0 <= #[trigger] p.indices[j] < p.order.len()
            && p.order[p.indices[j]] == source_vertex(indices, tris[j / 3] as int, j % 3) by {
            if j < c {
                assert(p.indices[j] == before.indices[j]);
                assert(p.order[before.indices[j]] == before.order[before.indices[j]]);
            }
        }
        assert forall|i: int| 0 <= i < p.order.len() implies p.indices.contains(i) by {
            if i < before.order.len() {
                assert(before.indices.contains(i));
                let j = before.indices.index_of(i);
                assert(p.indices[j] == i);
            } else {
                assert(p.indices[c] == i);
            }
        }
    }
}

/// What is taken over of a vertex is that vertex's own.
pub proof fn vertices_take_their_own_along<T>(v: Option<Seq<T>>, order: Seq<int>, i: int)
    requires
        0 <= i < order.len(),
    ensures
        taken_opt(v, order) is Some <==> v is Some,
        v matches Some(l) ==> taken_opt(v, order)->Some_0.len() == order.len() && taken_opt(
            v,
            order,
        )->Some_0[i] == l[order[i]],
{
}

} // verus!
