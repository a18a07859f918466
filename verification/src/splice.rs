//! Splicing decoded Draco primitives into a tile's document.
use crate::bytes::{le_bytes, push_le};
use crate::glb::padded;
use crate::gltf::Message;
use crate::json::{down, nth, opt_tree, opt_u64, trees, Json, Tree};
use crate::rewrite::{
    bare, define_view, empty_object, lemma_array_view, num, pad4, replaced, unextend, unextended,
    view_def, DracoPrim,
};
use crate::text;
use crate::text::decimal_chars;
use vstd::prelude::*;

verus! {

/// One attribute of a decoded primitive.
pub struct DracoAttribute {
    pub id: u32,
    pub components: usize,
    /// The values, each a 32-bit float by its bits.
    pub data: Vec<u32>,
    /// The least and the greatest of the values, component by component.
    pub min: Json,
    pub max: Json,
}

/// A decoded Draco primitive.
pub struct DracoMesh {
    pub indices: Vec<u32>,
    pub attributes: Vec<DracoAttribute>,
}

/// [`DracoAttribute`] as a mathematical value.
pub struct Attribute {
    pub id: u32,
    pub components: int,
    pub data: Seq<u32>,
    pub min: Tree,
    pub max: Tree,
}

impl View for DracoAttribute {
    type V = Attribute;

    open spec fn view(&self) -> Attribute {
        Attribute {
            id: self.id,
            components: self.components as int,
            data: self.data@,
            min: self.min@,
            max: self.max@,
        }
    }
}

/// [`DracoMesh`] as a mathematical value.
pub struct Decoded {
    pub indices: Seq<u32>,
    pub attributes: Seq<Attribute>,
}

impl View for DracoMesh {
    type V = Decoded;

    open spec fn view(&self) -> Decoded {
        Decoded {
            indices: self.indices@,
            attributes: Seq::new(self.attributes@.len(), |i: int| self.attributes@[i]@),
        }
    }
}

/// A document and its binary chunk.
pub struct Doc {
    pub tree: Tree,
    pub bin: Seq<u8>,
}

/// The little-endian bytes of 32-bit words.
pub open spec fn words(s: Seq<u32>) -> Seq<u8>
    decreases s.len(),
{
    if s.len() == 0 {
        Seq::empty()
    } else {
        words(s.drop_last()) + le_bytes(s.last() as nat, 4)
    }
}

/// The items of the array `key`, none where it is no array.
pub open spec fn list_of(t: Tree, key: Seq<char>) -> Seq<Tree> {
    t.at(key).items()
}

/// The document with `value` appended to the array `key`, which is made where
/// there is none.
pub open spec fn pushed(t: Tree, key: Seq<char>, value: Tree) -> Tree {
    t.assigned(key, Tree::Array(list_of(t, key).push(value)))
}

/// The primitive `p` of mesh `m`.
pub open spec fn prim_at(t: Tree, m: int, p: int) -> Tree {
    t.at("meshes"@).item(m).at("primitives"@).item(p)
}

/// The mesh with primitive `p` replaced.
pub open spec fn mesh_with(mesh: Tree, p: int, prim: Tree) -> Tree {
    match mesh.at("primitives"@) {
        Tree::Array(prims) => mesh.with("primitives"@, Tree::Array(replaced(prims, p, prim))),
        _ => mesh,
    }
}

/// The document with primitive `p` of mesh `m` replaced.
pub open spec fn with_prim(t: Tree, m: int, p: int, prim: Tree) -> Tree {
    match t.at("meshes"@) {
        Tree::Array(meshes) => t.with(
            "meshes"@,
            Tree::Array(
                if 0 <= m < meshes.len() {
                    meshes.update(m, mesh_with(meshes[m], p, prim))
                } else {
                    meshes
                },
            ),
        ),
        _ => t,
    }
}

/// What a primitive's slot holds: its indices, or one of its attributes.
pub open spec fn slot_of(prim: Tree, semantic: Option<Seq<char>>) -> Tree {
    match semantic {
        Some(s) => prim.at("attributes"@).at(s),
        None => prim.at("indices"@),
    }
}

/// The primitive with its slot set.
pub open spec fn slot_set(prim: Tree, semantic: Option<Seq<char>>, v: Tree) -> Tree {
    match semantic {
        Some(s) => prim.assigned("attributes"@, prim.at("attributes"@).assigned(s, v)),
        None => prim.assigned("indices"@, v),
    }
}

/// The document whose slot names `accessor`: in place of the accessor that the
/// slot already names, or appended.
pub open spec fn accessor_set(t: Tree, m: int, p: int, semantic: Option<Seq<char>>, accessor: Tree) -> Tree {
    match slot_of(prim_at(t, m, p), semantic).as_u64() {
        Some(existing) => match t.at("accessors"@) {
            Tree::Array(list) => t.with(
                "accessors"@,
                Tree::Array(replaced(list, existing as int, accessor)),
            ),
            _ => t,
        },
        None => {
            let t2 = pushed(t, "accessors"@, accessor);
            let ix = num(list_of(t, "accessors"@).len() as int);
            with_prim(t2, m, p, slot_set(prim_at(t2, m, p), semantic, ix))
        },
    }
}

/// An accessor of `count` elements over buffer view `view`.
pub open spec fn accessor_def(view: int, code: int, count: int, kind: Seq<char>) -> Tree {
    bare().with("bufferView"@, num(view)).with("componentType"@, num(code)).with(
        "count"@,
        num(count),
    ).with("type"@, Tree::Text(kind))
}

/// The document with the indices of a primitive spliced in.
pub open spec fn indices_spliced(d: Doc, m: int, p: int, indices: Seq<u32>) -> Doc {
    let bin = padded(d.bin, 0);
    let n = indices.len() as int;
    let t = pushed(d.tree, "bufferViews"@, view_def(bin.len() as int, n * 4, None, None));
    let view = list_of(d.tree, "bufferViews"@).len() as int;
    Doc {
        tree: accessor_set(t, m, p, None, accessor_def(view, 5125, n, "SCALAR"@)),
        bin: bin + words(indices),
    }
}

/// The first attribute with id `id`, from `i` on.
pub open spec fn attribute_of(list: Seq<Attribute>, id: u32, i: int) -> Option<Attribute>
    decreases list.len() - i,
{
    if i >= list.len() {
        None
    } else if list[i].id == id {
        Some(list[i])
    } else {
        attribute_of(list, id, i + 1)
    }
}

/// The glTF type of elements of `n` components.
pub open spec fn type_of(n: int) -> Option<Seq<char>> {
    if n == 1 {
        Some("SCALAR"@)
    } else if n == 2 {
        Some("VEC2"@)
    } else if n == 3 {
        Some("VEC3"@)
    } else if n == 4 {
        Some("VEC4"@)
    } else {
        None
    }
}

/// The document with one attribute of a primitive spliced in.
pub open spec fn attribute_spliced(d: Doc, m: int, p: int, semantic: Seq<char>, id: u32, mesh: Decoded) -> Result<
    Doc,
    Message,
> {
    match attribute_of(mesh.attributes, id, 0) {
        None => Err("draco decoder returned no attribute "@ + decimal_chars(id as nat)),
        Some(a) => match type_of(a.components) {
            None => Err(
                "draco attribute with "@ + decimal_chars(a.components as nat) + " components"@,
            ),
            Some(kind) => {
                let n = a.data.len() as int;
                let t = pushed(
                    d.tree,
                    "bufferViews"@,
                    view_def(d.bin.len() as int, n * 4, None, None),
                );
                let view = list_of(d.tree, "bufferViews"@).len() as int;
                let base = accessor_def(view, 5126, n / a.components, kind);
                let accessor = if semantic == "POSITION"@ {
                    base.with("min"@, a.min).with("max"@, a.max)
                } else {
                    base
                };
                Ok(
                    Doc {
                        tree: accessor_set(t, m, p, Some(semantic), accessor),
                        bin: d.bin + words(a.data),
                    },
                )
            },
        },
    }
}

/// Why a splice stopped, and the document as it was left: with everything up to
/// the attribute that could not be spliced in.
pub struct Stopped {
    pub message: Message,
    pub tree: Tree,
}

/// The document with the first `k` attributes of a primitive spliced in.
pub open spec fn attributes_spliced(d: Doc, m: int, p: int, list: Seq<(String, u32)>, k: int, mesh: Decoded) -> Result<
    Doc,
    Stopped,
>
    decreases k,
{
    if k <= 0 {
        Ok(d)
    } else {
        match attributes_spliced(d, m, p, list, k - 1, mesh) {
            Err(e) => Err(e),
            Ok(x) => match attribute_spliced(x, m, p, list[k - 1].0@, list[k - 1].1, mesh) {
                Err(message) => Err(Stopped { message, tree: x.tree }),
                Ok(y) => Ok(y),
            },
        }
    }
}

/// The document with one primitive spliced in, which no longer has the Draco
/// extension.
pub open spec fn prim_spliced(d: Doc, prim: DracoPrim, mesh: Decoded) -> Result<Doc, Stopped> {
    let m = prim.mesh as int;
    let p = prim.prim as int;
    match attributes_spliced(
        indices_spliced(d, m, p, mesh.indices),
        m,
        p,
        prim.attributes@,
        prim.attributes@.len() as int,
        mesh,
    ) {
        Err(e) => Err(e),
        Ok(x) => Ok(
            Doc {
                tree: with_prim(
                    x.tree,
                    m,
                    p,
                    unextended(prim_at(x.tree, m, p), "KHR_draco_mesh_compression"@),
                ),
                bin: x.bin,
            },
        ),
    }
}

/// The decoded primitives of a list.
pub open spec fn decoded_view(v: Seq<DracoMesh>) -> Seq<Decoded> {
    Seq::new(v.len(), |i: int| v[i]@)
}

/// The document with the first `k` primitives spliced in.
pub open spec fn prims_spliced(d: Doc, prims: Seq<DracoPrim>, meshes: Seq<Decoded>, k: int) -> Result<
    Doc,
    Stopped,
>
    decreases k,
{
    if k <= 0 {
        Ok(d)
    } else {
        match prims_spliced(d, prims, meshes, k - 1) {
            Err(e) => Err(e),
            Ok(x) => prim_spliced(x, prims[k - 1], meshes[k - 1]),
        }
    }
}

/// The document whose first buffer has `len` bytes.
pub open spec fn buffer_sized(t: Tree, len: int) -> Tree {
    let first = t.at("buffers"@).item(0);
    if first is Object {
        t.with(
            "buffers"@,
            Tree::Array(list_of(t, "buffers"@).update(0, first.with("byteLength"@, num(len)))),
        )
    } else if len > 0 {
        t.assigned("buffers"@, Tree::Array(seq![bare().with("byteLength"@, num(len))]))
    } else {
        t
    }
}

/// The document and the binary chunk with Draco primitives spliced in.
pub open spec fn draco_spliced(t: Tree, bin: Option<Seq<u8>>, prims: Seq<DracoPrim>, meshes: Seq<Decoded>) -> Result<
    Doc,
    Stopped,
> {
    let start = Doc {
        tree: t,
        bin: match bin {
            Some(b) => b,
            None => Seq::empty(),
        },
    };
    let n = if prims.len() <= meshes.len() {
        prims.len()
    } else {
        meshes.len()
    };
    match prims_spliced(start, prims, meshes, n as int) {
        Err(e) => Err(e),
        Ok(d) => Ok(Doc { tree: buffer_sized(d.tree, d.bin.len() as int), bin: d.bin }),
    }
}

/// Appends `value` to the array `key`, which is made where there is none, and
/// returns its index.
pub fn push_json(json: &mut Json, key: &str, value: Json) -> (ix: usize)
    ensures
        final(json)@ == pushed(old(json)@, key@, value@),
        ix == list_of(old(json)@, key@).len(),
{
    let is_array = match json.get(key) {
        Some(a) => a.is_array(),
        None => false,
    };
    let ghost before = json@;
    let mut list: Vec<Json> = Vec::new();
    if is_array {
        if let Some(Json::Array(v)) = json.take(key) {
            proof {
                lemma_array_view(v);
            }
            list = v;
        }
    }
    assert(trees(list@) =~= list_of(before, key@));
    let ix: usize = list.len();
    let ghost old_list = trees(list@);
    list.push(value);
    proof {
        lemma_array_view(list);
        assert(trees(list@) =~= old_list.push(value@));
    }
    let ghost new = Json::Array(list)@;
    json.assign(key, Json::Array(list));
    proof {
        if let Tree::Object(m) = before {
            assert(m.remove(key@).insert(key@, new) =~= m.insert(key@, new));
        }
    }
    ix
}

fn put_prim(json: &mut Json, m: usize, p: usize, prim: Json)
    ensures
        final(json)@ == with_prim(old(json)@, m as int, p as int, prim@),
{
    let is_array = match json.get("meshes") {
        Some(a) => a.is_array(),
        None => false,
    };
    if !is_array {
        return;
    }
    let ghost before = json@;
    if let Some(Json::Array(v)) = json.take("meshes") {
        let mut meshes = v;
        let ghost all = trees(meshes@);
        proof {
            lemma_array_view(meshes);
        }
        if m < meshes.len() {
            let mut mesh = Json::Null;
            std::mem::swap(&mut mesh, &mut meshes[m]);
            let ghost old_mesh = mesh@;
            let has_prims = match mesh.get("primitives") {
                Some(a) => a.is_array(),
                None => false,
            };
            if has_prims {
                if let Some(Json::Array(ps)) = mesh.take("primitives") {
                    let mut prims = ps;
                    let ghost old_prims = trees(prims@);
                    proof {
                        lemma_array_view(prims);
                    }
                    if p < prims.len() {
                        prims[p] = prim;
                    }
                    proof {
                        lemma_array_view(prims);
                        assert(trees(prims@) =~= replaced(old_prims, p as int, prim@));
                    }
                    let ghost new = Json::Array(prims)@;
                    mesh.set("primitives", Json::Array(prims));
                    proof {
                        let mm = old_mesh->Object_0;
                        assert(mm.remove("primitives"@).insert("primitives"@, new) =~= mm.insert(
                            "primitives"@,
                            new,
                        ));
                    }
                }
            }
            assert(mesh@ == mesh_with(old_mesh, p as int, prim@));
            meshes[m] = mesh;
            assert(trees(meshes@) =~= all.update(m as int, mesh_with(all[m as int], p as int, prim@)));
        }
        proof {
            lemma_array_view(meshes);
        }
        let ghost new = Json::Array(meshes)@;
        json.set("meshes", Json::Array(meshes));
        proof {
            let b = before->Object_0;
            assert(b.remove("meshes"@).insert("meshes"@, new) =~= b.insert("meshes"@, new));
        }
    }
}

fn find_prim<'a>(json: &'a Json, m: usize, p: usize) -> (r: Option<&'a Json>)
    ensures
        opt_tree(r) == prim_at(json@, m as int, p as int),
{
    nth(down(nth(json.get("meshes"), m), "primitives"), p)
}

fn copy_prim(json: &Json, m: usize, p: usize) -> (r: Json)
    ensures
        r@ == prim_at(json@, m as int, p as int),
{
    match find_prim(json, m, p) {
        Some(j) => j.copy(),
        None => Json::Null,
    }
}

/// The characters of an optional string.
pub open spec fn opt_semantic(s: Option<&str>) -> Option<Seq<char>> {
    match s {
        Some(s) => Some(s@),
        None => None,
    }
}

fn set_slot(prim: &mut Json, semantic: Option<&str>, ix: usize)
    ensures
        final(prim)@ == slot_set(old(prim)@, opt_semantic(semantic), num(ix as int)),
{
    match semantic {
        Some(s) => {
            let mut attrs = match prim.get("attributes") {
                Some(a) => a.copy(),
                None => Json::Null,
            };
            attrs.assign(s, Json::number(ix as u64));
            prim.assign("attributes", attrs);
        },
        None => {
            prim.assign("indices", Json::number(ix as u64));
        },
    }
}

/// Points a slot of a primitive at `accessor`: in place of the accessor that it
/// already names, which has no data and must not stay, or appended.
pub fn set_or_push_accessor(
    json: &mut Json,
    m: usize,
    p: usize,
    semantic: Option<&str>,
    accessor: Json,
)
    ensures
        final(json)@ == accessor_set(
            old(json)@,
            m as int,
            p as int,
            opt_semantic(semantic),
            accessor@,
        ),
{
    let prim = find_prim(json, m, p);
    let slot = match semantic {
        Some(s) => opt_u64(down(down(prim, "attributes"), s)),
        None => opt_u64(down(prim, "indices")),
    };
    match slot {
        Some(existing) => {
            let is_array = match json.get("accessors") {
                Some(a) => a.is_array(),
                None => false,
            };
            if is_array {
                let ghost before = json@;
                if let Some(Json::Array(v)) = json.take("accessors") {
                    let mut list = v;
                    let ghost old_list = trees(list@);
                    proof {
                        lemma_array_view(list);
                    }
                    let n: usize = list.len();
                    if existing < n as u64 {
                        let i: usize = existing as usize;
                        list[i] = accessor;
                    }
                    proof {
                        lemma_array_view(list);
                        assert(trees(list@) =~= replaced(old_list, existing as int, accessor@));
                    }
                    let ghost new = Json::Array(list)@;
                    json.set("accessors", Json::Array(list));
                    proof {
                        let b = before->Object_0;
                        assert(b.remove("accessors"@).insert("accessors"@, new) =~= b.insert(
                            "accessors"@,
                            new,
                        ));
                    }
                }
            }
        },
        None => {
            let ix = push_json(json, "accessors", accessor);
            let mut prim = copy_prim(json, m, p);
            set_slot(&mut prim, semantic, ix);
            put_prim(json, m, p, prim);
        },
    }
}

fn push_words(out: &mut Vec<u8>, s: &Vec<u32>)
    ensures
        final(out)@ == old(out)@ + words(s@),
{
    let mut i: usize = 0;
    assert(old(out)@ + words(s@.take(0)) =~= out@);
    while i < s.len()
        invariant
            i <= s@.len(),
            out@ == old(out)@ + words(s@.take(i as int)),
        decreases s@.len() - i,
    {
        push_le(out, s[i] as u128, 4);
        i = i + 1;
        assert(s@.take(i as int).drop_last() =~= s@.take(i - 1));
        assert(old(out)@ + (words(s@.take(i - 1)) + le_bytes(s@[i - 1] as nat, 4)) =~= old(out)@
            + words(s@.take(i - 1)) + le_bytes(s@[i - 1] as nat, 4));
    }
    assert(s@.take(i as int) =~= s@);
}

fn define_accessor(view: usize, code: u64, count: usize, kind: &str) -> (r: Json)
    ensures
        r@ == accessor_def(view as int, code as int, count as int, kind@),
{
    let mut a = empty_object();
    a.set("bufferView", Json::number(view as u64));
    a.set("componentType", Json::number(code));
    a.set("count", Json::number(count as u64));
    a.set("type", Json::Text(String::from_str(kind)));
    a
}

proof fn lemma_words_len(s: Seq<u32>)
    ensures
        words(s).len() == 4 * s.len(),
    decreases s.len(),
{
    if s.len() > 0 {
        lemma_words_len(s.drop_last());
        crate::bytes::lemma_le_bytes_len(s.last() as nat, 4);
    }
}

/// The document and the binary chunk as one value.
pub open spec fn doc(json: Json, bin: Seq<u8>) -> Doc {
    Doc { tree: json@, bin }
}

fn splice_indices(json: &mut Json, bin: &mut Vec<u8>, m: usize, p: usize, indices: &Vec<u32>)
    ensures
        doc(*final(json), final(bin)@) == indices_spliced(
            doc(*old(json), old(bin)@),
            m as int,
            p as int,
            indices@,
        ),
{
    pad4(bin);
    let offset: usize = bin.len();
    push_words(bin, indices);
    proof {
        lemma_words_len(indices@);
    }
    let len: usize = bin.len() - offset;
    let view = push_json(json, "bufferViews", define_view(offset, len, None, None));
    let accessor = define_accessor(view, 5125, indices.len(), "SCALAR");
    set_or_push_accessor(json, m, p, None, accessor);
}

fn find_attribute<'a>(mesh: &'a DracoMesh, id: u32) -> (r: Option<&'a DracoAttribute>)
    ensures
        match attribute_of(mesh@.attributes, id, 0) {
            Some(w) => r matches Some(a) && a@ == w,
            None => r is None,
        },
{
    let mut i: usize = 0;
    while i < mesh.attributes.len()
        invariant
            i <= mesh.attributes@.len(),
            attribute_of(mesh@.attributes, id, 0) == attribute_of(
                mesh@.attributes,
                id,
                i as int,
            ),
        decreases mesh.attributes@.len() - i,
    {
        assert(mesh@.attributes[i as int] == mesh.attributes@[i as int]@);
        if mesh.attributes[i].id == id {
            return Some(&mesh.attributes[i]);
        }
        i = i + 1;
    }
    None
}

fn splice_attribute(
    json: &mut Json,
    bin: &mut Vec<u8>,
    m: usize,
    p: usize,
    semantic: &str,
    id: u32,
    mesh: &DracoMesh,
) -> (r: Result<(), String>)
    ensures
        match attribute_spliced(
            doc(*old(json), old(bin)@),
            m as int,
            p as int,
            semantic@,
            id,
            mesh@,
        ) {
            Ok(d) => r is Ok && doc(*final(json), final(bin)@) == d,
            Err(e) => r matches Err(x) && x@ == e && final(json)@ == old(json)@,
        },
{
    let a = match find_attribute(mesh, id) {
        Some(a) => a,
        None => {
            return Err(
                text::join2(
                    "draco decoder returned no attribute ",
                    text::decimal(id as u64).as_str(),
                ),
            );
        },
    };
    let kind = if a.components == 1 {
        "SCALAR"
    } else if a.components == 2 {
        "VEC2"
    } else if a.components == 3 {
        "VEC3"
    } else if a.components == 4 {
        "VEC4"
    } else {
        return Err(
            text::join3(
                "draco attribute with ",
                text::decimal(a.components as u64).as_str(),
                " components",
            ),
        );
    };
    let count: usize = a.data.len() / a.components;
    let offset: usize = bin.len();
    push_words(bin, &a.data);
    proof {
        lemma_words_len(a.data@);
    }
    let len: usize = bin.len() - offset;
    let view = push_json(json, "bufferViews", define_view(offset, len, None, None));
    let mut accessor = define_accessor(view, 5126, count, kind);
    if text::same(semantic, "POSITION") {
        accessor.set("min", a.min.copy());
        accessor.set("max", a.max.copy());
    }
    set_or_push_accessor(json, m, p, Some(semantic), accessor);
    Ok(())
}

proof fn lemma_attributes_stop(d: Doc, m: int, p: int, list: Seq<(String, u32)>, k: int, n: int, mesh: Decoded)
    requires
        0 <= k <= n,
        attributes_spliced(d, m, p, list, k, mesh) is Err,
    ensures
        attributes_spliced(d, m, p, list, n, mesh) == attributes_spliced(d, m, p, list, k, mesh),
    decreases n - k,
{
    if k < n {
        assert(attributes_spliced(d, m, p, list, k + 1, mesh) == attributes_spliced(
            d,
            m,
            p,
            list,
            k,
            mesh,
        ));
        lemma_attributes_stop(d, m, p, list, k + 1, n, mesh);
    }
}

fn splice_prim(json: &mut Json, bin: &mut Vec<u8>, prim: &DracoPrim, mesh: &DracoMesh) -> (r: Result<
    (),
    String,
>)
    ensures
        match prim_spliced(doc(*old(json), old(bin)@), *prim, mesh@) {
            Ok(d) => r is Ok && doc(*final(json), final(bin)@) == d,
            Err(e) => r matches Err(x) && x@ == e.message && final(json)@ == e.tree,
        },
{
    let m: usize = prim.mesh;
    let p: usize = prim.prim;
    splice_indices(json, bin, m, p, &mesh.indices);
    let ghost start = doc(*json, bin@);
    let ghost list = prim.attributes@;
    let ghost n = list.len() as int;
    let mut k: usize = 0;
    while k < prim.attributes.len()
        invariant
            k <= list.len(),
            list == prim.attributes@,
            n == list.len(),
            m == prim.mesh,
            p == prim.prim,
            start == indices_spliced(
                doc(*old(json), old(bin)@),
                m as int,
                p as int,
                mesh@.indices,
            ),
            attributes_spliced(start, m as int, p as int, list, k as int, mesh@) == Ok::<
                Doc,
                Stopped,
            >(doc(*json, bin@)),
        decreases list.len() - k,
    {
        let semantic = &prim.attributes[k].0;
        let id: u32 = prim.attributes[k].1;
        match splice_attribute(json, bin, m, p, semantic.as_str(), id, mesh) {
            Ok(()) => {},
            Err(e) => {
                proof {
                    lemma_attributes_stop(start, m as int, p as int, list, k + 1, n, mesh@);
                }
                return Err(e);
            },
        }
        k = k + 1;
    }
    let mut last = copy_prim(json, m, p);
    unextend(&mut last, "KHR_draco_mesh_compression");
    put_prim(json, m, p, last);
    Ok(())
}

proof fn lemma_prims_stop(d: Doc, prims: Seq<DracoPrim>, meshes: Seq<Decoded>, k: int, n: int)
    requires
        0 <= k <= n,
        prims_spliced(d, prims, meshes, k) is Err,
    ensures
        prims_spliced(d, prims, meshes, n) == prims_spliced(d, prims, meshes, k),
    decreases n - k,
{
    if k < n {
        assert(prims_spliced(d, prims, meshes, k + 1) == prims_spliced(d, prims, meshes, k));
        lemma_prims_stop(d, prims, meshes, k + 1, n);
    }
}

fn size_buffer(json: &mut Json, len: usize)
    ensures
        final(json)@ == buffer_sized(old(json)@, len as int),
{
    let first = nth(json.get("buffers"), 0);
    let is_object = match first {
        Some(b) => b.is_object(),
        None => false,
    };
    if is_object {
        let ghost before = json@;
        if let Some(Json::Array(v)) = json.take("buffers") {
            let mut list = v;
            let ghost old_list = trees(list@);
            proof {
                lemma_array_view(list);
            }
            let mut buffer = Json::Null;
            std::mem::swap(&mut buffer, &mut list[0]);
            buffer.set("byteLength", Json::number(len as u64));
            let ghost b = buffer@;
            list[0] = buffer;
            proof {
                lemma_array_view(list);
                assert(trees(list@) =~= old_list.update(0, b));
            }
            let ghost new = Json::Array(list)@;
            json.set("buffers", Json::Array(list));
            proof {
                let o = before->Object_0;
                assert(o.remove("buffers"@).insert("buffers"@, new) =~= o.insert("buffers"@, new));
            }
        }
    } else if len > 0 {
        let mut buffer = empty_object();
        buffer.set("byteLength", Json::number(len as u64));
        let list: Vec<Json> = vec![buffer];
        proof {
            lemma_array_view(list);
            assert(trees(list@) =~= seq![bare().with("byteLength"@, num(len as int))]);
        }
        json.assign("buffers", Json::Array(list));
    }
}

/// Splices decoded Draco primitives into the document: their data is appended
/// to the binary chunk behind accessors, and the extension of each primitive is
/// dropped. Returns the new binary chunk. An attribute that cannot be spliced in
/// stops the work, and leaves the document with what came before it.
pub fn splice_draco(
    json: &mut Json,
    bin: Option<&[u8]>,
    prims: &Vec<DracoPrim>,
    decoded: &Vec<DracoMesh>,
) -> (r: Result<Vec<u8>, String>)
    ensures
        match draco_spliced(
            old(json)@,
            crate::glb::opt_bytes(bin),
            prims@,
            decoded_view(decoded@),
        ) {
            Ok(d) => r matches Ok(b) && b@ == d.bin && final(json)@ == d.tree,
            Err(e) => r matches Err(x) && x@ == e.message && final(json)@ == e.tree,
        },
{
    let mut new_bin: Vec<u8> = match bin {
        Some(b) => vstd::slice::slice_to_vec(b),
        None => Vec::new(),
    };
    let n: usize = if prims.len() <= decoded.len() {
        prims.len()
    } else {
        decoded.len()
    };
    let ghost start = doc(*json, new_bin@);
    let ghost meshes = decoded_view(decoded@);
    assert(start.bin =~= match bin {
        Some(b) => b@,
        None => Seq::empty(),
    });
    let mut k: usize = 0;
    while k < n
        invariant
            k <= n,
            n <= prims@.len(),
            n <= decoded@.len(),
            meshes == decoded_view(decoded@),
            start.tree == old(json)@,
            start.bin == (match bin {
                Some(b) => b@,
                None => Seq::empty(),
            }),
            n == if prims@.len() <= meshes.len() {
                prims@.len()
            } else {
                meshes.len()
            },
            prims_spliced(start, prims@, meshes, k as int) == Ok::<Doc, Stopped>(
                doc(*json, new_bin@),
            ),
        decreases n - k,
    {
        match splice_prim(json, &mut new_bin, &prims[k], &decoded[k]) {
            Ok(()) => {},
            Err(e) => {
                proof {
                    lemma_prims_stop(start, prims@, meshes, k + 1, n as int);
                }
                return Err(e);
            },
        }
        k = k + 1;
    }
    size_buffer(json, new_bin.len());
    Ok(new_bin)
}

/// `b` starts with `a`.
pub open spec fn starts_with(b: Seq<u8>, a: Seq<u8>) -> bool {
    a.len() <= b.len() && b.take(a.len() as int) == a
}

proof fn lemma_starts_with(a: Seq<u8>, b: Seq<u8>, c: Seq<u8>)
    requires
        starts_with(b, a),
        starts_with(c, b),
    ensures
        starts_with(c, a),
{
    assert(c.take(a.len() as int) =~= b.take(a.len() as int));
}

proof fn lemma_attributes_append(d: Doc, m: int, p: int, list: Seq<(String, u32)>, k: int, mesh: Decoded)
    requires
        0 <= k <= list.len(),
    ensures
        attributes_spliced(d, m, p, list, k, mesh) matches Ok(x) ==> starts_with(x.bin, d.bin),
    decreases k,
{
    if k > 0 {
        lemma_attributes_append(d, m, p, list, k - 1, mesh);
        if let Ok(x) = attributes_spliced(d, m, p, list, k - 1, mesh) {
            if let Ok(y) = attribute_spliced(x, m, p, list[k - 1].0@, list[k - 1].1, mesh) {
                assert(y.bin.take(x.bin.len() as int) =~= x.bin);
                lemma_starts_with(d.bin, x.bin, y.bin);
            }
        }
    } else {
        assert(d.bin.take(d.bin.len() as int) =~= d.bin);
    }
}

proof fn lemma_prims_append(d: Doc, prims: Seq<DracoPrim>, meshes: Seq<Decoded>, k: int)
    requires
        0 <= k <= prims.len(),
    ensures
        prims_spliced(d, prims, meshes, k) matches Ok(x) ==> starts_with(x.bin, d.bin),
    decreases k,
{
    if k > 0 {
        lemma_prims_append(d, prims, meshes, k - 1);
        if let Ok(x) = prims_spliced(d, prims, meshes, k - 1) {
            let prim = prims[k - 1];
            let mesh = meshes[k - 1];
            let mid = indices_spliced(x, prim.mesh as int, prim.prim as int, mesh.indices);
            assert(mid.bin.take(x.bin.len() as int) =~= x.bin);
            lemma_attributes_append(
                mid,
                prim.mesh as int,
                prim.prim as int,
                prim.attributes@,
                prim.attributes@.len() as int,
                mesh,
            );
            if let Ok(y) = prim_spliced(x, prim, mesh) {
                lemma_starts_with(x.bin, mid.bin, y.bin);
                lemma_starts_with(d.bin, x.bin, y.bin);
            }
        }
    } else {
        assert(d.bin.take(d.bin.len() as int) =~= d.bin);
    }
}

/// Splicing only appends to the binary chunk: what the other views of the
/// document are over stays where it is.
pub proof fn splicing_only_appends(
    t: Tree,
    bin: Seq<u8>,
    prims: Seq<DracoPrim>,
    meshes: Seq<Decoded>,
)
    ensures
        draco_spliced(t, Some(bin), prims, meshes) matches Ok(d) ==> starts_with(d.bin, bin),
{
    let n = if prims.len() <= meshes.len() {
        prims.len()
    } else {
        meshes.len()
    };
    lemma_prims_append(Doc { tree: t, bin }, prims, meshes, n as int);
}

} // verus!
