//! Rewriting a tile's document into plain glTF.
use crate::glb::{opt_bytes, padded};
use crate::gltf::{or_zero, slice_of, sliced, unwrap_or_zero, Message};
use crate::json::{
    down, keys_in_order, lists_members, nth, opt_array, opt_str, opt_tree, opt_u64, trees, unsigned, Json, Member,
    Tree,
};
use crate::text;
use vstd::prelude::*;

verus! {

/// The items that are none of the strings `a` and `b`.
pub open spec fn kept(items: Seq<Tree>, a: Seq<char>, b: Seq<char>) -> Seq<Tree>
    decreases items.len(),
{
    if items.len() == 0 {
        Seq::empty()
    } else {
        let rest = kept(items.drop_last(), a, b);
        if items.last().as_str() == Some(a) || items.last().as_str() == Some(b) {
            rest
        } else {
            rest.push(items.last())
        }
    }
}

/// The document without the strings `a` and `b` in the array `list`, and
/// without the array where nothing is left in it.
pub open spec fn unlisted(t: Tree, list: Seq<char>, a: Seq<char>, b: Seq<char>) -> Tree {
    match t.at(list) {
        Tree::Array(items) => if kept(items, a, b).len() == 0 {
            t.without(list)
        } else {
            t.with(list, Tree::Array(kept(items, a, b)))
        },
        _ => t,
    }
}

/// The document that no longer declares the extensions `a` and `b`.
pub open spec fn undeclared(t: Tree, a: Seq<char>, b: Seq<char>) -> Tree {
    unlisted(unlisted(t, "extensionsUsed"@, a, b), "extensionsRequired"@, a, b)
}

fn keep(items: &Vec<Json>, a: &str, b: &str) -> (out: Vec<Json>)
    ensures
        trees(out@) == kept(trees(items@), a@, b@),
{
    let mut out: Vec<Json> = Vec::new();
    let mut i: usize = 0;
    let ghost all = trees(items@);
    assert(trees(out@) =~= kept(all.take(0), a@, b@));
    while i < items.len()
        invariant
            i <= items@.len(),
            all == trees(items@),
            trees(out@) == kept(all.take(i as int), a@, b@),
        decreases items@.len() - i,
    {
        let drop = match items[i].as_str() {
            Some(s) => text::same(s.as_str(), a) || text::same(s.as_str(), b),
            None => false,
        };
        let ghost before = trees(out@);
        if !drop {
            let one = items[i].copy();
            out.push(one);
            assert(trees(out@) =~= before.push(all[i as int]));
        }
        i = i + 1;
        assert(all.take(i as int).drop_last() =~= all.take(i - 1));
        assert(all.take(i as int).last() == all[i - 1]);
    }
    assert(all.take(i as int) =~= all);
    out
}

/// The tree of an array.
pub proof fn lemma_array_view(v: Vec<Json>)
    ensures
        Json::Array(v)@ == Tree::Array(trees(v@)),
{
    assert(Json::Array(v)@->Array_0 =~= trees(v@));
}

fn unlist(json: &mut Json, list: &str, a: &str, b: &str)
    ensures
        final(json)@ == unlisted(old(json)@, list@, a@, b@),
{
    let left = match opt_array(json.get(list)) {
        Some(items) => Some(keep(items, a, b)),
        None => None,
    };
    match left {
        Some(left) => if left.len() == 0 {
            json.remove(list);
        } else {
            proof {
                lemma_array_view(left);
            }
            json.set(list, Json::Array(left));
        },
        None => {},
    }
}

fn undeclare(json: &mut Json, a: &str, b: &str)
    ensures
        final(json)@ == undeclared(old(json)@, a@, b@),
{
    unlist(json, "extensionsUsed", a, b);
    unlist(json, "extensionsRequired", a, b);
}

/// The document without the extension `name` among its extensions, and without
/// the object of extensions where nothing is left in it.
pub open spec fn unextended(t: Tree, name: Seq<char>) -> Tree {
    match t.at("extensions"@) {
        Tree::Object(m) => if m.remove(name) == Map::<Seq<char>, Tree>::empty() {
            t.without("extensions"@)
        } else {
            t.with("extensions"@, Tree::Object(m.remove(name)))
        },
        _ => t,
    }
}

pub(crate) fn unextend(json: &mut Json, name: &str)
    ensures
        final(json)@ == unextended(old(json)@, name@),
{
    let is_object = match json.get("extensions") {
        Some(e) => e.is_object(),
        None => false,
    };
    if is_object {
        let ghost before = json@;
        match json.take("extensions") {
            Some(mut ext) => {
                ext.remove(name);
                if !ext.is_bare() {
                    json.set("extensions", ext);
                    proof {
                        let m = before->Object_0;
                        assert(m.remove("extensions"@).insert("extensions"@, ext@) =~= m.insert(
                            "extensions"@,
                            ext@,
                        ));
                    }
                }
            },
            None => {},
        }
    }
}

/// The document without what the decoder handles itself.
pub open spec fn stripped(t: Tree) -> Tree {
    undeclared(unextended(t, "CESIUM_RTC"@), "KHR_draco_mesh_compression"@, "CESIUM_RTC"@)
}

/// Drops the extensions that the decoder handles itself: a strict glTF reader
/// refuses a document that requires one it does not know.
pub fn strip_handled_extensions(json: &mut Json)
    ensures
        final(json)@ == stripped(old(json)@),
{
    unextend(json, "CESIUM_RTC");
    undeclare(json, "KHR_draco_mesh_compression", "CESIUM_RTC");
}

/// A primitive that is compressed with Draco.
#[derive(Debug)]
pub struct DracoPrim {
    pub mesh: usize,
    pub prim: usize,
    pub buffer_view: u64,
    /// The Draco attribute of each glTF attribute.
    pub attributes: Vec<(String, u32)>,
}

/// `list` holds each member of `m` that is an unsigned integer once, in the order
/// of the keys.
pub open spec fn attributes_match(list: Seq<(String, u32)>, m: Map<Seq<char>, Tree>) -> bool {
    &&& forall|i: int, j: int|
        0 <= i < j < list.len() ==> text::before(
            (#[trigger] list[i]).0@,
            (#[trigger] list[j]).0@,
        )
    &&& forall|i: int|
        0 <= i < list.len() ==> m.contains_key((#[trigger] list[i]).0@) && (m[list[i].0@].as_u64()
            matches Some(id) && list[i].1 == id as u32)
    &&& forall|k: Seq<char>| #[trigger]
        m.contains_key(k) && m[k].as_u64() is Some ==> exists|i: int|
            0 <= i < list.len() && (#[trigger] list[i]).0@ == k
}

/// The Draco extension of a primitive, where it is complete: its buffer view
/// and its attributes.
pub open spec fn draco_parts(prim: Tree) -> Option<(u64, Map<Seq<char>, Tree>)> {
    let ext = prim.at("extensions"@).at("KHR_draco_mesh_compression"@);
    match (ext.at("bufferView"@).as_u64(), ext.at("attributes"@).as_object()) {
        (Some(view), Some(m)) => Some((view, m)),
        _ => None,
    }
}

/// Where the Draco primitives of a document stand: mesh, primitive, buffer view
/// and attributes of each.
pub open spec fn prim_dracos(prims: Seq<Tree>, m: int, k: int) -> Seq<
    (int, int, u64, Map<Seq<char>, Tree>),
>
    decreases k,
{
    if k <= 0 {
        Seq::empty()
    } else {
        let rest = prim_dracos(prims, m, k - 1);
        match draco_parts(prims[k - 1]) {
            Some((view, attrs)) => rest.push((m, k - 1, view, attrs)),
            None => rest,
        }
    }
}

/// The Draco primitives of the first `k` meshes.
pub open spec fn mesh_dracos(meshes: Seq<Tree>, k: int) -> Seq<
    (int, int, u64, Map<Seq<char>, Tree>),
>
    decreases k,
{
    if k <= 0 {
        Seq::empty()
    } else {
        let prims = meshes[k - 1].at("primitives"@).items();
        mesh_dracos(meshes, k - 1) + prim_dracos(prims, k - 1, prims.len() as int)
    }
}

/// The Draco primitives of a document.
pub open spec fn dracos_of(t: Tree) -> Seq<(int, int, u64, Map<Seq<char>, Tree>)> {
    let meshes = t.at("meshes"@).items();
    mesh_dracos(meshes, meshes.len() as int)
}

/// `p` is the Draco primitive `d`.
pub open spec fn draco_is(p: DracoPrim, d: (int, int, u64, Map<Seq<char>, Tree>)) -> bool {
    p.mesh == d.0 && p.prim == d.1 && p.buffer_view == d.2 && attributes_match(
        p.attributes@,
        d.3,
    )
}

/// `list` holds the Draco primitives `want`, in order.
pub open spec fn dracos_are(list: Seq<DracoPrim>, want: Seq<(int, int, u64, Map<Seq<char>, Tree>)>) -> bool {
    list.len() == want.len() && forall|i: int|
        0 <= i < list.len() ==> draco_is(#[trigger] list[i], want[i])
}

fn attributes_of(list: &Vec<(&String, &Json)>, Ghost(m): Ghost<Map<Seq<char>, Tree>>) -> (out: Vec<
    (String, u32),
>)
    requires
        lists_members(list@, m),
        keys_in_order(list@),
    ensures
        attributes_match(out@, m),
{
    let mut out: Vec<(String, u32)> = Vec::new();
    let mut at: Ghost<Seq<int>> = Ghost(Seq::empty());
    let mut i: usize = 0;
    while i < list.len()
        invariant
            i <= list@.len(),
            lists_members(list@, m),
            keys_in_order(list@),
            at@.len() == out@.len(),
            forall|x: int|
                0 <= x < out@.len() ==> {
                    &&& 0 <= #[trigger] at@[x] < i
                    &&& out@[x].0@ == list@[at@[x]].0@
                    &&& list@[at@[x]].1@.as_u64() matches Some(id) && out@[x].1 == id as u32
                },
            forall|x: int, y: int|
                0 <= x < y < at@.len() ==> #[trigger] at@[x] < #[trigger] at@[y],
            forall|k: int|
                0 <= k < i && (#[trigger] list@[k]).1@.as_u64() is Some ==> exists|x: int|
                    0 <= x < at@.len() && #[trigger] at@[x] == k,
        decreases list@.len() - i,
    {
        let ghost before = at@;
        let (key, value) = list[i];
        if let Some(id) = value.as_u64() {
            out.push((key.clone(), id as u32));
            proof {
                at@ = at@.push(i as int);
            }
            assert(at@[before.len() as int] == i);
        }
        assert forall|k: int| 0 <= k < i + 1 && (#[trigger] list@[k]).1@.as_u64() is Some implies exists|
            x: int,
        |
            0 <= x < at@.len() && #[trigger] at@[x] == k by {
            if k < i {
                let x = choose|x: int| 0 <= x < before.len() && #[trigger] before[x] == k;
                assert(at@[x] == k);
            }
        }
        i = i + 1;
    }
    proof {
        assert forall|x: int, y: int| 0 <= x < y < out@.len() implies text::before(
            (#[trigger] out@[x]).0@,
            (#[trigger] out@[y]).0@,
        ) by {
            assert(at@[x] < at@[y]);
            assert(text::before(list@[at@[x]].0@, list@[at@[y]].0@));
        }
        assert forall|x: int| 0 <= x < out@.len() implies m.contains_key((#[trigger] out@[x]).0@)
            && (m[out@[x].0@].as_u64() matches Some(id) && out@[x].1 == id as u32) by {
            let a = at@[x];
            assert(list@[a].0@ == out@[x].0@);
        }
        assert forall|k: Seq<char>| #[trigger]
            m.contains_key(k) && m[k].as_u64() is Some implies exists|i: int|
            0 <= i < out@.len() && (#[trigger] out@[i]).0@ == k by {
            let j = choose|j: int| 0 <= j < list@.len() && (#[trigger] list@[j]).0@ == k;
            assert(list@[j].1@ == m[k]);
            let x = choose|x: int| 0 <= x < at@.len() && #[trigger] at@[x] == j;
            assert(out@[x].0@ == k);
        }
    }
    out
}

fn find_draco(prim: &Json, m: usize, p: usize) -> (r: Option<DracoPrim>)
    ensures
        match draco_parts(prim@) {
            Some((view, attrs)) => r matches Some(d) && draco_is(
                d,
                (m as int, p as int, view, attrs),
            ),
            None => r is None,
        },
{
    let ext = down(prim.get("extensions"), "KHR_draco_mesh_compression");
    let view: u64 = match opt_u64(down(ext, "bufferView")) {
        Some(v) => v,
        None => {
            return None;
        },
    };
    let attrs = match down(ext, "attributes") {
        Some(a) => a,
        None => {
            return None;
        },
    };
    match attrs.entries() {
        Some(list) => {
            let attributes = attributes_of(&list, Ghost(attrs@->Object_0));
            Some(DracoPrim { mesh: m, prim: p, buffer_view: view, attributes })
        },
        None => None,
    }
}

/// Finds the Draco primitives of a document.
pub fn find_draco_prims(json: &Json) -> (out: Vec<DracoPrim>)
    ensures
        dracos_are(out@, dracos_of(json@)),
{
    let mut out: Vec<DracoPrim> = Vec::new();
    let meshes = match opt_array(json.get("meshes")) {
        Some(v) => v,
        None => {
            return out;
        },
    };
    let ghost ms = trees(meshes@);
    let mut m: usize = 0;
    while m < meshes.len()
        invariant
            m <= meshes@.len(),
            ms == trees(meshes@),
            dracos_are(out@, mesh_dracos(ms, m as int)),
        decreases meshes@.len() - m,
    {
        let ghost before = mesh_dracos(ms, m as int);
        if let Some(prims) = opt_array(meshes[m].get("primitives")) {
            let ghost ps = trees(prims@);
            assert(before + prim_dracos(ps, m as int, 0) =~= before);
            let mut p: usize = 0;
            while p < prims.len()
                invariant
                    p <= prims@.len(),
                    ps == trees(prims@),
                    dracos_are(out@, before + prim_dracos(ps, m as int, p as int)),
                decreases prims@.len() - p,
            {
                let ghost so_far = prim_dracos(ps, m as int, p as int);
                if let Some(d) = find_draco(&prims[p], m, p) {
                    out.push(d);
                }
                p = p + 1;
                proof {
                    match draco_parts(ps[p - 1]) {
                        Some((view, attrs)) => {
                            let x = (m as int, p - 1, view, attrs);
                            assert(before + so_far.push(x) =~= (before + so_far).push(x));
                        },
                        None => {},
                    }
                }
            }
            assert(ms[m as int].at("primitives"@).items() == ps);
        } else {
            assert(ms[m as int].at("primitives"@).items().len() == 0);
            assert(before + prim_dracos(
                ms[m as int].at("primitives"@).items(),
                m as int,
                0,
            ) =~= before);
        }
        m = m + 1;
    }
    out
}

/// An object without members.
pub open spec fn bare() -> Tree {
    Tree::Object(Map::<Seq<char>, Tree>::empty())
}

/// An unsigned integer.
pub open spec fn num(v: int) -> Tree {
    Tree::Number(unsigned(v as u64))
}

pub(crate) fn empty_object() -> (r: Json)
    ensures
        r@ == bare(),
{
    let none: Vec<Member> = Vec::new();
    proof {
        crate::json::lemma_members_empty(none@);
    }
    Json::Object(none)
}

/// A compressed buffer view, as the meshopt decoder takes it.
#[derive(Debug)]
pub struct MeshoptJob {
    pub mode: String,
    pub filter: String,
    pub count: u64,
    pub stride: u64,
    pub src: Vec<u8>,
}

/// [`MeshoptJob`] as a mathematical value.
pub struct Job {
    pub mode: Seq<char>,
    pub filter: Seq<char>,
    pub count: u64,
    pub stride: u64,
    pub src: Seq<u8>,
}

impl View for MeshoptJob {
    type V = Job;

    open spec fn view(&self) -> Job {
        Job {
            mode: self.mode@,
            filter: self.filter@,
            count: self.count,
            stride: self.stride,
            src: self.src@,
        }
    }
}

/// What becomes of a buffer view.
pub enum Plan {
    /// It is decoded.
    Decode(Job),
    /// Its bytes are copied.
    Copy { bytes: Seq<u8>, stride: Option<u64>, target: Option<u64> },
}

/// What becomes of the buffer view `bv`.
pub open spec fn plan_of(bv: Tree, bin: Seq<u8>) -> Result<Plan, Message> {
    let ext = bv.at("extensions"@).at("EXT_meshopt_compression"@);
    if ext is Object {
        if or_zero(ext.at("buffer"@).as_u64()) != 0 {
            Err("meshopt ext references a non-BIN buffer"@)
        } else {
            match (
                ext.at("byteLength"@).as_u64(),
                ext.at("byteStride"@).as_u64(),
                ext.at("count"@).as_u64(),
                ext.at("mode"@).as_str(),
            ) {
                (None, _, _, _) => Err("meshopt ext without byteLength"@),
                (_, None, _, _) => Err("meshopt ext without byteStride"@),
                (_, _, None, _) => Err("meshopt ext without count"@),
                (_, _, _, None) => Err("meshopt ext without mode"@),
                (Some(len), Some(stride), Some(count), Some(mode)) => match sliced(
                    bin,
                    or_zero(ext.at("byteOffset"@).as_u64()),
                    len,
                ) {
                    None => Err("meshopt compressed data out of BIN bounds"@),
                    Some(src) => Ok(
                        Plan::Decode(
                            Job {
                                mode,
                                filter: match ext.at("filter"@).as_str() {
                                    Some(f) => f,
                                    None => "NONE"@,
                                },
                                count,
                                stride,
                                src,
                            },
                        ),
                    ),
                },
            }
        }
    } else if or_zero(bv.at("buffer"@).as_u64()) != 0 {
        Err("non-meshopt bufferView references a non-BIN buffer"@)
    } else {
        match bv.at("byteLength"@).as_u64() {
            None => Err("bufferView without byteLength"@),
            Some(len) => match sliced(bin, or_zero(bv.at("byteOffset"@).as_u64()), len) {
                None => Err("bufferView out of BIN bounds"@),
                Some(bytes) => Ok(
                    Plan::Copy {
                        bytes,
                        stride: bv.at("byteStride"@).as_u64(),
                        target: bv.at("target"@).as_u64(),
                    },
                ),
            },
        }
    }
}

/// A buffer view of `len` bytes at `offset` of the one buffer.
pub open spec fn view_def(offset: int, len: int, stride: Option<u64>, target: Option<u64>) -> Tree {
    let base = bare().with("buffer"@, num(0)).with("byteOffset"@, num(offset)).with(
        "byteLength"@,
        num(len),
    );
    let strided = match stride {
        Some(s) => base.with("byteStride"@, num(s as int)),
        None => base,
    };
    match target {
        Some(t) => strided.with("target"@, num(t as int)),
        None => strided,
    }
}

/// The rewritten views so far: the new buffer, the views over it, and how many
/// views were decoded.
pub struct Rewritten {
    pub bin: Seq<u8>,
    pub views: Seq<Tree>,
    pub decoded: int,
}

/// The `i`th result of the decoder.
pub open spec fn decoded_at(decoded: Seq<Result<Seq<u8>, Message>>, i: int) -> Result<
    Seq<u8>,
    Message,
> {
    if 0 <= i < decoded.len() {
        decoded[i]
    } else {
        Err("meshopt bufferView was not decoded"@)
    }
}

/// The first `k` views rewritten, or the first error.
pub open spec fn rewritten(views: Seq<Tree>, bin: Seq<u8>, decoded: Seq<Result<Seq<u8>, Message>>, k: int) -> Result<
    Rewritten,
    Message,
>
    decreases k,
{
    if k <= 0 {
        Ok(Rewritten { bin: Seq::empty(), views: Seq::empty(), decoded: 0 })
    } else {
        match rewritten(views, bin, decoded, k - 1) {
            Err(e) => Err(e),
            Ok(r) => match plan_of(views[k - 1], bin) {
                Err(e) => Err(e),
                Ok(Plan::Decode(job)) => match decoded_at(decoded, r.decoded) {
                    Err(e) => Err(e),
                    Ok(d) => Ok(
                        Rewritten {
                            bin: padded(r.bin, 0) + d,
                            views: r.views.push(
                                view_def(
                                    padded(r.bin, 0).len() as int,
                                    d.len() as int,
                                    if job.mode == "ATTRIBUTES"@ {
                                        Some(job.stride)
                                    } else {
                                        None
                                    },
                                    None,
                                ),
                            ),
                            decoded: r.decoded + 1,
                        },
                    ),
                },
                Ok(Plan::Copy { bytes, stride, target }) => Ok(
                    Rewritten {
                        bin: padded(r.bin, 0) + bytes,
                        views: r.views.push(
                            view_def(
                                padded(r.bin, 0).len() as int,
                                bytes.len() as int,
                                stride,
                                target,
                            ),
                        ),
                        decoded: r.decoded,
                    },
                ),
            },
        }
    }
}

/// The document over one buffer of `len` bytes with the given views, which no
/// longer declares the meshopt extension.
pub open spec fn over_one_buffer(t: Tree, views: Seq<Tree>, len: int) -> Tree {
    let buffers = Tree::Array(seq![bare().with("byteLength"@, num(len))]);
    undeclared(
        t.assigned("bufferViews"@, Tree::Array(views)).assigned("buffers"@, buffers),
        "EXT_meshopt_compression"@,
        "EXT_meshopt_compression"@,
    )
}

/// What rewriting the views of a document comes to: the new document and the
/// new binary chunk.
pub open spec fn meshopt_rewritten(t: Tree, bin: Option<Seq<u8>>, decoded: Seq<Result<Seq<u8>, Message>>) -> Result<
    (Tree, Seq<u8>),
    Message,
> {
    let views = t.at("bufferViews"@).items();
    match bin {
        None => Err("meshopt GLB has no BIN chunk"@),
        Some(bin) => match rewritten(views, bin, decoded, views.len() as int) {
            Err(e) => Err(e),
            Ok(r) => Ok((over_one_buffer(t, r.views, r.bin.len() as int), r.bin)),
        },
    }
}

/// What becomes of a buffer view, in its parts.
enum ViewPlan<'b> {
    Decode(MeshoptJob),
    Copy { bytes: &'b [u8], stride: Option<u64>, target: Option<u64> },
}

spec fn view_plan(r: Result<ViewPlan<'_>, String>) -> Result<Plan, Message> {
    match r {
        Ok(ViewPlan::Decode(job)) => Ok(Plan::Decode(job@)),
        Ok(ViewPlan::Copy { bytes, stride, target }) => Ok(
            Plan::Copy { bytes: bytes@, stride, target },
        ),
        Err(e) => Err(e@),
    }
}

fn plan_view<'b>(bv: &Json, bin: &'b [u8]) -> (r: Result<ViewPlan<'b>, String>)
    ensures
        view_plan(r) == plan_of(bv@, bin@),
{
    let ext = down(bv.get("extensions"), "EXT_meshopt_compression");
    let compressed = match ext {
        Some(e) => e.is_object(),
        None => false,
    };
    if compressed {
        if unwrap_or_zero(opt_u64(down(ext, "buffer"))) != 0 {
            return Err(String::from_str("meshopt ext references a non-BIN buffer"));
        }
        let offset: u64 = unwrap_or_zero(opt_u64(down(ext, "byteOffset")));
        let len: u64 = match opt_u64(down(ext, "byteLength")) {
            Some(v) => v,
            None => {
                return Err(String::from_str("meshopt ext without byteLength"));
            },
        };
        let stride: u64 = match opt_u64(down(ext, "byteStride")) {
            Some(v) => v,
            None => {
                return Err(String::from_str("meshopt ext without byteStride"));
            },
        };
        let count: u64 = match opt_u64(down(ext, "count")) {
            Some(v) => v,
            None => {
                return Err(String::from_str("meshopt ext without count"));
            },
        };
        let mode = match opt_str(down(ext, "mode")) {
            Some(s) => s.clone(),
            None => {
                return Err(String::from_str("meshopt ext without mode"));
            },
        };
        let filter = match opt_str(down(ext, "filter")) {
            Some(s) => s.clone(),
            None => String::from_str("NONE"),
        };
        match slice_of(bin, offset, len) {
            Some(b) => Ok(
                ViewPlan::Decode(
                    MeshoptJob { mode, filter, count, stride, src: vstd::slice::slice_to_vec(b) },
                ),
            ),
            None => Err(String::from_str("meshopt compressed data out of BIN bounds")),
        }
    } else {
        if unwrap_or_zero(opt_u64(bv.get("buffer"))) != 0 {
            return Err(String::from_str("non-meshopt bufferView references a non-BIN buffer"));
        }
        let offset: u64 = unwrap_or_zero(opt_u64(bv.get("byteOffset")));
        let len: u64 = match opt_u64(bv.get("byteLength")) {
            Some(v) => v,
            None => {
                return Err(String::from_str("bufferView without byteLength"));
            },
        };
        match slice_of(bin, offset, len) {
            Some(bytes) => Ok(
                ViewPlan::Copy {
                    bytes,
                    stride: opt_u64(bv.get("byteStride")),
                    target: opt_u64(bv.get("target")),
                },
            ),
            None => Err(String::from_str("bufferView out of BIN bounds")),
        }
    }
}

/// The jobs among the first `k` views, up to the first view with an error.
pub open spec fn jobs_of(views: Seq<Tree>, bin: Seq<u8>, k: int) -> (Seq<Job>, bool)
    decreases k,
{
    if k <= 0 {
        (Seq::empty(), true)
    } else {
        let (jobs, sound) = jobs_of(views, bin, k - 1);
        if !sound {
            (jobs, false)
        } else {
            match plan_of(views[k - 1], bin) {
                Err(_) => (jobs, false),
                Ok(Plan::Decode(job)) => (jobs.push(job), true),
                Ok(Plan::Copy { .. }) => (jobs, true),
            }
        }
    }
}

/// The jobs of a list.
pub open spec fn jobs_view(v: Seq<MeshoptJob>) -> Seq<Job> {
    Seq::new(v.len(), |i: int| v[i]@)
}

/// Lists what the meshopt decoder has to decode for a document, in order and up
/// to the first view that has an error.
pub fn meshopt_jobs(json: &Json, bin: Option<&[u8]>) -> (out: Vec<MeshoptJob>)
    ensures
        match bin {
            Some(b) => jobs_view(out@) == jobs_of(
                json@.at("bufferViews"@).items(),
                b@,
                json@.at("bufferViews"@).items().len() as int,
            ).0,
            None => out@.len() == 0,
        },
{
    let mut out: Vec<MeshoptJob> = Vec::new();
    let chunk = match bin {
        Some(b) => b,
        None => {
            return out;
        },
    };
    assert(jobs_view(out@) =~= Seq::<Job>::empty());
    let views = match opt_array(json.get("bufferViews")) {
        Some(v) => v,
        None => {
            assert(json@.at("bufferViews"@).items().len() == 0);
            return out;
        },
    };
    let ghost all = trees(views@);
    let mut i: usize = 0;
    while i < views.len()
        invariant
            i <= views@.len(),
            all == trees(views@),
            bin == Some(chunk),
            json@.at("bufferViews"@).items() == all,
            jobs_of(all, chunk@, i as int) == (jobs_view(out@), true),
        decreases views@.len() - i,
    {
        match plan_view(&views[i], chunk) {
            Ok(ViewPlan::Decode(job)) => {
                let ghost before = jobs_view(out@);
                out.push(job);
                assert(jobs_view(out@) =~= before.push(job@));
            },
            Ok(ViewPlan::Copy { .. }) => {},
            Err(_) => {
                proof {
                    lemma_jobs_stop(all, chunk@, i + 1, all.len() as int);
                }
                return out;
            },
        }
        i = i + 1;
    }
    out
}

proof fn lemma_jobs_stop(views: Seq<Tree>, bin: Seq<u8>, k: int, n: int)
    requires
        0 <= k <= n,
        !jobs_of(views, bin, k).1,
    ensures
        jobs_of(views, bin, n) == jobs_of(views, bin, k),
    decreases n - k,
{
    if k < n {
        assert(jobs_of(views, bin, k + 1) == jobs_of(views, bin, k));
        lemma_jobs_stop(views, bin, k + 1, n);
    }
}

proof fn lemma_rewrite_stops(views: Seq<Tree>, bin: Seq<u8>, decoded: Seq<Result<Seq<u8>, Message>>, k: int, n: int)
    requires
        0 <= k <= n,
        rewritten(views, bin, decoded, k) is Err,
    ensures
        rewritten(views, bin, decoded, n) == rewritten(views, bin, decoded, k),
    decreases n - k,
{
    if k < n {
        assert(rewritten(views, bin, decoded, k + 1) == rewritten(views, bin, decoded, k));
        lemma_rewrite_stops(views, bin, decoded, k + 1, n);
    }
}

pub(crate) fn pad4(out: &mut Vec<u8>)
    ensures
        final(out)@ == padded(old(out)@, 0),
{
    let k: usize = (4 - out.len() % 4) % 4;
    let mut i: usize = 0;
    while i < k
        invariant
            i <= k,
            out@ == old(out)@ + Seq::new(i as nat, |j: int| 0u8),
        decreases k - i,
    {
        out.push(0);
        i = i + 1;
        assert(out@ =~= old(out)@ + Seq::new(i as nat, |j: int| 0u8));
    }
}

pub(crate) fn define_view(offset: usize, len: usize, stride: Option<u64>, target: Option<u64>) -> (r: Json)
    ensures
        r@ == view_def(offset as int, len as int, stride, target),
{
    let mut def = empty_object();
    def.set("buffer", Json::number(0));
    def.set("byteOffset", Json::number(offset as u64));
    def.set("byteLength", Json::number(len as u64));
    if let Some(s) = stride {
        def.set("byteStride", Json::number(s));
    }
    if let Some(t) = target {
        def.set("target", Json::number(t));
    }
    def
}

/// The results of the decoder.
pub open spec fn results_view(v: Seq<Result<Vec<u8>, String>>) -> Seq<Result<Seq<u8>, Message>> {
    Seq::new(
        v.len(),
        |i: int|
            match v[i] {
                Ok(b) => Ok(b@),
                Err(e) => Err(e@),
            },
    )
}

fn rewrite_views(views: &Vec<Json>, bin: &[u8], decoded: &Vec<Result<Vec<u8>, String>>) -> (r: Result<
    (Vec<u8>, Vec<Json>),
    String,
>)
    ensures
        match rewritten(
            trees(views@),
            bin@,
            results_view(decoded@),
            views@.len() as int,
        ) {
            Ok(w) => r matches Ok((b, defs)) && b@ == w.bin && trees(defs@) == w.views,
            Err(m) => r matches Err(e) && e@ == m,
        },
{
    let ghost all = trees(views@);
    let ghost results = results_view(decoded@);
    let mut out: Vec<u8> = Vec::new();
    let mut defs: Vec<Json> = Vec::new();
    let mut used: usize = 0;
    let mut i: usize = 0;
    assert(trees(defs@) =~= Seq::<Tree>::empty());
    while i < views.len()
        invariant
            i <= views@.len(),
            all == trees(views@),
            results == results_view(decoded@),
            used <= decoded@.len(),
            rewritten(all, bin@, results, i as int) matches Ok(w) && w.bin == out@ && w.views
                == trees(defs@) && w.decoded == used,
        decreases views@.len() - i,
    {
        let ghost before = trees(defs@);
        match plan_view(&views[i], bin) {
            Ok(ViewPlan::Decode(job)) => {
                if used >= decoded.len() {
                    proof {
                        lemma_rewrite_stops(all, bin@, results, i + 1, all.len() as int);
                    }
                    return Err(String::from_str("meshopt bufferView was not decoded"));
                }
                assert(results[used as int] == match decoded@[used as int] {
                    Ok(b) => Ok::<Seq<u8>, Message>(b@),
                    Err(e) => Err(e@),
                });
                match &decoded[used] {
                    Ok(d) => {
                        pad4(&mut out);
                        let offset: usize = out.len();
                        let ghost padded_so_far = out@;
                        out.extend_from_slice(d.as_slice());
                        assert(out@ =~= padded_so_far + d@);
                        let stride = if text::same(job.mode.as_str(), "ATTRIBUTES") {
                            Some(job.stride)
                        } else {
                            None
                        };
                        let def = define_view(offset, d.len(), stride, None);
                        defs.push(def);
                        used = used + 1;
                        assert(trees(defs@) =~= before.push(def@));
                    },
                    Err(e) => {
                        proof {
                            lemma_rewrite_stops(all, bin@, results, i + 1, all.len() as int);
                        }
                        return Err(e.clone());
                    },
                }
            },
            Ok(ViewPlan::Copy { bytes, stride, target }) => {
                pad4(&mut out);
                let offset: usize = out.len();
                let ghost padded_so_far = out@;
                out.extend_from_slice(bytes);
                assert(out@ =~= padded_so_far + bytes@);
                let def = define_view(offset, bytes.len(), stride, target);
                defs.push(def);
                assert(trees(defs@) =~= before.push(def@));
            },
            Err(e) => {
                proof {
                    lemma_rewrite_stops(all, bin@, results, i + 1, all.len() as int);
                }
                return Err(e);
            },
        }
        i = i + 1;
    }
    Ok((out, defs))
}

/// Rewrites a document whose buffer views are compressed with meshopt into one
/// over a single plain buffer, and returns that buffer. `decoded` holds what
/// the decoder made of the jobs of [`meshopt_jobs`], in order. The views keep
/// their indices; those that are not compressed are copied.
pub fn decode_meshopt_views(
    json: &mut Json,
    bin: Option<&[u8]>,
    decoded: &Vec<Result<Vec<u8>, String>>,
) -> (r: Result<Vec<u8>, String>)
    ensures
        match meshopt_rewritten(old(json)@, opt_bytes(bin), results_view(decoded@)) {
            Ok((t, b)) => r matches Ok(v) && v@ == b && final(json)@ == t,
            Err(m) => r matches Err(e) && e@ == m && final(json)@ == old(json)@,
        },
{
    let bin = match bin {
        Some(b) => b,
        None => {
            return Err(String::from_str("meshopt GLB has no BIN chunk"));
        },
    };
    let none: Vec<Json> = Vec::new();
    let views = match opt_array(json.get("bufferViews")) {
        Some(v) => v,
        None => &none,
    };
    assert(trees(views@) =~= json@.at("bufferViews"@).items());
    let (out, defs) = match rewrite_views(views, bin, decoded) {
        Ok(x) => x,
        Err(e) => {
            return Err(e);
        },
    };
    proof {
        lemma_array_view(defs);
    }
    json.assign("bufferViews", Json::Array(defs));
    let mut buffer = empty_object();
    buffer.set("byteLength", Json::number(out.len() as u64));
    let buffers: Vec<Json> = vec![buffer];
    proof {
        lemma_array_view(buffers);
        assert(trees(buffers@) =~= seq![bare().with("byteLength"@, num(out@.len() as int))]);
    }
    json.assign("buffers", Json::Array(buffers));
    undeclare(json, "EXT_meshopt_compression", "EXT_meshopt_compression");
    Ok(out)
}

/// A texture that names its image in the standard place.
pub open spec fn plain_texture(t: Tree) -> Tree {
    match t.at("extensions"@).at("KHR_texture_basisu"@).at("source"@).as_u64() {
        None => t,
        Some(source) => unextended(
            t.with("source"@, num(source as int)),
            "KHR_texture_basisu"@,
        ),
    }
}

/// The document whose textures name their images in the standard place.
pub open spec fn basisu_rewritten(t: Tree) -> Tree {
    let moved = match t.at("textures"@) {
        Tree::Array(items) => t.with("textures"@, Tree::Array(items.map_values(|x: Tree| plain_texture(x)))),
        _ => t,
    };
    undeclared(moved, "KHR_texture_basisu"@, "KHR_texture_basisu"@)
}

fn move_source(tex: &mut Json)
    ensures
        final(tex)@ == plain_texture(old(tex)@),
{
    let ext = down(tex.get("extensions"), "KHR_texture_basisu");
    if let Some(source) = opt_u64(down(ext, "source")) {
        tex.set("source", Json::number(source));
        unextend(tex, "KHR_texture_basisu");
    }
}

/// Moves the image of each `KHR_texture_basisu` texture to the standard place,
/// and drops the extension.
pub fn preprocess_basisu(json: &mut Json)
    ensures
        final(json)@ == basisu_rewritten(old(json)@),
{
    let is_array = match json.get("textures") {
        Some(t) => t.is_array(),
        None => false,
    };
    if is_array {
        let ghost before = json@;
        match json.take("textures") {
            Some(Json::Array(textures)) => {
                let mut textures = textures;
                let ghost all = trees(textures@);
                proof {
                    lemma_array_view(textures);
                }
                let mut i: usize = 0;
                while i < textures.len()
                    invariant
                        i <= textures@.len(),
                        textures@.len() == all.len(),
                        forall|k: int|
                            0 <= k < i ==> (#[trigger] textures@[k])@ == plain_texture(all[k]),
                        forall|k: int|
                            i <= k < all.len() ==> (#[trigger] textures@[k])@ == all[k],
                    decreases textures@.len() - i,
                {
                    let mut tex = Json::Null;
                    std::mem::swap(&mut tex, &mut textures[i]);
                    move_source(&mut tex);
                    textures[i] = tex;
                    i = i + 1;
                }
                proof {
                    lemma_array_view(textures);
                    assert(trees(textures@) =~= all.map_values(|x: Tree| plain_texture(x)));
                }
                let ghost new = Json::Array(textures)@;
                json.set("textures", Json::Array(textures));
                proof {
                    let m = before->Object_0;
                    assert(m.remove("textures"@).insert("textures"@, new) =~= m.insert(
                        "textures"@,
                        new,
                    ));
                }
            },
            _ => {},
        }
    }
    undeclare(json, "KHR_texture_basisu", "KHR_texture_basisu");
}

// Tiles whose root nodes carry positions on the planet.

/// The unsigned integers among items, in order.
pub open spec fn indices(items: Seq<Tree>) -> Seq<u64>
    decreases items.len(),
{
    if items.len() == 0 {
        Seq::empty()
    } else {
        match items.last().as_u64() {
            Some(v) => indices(items.drop_last()).push(v),
            None => indices(items.drop_last()),
        }
    }
}

/// The root nodes of the document's scene, where it has a list of them.
pub open spec fn roots_of(t: Tree) -> Option<Seq<u64>> {
    match t.at("scenes"@).item(or_zero(t.at("scene"@).as_u64()) as int).at("nodes"@) {
        Tree::Array(items) => Some(indices(items)),
        _ => None,
    }
}

/// A number, where the document is one.
pub open spec fn number_in(t: Tree) -> Option<serde_json::Number> {
    match t {
        Tree::Number(n) => Some(n),
        _ => None,
    }
}

/// The three coordinates of a translation; what is missing counts as zero.
pub type Coordinates = (
    Option<serde_json::Number>,
    Option<serde_json::Number>,
    Option<serde_json::Number>,
);

/// The translation of a node: the last column of a matrix of sixteen, or the
/// translation on its own.
pub open spec fn translation_of(node: Tree) -> Coordinates {
    let m = node.at("matrix"@);
    let t = node.at("translation"@);
    if m is Array && m->Array_0.len() == 16 {
        (number_in(m.item(12)), number_in(m.item(13)), number_in(m.item(14)))
    } else {
        (number_in(t.item(0)), number_in(t.item(1)), number_in(t.item(2)))
    }
}

/// `s` with item `i` replaced, where it has one.
pub open spec fn replaced(s: Seq<Tree>, i: int, v: Tree) -> Seq<Tree> {
    if 0 <= i < s.len() {
        s.update(i, v)
    } else {
        s
    }
}

/// The node with a new translation: in its matrix where it has one, else on its
/// own.
pub open spec fn node_moved(node: Tree, x: Tree, y: Tree, z: Tree) -> Tree {
    match node.at("matrix"@) {
        Tree::Array(m) => node.with(
            "matrix"@,
            Tree::Array(replaced(replaced(replaced(m, 12, x), 13, y), 14, z)),
        ),
        _ => node.assigned("translation"@, Tree::Array(seq![x, y, z])),
    }
}

/// The document whose node `ix` has a new translation.
pub open spec fn root_moved(t: Tree, ix: int, x: Tree, y: Tree, z: Tree) -> Tree {
    match t.at("nodes"@) {
        Tree::Array(nodes) => if 0 <= ix < nodes.len() {
            t.with("nodes"@, Tree::Array(nodes.update(ix, node_moved(nodes[ix], x, y, z))))
        } else {
            t
        },
        _ => t,
    }
}

/// The root nodes of the document's scene, where it has a list of them.
pub fn planetary_roots(json: &Json) -> (r: Option<Vec<u64>>)
    ensures
        match roots_of(json@) {
            Some(s) => r matches Some(v) && v@ == s,
            None => r is None,
        },
{
    let scene: u64 = unwrap_or_zero(opt_u64(json.get("scene")));
    let items = match opt_array(down(crate::gltf::nth64(json.get("scenes"), scene), "nodes")) {
        Some(v) => v,
        None => {
            return None;
        },
    };
    let ghost all = trees(items@);
    let mut out: Vec<u64> = Vec::new();
    let mut i: usize = 0;
    assert(out@ =~= indices(all.take(0)));
    while i < items.len()
        invariant
            i <= items@.len(),
            all == trees(items@),
            out@ == indices(all.take(i as int)),
        decreases items@.len() - i,
    {
        if let Some(v) = items[i].as_u64() {
            out.push(v);
        }
        i = i + 1;
        assert(all.take(i as int).drop_last() =~= all.take(i - 1));
        assert(all.take(i as int).last() == all[i - 1]);
    }
    assert(all.take(i as int) =~= all);
    Some(out)
}

fn number_of(j: Option<&Json>) -> (r: Option<serde_json::Number>)
    ensures
        r == number_in(opt_tree(j)),
{
    match j {
        Some(Json::Number(n)) => Some(crate::json::number_clone(n)),
        _ => None,
    }
}

/// The translation of node `ix`.
pub fn root_translation(json: &Json, ix: u64) -> (r: Coordinates)
    ensures
        r == translation_of(json@.at("nodes"@).item(ix as int)),
{
    let node = crate::gltf::nth64(json.get("nodes"), ix);
    let m = down(node, "matrix");
    let whole = match opt_array(m) {
        Some(v) => v.len() == 16,
        None => false,
    };
    if whole {
        (number_of(nth(m, 12)), number_of(nth(m, 13)), number_of(nth(m, 14)))
    } else {
        let t = down(node, "translation");
        (number_of(nth(t, 0)), number_of(nth(t, 1)), number_of(nth(t, 2)))
    }
}

fn replace(v: &mut Vec<Json>, i: usize, x: Json)
    ensures
        trees(final(v)@) == replaced(trees(old(v)@), i as int, x@),
{
    if i < v.len() {
        v[i] = x;
        assert(trees(v@) =~= trees(old(v)@).update(i as int, x@));
    }
}

fn move_node(node: &mut Json, x: Json, y: Json, z: Json)
    ensures
        final(node)@ == node_moved(old(node)@, x@, y@, z@),
{
    let has_matrix = match node.get("matrix") {
        Some(m) => m.is_array(),
        None => false,
    };
    let ghost before = node@;
    if has_matrix {
        match node.take("matrix") {
            Some(Json::Array(m)) => {
                let mut m = m;
                proof {
                    lemma_array_view(m);
                }
                replace(&mut m, 12, x);
                replace(&mut m, 13, y);
                replace(&mut m, 14, z);
                proof {
                    lemma_array_view(m);
                }
                let ghost new = Json::Array(m)@;
                node.set("matrix", Json::Array(m));
                proof {
                    let b = before->Object_0;
                    assert(b.remove("matrix"@).insert("matrix"@, new) =~= b.insert(
                        "matrix"@,
                        new,
                    ));
                }
            },
            _ => {},
        }
    } else {
        let v: Vec<Json> = vec![x, y, z];
        proof {
            lemma_array_view(v);
            assert(trees(v@) =~= seq![x@, y@, z@]);
        }
        node.assign("translation", Json::Array(v));
    }
}

/// Gives node `ix` a new translation.
pub fn move_root(json: &mut Json, ix: u64, x: Json, y: Json, z: Json)
    ensures
        final(json)@ == root_moved(old(json)@, ix as int, x@, y@, z@),
{
    let is_array = match json.get("nodes") {
        Some(t) => t.is_array(),
        None => false,
    };
    if !is_array {
        return;
    }
    let ghost before = json@;
    match json.take("nodes") {
        Some(Json::Array(nodes)) => {
            let mut nodes = nodes;
            let ghost all = trees(nodes@);
            proof {
                lemma_array_view(nodes);
            }
            let n: usize = nodes.len();
            if ix < n as u64 {
                let i: usize = ix as usize;
                let mut node = Json::Null;
                std::mem::swap(&mut node, &mut nodes[i]);
                move_node(&mut node, x, y, z);
                nodes[i] = node;
                assert(trees(nodes@) =~= all.update(ix as int, node_moved(all[ix as int], x@, y@, z@)));
            }
            proof {
                lemma_array_view(nodes);
            }
            let ghost new = Json::Array(nodes)@;
            json.set("nodes", Json::Array(nodes));
            proof {
                let b = before->Object_0;
                assert(b.remove("nodes"@).insert("nodes"@, new) =~= b.insert("nodes"@, new));
                if ix >= n {
                    assert(b.insert("nodes"@, new) =~= b);
                }
            }
        },
        _ => {},
    }
}

/// Where the data of view `i` starts in the new binary chunk.
pub open spec fn view_start(views: Seq<Tree>, bin: Seq<u8>, decoded: Seq<Result<Seq<u8>, Message>>, i: int) -> int {
    match rewritten(views, bin, decoded, i) {
        Ok(r) => padded(r.bin, 0).len() as int,
        Err(_) => 0,
    }
}

/// The data of view `i`: its own bytes, or what the decoder made of them.
pub open spec fn view_data(views: Seq<Tree>, bin: Seq<u8>, decoded: Seq<Result<Seq<u8>, Message>>, i: int) -> Seq<u8> {
    match (plan_of(views[i], bin), rewritten(views, bin, decoded, i)) {
        (Ok(Plan::Copy { bytes, .. }), _) => bytes,
        (Ok(Plan::Decode(_)), Ok(r)) => match decoded_at(decoded, r.decoded) {
            Ok(d) => d,
            Err(_) => Seq::empty(),
        },
        _ => Seq::empty(),
    }
}

/// Views keep their numbers when they are rewritten: view `i` of the new
/// document is over the data of view `i`, which stands where the view says, at a
/// multiple of four.
pub proof fn views_keep_their_numbers(
    views: Seq<Tree>,
    bin: Seq<u8>,
    decoded: Seq<Result<Seq<u8>, Message>>,
    k: int,
    i: int,
)
    requires
        0 <= i < k <= views.len(),
    ensures
        rewritten(views, bin, decoded, k) matches Ok(r) ==> {
            let start = view_start(views, bin, decoded, i);
            let data = view_data(views, bin, decoded, i);
            &&& r.views.len() == k
            &&& start % 4 == 0
            &&& start + data.len() <= r.bin.len()
            &&& r.bin.subrange(start, start + data.len()) == data
            &&& match plan_of(views[i], bin) {
                Ok(Plan::Copy { stride, target, .. }) => r.views[i] == view_def(
                    start,
                    data.len() as int,
                    stride,
                    target,
                ),
                Ok(Plan::Decode(job)) => r.views[i] == view_def(
                    start,
                    data.len() as int,
                    if job.mode == "ATTRIBUTES"@ {
                        Some(job.stride)
                    } else {
                        None
                    },
                    None,
                ),
                Err(_) => false,
            }
        },
    decreases k,
{
    lemma_view_count(views, bin, decoded, k - 1);
    if let Ok(r) = rewritten(views, bin, decoded, k) {
        let before = rewritten(views, bin, decoded, k - 1)->Ok_0;
        let all = padded(before.bin, 0);
        let start = view_start(views, bin, decoded, i);
        let data = view_data(views, bin, decoded, i);
        if i == k - 1 {
            assert(r.bin == all + data);
            assert(r.bin.subrange(start, start + data.len()) =~= data);
        } else {
            views_keep_their_numbers(views, bin, decoded, k - 1, i);
            assert(all.subrange(0, before.bin.len() as int) =~= before.bin);
            assert(r.bin.subrange(start, start + data.len()) =~= before.bin.subrange(
                start,
                start + data.len(),
            ));
        }
    }
}

proof fn lemma_view_count(views: Seq<Tree>, bin: Seq<u8>, decoded: Seq<Result<Seq<u8>, Message>>, k: int)
    requires
        0 <= k <= views.len(),
    ensures
        rewritten(views, bin, decoded, k) matches Ok(r) ==> r.views.len() == k,
    decreases k,
{
    if k > 0 {
        lemma_view_count(views, bin, decoded, k - 1);
    }
}

} // verus!
