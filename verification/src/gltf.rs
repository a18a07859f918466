//! Reading glTF documents: buffer views, accessors and feature metadata.
use crate::bytes::{le16, le32, le_at};
use crate::glb::opt_bytes;
use crate::json::{
    down, nth, opt_array, opt_str, opt_tree, opt_u64, trees, Json, Tree,
};
use crate::text;
use crate::text::decimal_chars;
use vstd::prelude::*;

verus! {

/// The message of a failed step.
pub type Message = Seq<char>;

/// What a step that returns bytes came to.
pub open spec fn slice_view(r: Result<&[u8], String>) -> Result<Seq<u8>, Message> {
    match r {
        Ok(b) => Ok(b@),
        Err(e) => Err(e@),
    }
}

/// The `len` bytes at `offset` of the binary chunk, where it has them.
pub open spec fn sliced(bin: Seq<u8>, offset: u64, len: u64) -> Option<Seq<u8>> {
    if offset + len <= bin.len() {
        Some(bin.subrange(offset as int, offset + len))
    } else {
        None
    }
}

/// The `len` bytes at `offset` of `bin`, where it has them.
pub fn slice_of(bin: &[u8], offset: u64, len: u64) -> (r: Option<&[u8]>)
    ensures
        opt_bytes(r) == sliced(bin@, offset, len),
{
    let n: u64 = bin.len() as u64;
    if offset <= n && len <= n - offset {
        let start: usize = offset as usize;
        Some(&bin[start..start + len as usize])
    } else {
        None
    }
}

/// The value, or zero where there is none.
pub open spec fn or_zero(v: Option<u64>) -> u64 {
    match v {
        Some(v) => v,
        None => 0,
    }
}

/// The value, or zero where there is none.
pub fn unwrap_or_zero(v: Option<u64>) -> (r: u64)
    ensures
        r == or_zero(v),
{
    match v {
        Some(v) => v,
        None => 0,
    }
}

/// Buffer view `ix` of a document.
pub open spec fn buffer_view(t: Tree, ix: int) -> Tree {
    t.at("bufferViews"@).item(ix)
}

/// The bytes of buffer view `ix`, in the binary chunk.
pub open spec fn view_slice(t: Tree, bin: Option<Seq<u8>>, ix: int) -> Result<Seq<u8>, Message> {
    let bv = buffer_view(t, ix);
    if bv.at("buffer"@).as_u64() != Some(0u64) {
        Err("draco bufferView must reference buffer 0 (BIN chunk)"@)
    } else {
        match bv.at("byteLength"@).as_u64() {
            None => Err("bufferView without byteLength"@),
            Some(len) => match bin {
                None => Err("draco bufferView references the BIN chunk but the GLB has none"@),
                Some(bin) => match sliced(bin, or_zero(bv.at("byteOffset"@).as_u64()), len) {
                    Some(b) => Ok(b),
                    None => Err("draco bufferView out of BIN bounds"@),
                },
            },
        }
    }
}

fn is_zero(v: Option<u64>) -> (r: bool)
    ensures
        r == (v == Some(0u64)),
{
    match v {
        Some(v) => v == 0,
        None => false,
    }
}

/// The bytes of buffer view `view_ix`, which must be in the binary chunk.
pub fn buffer_view_slice<'b>(json: &Json, bin: Option<&'b [u8]>, view_ix: u64) -> (r: Result<
    &'b [u8],
    String,
>)
    ensures
        slice_view(r) == view_slice(json@, opt_bytes(bin), view_ix as int),
{
    let bv = nth64(json.get("bufferViews"), view_ix);
    if !is_zero(opt_u64(down(bv, "buffer"))) {
        return Err(String::from_str("draco bufferView must reference buffer 0 (BIN chunk)"));
    }
    let offset: u64 = unwrap_or_zero(opt_u64(down(bv, "byteOffset")));
    let len: u64 = match opt_u64(down(bv, "byteLength")) {
        Some(v) => v,
        None => {
            return Err(String::from_str("bufferView without byteLength"));
        },
    };
    match bin {
        None => Err(
            String::from_str("draco bufferView references the BIN chunk but the GLB has none"),
        ),
        Some(bin) => match slice_of(bin, offset, len) {
            Some(b) => Ok(b),
            None => Err(String::from_str("draco bufferView out of BIN bounds")),
        },
    }
}

/// One number of an accessor, as it is stored. A normalized integer stands for
/// a fraction of its greatest value.
#[derive(Debug, Clone, Copy, PartialEq, Eq)]
pub enum Component {
    /// A 32-bit float, by its bits.
    F32(u32),
    /// An integer, and whether it is normalized.
    U8(u8, bool),
    I8(i8, bool),
    U16(u16, bool),
    I16(i16, bool),
    U32(u32),
}

/// The size of a component of glTF type `code`.
pub open spec fn component_size(code: u64) -> Option<int> {
    if code == 5120 || code == 5121 {
        Some(1)
    } else if code == 5122 || code == 5123 {
        Some(2)
    } else if code == 5125 || code == 5126 {
        Some(4)
    } else {
        None
    }
}

/// The number of components of a glTF element type.
pub open spec fn element_size(name: Seq<char>) -> Option<int> {
    if name == "SCALAR"@ {
        Some(1)
    } else if name == "VEC2"@ {
        Some(2)
    } else if name == "VEC3"@ {
        Some(3)
    } else if name == "VEC4"@ {
        Some(4)
    } else {
        None
    }
}

/// The component of glTF type `code` at `at`.
pub open spec fn component_at(b: Seq<u8>, at: int, code: u64, normalized: bool) -> Component {
    if code == 5126 {
        Component::F32(le_at(b, at, 4) as u32)
    } else if code == 5121 {
        Component::U8(b[at], normalized)
    } else if code == 5120 {
        Component::I8(b[at] as i8, normalized)
    } else if code == 5123 {
        Component::U16(le_at(b, at, 2) as u16, normalized)
    } else if code == 5122 {
        Component::I16((le_at(b, at, 2) as u16) as i16, normalized)
    } else {
        Component::U32(le_at(b, at, 4) as u32)
    }
}

/// An element of `n` components that starts at `at`.
pub open spec fn element_at(b: Seq<u8>, at: int, n: int, code: u64, normalized: bool) -> Seq<Component> {
    Seq::new(
        n as nat,
        |c: int| component_at(b, at + c * component_size(code)->0, code, normalized),
    )
}

/// The first element from `i` on that does not lie in `len` bytes, where
/// elements of `width` bytes stand `stride` apart from `offset` on.
pub open spec fn first_outside(len: nat, offset: int, stride: int, width: int, count: int, i: int) -> Option<int>
    decreases count - i,
{
    if i >= count {
        None
    } else if offset + i * stride + width > len {
        Some(i)
    } else {
        first_outside(len, offset, stride, width, count, i + 1)
    }
}

/// The bytes of a buffer view and how its elements stand in them.
pub struct Layout {
    pub view: Seq<u8>,
    pub stride: u64,
}

/// The layout of the accessor `acc` of the document, whose elements take
/// `width` bytes; `what` opens the messages.
pub open spec fn layout_of(t: Tree, bin: Option<Seq<u8>>, acc: Tree, width: int) -> Result<Layout, Message> {
    match acc.at("bufferView"@).as_u64() {
        None => Err("accessor without bufferView"@),
        Some(ix) => {
            let bv = buffer_view(t, ix as int);
            if bv.at("buffer"@).as_u64() != Some(0u64) {
                Err("accessor bufferView must reference buffer 0 (BIN chunk)"@)
            } else {
                match bin {
                    None => Err("accessor references the BIN chunk but the GLB has none"@),
                    Some(bin) => match bv.at("byteLength"@).as_u64() {
                        None => Err("bufferView without byteLength"@),
                        Some(len) => match sliced(bin, or_zero(bv.at("byteOffset"@).as_u64()), len) {
                            None => Err("bufferView out of BIN bounds"@),
                            Some(view) => Ok(
                                Layout {
                                    view,
                                    stride: match bv.at("byteStride"@).as_u64() {
                                        Some(s) => s,
                                        None => width as u64,
                                    },
                                },
                            ),
                        },
                    },
                }
            }
        },
    }
}

/// The elements of accessor `index`, each of `n` components.
pub open spec fn accessor_of(t: Tree, bin: Option<Seq<u8>>, index: int, n: int) -> Result<
    Seq<Seq<Component>>,
    Message,
> {
    let acc = t.at("accessors"@).item(index);
    let name = "accessor "@ + decimal_chars(index as nat);
    if acc is Null {
        Err(name + " out of bounds"@)
    } else {
        match (
            acc.at("count"@).as_u64(),
            acc.at("componentType"@).as_u64(),
            acc.at("type"@).as_str(),
        ) {
            (None, _, _) => Err("accessor without count"@),
            (_, None, _) => Err("accessor without componentType"@),
            (_, _, None) => Err("accessor without type"@),
            (Some(count), Some(code), Some(kind)) => {
                let normalized = acc.at("normalized"@).as_bool() == Some(true);
                if element_size(kind) is None {
                    Err("unsupported accessor type "@ + kind)
                } else if element_size(kind) != Some(n) {
                    Err(
                        name + " is "@ + kind + ", expected "@ + decimal_chars(n as nat)
                            + " components"@,
                    )
                } else if component_size(code) is None {
                    Err("unsupported componentType "@ + decimal_chars(code as nat))
                } else {
                    let width = n * component_size(code)->0;
                    let offset = or_zero(acc.at("byteOffset"@).as_u64()) as int;
                    match layout_of(t, bin, acc, width) {
                        Err(e) => Err(e),
                        Ok(l) => match first_outside(
                            l.view.len(),
                            offset,
                            l.stride as int,
                            width,
                            count as int,
                            0,
                        ) {
                            Some(i) => Err(
                                name + " element "@ + decimal_chars(i as nat) + " out of bounds"@,
                            ),
                            None => Ok(
                                Seq::new(
                                    count as nat,
                                    |i: int|
                                        element_at(
                                            l.view,
                                            offset + i * l.stride,
                                            n,
                                            code,
                                            normalized,
                                        ),
                                ),
                            ),
                        },
                    }
                }
            },
        }
    }
}

/// The elements of a list of rows.
pub open spec fn rows(v: Seq<Vec<Component>>) -> Seq<Seq<Component>> {
    Seq::new(v.len(), |i: int| v[i]@)
}

/// What reading an accessor came to.
pub open spec fn rows_view(r: Result<Vec<Vec<Component>>, String>) -> Result<
    Seq<Seq<Component>>,
    Message,
> {
    match r {
        Ok(v) => Ok(rows(v@)),
        Err(e) => Err(e@),
    }
}

fn component(b: &[u8], at: usize, code: u64, normalized: bool) -> (c: Component)
    requires
        component_size(code) is Some,
        at + component_size(code)->0 <= b@.len(),
    ensures
        c == component_at(b@, at as int, code, normalized),
{
    if code == 5126 {
        Component::F32(le32(b, at))
    } else if code == 5121 {
        Component::U8(b[at], normalized)
    } else if code == 5120 {
        Component::I8(b[at] as i8, normalized)
    } else if code == 5123 {
        Component::U16(le16(b, at), normalized)
    } else if code == 5122 {
        Component::I16(le16(b, at) as i16, normalized)
    } else {
        Component::U32(le32(b, at))
    }
}

fn element(b: &[u8], at: usize, n: usize, code: u64, normalized: bool) -> (out: Vec<Component>)
    requires
        component_size(code) is Some,
        n <= 4,
        at + n * component_size(code)->0 <= b@.len(),
    ensures
        out@ == element_at(b@, at as int, n as int, code, normalized),
{
    let size: usize = if code == 5120 || code == 5121 {
        1
    } else if code == 5122 || code == 5123 {
        2
    } else {
        4
    };
    let len: usize = b.len();
    let mut out: Vec<Component> = Vec::new();
    let mut c: usize = 0;
    let mut from: usize = at;
    while c < n
        invariant
            c <= n <= 4,
            len == b@.len(),
            component_size(code) == Some(size as int),
            from == at + c * size,
            at + n * size <= len,
            size == 1 || size == 2 || size == 4,
            out@.len() == c,
            forall|k: int|
                0 <= k < c ==> out@[k] == component_at(b@, at + k * size, code, normalized),
        decreases n - c,
    {
        assert((c + 1) * size == c * size + size) by (nonlinear_arith);
        assert((c + 1) * size <= n * size) by (nonlinear_arith)
            requires
                c + 1 <= n,
                size >= 0,
        ;
        out.push(component(b, from, code, normalized));
        from = from + size;
        c = c + 1;
    }
    assert(out@ =~= element_at(b@, at as int, n as int, code, normalized));
    out
}

/// The view and the stride of an accessor.
pub struct Strided<'b> {
    pub view: &'b [u8],
    pub stride: u64,
}

/// What finding the layout of an accessor came to.
pub open spec fn strided_view(r: Result<Strided<'_>, String>) -> Result<Layout, Message> {
    match r {
        Ok(s) => Ok(Layout { view: s.view@, stride: s.stride }),
        Err(e) => Err(e@),
    }
}

fn find_layout<'b>(json: &Json, bin: Option<&'b [u8]>, acc: Option<&Json>, width: u64) -> (r: Result<
    Strided<'b>,
    String,
>)
    ensures
        strided_view(r) == layout_of(json@, opt_bytes(bin), opt_tree(acc), width as int),
{
    let ix: u64 = match opt_u64(down(acc, "bufferView")) {
        Some(v) => v,
        None => {
            return Err(String::from_str("accessor without bufferView"));
        },
    };
    let bv = nth64(json.get("bufferViews"), ix);
    if !is_zero(opt_u64(down(bv, "buffer"))) {
        return Err(String::from_str("accessor bufferView must reference buffer 0 (BIN chunk)"));
    }
    let bin = match bin {
        Some(b) => b,
        None => {
            return Err(String::from_str("accessor references the BIN chunk but the GLB has none"));
        },
    };
    let offset: u64 = unwrap_or_zero(opt_u64(down(bv, "byteOffset")));
    let len: u64 = match opt_u64(down(bv, "byteLength")) {
        Some(v) => v,
        None => {
            return Err(String::from_str("bufferView without byteLength"));
        },
    };
    let stride: u64 = match opt_u64(down(bv, "byteStride")) {
        Some(v) => v,
        None => width,
    };
    match slice_of(bin, offset, len) {
        Some(view) => Ok(Strided { view, stride }),
        None => Err(String::from_str("bufferView out of BIN bounds")),
    }
}

/// Item `i` of an optional document, by a 64-bit index.
pub fn nth64<'a>(j: Option<&'a Json>, i: u64) -> (r: Option<&'a Json>)
    ensures
        opt_tree(r) == opt_tree(j).item(i as int),
{
    match j {
        Some(Json::Array(v)) => {
            let n: usize = v.len();
            if i < n as u64 {
                Some(&v[i as usize])
            } else {
                None
            }
        },
        _ => None,
    }
}

fn numbered(name: &str, index: u64, rest: &str) -> (s: String)
    ensures
        s@ == name@ + decimal_chars(index as nat) + rest@,
{
    text::join3(name, text::decimal(index).as_str(), rest)
}

/// Reads `count` elements of `n` components that stand `stride` apart from
/// `offset` on, or returns the first that does not lie in the view.
fn read_elements(
    view: &[u8],
    offset: u64,
    stride: u64,
    count: u64,
    n: usize,
    code: u64,
    normalized: bool,
) -> (r: Result<Vec<Vec<Component>>, u64>)
    requires
        1 <= n <= 4,
        component_size(code) is Some,
    ensures
        ({
            let width = n * component_size(code)->0;
            let bad = first_outside(
                view@.len(),
                offset as int,
                stride as int,
                width,
                count as int,
                0,
            );
            match r {
                Ok(v) => bad is None && rows(v@) == Seq::new(
                    count as nat,
                    |i: int|
                        element_at(view@, offset + i * stride, n as int, code, normalized),
                ),
                Err(i) => bad == Some(i as int),
            }
        }),
{
    let size: usize = if code == 5120 || code == 5121 {
        1
    } else if code == 5122 || code == 5123 {
        2
    } else {
        4
    };
    assert(n * size <= 16) by (nonlinear_arith)
        requires
            0 <= n <= 4,
            0 <= size <= 4,
    ;
    let width: usize = n * size;
    let len: usize = view.len();
    let mut out: Vec<Vec<Component>> = Vec::new();
    let mut i: u64 = 0;
    let mut base: u128 = offset as u128;
    assert(0 * stride == 0);
    while i < count
        invariant
            i <= count,
            1 <= n <= 4,
            component_size(code) == Some(size as int),
            width == n * size,
            width <= 16,
            len == view@.len(),
            base == offset + i * stride,
            base <= len + stride || base == offset,
            out@.len() == i,
            first_outside(
                view@.len(),
                offset as int,
                stride as int,
                width as int,
                count as int,
                0,
            ) == first_outside(
                view@.len(),
                offset as int,
                stride as int,
                width as int,
                count as int,
                i as int,
            ),
            forall|k: int|
                0 <= k < i ==> (#[trigger] out@[k])@ == element_at(
                    view@,
                    offset + k * stride,
                    n as int,
                    code,
                    normalized,
                ),
        decreases count - i,
    {
        if base + width as u128 > len as u128 {
            return Err(i);
        }
        out.push(element(view, base as usize, n, code, normalized));
        assert((i + 1) * stride == i * stride + stride) by (nonlinear_arith);
        base = base + stride as u128;
        i = i + 1;
    }
    assert(rows(out@) =~= Seq::new(
        count as nat,
        |i: int| element_at(view@, offset + i * stride, n as int, code, normalized),
    ));
    Ok(out)
}

/// Reads accessor `index`, whose elements must have `n` components. Floats and
/// integers are supported, packed or strided; sparse accessors are not.
pub fn read_accessor(json: &Json, bin: Option<&[u8]>, index: u64, n: usize) -> (r: Result<
    Vec<Vec<Component>>,
    String,
>)
    ensures
        rows_view(r) == accessor_of(json@, opt_bytes(bin), index as int, n as int),
{
    let acc = nth64(json.get("accessors"), index);
    let absent = match acc {
        None => true,
        Some(Json::Null) => true,
        _ => false,
    };
    if absent {
        return Err(numbered("accessor ", index, " out of bounds"));
    }
    let count: u64 = match opt_u64(down(acc, "count")) {
        Some(v) => v,
        None => {
            return Err(String::from_str("accessor without count"));
        },
    };
    let code: u64 = match opt_u64(down(acc, "componentType")) {
        Some(v) => v,
        None => {
            return Err(String::from_str("accessor without componentType"));
        },
    };
    let normalized = match down(acc, "normalized") {
        Some(Json::Bool(b)) => *b,
        _ => false,
    };
    let kind = match opt_str(down(acc, "type")) {
        Some(s) => s,
        None => {
            return Err(String::from_str("accessor without type"));
        },
    };
    proof {
        reveal_strlit("SCALAR");
        reveal_strlit("VEC2");
        reveal_strlit("VEC3");
        reveal_strlit("VEC4");
        assert("SCALAR"@.len() == 6);
        assert("VEC2"@[3] == '2');
        assert("VEC3"@[3] == '3');
        assert("VEC4"@[3] == '4');
    }
    let comps: usize = if text::same(kind.as_str(), "SCALAR") {
        1
    } else if text::same(kind.as_str(), "VEC2") {
        2
    } else if text::same(kind.as_str(), "VEC3") {
        3
    } else if text::same(kind.as_str(), "VEC4") {
        4
    } else {
        return Err(text::join2("unsupported accessor type ", kind.as_str()));
    };
    if comps != n {
        let mut m = numbered("accessor ", index, " is ");
        m.append(kind.as_str());
        m.append(", expected ");
        m.append(text::decimal(n as u64).as_str());
        m.append(" components");
        return Err(m);
    }
    let size: u64 = if code == 5120 || code == 5121 {
        1
    } else if code == 5122 || code == 5123 {
        2
    } else if code == 5125 || code == 5126 {
        4
    } else {
        return Err(text::join2("unsupported componentType ", text::decimal(code).as_str()));
    };
    assert(n * size <= 16) by (nonlinear_arith)
        requires
            0 <= n <= 4,
            0 <= size <= 4,
    ;
    let width: u64 = n as u64 * size;
    let layout = match find_layout(json, bin, acc, width) {
        Ok(l) => l,
        Err(e) => {
            return Err(e);
        },
    };
    let offset: u64 = unwrap_or_zero(opt_u64(down(acc, "byteOffset")));
    match read_elements(layout.view, offset, layout.stride, count, n, code, normalized) {
        Ok(out) => {
            proof {
                let want = accessor_of(json@, opt_bytes(bin), index as int, n as int);
                assert(rows(out@) =~= want->Ok_0);
            }
            Ok(out)
        },
        Err(i) => {
            let mut m = numbered("accessor ", index, " element ");
            m.append(text::decimal(i).as_str());
            m.append(" out of bounds");
            Err(m)
        },
    }
}

/// What `String::from_utf8_lossy` makes of bytes.
pub uninterp spec fn lossy_text(b: Seq<u8>) -> Seq<char>;

/// Calls `String::from_utf8_lossy`. Valid UTF-8 comes back as the text that it
/// encodes; what stands for invalid bytes is left to the name.
#[verifier::external_body]
pub(crate) fn text_of(b: &[u8]) -> (r: String)
    ensures
        r@ == lossy_text(b@),
        vstd::utf8::valid_utf8(b@) ==> r@ == vstd::utf8::decode_utf8(b@),
{
    String::from_utf8_lossy(b).into_owned()
}

/// The strings of a list.
pub open spec fn strings(v: Seq<String>) -> Seq<Seq<char>> {
    Seq::new(v.len(), |i: int| v[i]@)
}

/// What a step that returns strings came to.
pub open spec fn strings_view(r: Result<Vec<String>, String>) -> Result<Seq<Seq<char>>, Message> {
    match r {
        Ok(v) => Ok(strings(v@)),
        Err(e) => Err(e@),
    }
}

/// The bounds of string `i` in a table of 32-bit offsets.
pub open spec fn string_start(offsets: Seq<u8>, i: int) -> int {
    le_at(offsets, 4 * i, 4) as int
}

/// String `i` lies in the values.
pub open spec fn string_lies(values: Seq<u8>, offsets: Seq<u8>, i: int) -> bool {
    string_start(offsets, i) <= string_start(offsets, i + 1) <= values.len()
}

/// The strings of a property, given its values and its offsets.
pub open spec fn property_strings(values: Seq<u8>, offsets: Seq<u8>, count: int) -> Result<
    Seq<Seq<char>>,
    Message,
> {
    if offsets.len() < (count + 1) * 4 {
        Err("nodePath stringOffsets too short"@)
    } else if exists|i: int| 0 <= i < count && !#[trigger] string_lies(values, offsets, i) {
        Err("nodePath string range out of bounds"@)
    } else {
        Ok(
            Seq::new(
                count as nat,
                |i: int|
                    lossy_text(
                        values.subrange(string_start(offsets, i), string_start(offsets, i + 1)),
                    ),
            ),
        )
    }
}

/// The paths of the nodes that the features of a tile belong to: the `nodePath`
/// strings of the first property table.
pub open spec fn node_paths(t: Tree, bin: Option<Seq<u8>>) -> Result<Seq<Seq<char>>, Message> {
    let table = t.at("extensions"@).at("EXT_structural_metadata"@).at("propertyTables"@).item(0);
    let prop = table.at("properties"@).at("nodePath"@);
    match table.at("count"@).as_u64() {
        None => Err("property table without count"@),
        Some(count) => if count == 0 {
            Ok(Seq::empty())
        } else {
            match (prop.at("values"@).as_u64(), prop.at("stringOffsets"@).as_u64()) {
                (None, _) => Err("nodePath property without values"@),
                (_, None) => Err("nodePath property without stringOffsets"@),
                (Some(v), Some(o)) => match (
                    view_slice(t, bin, v as int),
                    view_slice(t, bin, o as int),
                ) {
                    (Err(e), _) => Err("nodePath values: "@ + e),
                    (_, Err(e)) => Err("nodePath offsets: "@ + e),
                    (Ok(values), Ok(offsets)) => property_strings(values, offsets, count as int),
                },
            }
        },
    }
}

fn read_strings(values: &[u8], offsets: &[u8], count: u64) -> (r: Result<Vec<String>, String>)
    ensures
        strings_view(r) == property_strings(values@, offsets@, count as int),
{
    let room: u64 = offsets.len() as u64 / 4;
    if room == 0 || count > room - 1 {
        return Err(String::from_str("nodePath stringOffsets too short"));
    }
    let n: usize = count as usize;
    let total: usize = offsets.len();
    let mut out: Vec<String> = Vec::new();
    let mut i: usize = 0;
    while i < n
        invariant
            i <= n,
            n == count,
            total == offsets@.len(),
            (n + 1) * 4 <= total,
            out@.len() == i,
            forall|k: int| 0 <= k < i ==> #[trigger] string_lies(values@, offsets@, k),
            forall|k: int|
                0 <= k < i ==> (#[trigger] out@[k])@ == lossy_text(
                    values@.subrange(string_start(offsets@, k), string_start(offsets@, k + 1)),
                ),
        decreases n - i,
    {
        let lo: u32 = le32(offsets, i * 4);
        let hi: u32 = le32(offsets, i * 4 + 4);
        if lo > hi || hi as u64 > values.len() as u64 {
            assert(!string_lies(values@, offsets@, i as int));
            return Err(String::from_str("nodePath string range out of bounds"));
        }
        assert(string_lies(values@, offsets@, i as int));
        out.push(text_of(&values[lo as usize..hi as usize]));
        i = i + 1;
    }
    proof {
        let want = property_strings(values@, offsets@, count as int);
        assert(strings(out@) =~= want->Ok_0);
    }
    Ok(out)
}

/// Reads the `nodePath` strings of the first property table.
pub fn read_node_of_feature(json: &Json, bin: Option<&[u8]>) -> (r: Result<Vec<String>, String>)
    ensures
        strings_view(r) == node_paths(json@, opt_bytes(bin)),
{
    let meta = down(json.get("extensions"), "EXT_structural_metadata");
    let table = nth(down(meta, "propertyTables"), 0);
    let count: u64 = match opt_u64(down(table, "count")) {
        Some(v) => v,
        None => {
            return Err(String::from_str("property table without count"));
        },
    };
    if count == 0 {
        let none: Vec<String> = Vec::new();
        assert(strings(none@) =~= Seq::<Seq<char>>::empty());
        return Ok(none);
    }
    let prop = down(down(table, "properties"), "nodePath");
    let values_ix: u64 = match opt_u64(down(prop, "values")) {
        Some(v) => v,
        None => {
            return Err(String::from_str("nodePath property without values"));
        },
    };
    let offsets_ix: u64 = match opt_u64(down(prop, "stringOffsets")) {
        Some(v) => v,
        None => {
            return Err(String::from_str("nodePath property without stringOffsets"));
        },
    };
    let values = match buffer_view_slice(json, bin, values_ix) {
        Ok(v) => v,
        Err(e) => {
            return Err(text::join2("nodePath values: ", e.as_str()));
        },
    };
    let offsets = match buffer_view_slice(json, bin, offsets_ix) {
        Ok(v) => v,
        Err(e) => {
            return Err(text::join2("nodePath offsets: ", e.as_str()));
        },
    };
    read_strings(values, offsets, count)
}

/// The primitive `prim` of the mesh `mesh`.
pub type PrimKey = (u64, u64);

/// The accessor of a primitive's feature ids, where it has one.
pub open spec fn feature_accessor(prim: Tree) -> Option<u64> {
    match prim.at("extensions"@).at("EXT_mesh_features"@).at("featureIds"@).item(0).at(
        "attribute"@,
    ).as_u64() {
        None => None,
        Some(n) => prim.at("attributes"@).at("_FEATURE_ID_"@ + decimal_chars(n as nat)).as_u64(),
    }
}

/// The feature accessors of the first `k` primitives of mesh `m`.
pub open spec fn prim_features(prims: Seq<Tree>, m: int, k: int) -> Seq<(PrimKey, u64)>
    decreases k,
{
    if k <= 0 {
        Seq::empty()
    } else {
        let rest = prim_features(prims, m, k - 1);
        match feature_accessor(prims[k - 1]) {
            Some(a) => rest.push(((m as u64, (k - 1) as u64), a)),
            None => rest,
        }
    }
}

/// The feature accessors of the first `k` meshes.
pub open spec fn mesh_features(meshes: Seq<Tree>, k: int) -> Seq<(PrimKey, u64)>
    decreases k,
{
    if k <= 0 {
        Seq::empty()
    } else {
        let prims = meshes[k - 1].at("primitives"@).items();
        mesh_features(meshes, k - 1) + prim_features(prims, k - 1, prims.len() as int)
    }
}

/// The feature accessors of a document, by mesh and primitive.
pub open spec fn features_of(t: Tree) -> Seq<(PrimKey, u64)> {
    let meshes = t.at("meshes"@).items();
    mesh_features(meshes, meshes.len() as int)
}

fn find_feature(prim: &Json) -> (r: Option<u64>)
    ensures
        r == feature_accessor(prim@),
{
    let ext = down(prim.get("extensions"), "EXT_mesh_features");
    match opt_u64(down(nth(down(ext, "featureIds"), 0), "attribute")) {
        None => None,
        Some(n) => {
            let key = text::join2("_FEATURE_ID_", text::decimal(n).as_str());
            opt_u64(down(prim.get("attributes"), key.as_str()))
        },
    }
}

fn find_features(json: &Json) -> (r: Vec<(PrimKey, u64)>)
    ensures
        r@ == features_of(json@),
{
    let mut out: Vec<(PrimKey, u64)> = Vec::new();
    let meshes = match opt_array(json.get("meshes")) {
        Some(v) => v,
        None => {
            return out;
        },
    };
    let ghost ms = trees(meshes@);
    let mut m: usize = 0;
    while m < meshes.len()
        invariant
            m <= meshes@.len(),
            ms == trees(meshes@),
            out@ == mesh_features(ms, m as int),
        decreases meshes@.len() - m,
    {
        let ghost before = out@;
        if let Some(prims) = opt_array(meshes[m].get("primitives")) {
            let ghost ps = trees(prims@);
            assert(before + Seq::<(PrimKey, u64)>::empty() =~= before);
            let mut p: usize = 0;
            while p < prims.len()
                invariant
                    p <= prims@.len(),
                    ps == trees(prims@),
                    out@ == before + prim_features(ps, m as int, p as int),
                decreases prims@.len() - p,
            {
                if let Some(a) = find_feature(&prims[p]) {
                    out.push(((m as u64, p as u64), a));
                }
                p = p + 1;
                assert(out@ =~= before + prim_features(ps, m as int, p as int));
            }
            assert(ms[m as int].at("primitives"@).items() == ps);
        } else {
            assert(ms[m as int].at("primitives"@).items().len() == 0);
            assert(before + prim_features(
                ms[m as int].at("primitives"@).items(),
                m as int,
                0,
            ) =~= before);
        }
        m = m + 1;
    }
    out
}

/// The feature metadata of a tile. It owns the document, so that the ids of a
/// primitive are read only when asked for.
pub struct FeatureCtx {
    pub json: Json,
    /// The path of the node of each feature.
    pub node_of_feature: Vec<String>,
    /// The accessor of the ids of each primitive that has any.
    pub accessor: Vec<(PrimKey, u64)>,
}

/// The ids of one primitive, vertex by vertex.
pub struct VertexIds {
    pub key: PrimKey,
    pub ids: Vec<Component>,
}

/// The feature metadata of a prepared tile.
pub struct PreparedFeatures {
    pub node_of_feature: Vec<String>,
    pub vertex_ids: Vec<VertexIds>,
}

/// The accessor of key `key` among the first `k`.
pub open spec fn keyed(list: Seq<(PrimKey, u64)>, key: PrimKey, k: int) -> Option<u64>
    decreases k,
{
    if k <= 0 {
        None
    } else if list[k - 1].0 == key {
        Some(list[k - 1].1)
    } else {
        keyed(list, key, k - 1)
    }
}

/// The only component of each element.
pub open spec fn scalars(rows: Seq<Seq<Component>>) -> Seq<Component> {
    Seq::new(rows.len(), |i: int| rows[i][0])
}

/// The scalars of accessor `a`.
pub open spec fn scalar_accessor(t: Tree, bin: Option<Seq<u8>>, a: int) -> Result<
    Seq<Component>,
    Message,
> {
    match accessor_of(t, bin, a, 1) {
        Ok(rows) => Ok(scalars(rows)),
        Err(e) => Err(e),
    }
}

/// The ids of the first `k` primitives that have any, or the first error.
pub open spec fn vertex_ids_of(t: Tree, bin: Option<Seq<u8>>, list: Seq<(PrimKey, u64)>, k: int) -> Result<
    Seq<(PrimKey, Seq<Component>)>,
    Message,
>
    decreases k,
{
    if k <= 0 {
        Ok(Seq::empty())
    } else {
        match vertex_ids_of(t, bin, list, k - 1) {
            Err(e) => Err(e),
            Ok(rest) => match scalar_accessor(t, bin, list[k - 1].1 as int) {
                Err(e) => Err(e),
                Ok(ids) => Ok(rest.push((list[k - 1].0, ids))),
            },
        }
    }
}

/// The ids of a list of primitives.
pub open spec fn ids_view(v: Seq<VertexIds>) -> Seq<(PrimKey, Seq<Component>)> {
    Seq::new(v.len(), |i: int| (v[i].key, v[i].ids@))
}

fn read_scalars(json: &Json, bin: Option<&[u8]>, a: u64) -> (r: Result<Vec<Component>, String>)
    ensures
        match r {
            Ok(v) => scalar_accessor(json@, opt_bytes(bin), a as int) == Ok::<
                Seq<Component>,
                Message,
            >(v@),
            Err(e) => scalar_accessor(json@, opt_bytes(bin), a as int) == Err::<
                Seq<Component>,
                Message,
            >(e@),
        },
{
    let found = match read_accessor(json, bin, a, 1) {
        Ok(v) => v,
        Err(e) => {
            return Err(e);
        },
    };
    proof {
        lemma_rows_len(json@, opt_bytes(bin), a as int, 1);
        assert forall|k: int| 0 <= k < found@.len() implies (#[trigger] found@[k])@.len() == 1 by {
            assert(rows(found@)[k] == found@[k]@);
        }
    }
    let mut out: Vec<Component> = Vec::new();
    let mut i: usize = 0;
    while i < found.len()
        invariant
            i <= found@.len(),
            out@.len() == i,
            forall|k: int| 0 <= k < found@.len() ==> (#[trigger] found@[k])@.len() == 1,
            forall|k: int| 0 <= k < i ==> out@[k] == found@[k]@[0],
        decreases found@.len() - i,
    {
        out.push(found[i][0]);
        i = i + 1;
    }
    assert(out@ =~= scalars(rows(found@)));
    Ok(out)
}

proof fn lemma_rows_len(t: Tree, bin: Option<Seq<u8>>, index: int, n: int)
    requires
        n >= 0,
    ensures
        accessor_of(t, bin, index, n) matches Ok(rows) ==> forall|k: int|
            0 <= k < rows.len() ==> (#[trigger] rows[k]).len() == n,
{
}

impl FeatureCtx {
    /// The metadata belongs to its document.
    pub open spec fn wf(self) -> bool {
        self.accessor@ == features_of(self.json@)
    }

    /// Reads the metadata of a parsed document.
    pub fn build(value: Json, bin: Option<&[u8]>) -> (r: Result<Self, String>)
        ensures
            match r {
                Ok(c) => {
                    &&& c.wf()
                    &&& c.json@ == value@
                    &&& node_paths(value@, opt_bytes(bin)) == Ok::<Seq<Seq<char>>, Message>(
                        strings(c.node_of_feature@),
                    )
                },
                Err(e) => node_paths(value@, opt_bytes(bin)) == Err::<Seq<Seq<char>>, Message>(e@),
            },
    {
        let node_of_feature = match read_node_of_feature(&value, bin) {
            Ok(v) => v,
            Err(e) => {
                return Err(e);
            },
        };
        let accessor = find_features(&value);
        Ok(FeatureCtx { json: value, node_of_feature, accessor })
    }

    /// The ids of a primitive, vertex by vertex as they are stored; none when
    /// the primitive has no feature ids.
    pub fn per_vertex_ids(&self, bin: Option<&[u8]>, mesh_ix: u64, prim_ix: u64) -> (r: Result<
        Option<Vec<Component>>,
        String,
    >)
        requires
            self.wf(),
        ensures
            ({
                let list = features_of(self.json@);
                match keyed(list, (mesh_ix, prim_ix), list.len() as int) {
                    None => r matches Ok(None),
                    Some(a) => match scalar_accessor(self.json@, opt_bytes(bin), a as int) {
                        Ok(ids) => r matches Ok(Some(v)) && v@ == ids,
                        Err(m) => r matches Err(e) && e@ == m,
                    },
                }
            }),
    {
        let mut k: usize = self.accessor.len();
        while k > 0
            invariant
                k <= self.accessor@.len(),
                keyed(self.accessor@, (mesh_ix, prim_ix), self.accessor@.len() as int) == keyed(
                    self.accessor@,
                    (mesh_ix, prim_ix),
                    k as int,
                ),
                self.wf(),
            decreases k,
        {
            k = k - 1;
            let ((m, p), a) = self.accessor[k];
            if m == mesh_ix && p == prim_ix {
                return match read_scalars(&self.json, bin, a) {
                    Ok(v) => Ok(Some(v)),
                    Err(e) => Err(e),
                };
            }
        }
        Ok(None)
    }

    /// Reads the ids of every primitive that has any, in the order of meshes
    /// and primitives.
    pub fn materialize(self, bin: Option<&[u8]>) -> (r: Result<PreparedFeatures, String>)
        requires
            self.wf(),
        ensures
            ({
                let list = features_of(self.json@);
                match vertex_ids_of(self.json@, opt_bytes(bin), list, list.len() as int) {
                    Ok(ids) => r matches Ok(f) && ids_view(f.vertex_ids@) == ids
                        && f.node_of_feature == self.node_of_feature,
                    Err(m) => r matches Err(e) && e@ == m,
                }
            }),
    {
        let mut out: Vec<VertexIds> = Vec::new();
        let mut k: usize = 0;
        let ghost list = self.accessor@;
        let ghost t = self.json@;
        let ghost n = list.len() as int;
        assert(ids_view(out@) =~= Seq::<(PrimKey, Seq<Component>)>::empty());
        while k < self.accessor.len()
            invariant
                k <= list.len(),
                list == self.accessor@,
                n == list.len(),
                t == self.json@,
                vertex_ids_of(t, opt_bytes(bin), list, k as int) == Ok::<
                    Seq<(PrimKey, Seq<Component>)>,
                    Message,
                >(ids_view(out@)),
                self.wf(),
            decreases list.len() - k,
        {
            let (key, a) = self.accessor[k];
            match read_scalars(&self.json, bin, a) {
                Ok(ids) => {
                    let ghost before = ids_view(out@);
                    out.push(VertexIds { key, ids });
                    assert(ids_view(out@) =~= before.push((key, ids@)));
                },
                Err(e) => {
                    proof {
                        lemma_first_error(t, opt_bytes(bin), list, k + 1, n);
                    }
                    return Err(e);
                },
            }
            k = k + 1;
        }
        Ok(PreparedFeatures { node_of_feature: self.node_of_feature, vertex_ids: out })
    }
}

proof fn lemma_first_error(t: Tree, bin: Option<Seq<u8>>, list: Seq<(PrimKey, u64)>, k: int, n: int)
    requires
        0 <= k <= n,
        vertex_ids_of(t, bin, list, k) is Err,
    ensures
        vertex_ids_of(t, bin, list, n) == vertex_ids_of(t, bin, list, k),
    decreases n - k,
{
    if k < n {
        assert(vertex_ids_of(t, bin, list, k + 1) == vertex_ids_of(t, bin, list, k));
        lemma_first_error(t, bin, list, k + 1, n);
    }
}

} // verus!
