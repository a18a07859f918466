//! JSON documents: a tree of plain values, its mathematical model, and the
//! passage from and to JSON text.
use crate::text;
use vstd::prelude::*;

verus! {

/// A JSON document as a mathematical value. The members of an object have no
/// order; where a text repeats a key, the last occurrence counts.
pub enum Tree {
    Null,
    Bool(bool),
    Number(serde_json::Number),
    Text(Seq<char>),
    Array(Seq<Tree>),
    Object(Map<Seq<char>, Tree>),
}

/// One key of an object and what it maps to.
pub struct Member {
    pub key: String,
    pub value: Json,
}

/// A JSON document.
pub enum Json {
    Null,
    Bool(bool),
    Number(serde_json::Number),
    Text(String),
    Array(Vec<Json>),
    /// Members in any order; of two with the same key the later one counts.
    Object(Vec<Member>),
}

impl View for Json {
    type V = Tree;

    open spec fn view(&self) -> Tree
        decreases *self,
    {
        match *self {
            Json::Null => Tree::Null,
            Json::Bool(b) => Tree::Bool(b),
            Json::Number(n) => Tree::Number(n),
            Json::Text(s) => Tree::Text(s@),
            Json::Array(v) => Tree::Array(
                Seq::new(
                    v@.len(),
                    |i: int|
                        if 0 <= i < v@.len() {
                            v@[i].view()
                        } else {
                            Tree::Null
                        },
                ),
            ),
            Json::Object(m) => Tree::Object(members_map(m@)),
        }
    }
}

/// What a list of members maps each key to.
pub open spec fn members_map(m: Seq<Member>) -> Map<Seq<char>, Tree>
    decreases m,
{
    if m.len() == 0 {
        Map::empty()
    } else {
        members_map(m.drop_last()).insert(m.last().key@, m.last().value.view())
    }
}

/// The trees of a list of documents.
pub open spec fn trees(v: Seq<Json>) -> Seq<Tree> {
    Seq::new(v.len(), |i: int| v[i]@)
}

impl Tree {
    /// What the document holds under `key`: nothing (null) when it is no
    /// object or has no such member.
    pub open spec fn at(self, key: Seq<char>) -> Tree {
        match self {
            Tree::Object(m) => if m.contains_key(key) {
                m[key]
            } else {
                Tree::Null
            },
            _ => Tree::Null,
        }
    }

    /// The `i`th item: nothing (null) when it is no array or has no such item.
    pub open spec fn item(self, i: int) -> Tree {
        match self {
            Tree::Array(s) => if 0 <= i < s.len() {
                s[i]
            } else {
                Tree::Null
            },
            _ => Tree::Null,
        }
    }

    pub open spec fn as_u64(self) -> Option<u64> {
        match self {
            Tree::Number(n) => number_u64(n),
            _ => None,
        }
    }

    pub open spec fn as_str(self) -> Option<Seq<char>> {
        match self {
            Tree::Text(s) => Some(s),
            _ => None,
        }
    }

    pub open spec fn as_bool(self) -> Option<bool> {
        match self {
            Tree::Bool(b) => Some(b),
            _ => None,
        }
    }

    pub open spec fn as_array(self) -> Option<Seq<Tree>> {
        match self {
            Tree::Array(s) => Some(s),
            _ => None,
        }
    }

    pub open spec fn as_object(self) -> Option<Map<Seq<char>, Tree>> {
        match self {
            Tree::Object(m) => Some(m),
            _ => None,
        }
    }

    /// The items, none when the document is no array.
    pub open spec fn items(self) -> Seq<Tree> {
        match self {
            Tree::Array(s) => s,
            _ => Seq::empty(),
        }
    }

    /// The document with `key` mapped to `value`; a document that is no object
    /// stays as it is.
    pub open spec fn with(self, key: Seq<char>, value: Tree) -> Tree {
        match self {
            Tree::Object(m) => Tree::Object(m.insert(key, value)),
            _ => self,
        }
    }

    /// The document without `key`.
    pub open spec fn without(self, key: Seq<char>) -> Tree {
        match self {
            Tree::Object(m) => Tree::Object(m.remove(key)),
            _ => self,
        }
    }

    pub open spec fn has(self, key: Seq<char>) -> bool {
        self matches Tree::Object(m) && m.contains_key(key)
    }
}

/// The tree of an optional document, null when there is none.
pub open spec fn opt_tree(j: Option<&Json>) -> Tree {
    match j {
        Some(j) => j@,
        None => Tree::Null,
    }
}

/// `serde_json::Number`, which is carried through: nothing is claimed of what
/// is inside.
#[verifier::external_type_specification]
#[verifier::external_body]
pub struct ExNumber(serde_json::Number);

/// `serde_json::Value`, which is carried through: what it holds has the name
/// [`value_tree`].
#[verifier::external_type_specification]
#[verifier::external_body]
pub struct ExValue(serde_json::Value);

/// What `serde_json::Number::as_u64` returns.
pub uninterp spec fn number_u64(n: serde_json::Number) -> Option<u64>;

/// What `serde_json::Number::from` makes of a `u64`.
pub uninterp spec fn unsigned(v: u64) -> serde_json::Number;

/// The document that a `serde_json::Value` holds.
pub uninterp spec fn value_tree(v: serde_json::Value) -> Tree;

/// What `serde_json::from_slice` reads from a text: the document, or the
/// message of its error.
pub uninterp spec fn parsed(text: Seq<u8>) -> Result<Tree, Seq<char>>;

/// What `serde_json::to_vec` writes for a document: the text, or the message
/// of its error.
pub uninterp spec fn written(tree: Tree) -> Result<Seq<u8>, Seq<char>>;

/// Calls `serde_json::Number::as_u64`.
#[verifier::external_body]
fn number_as_u64(n: &serde_json::Number) -> (r: Option<u64>)
    ensures
        r == number_u64(*n),
{
    n.as_u64()
}

/// Calls `serde_json::Number::from` on a `u64`: the number it makes is an
/// unsigned integer, and reads back as the same integer.
#[verifier::external_body]
fn number_from_u64(v: u64) -> (r: serde_json::Number)
    ensures
        r == unsigned(v),
        number_u64(r) == Some(v),
{
    serde_json::Number::from(v)
}

/// Calls `serde_json::Number::clone`, which copies the number.
#[verifier::external_body]
pub(crate) fn number_clone(n: &serde_json::Number) -> (r: serde_json::Number)
    ensures
        r == *n,
{
    n.clone()
}

/// The outermost layer of a `serde_json::Value`.
pub enum Layer {
    Null,
    Bool(bool),
    Number(serde_json::Number),
    Text(String),
    Array(Vec<serde_json::Value>),
    Object(Vec<(String, serde_json::Value)>),
}

/// What a list of key and value pairs maps each key to, the last pair of a key
/// counting.
pub open spec fn pairs_map(m: Seq<(String, serde_json::Value)>) -> Map<Seq<char>, Tree>
    decreases m.len(),
{
    if m.len() == 0 {
        Map::empty()
    } else {
        pairs_map(m.drop_last()).insert(m.last().0@, value_tree(m.last().1))
    }
}

/// The document under an outermost layer.
pub open spec fn layer_tree(l: Layer) -> Tree {
    match l {
        Layer::Null => Tree::Null,
        Layer::Bool(b) => Tree::Bool(b),
        Layer::Number(n) => Tree::Number(n),
        Layer::Text(s) => Tree::Text(s@),
        Layer::Array(v) => Tree::Array(Seq::new(v@.len(), |i: int| value_tree(v@[i]))),
        Layer::Object(m) => Tree::Object(pairs_map(m@)),
    }
}

/// Takes a `serde_json::Value` apart: its variant, and for an object the key
/// and value pairs of its `serde_json::Map`, in which no key occurs twice.
#[verifier::external_body]
fn open_value(v: serde_json::Value) -> (r: Layer)
    ensures
        layer_tree(r) == value_tree(v),
        r matches Layer::Object(m) ==> forall|i: int, j: int|
            0 <= i < j < m@.len() ==> (#[trigger] m@[i]).0@ != (#[trigger] m@[j]).0@,
{
    match v {
        serde_json::Value::Null => Layer::Null,
        serde_json::Value::Bool(b) => Layer::Bool(b),
        serde_json::Value::Number(n) => Layer::Number(n),
        serde_json::Value::String(s) => Layer::Text(s),
        serde_json::Value::Array(a) => Layer::Array(a),
        serde_json::Value::Object(m) => Layer::Object(m.into_iter().collect()),
    }
}

/// Puts a `serde_json::Value` together from its outermost layer; an object's
/// pairs are collected into a `serde_json::Map`, where the last pair of a key
/// stays.
#[verifier::external_body]
fn close_value(l: Layer) -> (r: serde_json::Value)
    ensures
        value_tree(r) == layer_tree(l),
{
    match l {
        Layer::Null => serde_json::Value::Null,
        Layer::Bool(b) => serde_json::Value::Bool(b),
        Layer::Number(n) => serde_json::Value::Number(n),
        Layer::Text(s) => serde_json::Value::String(s),
        Layer::Array(a) => serde_json::Value::Array(a),
        Layer::Object(m) => serde_json::Value::Object(m.into_iter().collect()),
    }
}

/// Calls `serde_json::from_slice` for a `serde_json::Value`; an error comes
/// back as its message.
#[verifier::external_body]
fn parse_value(text: &[u8]) -> (r: Result<serde_json::Value, String>)
    ensures
        match r {
            Ok(v) => parsed(text@) == Ok::<Tree, Seq<char>>(value_tree(v)),
            Err(e) => parsed(text@) == Err::<Tree, Seq<char>>(e@),
        },
{
    serde_json::from_slice(text).map_err(|e| e.to_string())
}

/// Calls `serde_json::to_vec` on a `serde_json::Value`; an error comes back as
/// its message.
#[verifier::external_body]
fn write_value(v: &serde_json::Value) -> (r: Result<Vec<u8>, String>)
    ensures
        match r {
            Ok(text) => written(value_tree(*v)) == Ok::<Seq<u8>, Seq<char>>(text@),
            Err(e) => written(value_tree(*v)) == Err::<Seq<u8>, Seq<char>>(e@),
        },
{
    serde_json::to_vec(v).map_err(|e| e.to_string())
}

proof fn lemma_pairs_map_member(m: Seq<(String, serde_json::Value)>, i: int)
    requires
        0 <= i < m.len(),
        forall|a: int, b: int| 0 <= a < b < m.len() ==> (#[trigger] m[a]).0@ != (#[trigger] m[b]).0@,
    ensures
        pairs_map(m).contains_key(m[i].0@),
        pairs_map(m)[m[i].0@] == value_tree(m[i].1),
    decreases m.len(),
{
    if i < m.len() - 1 {
        assert(m.drop_last()[i] == m[i]);
        assert(m.last() == m[m.len() - 1]);
        lemma_pairs_map_member(m.drop_last(), i);
    }
}

proof fn lemma_pairs_map_finite(m: Seq<(String, serde_json::Value)>)
    ensures
        pairs_map(m).dom().finite(),
    decreases m.len(),
{
    if m.len() > 0 {
        lemma_pairs_map_finite(m.drop_last());
    }
}

/// The document of a `serde_json::Value`.
fn from_value(v: serde_json::Value) -> (r: Json)
    ensures
        r@ == value_tree(v),
    decreases value_tree(v),
{
    let ghost tree = value_tree(v);
    match open_value(v) {
        Layer::Null => Json::Null,
        Layer::Bool(b) => Json::Bool(b),
        Layer::Number(n) => Json::Number(n),
        Layer::Text(s) => Json::Text(s),
        Layer::Array(mut a) => {
            let ghost all = a@;
            let mut back: Vec<Json> = Vec::new();
            while a.len() > 0
                invariant
                    a@.len() + back@.len() == all.len(),
                    a@ == all.subrange(0, a@.len() as int),
                    forall|i: int|
                        0 <= i < back@.len() ==> (#[trigger] back@[i])@ == value_tree(
                            all[all.len() - 1 - i],
                        ),
                    tree == Tree::Array(Seq::new(all.len(), |i: int| value_tree(all[i]))),
                    tree == value_tree(v),
                decreases a@.len(),
            {
                let ghost k = a@.len() - 1;
                match a.pop() {
                    Some(x) => {
                        proof {
                            assert(x == all[k]);
                            let ts = tree->Array_0;
                            assert(ts[k] == value_tree(x));
                            assert(decreases_to!(tree => ts));
                            assert(decreases_to!(ts => ts[k]));
                        }
                        back.push(from_value(x));
                    },
                    None => {},
                }
            }
            let out = reversed(back);
            proof {
                assert(Json::Array(out)@->Array_0 =~= tree->Array_0);
            }
            Json::Array(out)
        },
        Layer::Object(mut m) => {
            let ghost all = m@;
            let mut back: Vec<Member> = Vec::new();
            proof {
                lemma_pairs_map_finite(all);
            }
            while m.len() > 0
                invariant
                    m@.len() + back@.len() == all.len(),
                    m@ == all.subrange(0, m@.len() as int),
                    forall|i: int|
                        0 <= i < back@.len() ==> (#[trigger] back@[i]).value@ == value_tree(
                            all[all.len() - 1 - i].1,
                        ) && back@[i].key@ == all[all.len() - 1 - i].0@,
                    tree == Tree::Object(pairs_map(all)),
                    tree == value_tree(v),
                    pairs_map(all).dom().finite(),
                    forall|i: int, j: int|
                        0 <= i < j < all.len() ==> (#[trigger] all[i]).0@ != (#[trigger] all[j]).0@,
                decreases m@.len(),
            {
                let ghost k = m@.len() - 1;
                match m.pop() {
                    Some((key, x)) => {
                        proof {
                            assert((key, x) == all[k]);
                            lemma_pairs_map_member(all, k);
                            let ts = tree->Object_0;
                            assert(ts[key@] == value_tree(x));
                            assert(decreases_to!(tree => ts));
                            assert(decreases_to!(ts => ts[key@]));
                        }
                        back.push(Member { key, value: from_value(x) });
                    },
                    None => {},
                }
            }
            let out = reversed(back);
            proof {
                lemma_members_of_pairs(out@, all);
            }
            Json::Object(out)
        },
    }
}

proof fn lemma_members_of_pairs(m: Seq<Member>, p: Seq<(String, serde_json::Value)>)
    requires
        m.len() == p.len(),
        forall|i: int|
            0 <= i < m.len() ==> (#[trigger] m[i]).value@ == value_tree(p[i].1) && m[i].key@
                == p[i].0@,
    ensures
        members_map(m) == pairs_map(p),
    decreases m.len(),
{
    if m.len() > 0 {
        assert forall|i: int| 0 <= i < m.drop_last().len() implies (#[trigger] m.drop_last()[i]).value@
            == value_tree(p.drop_last()[i].1) && m.drop_last()[i].key@ == p.drop_last()[i].0@ by {
            assert(m.drop_last()[i] == m[i]);
        }
        lemma_members_of_pairs(m.drop_last(), p.drop_last());
        assert(m.last() == m[m.len() - 1]);
    }
}

/// The items of `v` in the opposite order.
fn reversed<T>(v: Vec<T>) -> (r: Vec<T>)
    ensures
        r@ == v@.reverse(),
{
    let mut rest = v;
    let mut out: Vec<T> = Vec::new();
    while rest.len() > 0
        invariant
            rest@.len() + out@.len() == v@.len(),
            rest@ == v@.subrange(0, rest@.len() as int),
            forall|i: int| 0 <= i < out@.len() ==> out@[i] == v@[v@.len() - 1 - i],
        decreases rest@.len(),
    {
        match rest.pop() {
            Some(x) => out.push(x),
            None => {},
        }
    }
    out
}

/// A document as a `serde_json::Value`.
fn to_value(j: &Json) -> (r: serde_json::Value)
    ensures
        value_tree(r) == j@,
    decreases *j,
{
    match j {
        Json::Null => close_value(Layer::Null),
        Json::Bool(b) => close_value(Layer::Bool(*b)),
        Json::Number(n) => close_value(Layer::Number(number_clone(n))),
        Json::Text(s) => close_value(Layer::Text(s.clone())),
        Json::Array(v) => {
            let mut out: Vec<serde_json::Value> = Vec::new();
            let mut i: usize = 0;
            while i < v.len()
                invariant
                    i <= v@.len(),
                    out@.len() == i,
                    *j == Json::Array(*v),
                    forall|k: int| 0 <= k < i ==> value_tree(#[trigger] out@[k]) == v@[k]@,
                decreases v@.len() - i,
            {
                proof {
                    assert(decreases_to!(*j => j->Array_0));
                    assert(decreases_to!(*v => v@));
                    assert(decreases_to!(v@ => v@[i as int]));
                }
                out.push(to_value(&v[i]));
                i = i + 1;
            }
            proof {
                assert(layer_tree(Layer::Array(out))->Array_0 =~= j@->Array_0);
            }
            close_value(Layer::Array(out))
        },
        Json::Object(m) => {
            let mut out: Vec<(String, serde_json::Value)> = Vec::new();
            let mut i: usize = 0;
            while i < m.len()
                invariant
                    i <= m@.len(),
                    out@.len() == i,
                    *j == Json::Object(*m),
                    forall|k: int|
                        0 <= k < i ==> (#[trigger] m@[k]).value@ == value_tree(out@[k].1)
                            && m@[k].key@ == out@[k].0@,
                decreases m@.len() - i,
            {
                proof {
                    assert(decreases_to!(*j => j->Object_0));
                    assert(decreases_to!(*m => m@));
                    assert(decreases_to!(m@ => m@[i as int]));
                    assert(decreases_to!(m@[i as int] => m@[i as int].value));
                }
                out.push((m[i].key.clone(), to_value(&m[i].value)));
                i = i + 1;
            }
            proof {
                lemma_members_of_pairs(m@, out@);
            }
            close_value(Layer::Object(out))
        },
    }
}

proof fn lemma_members_unfold(m: Seq<Member>)
    requires
        m.len() > 0,
    ensures
        members_map(m) == members_map(m.drop_last()).insert(m.last().key@, m.last().value@),
{
}

proof fn lemma_members_alike(a: Seq<Member>, b: Seq<Member>)
    requires
        a.len() == b.len(),
        forall|k: int|
            0 <= k < a.len() ==> (#[trigger] a[k]).value@ == b[k].value@ && a[k].key@ == b[k].key@,
    ensures
        members_map(a) == members_map(b),
    decreases a.len(),
{
    if a.len() > 0 {
        lemma_members_unfold(a);
        lemma_members_unfold(b);
        assert forall|k: int| 0 <= k < a.drop_last().len() implies (#[trigger] a.drop_last()[k]).value@
            == b.drop_last()[k].value@ && a.drop_last()[k].key@ == b.drop_last()[k].key@ by {
            assert(a.drop_last()[k] == a[k]);
        }
        lemma_members_alike(a.drop_last(), b.drop_last());
        assert(a.last() == a[a.len() - 1]);
    }
}

proof fn lemma_last_member(m: Seq<Member>, i: int)
    requires
        0 <= i < m.len(),
        forall|k: int| i < k < m.len() ==> (#[trigger] m[k]).key@ != m[i].key@,
    ensures
        members_map(m).contains_key(m[i].key@),
        members_map(m)[m[i].key@] == m[i].value@,
    decreases m.len(),
{
    lemma_members_unfold(m);
    assert(m.last() == m[m.len() - 1]);
    if i < m.len() - 1 {
        assert(m.drop_last()[i] == m[i]);
        assert forall|k: int| i < k < m.drop_last().len() implies (#[trigger] m.drop_last()[k]).key@
            != m.drop_last()[i].key@ by {
            assert(m.drop_last()[k] == m[k]);
        }
        lemma_last_member(m.drop_last(), i);
    }
}

proof fn lemma_no_member(m: Seq<Member>, key: Seq<char>)
    requires
        forall|k: int| 0 <= k < m.len() ==> (#[trigger] m[k]).key@ != key,
    ensures
        !members_map(m).contains_key(key),
    decreases m.len(),
{
    if m.len() > 0 {
        lemma_members_unfold(m);
        assert(m.last() == m[m.len() - 1]);
        assert forall|k: int| 0 <= k < m.drop_last().len() implies (#[trigger] m.drop_last()[k]).key@
            != key by {
            assert(m.drop_last()[k] == m[k]);
        }
        lemma_no_member(m.drop_last(), key);
    }
}

impl Json {
    /// Reads a document from its text; an error comes back as its message.
    pub fn parse(text: &[u8]) -> (r: Result<Json, String>)
        ensures
            match r {
                Ok(j) => parsed(text@) == Ok::<Tree, Seq<char>>(j@),
                Err(e) => parsed(text@) == Err::<Tree, Seq<char>>(e@),
            },
    {
        match parse_value(text) {
            Ok(v) => Ok(from_value(v)),
            Err(e) => Err(e),
        }
    }

    /// Writes the document's text; an error comes back as its message.
    pub fn write(&self) -> (r: Result<Vec<u8>, String>)
        ensures
            match r {
                Ok(text) => written(self@) == Ok::<Seq<u8>, Seq<char>>(text@),
                Err(e) => written(self@) == Err::<Seq<u8>, Seq<char>>(e@),
            },
    {
        write_value(&to_value(self))
    }

    /// The document of an unsigned integer.
    pub fn number(v: u64) -> (r: Json)
        ensures
            r@ == Tree::Number(unsigned(v)),
            r@.as_u64() == Some(v),
    {
        Json::Number(number_from_u64(v))
    }

    /// A copy of the document.
    pub fn copy(&self) -> (r: Json)
        ensures
            r@ == self@,
        decreases *self,
    {
        match self {
            Json::Null => Json::Null,
            Json::Bool(b) => Json::Bool(*b),
            Json::Number(n) => Json::Number(number_clone(n)),
            Json::Text(s) => Json::Text(s.clone()),
            Json::Array(v) => {
                let mut out: Vec<Json> = Vec::new();
                let mut i: usize = 0;
                while i < v.len()
                    invariant
                        i <= v@.len(),
                        out@.len() == i,
                        *self == Json::Array(*v),
                        forall|k: int| 0 <= k < i ==> (#[trigger] out@[k])@ == v@[k]@,
                    decreases v@.len() - i,
                {
                    proof {
                        assert(decreases_to!(*self => self->Array_0));
                        assert(decreases_to!(*v => v@));
                        assert(decreases_to!(v@ => v@[i as int]));
                    }
                    out.push(v[i].copy());
                    i = i + 1;
                }
                proof {
                    assert(Json::Array(out)@->Array_0 =~= self@->Array_0);
                }
                Json::Array(out)
            },
            Json::Object(m) => {
                let mut out: Vec<Member> = Vec::new();
                let mut i: usize = 0;
                while i < m.len()
                    invariant
                        i <= m@.len(),
                        out@.len() == i,
                        *self == Json::Object(*m),
                        forall|k: int|
                            0 <= k < i ==> (#[trigger] out@[k]).value@ == m@[k].value@
                                && out@[k].key@ == m@[k].key@,
                    decreases m@.len() - i,
                {
                    proof {
                        assert(decreases_to!(*self => self->Object_0));
                        assert(decreases_to!(*m => m@));
                        assert(decreases_to!(m@ => m@[i as int]));
                        assert(decreases_to!(m@[i as int] => m@[i as int].value));
                    }
                    out.push(Member { key: m[i].key.clone(), value: m[i].value.copy() });
                    i = i + 1;
                }
                proof {
                    lemma_members_alike(out@, m@);
                }
                Json::Object(out)
            },
        }
    }

    /// What the document holds under `key`, when it is an object that has such
    /// a member.
    pub fn get(&self, key: &str) -> (r: Option<&Json>)
        ensures
            opt_tree(r) == self@.at(key@),
            r is Some <==> self@.has(key@),
    {
        match self {
            Json::Object(m) => {
                let mut i: usize = m.len();
                while i > 0
                    invariant
                        i <= m@.len(),
                        *self == Json::Object(*m),
                        forall|k: int| i <= k < m@.len() ==> (#[trigger] m@[k]).key@ != key@,
                    decreases i,
                {
                    i = i - 1;
                    if text::same(m[i].key.as_str(), key) {
                        proof {
                            lemma_last_member(m@, i as int);
                        }
                        return Some(&m[i].value);
                    }
                }
                proof {
                    lemma_no_member(m@, key@);
                }
                None
            },
            _ => None,
        }
    }

    /// The `i`th item, when the document is an array that has one.
    pub fn item(&self, i: usize) -> (r: Option<&Json>)
        ensures
            opt_tree(r) == self@.item(i as int),
    {
        match self {
            Json::Array(v) => if i < v.len() {
                Some(&v[i])
            } else {
                None
            },
            _ => None,
        }
    }

    pub fn as_u64(&self) -> (r: Option<u64>)
        ensures
            r == self@.as_u64(),
    {
        match self {
            Json::Number(n) => number_as_u64(n),
            _ => None,
        }
    }

    pub fn as_str(&self) -> (r: Option<&String>)
        ensures
            match r {
                Some(s) => self@.as_str() == Some(s@),
                None => self@.as_str() is None,
            },
    {
        match self {
            Json::Text(s) => Some(s),
            _ => None,
        }
    }

    pub fn as_bool(&self) -> (r: Option<bool>)
        ensures
            r == self@.as_bool(),
    {
        match self {
            Json::Bool(b) => Some(*b),
            _ => None,
        }
    }

    pub fn as_array(&self) -> (r: Option<&Vec<Json>>)
        ensures
            match r {
                Some(v) => self@ == Tree::Array(trees(v@)),
                None => self@.as_array() is None,
            },
    {
        match self {
            Json::Array(v) => {
                assert(self@->Array_0 =~= trees(v@));
                Some(v)
            },
            _ => None,
        }
    }

    pub fn is_object(&self) -> (r: bool)
        ensures
            r == (self@ is Object),
    {
        match self {
            Json::Object(_) => true,
            _ => false,
        }
    }

    pub fn is_array(&self) -> (r: bool)
        ensures
            r == (self@ is Array),
    {
        match self {
            Json::Array(_) => true,
            _ => false,
        }
    }

    /// Maps `key` to `value`; a document that is no object stays as it is.
    pub fn set(&mut self, key: &str, value: Json)
        ensures
            final(self)@ == old(self)@.with(key@, value@),
    {
        match self {
            Json::Object(m) => {
                let ghost before = m@;
                m.push(Member { key: String::from_str(key), value });
                proof {
                    assert(m@.drop_last() =~= before);
                    lemma_members_unfold(m@);
                }
            },
            _ => {},
        }
    }
}

proof fn lemma_members_remove(m: Seq<Member>, i: int)
    requires
        0 <= i < m.len(),
    ensures
        members_map(m.remove(i)).remove(m[i].key@) == members_map(m).remove(m[i].key@),
    decreases m.len(),
{
    lemma_members_unfold(m);
    if i == m.len() - 1 {
        assert(m.remove(i) =~= m.drop_last());
        assert(members_map(m).remove(m[i].key@) =~= members_map(m.drop_last()).remove(m[i].key@));
    } else {
        let rest = m.remove(i);
        lemma_members_unfold(rest);
        assert(rest.drop_last() =~= m.drop_last().remove(i));
        assert(rest.last() == m.last());
        assert(m.drop_last()[i] == m[i]);
        lemma_members_remove(m.drop_last(), i);
        let k = m[i].key@;
        let a = members_map(m.drop_last().remove(i));
        let b = members_map(m.drop_last());
        let last = m.last().key@;
        if last == k {
            assert(a.insert(last, m.last().value@).remove(k) =~= a.remove(k));
            assert(b.insert(last, m.last().value@).remove(k) =~= b.remove(k));
        } else {
            assert(a.insert(last, m.last().value@).remove(k) =~= a.remove(k).insert(
                last,
                m.last().value@,
            ));
            assert(b.insert(last, m.last().value@).remove(k) =~= b.remove(k).insert(
                last,
                m.last().value@,
            ));
        }
    }
}

/// Drops the members with the key `key`.
fn drop_key(m: &mut Vec<Member>, key: &str)
    ensures
        members_map(final(m)@) == members_map(old(m)@).remove(key@),
{
    let mut i: usize = m.len();
    while i > 0
        invariant
            i <= m@.len(),
            forall|k: int| i <= k < m@.len() ==> (#[trigger] m@[k]).key@ != key@,
            members_map(m@).remove(key@) == members_map(old(m)@).remove(key@),
        decreases i,
    {
        i = i - 1;
        if text::same(m[i].key.as_str(), key) {
            proof {
                lemma_members_remove(m@, i as int);
            }
            let ghost before = m@;
            m.remove(i);
            assert forall|k: int| i <= k < m@.len() implies (#[trigger] m@[k]).key@ != key@ by {
                assert(m@[k] == before[k + 1]);
            }
        }
    }
    proof {
        lemma_no_member(m@, key@);
        assert(members_map(m@).remove(key@) =~= members_map(m@));
    }
}

/// An object without members has an empty list of them.
pub proof fn lemma_members_empty(m: Seq<Member>)
    ensures
        members_map(m).dom().finite(),
        members_map(m) == Map::<Seq<char>, Tree>::empty() <==> m.len() == 0,
    decreases m.len(),
{
    if m.len() > 0 {
        lemma_members_unfold(m);
        lemma_members_empty(m.drop_last());
        assert(members_map(m).contains_key(m.last().key@));
    }
}

impl Tree {
    /// The document is an object without members.
    pub open spec fn bare(self) -> bool {
        self == Tree::Object(Map::<Seq<char>, Tree>::empty())
    }

    /// The document with `key` mapped to `value`, where null counts as an
    /// object without members.
    pub open spec fn assigned(self, key: Seq<char>, value: Tree) -> Tree {
        match self {
            Tree::Null => Tree::Object(Map::<Seq<char>, Tree>::empty().insert(key, value)),
            _ => self.with(key, value),
        }
    }
}

impl Json {
    /// Whether the document is an object without members.
    pub fn is_bare(&self) -> (r: bool)
        ensures
            r == self@.bare(),
    {
        match self {
            Json::Object(m) => {
                proof {
                    lemma_members_empty(m@);
                }
                m.len() == 0
            },
            _ => false,
        }
    }

    /// Maps `key` to `value`; null becomes an object first, and any other
    /// document that is no object stays as it is.
    pub fn assign(&mut self, key: &str, value: Json)
        ensures
            final(self)@ == old(self)@.assigned(key@, value@),
    {
        let null = match self {
            Json::Null => true,
            _ => false,
        };
        if null {
            let empty: Vec<Member> = Vec::new();
            proof {
                lemma_members_empty(empty@);
            }
            *self = Json::Object(empty);
        }
        self.set(key, value);
    }

    /// Drops the member `key`; a document that is no object stays as it is.
    pub fn remove(&mut self, key: &str)
        ensures
            final(self)@ == old(self)@.without(key@),
    {
        match self {
            Json::Object(m) => drop_key(m, key),
            _ => {},
        }
    }
}

/// `list` holds each member of the object `m` once.
pub open spec fn lists_members(list: Seq<(&String, &Json)>, m: Map<Seq<char>, Tree>) -> bool {
    &&& forall|i: int, j: int|
        0 <= i < j < list.len() ==> (#[trigger] list[i]).0@ != (#[trigger] list[j]).0@
    &&& forall|i: int|
        0 <= i < list.len() ==> m.contains_key((#[trigger] list[i]).0@) && m[list[i].0@]
            == list[i].1@
    &&& forall|k: Seq<char>| #[trigger]
        m.contains_key(k) ==> exists|i: int| 0 <= i < list.len() && (#[trigger] list[i]).0@ == k
}

/// The members stand in the order of their keys.
pub open spec fn keys_in_order(list: Seq<(&String, &Json)>) -> bool {
    forall|i: int, j: int|
        0 <= i < j < list.len() ==> text::before(
            (#[trigger] list[i]).0@,
            (#[trigger] list[j]).0@,
        )
}

/// A member put where its key belongs keeps the order.
proof fn lemma_member_put(had: Seq<(&String, &Json)>, a: int, e: (&String, &Json))
    requires
        0 <= a <= had.len(),
        keys_in_order(had),
        forall|x: int| 0 <= x < had.len() ==> (#[trigger] had[x]).0@ != e.0@,
        forall|x: int| a <= x < had.len() ==> text::before(e.0@, (#[trigger] had[x]).0@),
        a > 0 ==> !text::before(e.0@, had[a - 1].0@),
    ensures
        keys_in_order(had.insert(a, e)),
{
    let out = had.insert(a, e);
    assert forall|x: int| 0 <= x < a implies text::before((#[trigger] had[x]).0@, e.0@) by {
        text::lemma_before_strict(e.0@, had[a - 1].0@);
        if x < a - 1 {
            text::lemma_before_transitive(had[x].0@, had[a - 1].0@, e.0@);
        }
    }
    assert forall|x: int, y: int| 0 <= x < y < out.len() implies text::before(
        (#[trigger] out[x]).0@,
        (#[trigger] out[y]).0@,
    ) by {
        if x < a {
            assert(out[x] == had[x]);
        } else if x > a {
            assert(out[x] == had[x - 1]);
        }
        if y < a {
            assert(out[y] == had[y]);
        } else if y > a {
            assert(out[y] == had[y - 1]);
        }
    }
}

/// Puts members in the order of their keys.
fn by_key<'a>(
    list: &Vec<(&'a String, &'a Json)>,
    Ghost(m): Ghost<Map<Seq<char>, Tree>>,
) -> (out: Vec<(&'a String, &'a Json)>)
    requires
        lists_members(list@, m),
    ensures
        lists_members(out@, m),
        keys_in_order(out@),
{
    let mut out: Vec<(&'a String, &'a Json)> = Vec::new();
    let mut i: usize = 0;
    while i < list.len()
        invariant
            i <= list@.len(),
            lists_members(list@, m),
            keys_in_order(out@),
            forall|x: int| 0 <= x < out@.len() ==> list@.take(i as int).contains(#[trigger] out@[x]),
            forall|k: int| 0 <= k < i ==> out@.contains(#[trigger] list@[k]),
        decreases list@.len() - i,
    {
        let (key, value) = list[i];
        let ghost had = out@;
        let ghost e = list@[i as int];
        let mut at: usize = out.len();
        while at > 0 && text::stands_before(key.as_str(), out[at - 1].0.as_str())
            invariant
                at <= out@.len(),
                out@ == had,
                forall|x: int| at <= x < had.len() ==> text::before(key@, (#[trigger] had[x]).0@),
            decreases at,
        {
            at = at - 1;
        }
        out.insert(at, (key, value));
        proof {
            let a = at as int;
            assert(out@ == had.insert(a, e));
            assert forall|x: int| 0 <= x < had.len() implies (#[trigger] had[x]).0@ != e.0@ by {
                let k = list@.take(i as int).index_of(had[x]);
                assert(list@[k].0@ != list@[i as int].0@);
            }
            lemma_member_put(had, a, e);
            let more = list@.take(i + 1);
            assert forall|x: int| 0 <= x < out@.len() implies more.contains(#[trigger] out@[x]) by {
                if x == a {
                    assert(more[i as int] == out@[x]);
                } else {
                    let z = if x < a {
                        x
                    } else {
                        x - 1
                    };
                    assert(out@[x] == had[z]);
                    let k = list@.take(i as int).index_of(had[z]);
                    assert(more[k] == out@[x]);
                }
            }
            assert forall|k: int| 0 <= k < i + 1 implies out@.contains(#[trigger] list@[k]) by {
                if k == i {
                    assert(out@[a] == list@[k]);
                } else {
                    let x = had.index_of(list@[k]);
                    let z = if x < a {
                        x
                    } else {
                        x + 1
                    };
                    assert(out@[z] == list@[k]);
                }
            }
        }
        i = i + 1;
    }
    proof {
        assert(list@.take(i as int) =~= list@);
        assert forall|x: int, y: int| 0 <= x < y < out@.len() implies (#[trigger] out@[x]).0@ != (
        #[trigger] out@[y]).0@ by {
            text::lemma_before_strict(out@[x].0@, out@[y].0@);
        }
        assert forall|x: int| 0 <= x < out@.len() implies m.contains_key((#[trigger] out@[x]).0@)
            && m[out@[x].0@] == out@[x].1@ by {
            let k = list@.index_of(out@[x]);
            assert(list@[k] == out@[x]);
        }
        assert forall|k: Seq<char>| #[trigger] m.contains_key(k) implies exists|x: int|
            0 <= x < out@.len() && (#[trigger] out@[x]).0@ == k by {
            let j = choose|j: int| 0 <= j < list@.len() && (#[trigger] list@[j]).0@ == k;
            let x = out@.index_of(list@[j]);
            assert(out@[x].0@ == k);
        }
    }
    out
}

/// No member after the `i`th has its key.
spec fn last_of_key(m: Seq<Member>, i: int) -> bool {
    forall|k: int| i < k < m.len() ==> (#[trigger] m[k]).key@ != m[i].key@
}

/// Whether no member after the `i`th has its key.
fn is_last(m: &Vec<Member>, i: usize) -> (r: bool)
    requires
        i < m@.len(),
    ensures
        r == last_of_key(m@, i as int),
{
    let mut k: usize = m.len() - 1;
    while k > i
        invariant
            i <= k < m@.len(),
            forall|x: int| k < x < m@.len() ==> (#[trigger] m@[x]).key@ != m@[i as int].key@,
        decreases k,
    {
        if text::same(m[k].key.as_str(), m[i].key.as_str()) {
            assert(m@[k as int].key@ == m@[i as int].key@);
            return false;
        }
        k = k - 1;
    }
    true
}

proof fn lemma_key_has_last(m: Seq<Member>, key: Seq<char>)
    requires
        members_map(m).contains_key(key),
    ensures
        exists|i: int|
            0 <= i < m.len() && (#[trigger] m[i]).key@ == key && forall|k: int|
                i < k < m.len() ==> (#[trigger] m[k]).key@ != key,
    decreases m.len(),
{
    if m.len() > 0 {
        lemma_members_unfold(m);
        let n = m.len() - 1;
        if m.last().key@ == key {
            assert(m[n].key@ == key);
        } else {
            lemma_key_has_last(m.drop_last(), key);
            let i = choose|i: int|
                0 <= i < m.drop_last().len() && (#[trigger] m.drop_last()[i]).key@ == key
                    && forall|k: int|
                    i < k < m.drop_last().len() ==> (#[trigger] m.drop_last()[k]).key@ != key;
            assert(m[i].key@ == key);
            assert forall|k: int| i < k < m.len() implies (#[trigger] m[k]).key@ != key by {
                if k < n {
                    assert(m.drop_last()[k] == m[k]);
                }
            }
        }
    }
}

impl Json {
    /// The members of an object, each key once, in the order of the keys.
    pub fn entries(&self) -> (r: Option<Vec<(&String, &Json)>>)
        ensures
            match r {
                Some(list) => self@ is Object && lists_members(list@, self@->Object_0)
                    && keys_in_order(list@),
                None => !(self@ is Object),
            },
    {
        match self {
            Json::Object(m) => {
                let mut out: Vec<(&String, &Json)> = Vec::new();
                let mut at: Ghost<Seq<int>> = Ghost(Seq::empty());
                let mut i: usize = 0;
                while i < m.len()
                    invariant
                        i <= m@.len(),
                        *self == Json::Object(*m),
                        at@.len() == out@.len(),
                        forall|x: int|
                            0 <= x < out@.len() ==> {
                                &&& 0 <= #[trigger] at@[x] < i
                                &&& out@[x].0@ == m@[at@[x]].key@
                                &&& out@[x].1@ == m@[at@[x]].value@
                                &&& last_of_key(m@, at@[x])
                            },
                        forall|x: int, y: int|
                            0 <= x < y < at@.len() ==> #[trigger] at@[x] < #[trigger] at@[y],
                        forall|k: int|
                            0 <= k < i && #[trigger] last_of_key(m@, k) ==> exists|x: int|
                                0 <= x < at@.len() && #[trigger] at@[x] == k,
                    decreases m@.len() - i,
                {
                    let ghost before = at@;
                    if is_last(m, i) {
                        out.push((&m[i].key, &m[i].value));
                        proof {
                            at@ = at@.push(i as int);
                        }
                        assert(at@[before.len() as int] == i);
                    }
                    assert forall|k: int|
                        0 <= k < i + 1 && #[trigger] last_of_key(m@, k) implies exists|
                        x: int,
                    |
                        0 <= x < at@.len() && #[trigger] at@[x] == k by {
                        if k < i {
                            let x = choose|x: int| 0 <= x < before.len() && #[trigger] before[x] == k;
                            assert(at@[x] == k);
                        }
                    }
                    i = i + 1;
                }
                proof {
                    let map = members_map(m@);
                    assert forall|x: int| 0 <= x < out@.len() implies map.contains_key(
                        (#[trigger] out@[x]).0@,
                    ) && map[out@[x].0@] == out@[x].1@ by {
                        let a = at@[x];
                        lemma_last_member(m@, a);
                    }
                    assert forall|x: int, y: int| 0 <= x < y < out@.len() implies (
                    #[trigger] out@[x]).0@ != (#[trigger] out@[y]).0@ by {
                        let a = at@[x];
                        let b = at@[y];
                        assert(m@[b].key@ != m@[a].key@);
                    }
                    assert forall|key: Seq<char>| #[trigger] map.contains_key(key) implies exists|
                        x: int,
                    |
                        0 <= x < out@.len() && (#[trigger] out@[x]).0@ == key by {
                        lemma_key_has_last(m@, key);
                        let k = choose|k: int|
                            0 <= k < m@.len() && (#[trigger] m@[k]).key@ == key && forall|y: int|
                                k < y < m@.len() ==> (#[trigger] m@[y]).key@ != key;
                        assert(last_of_key(m@, k));
                        let x = choose|x: int| 0 <= x < at@.len() && #[trigger] at@[x] == k;
                        assert(out@[x].0@ == key);
                    }
                }
                Some(by_key(&out, Ghost(members_map(m@))))
            },
            _ => None,
        }
    }

    /// Takes the member `key` out of an object.
    pub fn take(&mut self, key: &str) -> (r: Option<Json>)
        ensures
            match r {
                Some(j) => old(self)@.has(key@) && j@ == old(self)@.at(key@),
                None => !old(self)@.has(key@),
            },
            final(self)@ == old(self)@.without(key@),
    {
        match self {
            Json::Object(m) => {
                let mut i: usize = m.len();
                while i > 0
                    invariant
                        i <= m@.len(),
                        m@ == old(self)->Object_0@,
                        *old(self) is Object,
                        after_borrow(*self) == Json::Object(*final(m)),
                        forall|k: int| i <= k < m@.len() ==> (#[trigger] m@[k]).key@ != key@,
                    decreases i,
                {
                    i = i - 1;
                    if text::same(m[i].key.as_str(), key) {
                        proof {
                            lemma_last_member(m@, i as int);
                            lemma_members_remove(m@, i as int);
                        }
                        let found = m.remove(i);
                        drop_key(m, key);
                        return Some(found.value);
                    }
                }
                proof {
                    lemma_no_member(m@, key@);
                    assert(members_map(m@).remove(key@) =~= members_map(m@));
                }
                None
            },
            _ => None,
        }
    }
}

/// What an optional document holds under `key`.
pub fn down<'a>(j: Option<&'a Json>, key: &str) -> (r: Option<&'a Json>)
    ensures
        opt_tree(r) == opt_tree(j).at(key@),
{
    match j {
        Some(j) => j.get(key),
        None => None,
    }
}

/// The `i`th item of an optional document.
pub fn nth<'a>(j: Option<&'a Json>, i: usize) -> (r: Option<&'a Json>)
    ensures
        opt_tree(r) == opt_tree(j).item(i as int),
{
    match j {
        Some(j) => j.item(i),
        None => None,
    }
}

/// The unsigned integer of an optional document.
pub fn opt_u64(j: Option<&Json>) -> (r: Option<u64>)
    ensures
        r == opt_tree(j).as_u64(),
{
    match j {
        Some(j) => j.as_u64(),
        None => None,
    }
}

/// The string of an optional document.
pub fn opt_str<'a>(j: Option<&'a Json>) -> (r: Option<&'a String>)
    ensures
        match r {
            Some(s) => opt_tree(j).as_str() == Some(s@),
            None => opt_tree(j).as_str() is None,
        },
{
    match j {
        Some(j) => j.as_str(),
        None => None,
    }
}

/// The items of an optional document.
pub fn opt_array<'a>(j: Option<&'a Json>) -> (r: Option<&'a Vec<Json>>)
    ensures
        match r {
            Some(v) => opt_tree(j) == Tree::Array(trees(v@)),
            None => opt_tree(j).as_array() is None,
        },
{
    match j {
        Some(j) => j.as_array(),
        None => None,
    }
}

} // verus!
