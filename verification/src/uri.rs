//! Names of tilesets and of their content.
use crate::glb::mentions;
use crate::text;
use crate::text::{chars_of, string_of, trim_end, trim_start};
use vstd::prelude::*;

verus! {

/// A character that ends the path of a URL.
pub open spec fn ends_path(c: char) -> bool {
    c == '?' || c == '#'
}

/// Where the path of a URL ends, from `i` on.
pub open spec fn path_end(s: Seq<char>, i: int) -> int
    decreases s.len() - i,
{
    if i >= s.len() || ends_path(s[i]) {
        i
    } else {
        path_end(s, i + 1)
    }
}

/// A URL without its query and fragment.
pub open spec fn path_of(s: Seq<char>) -> Seq<char> {
    s.take(path_end(s, 0))
}

/// `s` ends with `tail`.
pub open spec fn has_suffix(s: Seq<char>, tail: Seq<char>) -> bool {
    s.len() >= tail.len() && s.subrange(s.len() - tail.len(), s.len() as int) == tail
}

/// `s` starts with `head`.
pub open spec fn has_prefix(s: Seq<char>, head: Seq<char>) -> bool {
    s.len() >= head.len() && s.subrange(0, head.len() as int) == head
}

proof fn lemma_path_end(s: Seq<char>, i: int)
    requires
        0 <= i <= s.len(),
    ensures
        i <= path_end(s, i) <= s.len(),
    decreases s.len() - i,
{
    if i < s.len() && !ends_path(s[i]) {
        lemma_path_end(s, i + 1);
    }
}

fn find_path_end(v: &Vec<char>) -> (at: usize)
    ensures
        at == path_end(v@, 0),
        at <= v@.len(),
{
    let mut at: usize = 0;
    while at < v.len() && v[at] != '?' && v[at] != '#'
        invariant
            at <= v@.len(),
            path_end(v@, 0) == path_end(v@, at as int),
        decreases v@.len() - at,
    {
        at = at + 1;
    }
    at
}

/// Whether the first `hi` characters of `v` end with `tail`.
fn ends_with(v: &Vec<char>, hi: usize, tail: &str) -> (r: bool)
    requires
        hi <= v@.len(),
    ensures
        r == has_suffix(v@.take(hi as int), tail@),
{
    let t = chars_of(tail);
    let n: usize = t.len();
    let ghost s = v@.take(hi as int);
    if hi < n {
        return false;
    }
    let mut k: usize = 0;
    while k < n
        invariant
            k <= n,
            n == t@.len(),
            n <= hi <= v@.len(),
            t@ == tail@,
            s == v@.take(hi as int),
            forall|j: int| 0 <= j < k ==> s[hi - n + j] == #[trigger] t@[j],
        decreases n - k,
    {
        if v[hi - n + k] != t[k] {
            assert(s.subrange(hi - n, hi as int)[k as int] != t@[k as int]);
            return false;
        }
        k = k + 1;
    }
    assert(s.subrange(hi - n, hi as int) =~= t@);
    true
}

/// Whether `v` starts with `head`.
pub(crate) fn starts_with(v: &Vec<char>, head: &str) -> (r: bool)
    ensures
        r == has_prefix(v@, head@),
{
    let t = chars_of(head);
    let n: usize = t.len();
    if v.len() < n {
        return false;
    }
    let mut k: usize = 0;
    while k < n
        invariant
            k <= n,
            n == t@.len(),
            n <= v@.len(),
            t@ == head@,
            forall|j: int| 0 <= j < k ==> v@[j] == #[trigger] t@[j],
        decreases n - k,
    {
        if v[k] != t[k] {
            assert(v@.subrange(0, n as int)[k as int] != t@[k as int]);
            return false;
        }
        k = k + 1;
    }
    assert(v@.subrange(0, n as int) =~= t@);
    true
}

/// Names a packed archive: its path ends in `.3tz`.
pub open spec fn names_archive(s: Seq<char>) -> bool {
    has_suffix(path_of(s), ".3tz"@)
}

/// Whether a name is that of a packed archive. A query does not hide the
/// extension.
pub fn is_archive_spec(spec: &str) -> (r: bool)
    ensures
        r == names_archive(spec@),
{
    let v = chars_of(spec);
    let hi: usize = find_path_end(&v);
    ends_with(&v, hi, ".3tz")
}

/// A query or a fragment never changes whether a name is that of an archive.
pub proof fn queries_hide_no_archive(s: Seq<char>, c: char, query: Seq<char>)
    requires
        ends_path(c),
    ensures
        names_archive(s + seq![c] + query) == names_archive(s),
{
    let w = s + seq![c] + query;
    assert(w.take(s.len() as int) =~= s);
    lemma_same_path(s, w, 0);
    lemma_path_end(s, 0);
    assert(w.take(path_end(w, 0)) =~= s.take(path_end(s, 0)));
}

proof fn lemma_same_path(s: Seq<char>, w: Seq<char>, i: int)
    requires
        0 <= i <= s.len() < w.len(),
        w.take(s.len() as int) == s,
        ends_path(w[s.len() as int]),
    ensures
        path_end(w, i) == path_end(s, i),
    decreases s.len() - i,
{
    if i < s.len() {
        assert(w.take(s.len() as int)[i] == s[i]);
        lemma_same_path(s, w, i + 1);
    }
}

/// Where the last `/` among the first `k` characters stands.
pub open spec fn last_slash(s: Seq<char>, k: int) -> Option<int>
    decreases k,
{
    if k <= 0 {
        None
    } else if s[k - 1] == '/' {
        Some(k - 1)
    } else {
        last_slash(s, k - 1)
    }
}

/// The directory of a name, with its `/`.
pub open spec fn dir_prefix(s: Seq<char>) -> Option<Seq<char>> {
    match last_slash(s, path_end(s, 0)) {
        Some(k) => Some(s.take(k + 1)),
        None => None,
    }
}

/// The directory of a tileset's name, with its `/`, onto which the names that
/// the tileset holds are put. A name at the top has none.
pub fn uri_dir_prefix(uri: &str) -> (r: Option<String>)
    ensures
        crate::tree::opt_text(r) == dir_prefix(uri@),
{
    let v = chars_of(uri);
    let hi: usize = find_path_end(&v);
    let mut k: usize = hi;
    while k > 0
        invariant
            k <= hi <= v@.len(),
            v@ == uri@,
            hi == path_end(uri@, 0),
            last_slash(uri@, hi as int) == last_slash(uri@, k as int),
        decreases k,
    {
        if v[k - 1] == '/' {
            let s = string_of(&v, 0, k);
            assert(v@.subrange(0, k as int) =~= uri@.take(k as int));
            return Some(s);
        }
        k = k - 1;
    }
    None
}

/// The directory of a name is the start of it, and ends in `/`.
pub proof fn directories_end_in_a_slash(s: Seq<char>)
    ensures
        dir_prefix(s) matches Some(d) ==> has_prefix(s, d) && d.len() > 0 && d.last() == '/',
{
    lemma_path_end(s, 0);
    lemma_last_slash(s, path_end(s, 0));
}

proof fn lemma_last_slash(s: Seq<char>, k: int)
    requires
        0 <= k <= s.len(),
    ensures
        last_slash(s, k) matches Some(i) ==> 0 <= i < k && s[i] == '/' && has_prefix(
            s,
            s.take(i + 1),
        ),
    decreases k,
{
    if k > 0 {
        if s[k - 1] == '/' {
            assert(s.subrange(0, k) =~= s.take(k));
        } else {
            lemma_last_slash(s, k - 1);
        }
    }
}

/// `://` stands somewhere in `s`.
pub open spec fn has_scheme(s: Seq<char>) -> bool {
    exists|i: int|
        0 <= i && i + 3 <= s.len() && #[trigger] s[i] == ':' && s[i + 1] == '/' && s[i + 2] == '/'
}

/// A name that is relative to the tileset that holds it.
pub open spec fn is_relative(s: Seq<char>) -> bool {
    !(s.len() > 0 && s[0] == '/') && !has_scheme(s)
}

/// A name seen from a directory: relative names get it in front.
pub open spec fn rebased(prefix: Seq<char>, s: Seq<char>) -> Seq<char> {
    if is_relative(s) {
        prefix + s
    } else {
        s
    }
}

/// Puts a directory in front of a relative name; other names stay.
pub fn rebase_uri(prefix: &str, uri: &str) -> (r: String)
    ensures
        r@ == rebased(prefix@, uri@),
{
    let v = chars_of(uri);
    let n: usize = v.len();
    let mut relative = !(n > 0 && v[0] == '/');
    let mut i: usize = 0;
    while i < n && n - i >= 3
        invariant
            i <= n,
            n == v@.len(),
            v@ == uri@,
            relative == (!(n > 0 && uri@[0] == '/') && !(exists|k: int|
                0 <= k < i && k + 3 <= n && #[trigger] uri@[k] == ':' && uri@[k + 1] == '/'
                    && uri@[k + 2] == '/')),
        decreases n - i,
    {
        if v[i] == ':' && v[i + 1] == '/' && v[i + 2] == '/' {
            relative = false;
        }
        i = i + 1;
    }
    assert(relative == is_relative(uri@));
    if relative {
        text::join2(prefix, uri)
    } else {
        String::from_str(uri)
    }
}

/// ASCII whitespace.
pub open spec fn is_blank(b: u8) -> bool {
    b == 0x20 || b == 0x09 || b == 0x0a || b == 0x0c || b == 0x0d
}

/// The first byte from `i` on that is not blank.
pub open spec fn first_solid(b: Seq<u8>, i: int) -> Option<u8>
    decreases b.len() - i,
{
    if i >= b.len() {
        None
    } else if is_blank(b[i]) {
        first_solid(b, i + 1)
    } else {
        Some(b[i])
    }
}

/// Bytes that are another tileset: an object that speaks of a geometric error
/// and a root, and no glTF container.
pub open spec fn is_tileset(b: Seq<u8>) -> bool {
    &&& !(b.len() >= 4 && b[0] == 0x67 && b[1] == 0x6c && b[2] == 0x54 && b[3] == 0x46)
    &&& first_solid(b, 0) == Some(0x7bu8)
    &&& mentions(b, "\"geometricError\""@)
    &&& mentions(b, "\"root\""@)
}

/// Whether content is another tileset rather than geometry, by what it holds
/// and never by its name.
pub fn looks_like_external_tileset(bytes: &[u8]) -> (r: bool)
    ensures
        r == is_tileset(bytes@),
{
    if bytes.len() >= 4 && bytes[0] == 0x67 && bytes[1] == 0x6c && bytes[2] == 0x54 && bytes[3]
        == 0x46 {
        return false;
    }
    let mut i: usize = 0;
    while i < bytes.len() && (bytes[i] == 0x20 || bytes[i] == 0x09 || bytes[i] == 0x0a || bytes[i]
        == 0x0c || bytes[i] == 0x0d)
        invariant
            i <= bytes@.len(),
            first_solid(bytes@, 0) == first_solid(bytes@, i as int),
        decreases bytes@.len() - i,
    {
        i = i + 1;
    }
    if i >= bytes.len() || bytes[i] != 0x7b {
        return false;
    }
    proof {
        reveal_strlit("\"geometricError\"");
        reveal_strlit("\"root\"");
    }
    crate::glb::scan_for(bytes, "\"geometricError\"") && crate::glb::scan_for(bytes, "\"root\"")
}

/// A name that is a URL of the web.
pub open spec fn is_web(s: Seq<char>) -> bool {
    has_prefix(s, "http://"@) || has_prefix(s, "https://"@)
}

/// Whether a name is a URL of the web.
pub fn is_web_url(spec: &str) -> (r: bool)
    ensures
        r == is_web(spec@),
{
    let v = chars_of(spec);
    starts_with(&v, "http://") || starts_with(&v, "https://")
}

/// Where the loose files of a tileset lie: its name without `tileset.json` and
/// the slashes before it.
pub open spec fn base_of(s: Seq<char>) -> Seq<char> {
    let name = "tileset.json"@;
    trim_end(
        if has_suffix(s, name) {
            s.take(s.len() - name.len())
        } else {
            s
        },
        '/',
    )
}

/// Where the loose files of a tileset lie.
pub fn exploded_base(spec: &str) -> (r: String)
    ensures
        r@ == base_of(spec@),
{
    let v = chars_of(spec);
    let n: usize = v.len();
    assert(v@.take(n as int) =~= spec@);
    proof {
        reveal_strlit("tileset.json");
    }
    let hi: usize = if ends_with(&v, n, "tileset.json") {
        n - 12
    } else {
        n
    };
    let lo: usize = text::run_start(&v, hi, '/');
    assert(v@.subrange(0, hi as int) =~= if has_suffix(spec@, "tileset.json"@) {
        spec@.take(spec@.len() - 12)
    } else {
        spec@
    });
    string_of(&v, 0, lo)
}

/// A name without the slashes at its start.
pub fn without_leading_slashes(uri: &str) -> (r: String)
    ensures
        r@ == trim_start(uri@, '/'),
{
    let v = chars_of(uri);
    let at: usize = text::run_end(&v, 0, '/');
    assert(v@.subrange(0, v@.len() as int) =~= v@);
    string_of(&v, at, v.len())
}

/// Names without a query or a fragment.
pub open spec fn is_bare_name(s: Seq<char>) -> bool {
    forall|i: int| 0 <= i < s.len() ==> #[trigger] s[i] != '?' && s[i] != '#'
}

proof fn lemma_whole_path(s: Seq<char>, i: int)
    requires
        is_bare_name(s),
        0 <= i <= s.len(),
    ensures
        path_end(s, i) == s.len(),
    decreases s.len() - i,
{
    if i < s.len() {
        lemma_whole_path(s, i + 1);
    }
}

proof fn lemma_slash_before(s: Seq<char>, k: int, at: int)
    requires
        0 <= at < k <= s.len(),
        s[at] == '/',
        forall|i: int| at < i < k ==> #[trigger] s[i] != '/',
    ensures
        last_slash(s, k) == Some(at),
    decreases k,
{
    if k - 1 > at {
        lemma_slash_before(s, k - 1, at);
    }
}

proof fn lemma_no_slash(s: Seq<char>, k: int)
    requires
        0 <= k <= s.len(),
        !s.contains('/'),
    ensures
        last_slash(s, k) is None,
    decreases k,
{
    if k > 0 {
        assert(s.contains(s[k - 1]));
        lemma_no_slash(s, k - 1);
    }
}

/// The directory of a file in a directory is that directory, a query or a
/// fragment behind the file or none; a file at the top has none.
pub proof fn files_lie_in_their_directory(dir: Seq<char>, file: Seq<char>, c: char, query: Seq<char>)
    requires
        is_bare_name(dir),
        is_bare_name(file),
        !file.contains('/'),
        c == '?' || c == '#',
    ensures
        dir_prefix(dir + seq!['/'] + file) == Some(dir + seq!['/']),
        dir_prefix(dir + seq!['/'] + file + seq![c] + query) == Some(dir + seq!['/']),
        dir_prefix(file) is None,
{
    let s = dir + seq!['/'] + file;
    let w = s + seq![c] + query;
    let at = dir.len() as int;
    lemma_whole_path(s, 0);
    lemma_whole_path(file, 0);
    assert forall|i: int| at < i < s.len() implies #[trigger] s[i] != '/' by {
        assert(s[i] == file[i - at - 1]);
        assert(file.contains(file[i - at - 1]));
    }
    lemma_slash_before(s, s.len() as int, at);
    assert(s.take(at + 1) =~= dir + seq!['/']);
    assert(w.take(s.len() as int) =~= s);
    lemma_same_path(s, w, 0);
    lemma_slash_before(w, s.len() as int, at);
    assert(w.take(at + 1) =~= dir + seq!['/']);
    lemma_no_slash(file, file.len() as int);
}

/// A name is an archive's where its path, up to a query or a fragment, ends in
/// `.3tz`, and nowhere else.
pub proof fn archives_end_in_their_extension(s: Seq<char>)
    requires
        is_bare_name(s),
    ensures
        names_archive(s) <==> s.len() >= 4 && s[s.len() - 4] == '.' && s[s.len() - 3] == '3' && s[s.len()
            - 2] == 't' && s[s.len() - 1] == 'z',
{
    reveal_strlit(".3tz");
    lemma_whole_path(s, 0);
    assert(s.take(s.len() as int) =~= s);
    let k = ".3tz"@;
    assert(k.len() == 4 && k[0] == '.' && k[1] == '3' && k[2] == 't' && k[3] == 'z');
    if s.len() >= 4 {
        let e = s.subrange(s.len() - 4, s.len() as int);
        assert(e[0] == s[s.len() - 4] && e[1] == s[s.len() - 3] && e[2] == s[s.len() - 2] && e[3]
            == s[s.len() - 1]);
        if e[0] == '.' && e[1] == '3' && e[2] == 't' && e[3] == 'z' {
            assert(e =~= k);
        }
    }
}

/// A name from the top, or with a scheme, stays; any other is taken from the
/// directory that is put before it.
pub proof fn only_relative_names_move(prefix: Seq<char>, s: Seq<char>, rest: Seq<char>, scheme: Seq<char>)
    ensures
        rebased(prefix, seq!['/'] + s) == seq!['/'] + s,
        rebased(prefix, scheme + seq![':', '/', '/'] + rest) == scheme + seq![':', '/', '/'] + rest,
        s.len() > 0 && s[0] != '/' && !s.contains(':') ==> rebased(prefix, s) == prefix + s,
{
    let top = seq!['/'] + s;
    assert(top[0] == '/');
    let w = scheme + seq![':', '/', '/'] + rest;
    let i = scheme.len() as int;
    assert(w[i] == ':' && w[i + 1] == '/' && w[i + 2] == '/');
    if !s.contains(':') {
        if has_scheme(s) {
            let k = choose|k: int|
                0 <= k && k + 3 <= s.len() && #[trigger] s[k] == ':' && s[k + 1] == '/' && s[k + 2]
                    == '/';
            assert(s.contains(s[k]));
        }
    }
}

/// The loose files of a tileset lie where its `tileset.json` does; a name without
/// it is the place itself, but for slashes at its end.
pub proof fn loose_files_lie_beside_their_tileset(dir: Seq<char>)
    requires
        dir.len() == 0 || dir.last() != '/',
    ensures
        base_of(dir + "/tileset.json"@) == dir,
        !has_suffix(dir, "tileset.json"@) ==> base_of(dir) == dir && base_of(dir + seq!['/']) == dir,
{
    reveal_strlit("tileset.json");
    reveal_strlit("/tileset.json");
    let name = "tileset.json"@;
    let s = dir + "/tileset.json"@;
    assert(name.len() == 12);
    assert("/tileset.json"@.len() == 13);
    assert("/tileset.json"@ =~= seq!['/'] + name);
    assert(s.subrange(s.len() - 12, s.len() as int) =~= name);
    let slashed = dir + seq!['/'];
    assert(s.take(s.len() - 12) =~= slashed);
    assert(slashed.last() == '/');
    assert(slashed.drop_last() =~= dir);
    assert(trim_end(slashed, '/') == trim_end(dir, '/'));
    assert(trim_end(dir, '/') == dir);
    if has_suffix(slashed, name) {
        assert(slashed.subrange(slashed.len() - 12, slashed.len() as int)[11] == '/');
        assert(name[11] == 'n');
    }
}

/// Content is a tileset where, behind white space, an object opens, and it speaks
/// of a geometric error and a root.
pub proof fn objects_that_speak_of_a_root_are_tilesets(b: Seq<u8>, i: int)
    requires
        0 <= i < b.len(),
        forall|k: int| 0 <= k < i ==> is_space(#[trigger] b[k]),
        !is_space(b[i]),
    ensures
        is_tileset(b) <==> b[i] == 0x7b && mentions(b, "\"geometricError\""@) && mentions(
            b,
            "\"root\""@,
        ),
{
    lemma_solid_at(b, 0, i);
    if i == 0 && b.len() >= 4 && b[0] == 0x67 {
    }
}

/// A space, a tab, a line feed, a form feed or a carriage return.
pub open spec fn is_space(b: u8) -> bool {
    b == 32 || b == 9 || b == 10 || b == 12 || b == 13
}

proof fn lemma_solid_at(b: Seq<u8>, k: int, i: int)
    requires
        0 <= k <= i < b.len(),
        forall|j: int| 0 <= j < i ==> is_space(#[trigger] b[j]),
        !is_space(b[i]),
    ensures
        first_solid(b, k) == Some(b[i]),
    decreases i - k,
{
    if k < i {
        assert(is_space(b[k]));
        lemma_solid_at(b, k + 1, i);
    }
}

} // verus!
