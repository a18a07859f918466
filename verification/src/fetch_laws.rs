//! How reads from different sources and servers agree.
use crate::fetch::{
    content_range_total, dir_join, explicit_tail, key_under, range_header, range_reply,
    ranged_reply, read_plan, suffix_reply, ByteSource, Plan,
};
use crate::text::{
    all_digits, decimal_chars, digit_char, digits_value, is_white, left_trimmed, number_text,
    trimmed,
};
use vstd::prelude::*;

verus! {

/// A number that is written down reads back as the same number, in digits only.
pub proof fn decimals_read_back(v: nat)
    ensures
        decimal_chars(v).len() > 0,
        all_digits(decimal_chars(v)),
        digits_value(decimal_chars(v)) == v,
        v <= u64::MAX ==> number_text(decimal_chars(v)) == Some(v as u64),
    decreases v,
{
    let s = decimal_chars(v);
    lemma_digit(v % 10);
    if v < 10 {
        lemma_digit(v);
        assert(s.drop_last() =~= Seq::<char>::empty());
        assert(digits_value(s.drop_last()) == 0);
        assert(s.last() == digit_char(v));
    } else {
        decimals_read_back(v / 10);
        assert(s.drop_last() =~= decimal_chars(v / 10));
        assert(s.last() == digit_char(v % 10));
        assert forall|i: int| 0 <= i < s.len() implies '0' <= #[trigger] s[i] <= '9' by {
            if i < s.len() - 1 {
                assert(s[i] == decimal_chars(v / 10)[i]);
            }
        }
    }
    assert(s[0] != '+') by {
        assert('0' <= s[0]);
    }
}

proof fn lemma_digit(d: nat)
    requires
        d < 10,
    ensures
        '0' <= digit_char(d) <= '9',
        digit_char(d) as int - '0' as int == d,
{
}

/// Two numbers are written alike only where they are the same.
pub proof fn decimals_differ(a: nat, b: nat)
    requires
        decimal_chars(a) == decimal_chars(b),
    ensures
        a == b,
{
    decimals_read_back(a);
    decimals_read_back(b);
}

/// A read from memory gives the bytes that were asked for, and only where all of
/// them are there.
pub proof fn memory_gives_what_was_asked_for(buf: Seq<u8>, start: u64, len: u64)
    ensures
        range_reply(buf, start, len) is Ok <==> start + len <= buf.len(),
        range_reply(buf, start, len) matches Ok(b) ==> {
            &&& b.len() == len
            &&& forall|i: int| 0 <= i < len ==> #[trigger] b[i] == buf[start + i]
        },
{
}

/// A server that knows ranges and one that does not give the same bytes: the part
/// that one sends is what is cut out of the whole that the other sends.
pub proof fn servers_agree_on_ranges(url: Seq<char>, whole: Seq<u8>, start: u64, len: u64)
    requires
        start + len <= whole.len(),
    ensures
        ({
            let part = whole.subrange(start as int, start + len);
            &&& ranged_reply(url, 206, part, start, len) == Ok::<Seq<u8>, crate::fetch::FetchFault>(part)
            &&& ranged_reply(url, 200, whole, start, len) == Ok::<Seq<u8>, crate::fetch::FetchFault>(part)
        }),
{
}

/// An answer that is neither a part nor the whole is an error.
pub proof fn other_answers_are_errors(url: Seq<char>, status: u16, range: Option<Seq<char>>, body: Seq<u8>, start: u64, len: u64)
    requires
        status != 200,
        status != 206,
    ensures
        ranged_reply(url, status, body, start, len) is Err,
        suffix_reply(url, status, range, body, len) is Err,
{
}

/// A read that was called off reads nothing, wherever it would have read.
pub proof fn aborted_reads_read_nothing(a: ByteSource, b: ByteSource, start: u64, len: u64)
    ensures
        read_plan(a, start, len, true) == read_plan(b, start, len, true),
        read_plan(a, start, len, true) matches Plan::Reply(r) && r is Err,
{
}

proof fn lemma_plain(s: Seq<char>)
    requires
        s.len() > 0,
        !is_white(s[0]),
        !is_white(s.last()),
    ensures
        trimmed(s) == s,
{
}

proof fn lemma_slash(head: Seq<char>, tail: Seq<char>, k: int)
    requires
        all_digits(tail),
        head.len() < k <= head.len() + 1 + tail.len(),
    ensures
        crate::uri::last_slash(head + seq!['/'] + tail, k) == Some(head.len() as int),
    decreases k,
{
    let s = head + seq!['/'] + tail;
    if k > head.len() + 1 {
        assert(s[k - 1] == tail[k - 2 - head.len()]);
        lemma_slash(head, tail, k - 1);
    }
}

/// The `Content-Range` header that a server sends for a range tells the total.
pub proof fn content_ranges_tell_the_total(first: nat, last: nat, total: u64)
    ensures
        content_range_total(
            "bytes "@ + decimal_chars(first) + "-"@ + decimal_chars(last) + "/"@ + decimal_chars(
                total as nat,
            ),
        ) == Some(total),
{
    reveal_strlit("bytes ");
    reveal_strlit("bytes");
    reveal_strlit("-");
    reveal_strlit("/");
    decimals_read_back(first);
    decimals_read_back(last);
    decimals_read_back(total as nat);
    let a = decimal_chars(first);
    let b = decimal_chars(last);
    let c = decimal_chars(total as nat);
    let value = "bytes "@ + a + "-"@ + b + "/"@ + c;
    assert("bytes "@.len() == 6);
    assert("bytes"@.len() == 5);
    assert(value[0] == 'b');
    assert(value.last() == c.last());
    assert('0' <= c[c.len() - 1] <= '9');
    lemma_plain(value);
    assert(value.take(5) =~= "bytes"@);
    let behind = value.subrange(5, value.len() as int);
    let rest = a + "-"@ + b + seq!['/'] + c;
    assert(behind[0] == ' ');
    assert(behind.drop_first() =~= rest);
    assert(left_trimmed(behind) == left_trimmed(rest));
    assert(rest[0] == a[0]);
    assert('0' <= a[0] <= '9');
    assert(rest.last() == c.last());
    lemma_plain(rest);
    assert(trimmed(behind) == rest);
    let head = a + "-"@ + b;
    assert(rest =~= head + seq!['/'] + c);
    lemma_slash(head, c, rest.len() as int);
    let k = head.len() as int;
    assert(rest.subrange(k + 1, rest.len() as int) =~= c);
    assert('0' <= c[0] <= '9');
    lemma_plain(c);
}

/// Servers agree on the end of a source too: the last bytes and the total come out
/// the same, whether the server sends the end, with its total in the header, or
/// everything.
pub proof fn servers_agree_on_the_end(url: Seq<char>, whole: Seq<u8>, n: u64)
    requires
        0 < n <= whole.len() <= u64::MAX,
    ensures
        ({
            let total = whole.len();
            let start = total - n;
            let end = whole.subrange(start, total as int);
            let header = "bytes "@ + decimal_chars(start as nat) + "-"@ + decimal_chars(
                (total - 1) as nat,
            ) + "/"@ + decimal_chars(total);
            &&& suffix_reply(url, 206, Some(header), end, n) == Ok::<(Seq<u8>, u64), crate::fetch::FetchFault>(
                (end, total as u64),
            )
            &&& suffix_reply(url, 200, None, whole, n) == Ok::<(Seq<u8>, u64), crate::fetch::FetchFault>(
                (end, total as u64),
            )
            &&& explicit_tail(200, Some(total as u64), n) == Some((start as u64, n, total as u64))
        }),
{
    let total = whole.len();
    content_ranges_tell_the_total((total - n) as nat, (total - 1) as nat, total as u64);
    if n == total {
        assert(whole.subrange(0, total as int) =~= whole);
    }
}

/// The range header names the first and the last byte, so two reads that differ
/// ask differently.
pub proof fn range_headers_differ(start: u64, len: u64, other: u64, more: u64)
    requires
        1 <= start + len <= u64::MAX,
        1 <= other + more <= u64::MAX,
        range_header(start, len) == range_header(other, more),
    ensures
        start == other,
        len == more,
{
    reveal_strlit("bytes=");
    reveal_strlit("-");
    let a = decimal_chars(start as nat);
    let b = decimal_chars((start + len - 1) as nat);
    let c = decimal_chars(other as nat);
    let d = decimal_chars((other + more - 1) as nat);
    decimals_read_back(start as nat);
    decimals_read_back((start + len - 1) as nat);
    decimals_read_back(other as nat);
    decimals_read_back((other + more - 1) as nat);
    let x = range_header(start, len);
    let y = range_header(other, more);
    assert("bytes="@.len() == 6);
    assert(x[6 + a.len() as int] == '-');
    assert(y[6 + c.len() as int] == '-');
    if a.len() < c.len() {
        assert(y[6 + a.len() as int] == c[a.len() as int]);
        assert('0' <= c[a.len() as int]);
    }
    if c.len() < a.len() {
        assert(x[6 + c.len() as int] == a[c.len() as int]);
        assert('0' <= a[c.len() as int]);
    }
    assert forall|i: int| 0 <= i < a.len() implies a[i] == c[i] by {
        assert(x[6 + i] == a[i]);
        assert(y[6 + i] == c[i]);
    }
    assert(a =~= c);
    let n = 7 + a.len() as int;
    assert(x.len() == n + b.len() && y.len() == n + d.len());
    assert forall|i: int| 0 <= i < b.len() implies b[i] == d[i] by {
        assert(x[n + i] == b[i]);
        assert(y[n + i] == d[i]);
    }
    assert(b =~= d);
}

/// Slashes at the seam do not matter: a key is the same with and without them.
pub proof fn keys_join_with_one_slash(url: Seq<char>, uri: Seq<char>)
    requires
        !url.contains('?'),
    ensures
        key_under(url + seq!['/'], uri) == key_under(url, uri),
        key_under(url, seq!['/'] + uri) == key_under(url, uri),
        url.len() > 0 && url.last() != '/' && uri.len() > 0 && uri[0] != '/' ==> key_under(
            url,
            uri,
        ) == url + "/"@ + uri,
{
    lemma_no_query(url, 0);
    let longer = url + seq!['/'];
    assert(!longer.contains('?')) by {
        assert forall|i: int| 0 <= i < longer.len() implies longer[i] != '?' by {
            if i < url.len() {
                assert(url.contains(url[i]));
            }
        }
    }
    lemma_no_query(longer, 0);
    assert(url.take(url.len() as int) =~= url);
    assert(longer.take(longer.len() as int) =~= longer);
    assert(longer.drop_last() =~= url);
    assert((seq!['/'] + uri).drop_first() =~= uri);
}

proof fn lemma_no_query(s: Seq<char>, i: int)
    requires
        0 <= i <= s.len(),
        !s.contains('?'),
    ensures
        crate::fetch::query_start(s, i) == s.len(),
    decreases s.len() - i,
{
    if i < s.len() {
        assert(s.contains(s[i]));
        lemma_no_query(s, i + 1);
    }
}

/// A path inside a directory is the same with and without the slash at the
/// directory's end.
pub proof fn paths_join_with_one_slash(dir: Seq<char>, rel: Seq<char>)
    requires
        dir.len() > 0,
        dir.last() != '/',
    ensures
        dir_join(dir, rel) == dir + seq!['/'] + rel,
        dir_join(dir + seq!['/'], rel) == dir_join(dir, rel),
{
    reveal_strlit("/");
    assert("/"@ =~= seq!['/']);
}

} // verus!
