//! Attribution: the lines that the tiles in memory ask to be shown.
use crate::gltf::strings;
use crate::text;
use crate::text::{before, chars_of, string_of, trim_range, trimmed};
use vstd::prelude::*;

verus! {

/// The lines with one more, in order and each once.
pub open spec fn line_in(list: Seq<Seq<char>>, x: Seq<char>) -> Seq<Seq<char>>
    decreases list.len(),
{
    if list.len() == 0 {
        seq![x]
    } else if list[0] == x {
        list
    } else if before(x, list[0]) {
        seq![x] + list
    } else {
        seq![list[0]] + line_in(list.drop_first(), x)
    }
}

/// The lines are in order, and each is there once.
pub open spec fn in_order(list: Seq<Seq<char>>) -> bool {
    forall|i: int, j: int|
        0 <= i < j < list.len() ==> before(#[trigger] list[i], #[trigger] list[j])
}

/// Adding a line keeps the order, adds that line, and loses none.
pub proof fn lines_stay_in_order(list: Seq<Seq<char>>, x: Seq<char>)
    requires
        in_order(list),
    ensures
        in_order(line_in(list, x)),
        forall|y: Seq<char>| #[trigger]
            line_in(list, x).contains(y) <==> (y == x || list.contains(y)),
    decreases list.len(),
{
    let out = line_in(list, x);
    if list.len() == 0 {
        assert(out[0] == x);
    } else if list[0] == x {
        assert(list.contains(x));
    } else if before(x, list[0]) {
        assert forall|i: int, j: int| 0 <= i < j < out.len() implies before(
            #[trigger] out[i],
            #[trigger] out[j],
        ) by {
            assert(out[j] == list[j - 1]);
            if i == 0 {
                if j > 1 {
                    text::lemma_before_transitive(x, list[0], list[j - 1]);
                }
            } else {
                assert(out[i] == list[i - 1]);
            }
        }
        assert forall|y: Seq<char>| #[trigger] out.contains(y) <==> (y == x || list.contains(
            y,
        )) by {
            if list.contains(y) {
                let k = choose|k: int| 0 <= k < list.len() && list[k] == y;
                assert(out[k + 1] == y);
            }
            if y == x {
                assert(out[0] == y);
            }
            if out.contains(y) {
                let k = choose|k: int| 0 <= k < out.len() && out[k] == y;
                if k > 0 {
                    assert(list[k - 1] == y);
                }
            }
        }
    } else {
        let rest = list.drop_first();
        text::lemma_before_strict(x, list[0]);
        lines_stay_in_order(rest, x);
        let more = line_in(rest, x);
        assert forall|i: int, j: int| 0 <= i < j < out.len() implies before(
            #[trigger] out[i],
            #[trigger] out[j],
        ) by {
            assert(out[j] == more[j - 1]);
            if i == 0 {
                assert(more.contains(more[j - 1]));
                if more[j - 1] != x {
                    assert(rest.contains(more[j - 1]));
                    let k = choose|k: int| 0 <= k < rest.len() && rest[k] == more[j - 1];
                    assert(list[k + 1] == more[j - 1]);
                    assert(before(list[0], list[k + 1]));
                }
            } else {
                assert(out[i] == more[i - 1]);
            }
        }
        assert forall|y: Seq<char>| #[trigger] out.contains(y) <==> (y == x || list.contains(
            y,
        )) by {
            if out.contains(y) {
                let k = choose|k: int| 0 <= k < out.len() && out[k] == y;
                if k > 0 {
                    assert(more[k - 1] == y);
                    assert(more.contains(y));
                    if y != x {
                        let m = choose|m: int| 0 <= m < rest.len() && rest[m] == y;
                        assert(list[m + 1] == y);
                    }
                } else {
                    assert(list[0] == y);
                }
            }
            if y == x {
                assert(more.contains(y));
            }
            if list.contains(y) {
                let k = choose|k: int| 0 <= k < list.len() && list[k] == y;
                if k == 0 {
                    assert(out[0] == y);
                } else {
                    assert(rest[k - 1] == y);
                    assert(rest.contains(y));
                }
            }
            if more.contains(y) {
                let k = choose|k: int| 0 <= k < more.len() && more[k] == y;
                assert(out[k + 1] == y);
            }
        }
    }
}

proof fn lemma_line_in_skip(list: Seq<Seq<char>>, x: Seq<char>, k: int)
    requires
        0 <= k <= list.len(),
        forall|i: int| 0 <= i < k ==> #[trigger] list[i] != x && !before(x, list[i]),
    ensures
        line_in(list, x) == list.take(k) + line_in(list.skip(k), x),
    decreases k,
{
    if k == 0 {
        assert(list.skip(0) =~= list);
        assert(list.take(0) + line_in(list, x) =~= line_in(list, x));
    } else {
        assert(list[0] != x && !before(x, list[0]));
        let rest = list.drop_first();
        assert forall|i: int| 0 <= i < k - 1 implies #[trigger] rest[i] != x && !before(
            x,
            rest[i],
        ) by {
            assert(rest[i] == list[i + 1]);
        }
        lemma_line_in_skip(rest, x, k - 1);
        assert(rest.skip(k - 1) =~= list.skip(k));
        assert(seq![list[0]] + (rest.take(k - 1) + line_in(list.skip(k), x)) =~= list.take(k)
            + line_in(list.skip(k), x));
    }
}

/// Adds a line to the lines, in its place, where it is not there.
pub fn add_line(list: &mut Vec<String>, x: &str)
    ensures
        strings(final(list)@) == line_in(strings(old(list)@), x@),
{
    let ghost had = strings(list@);
    let mut k: usize = 0;
    while k < list.len() && !text::same(list[k].as_str(), x) && !text::stands_before(
        x,
        list[k].as_str(),
    )
        invariant
            k <= list@.len(),
            had == strings(list@),
            forall|i: int| 0 <= i < k ==> #[trigger] had[i] != x@ && !before(x@, had[i]),
        decreases list@.len() - k,
    {
        assert(had[k as int] == list@[k as int]@);
        k = k + 1;
    }
    proof {
        lemma_line_in_skip(had, x@, k as int);
    }
    if k < list.len() && text::same(list[k].as_str(), x) {
        assert(had[k as int] == list@[k as int]@);
        assert(had.skip(k as int)[0] == x@);
        assert(had.take(k as int) + had.skip(k as int) =~= had);
    } else {
        let ghost tail = had.skip(k as int);
        proof {
            if k < list@.len() {
                assert(had[k as int] == list@[k as int]@);
                assert(tail[0] == had[k as int]);
            } else {
                assert(seq![x@] + tail =~= seq![x@]);
            }
        }
        let line = String::from_str(x);
        list.insert(k, line);
        assert(strings(list@) =~= had.take(k as int) + (seq![x@] + tail));
    }
}

/// Where the first `;` from `i` on stands.
pub open spec fn break_at(s: Seq<char>, i: int) -> int
    decreases s.len() - i,
{
    if i >= s.len() || s[i] == ';' {
        i
    } else {
        break_at(s, i + 1)
    }
}

proof fn lemma_break(s: Seq<char>, i: int)
    requires
        0 <= i <= s.len(),
    ensures
        i <= break_at(s, i) <= s.len(),
    decreases s.len() - i,
{
    if i < s.len() && s[i] != ';' {
        lemma_break(s, i + 1);
    }
}

/// The lines with the parts of a notice from `i` on: what stands between `;`,
/// without the white space around it, where anything is left.
pub open spec fn notice_in(list: Seq<Seq<char>>, s: Seq<char>, i: int) -> Seq<Seq<char>>
    decreases s.len() - i,
    when 0 <= i <= s.len()
{
    let j = break_at(s, i);
    let part = trimmed(s.subrange(i, j));
    let with = if part.len() > 0 {
        line_in(list, part)
    } else {
        list
    };
    if i <= j < s.len() {
        notice_in(with, s, j + 1)
    } else {
        with
    }
}

/// Adds the parts of a copyright notice.
pub fn add_notice(list: &mut Vec<String>, notice: &str)
    ensures
        strings(final(list)@) == notice_in(strings(old(list)@), notice@, 0),
{
    let v = chars_of(notice);
    let n: usize = v.len();
    let ghost want = notice_in(strings(list@), notice@, 0);
    let mut i: usize = 0;
    loop
        invariant_except_break
            want == notice_in(strings(list@), notice@, i as int),
        invariant
            i <= n,
            n == v@.len(),
            v@ == notice@,
        ensures
            strings(list@) == want,
        decreases n - i,
    {
        let mut j: usize = i;
        while j < n && v[j] != ';'
            invariant
                i <= j <= n,
                n == v@.len(),
                v@ == notice@,
                break_at(notice@, i as int) == break_at(notice@, j as int),
            decreases n - j,
        {
            j = j + 1;
        }
        proof {
            lemma_break(notice@, i as int);
        }
        let (lo, hi) = trim_range(&v, i, j);
        if lo < hi {
            let part = string_of(&v, lo, hi);
            add_line(list, part.as_str());
        }
        if j >= n {
            break;
        }
        i = j + 1;
    }
}

/// The lines with all of `more`, up to the `k`-th.
pub open spec fn lines_in(list: Seq<Seq<char>>, more: Seq<Seq<char>>, k: int) -> Seq<Seq<char>>
    decreases k,
{
    if k <= 0 {
        list
    } else {
        line_in(lines_in(list, more, k - 1), more[k - 1])
    }
}

/// Adds all lines of another list.
pub fn add_lines(list: &mut Vec<String>, more: &Vec<String>)
    ensures
        strings(final(list)@) == lines_in(
            strings(old(list)@),
            strings(more@),
            more@.len() as int,
        ),
{
    let ghost had = strings(list@);
    let mut k: usize = 0;
    while k < more.len()
        invariant
            k <= more@.len(),
            strings(list@) == lines_in(had, strings(more@), k as int),
        decreases more@.len() - k,
    {
        assert(strings(more@)[k as int] == more@[k as int]@);
        add_line(list, more[k].as_str());
        k = k + 1;
    }
}

/// Adding lines keeps the order.
pub proof fn notices_stay_in_order(list: Seq<Seq<char>>, s: Seq<char>, i: int)
    requires
        in_order(list),
        0 <= i <= s.len(),
    ensures
        in_order(notice_in(list, s, i)),
    decreases s.len() - i,
{
    lemma_break(s, i);
    let j = break_at(s, i);
    let part = trimmed(s.subrange(i, j));
    lines_stay_in_order(list, part);
    let with = if part.len() > 0 {
        line_in(list, part)
    } else {
        list
    };
    if j < s.len() {
        notices_stay_in_order(with, s, j + 1);
    }
}

/// Adding lines keeps the order, adds them all, and loses none.
pub proof fn all_lines_are_added(list: Seq<Seq<char>>, more: Seq<Seq<char>>, k: int)
    requires
        in_order(list),
        0 <= k <= more.len(),
    ensures
        in_order(lines_in(list, more, k)),
        forall|y: Seq<char>| #[trigger]
            lines_in(list, more, k).contains(y) <==> (list.contains(y) || exists|i: int|
                0 <= i < k && #[trigger] more[i] == y),
    decreases k,
{
    if k > 0 {
        all_lines_are_added(list, more, k - 1);
        let had = lines_in(list, more, k - 1);
        lines_stay_in_order(had, more[k - 1]);
        assert forall|y: Seq<char>| #[trigger] lines_in(list, more, k).contains(y) <==> (
        list.contains(y) || exists|i: int| 0 <= i < k && #[trigger] more[i] == y) by {
            if had.contains(y) && !list.contains(y) {
                let i = choose|i: int| 0 <= i < k - 1 && #[trigger] more[i] == y;
                assert(more[i] == y);
            }
            if exists|i: int| 0 <= i < k && #[trigger] more[i] == y {
                let i = choose|i: int| 0 <= i < k && #[trigger] more[i] == y;
                assert(i == k - 1 || had.contains(y));
            }
        }
    }
}

/// `x` is what stands between two `;` of a text, or between one and an end of it,
/// without the white space around it, where anything is left.
pub open spec fn is_part(s: Seq<char>, from: int, x: Seq<char>) -> bool {
    x.len() > 0 && exists|a: int, b: int| #[trigger] is_piece(s, from, a, b) && trimmed(s.subrange(a, b)) == x
}

/// No `;` stands from `a` up to `b`, and none could be added at either side.
pub open spec fn is_piece(s: Seq<char>, from: int, a: int, b: int) -> bool {
    &&& from <= a <= b <= s.len()
    &&& forall|i: int| a <= i < b ==> #[trigger] s[i] != ';'
    &&& a == from || s[a - 1] == ';'
    &&& b == s.len() || s[b] == ';'
}

proof fn lemma_break_piece(s: Seq<char>, i: int)
    requires
        0 <= i <= s.len(),
    ensures
        i <= break_at(s, i) <= s.len(),
        forall|k: int| i <= k < break_at(s, i) ==> #[trigger] s[k] != ';',
        break_at(s, i) < s.len() ==> s[break_at(s, i)] == ';',
    decreases s.len() - i,
{
    if i < s.len() && s[i] != ';' {
        lemma_break_piece(s, i + 1);
    }
}

/// A notice adds each of its parts, and nothing else.
pub proof fn all_parts_are_added(list: Seq<Seq<char>>, s: Seq<char>, i: int, y: Seq<char>)
    requires
        in_order(list),
        0 <= i <= s.len(),
    ensures
        notice_in(list, s, i).contains(y) <==> (list.contains(y) || is_part(s, i, y)),
    decreases s.len() - i,
{
    lemma_break_piece(s, i);
    let j = break_at(s, i);
    let part = trimmed(s.subrange(i, j));
    lines_stay_in_order(list, part);
    let with = if part.len() > 0 {
        line_in(list, part)
    } else {
        list
    };
    assert(is_piece(s, i, i, j));
    if j < s.len() {
        all_parts_are_added(with, s, j + 1, y);
        if is_part(s, j + 1, y) {
            let (a, b) = choose|a: int, b: int| #[trigger]
                is_piece(s, j + 1, a, b) && trimmed(s.subrange(a, b)) == y;
            assert(is_piece(s, i, a, b));
        }
    }
    if is_part(s, i, y) {
        let (a, b) = choose|a: int, b: int| #[trigger]
            is_piece(s, i, a, b) && trimmed(s.subrange(a, b)) == y;
        if a == i {
            assert(b == j) by {
                if b < j {
                    assert(s[b] != ';');
                }
                if j < b {
                    assert(s[j] != ';');
                }
            }
        } else {
            if a <= j {
                assert(s[a - 1] != ';');
            }
            assert(is_piece(s, j + 1, a, b));
        }
    }
}

} // verus!
