//! A stable sort, by a rank of five integers compared in order.
use vstd::prelude::*;

verus! {

/// A rank: five integers, the first that differs decides.
pub type Rank = (u64, u64, u64, u64, u64);

/// `a` comes no later than `b`.
pub open spec fn rank_le(a: Rank, b: Rank) -> bool {
    if a.0 != b.0 {
        a.0 < b.0
    } else if a.1 != b.1 {
        a.1 < b.1
    } else if a.2 != b.2 {
        a.2 < b.2
    } else if a.3 != b.3 {
        a.3 < b.3
    } else {
        a.4 <= b.4
    }
}

/// Something with a rank.
pub trait Ranked: Sized {
    spec fn rank(self) -> Rank;

    /// The rank of the value.
    fn get_rank(&self) -> (r: Rank)
        ensures
            r == self.rank(),
    ;
}

impl Ranked for u64 {
    open spec fn rank(self) -> Rank {
        (self, 0, 0, 0, 0)
    }

    fn get_rank(&self) -> (r: Rank) {
        (*self, 0, 0, 0, 0)
    }
}

pub open spec fn sorted<T: Ranked>(s: Seq<T>) -> bool {
    forall|i: int, j: int|
        0 <= i < j < s.len() ==> rank_le((#[trigger] s[i]).rank(), (#[trigger] s[j]).rank())
}

/// The items of rank `k`, in order.
pub open spec fn of_rank<T: Ranked>(s: Seq<T>, k: Rank) -> Seq<T>
    decreases s.len(),
{
    if s.len() == 0 {
        Seq::empty()
    } else if s.last().rank() == k {
        of_rank(s.drop_last(), k).push(s.last())
    } else {
        of_rank(s.drop_last(), k)
    }
}

/// `out` holds the items of `s` sorted by rank, those of equal rank in their
/// old order.
pub open spec fn stably_sorted<T: Ranked>(out: Seq<T>, s: Seq<T>) -> bool {
    &&& sorted(out)
    &&& out.len() == s.len()
    &&& out.to_multiset() == s.to_multiset()
    &&& forall|k: Rank| #[trigger] of_rank(out, k) == of_rank(s, k)
}

/// The items of `s` sorted by rank, those of equal rank in their old order.
pub open spec fn stable_order<T: Ranked>(s: Seq<T>) -> Seq<T> {
    choose|out: Seq<T>| stably_sorted(out, s)
}

fn le(a: Rank, b: Rank) -> (r: bool)
    ensures
        r == rank_le(a, b),
{
    if a.0 != b.0 {
        a.0 < b.0
    } else if a.1 != b.1 {
        a.1 < b.1
    } else if a.2 != b.2 {
        a.2 < b.2
    } else if a.3 != b.3 {
        a.3 < b.3
    } else {
        a.4 <= b.4
    }
}

pub proof fn lemma_of_rank_push<T: Ranked>(s: Seq<T>, x: T, k: Rank)
    ensures
        of_rank(s.push(x), k) == if x.rank() == k {
            of_rank(s, k).push(x)
        } else {
            of_rank(s, k)
        },
{
    assert(s.push(x).drop_last() =~= s);
}

pub proof fn lemma_of_rank_add<T: Ranked>(a: Seq<T>, b: Seq<T>, k: Rank)
    ensures
        of_rank(a + b, k) == of_rank(a, k) + of_rank(b, k),
    decreases b.len(),
{
    if b.len() == 0 {
        assert(a + b =~= a);
        assert(of_rank(a, k) + of_rank(b, k) =~= of_rank(a, k));
    } else {
        assert((a + b).drop_last() =~= a + b.drop_last());
        lemma_of_rank_add(a, b.drop_last(), k);
        assert(of_rank(a + b, k) =~= of_rank(a, k) + of_rank(b, k));
    }
}

proof fn lemma_of_rank_none<T: Ranked>(s: Seq<T>, k: Rank)
    requires
        forall|i: int| 0 <= i < s.len() ==> (#[trigger] s[i]).rank() != k,
    ensures
        of_rank(s, k) == Seq::<T>::empty(),
    decreases s.len(),
{
    if s.len() > 0 {
        assert(s.last() == s[s.len() - 1]);
        assert forall|i: int| 0 <= i < s.drop_last().len() implies (#[trigger] s.drop_last()[i]).rank()
            != k by {
            assert(s.drop_last()[i] == s[i]);
        }
        lemma_of_rank_none(s.drop_last(), k);
    }
}

proof fn lemma_last_is_greatest<T: Ranked>(a: Seq<T>, b: Seq<T>)
    requires
        a.len() > 0,
        b.len() > 0,
        sorted(b),
        of_rank(a, a.last().rank()) == of_rank(b, a.last().rank()),
    ensures
        rank_le(a.last().rank(), b.last().rank()),
{
    let k = a.last().rank();
    if forall|i: int| 0 <= i < b.len() ==> (#[trigger] b[i]).rank() != k {
        lemma_of_rank_none(b, k);
        assert(of_rank(a, k).len() > 0);
    } else {
        let i = choose|i: int| 0 <= i < b.len() && (#[trigger] b[i]).rank() == k;
        assert(b[i].rank() == k);
        assert(b.last() == b[b.len() - 1]);
    }
}

proof fn lemma_sorted_unique<T: Ranked>(a: Seq<T>, b: Seq<T>)
    requires
        sorted(a),
        sorted(b),
        a.len() == b.len(),
        forall|k: Rank| #[trigger] of_rank(a, k) == of_rank(b, k),
    ensures
        a == b,
    decreases a.len(),
{
    if a.len() > 0 {
        lemma_last_is_greatest(a, b);
        lemma_last_is_greatest(b, a);
        let k = a.last().rank();
        assert(b.last().rank() == k);
        assert(of_rank(a, k) == of_rank(a.drop_last(), k).push(a.last()));
        assert(of_rank(b, k) == of_rank(b.drop_last(), k).push(b.last()));
        assert(of_rank(a, k).last() == of_rank(b, k).last());
        assert forall|k2: Rank| #[trigger] of_rank(a.drop_last(), k2) == of_rank(b.drop_last(), k2) by {
            assert(of_rank(a, k2) == of_rank(b, k2));
            if k2 == k {
                assert(of_rank(a.drop_last(), k2) =~= of_rank(a, k2).drop_last());
                assert(of_rank(b.drop_last(), k2) =~= of_rank(b, k2).drop_last());
            }
        }
        lemma_sorted_unique(a.drop_last(), b.drop_last());
        assert(a =~= a.drop_last().push(a.last()));
        assert(b =~= b.drop_last().push(b.last()));
    } else {
        assert(a =~= b);
    }
}

/// There is one stably sorted order.
pub proof fn lemma_stable_order<T: Ranked>(out: Seq<T>, s: Seq<T>)
    requires
        stably_sorted(out, s),
    ensures
        out == stable_order(s),
        stably_sorted(stable_order(s), s),
{
    let other = stable_order(s);
    assert forall|k: Rank| #[trigger] of_rank(out, k) == of_rank(other, k) by {
        assert(of_rank(out, k) == of_rank(s, k));
        assert(of_rank(other, k) == of_rank(s, k));
    }
    lemma_sorted_unique(out, other);
}

proof fn lemma_push<T>(s: Seq<T>, x: T)
    ensures
        s.push(x).to_multiset() == s.to_multiset().insert(x),
{
    broadcast use vstd::seq_lib::group_to_multiset_ensures;

}

proof fn lemma_push_first<T>(a: Seq<T>, b: Seq<T>, x: T)
    ensures
        (a + b).push(x).to_multiset() == (a.push(x) + b).to_multiset(),
{
    broadcast use vstd::multiset::group_multiset_axioms;

    lemma_push(a + b, x);
    lemma_push(a, x);
    vstd::seq_lib::lemma_multiset_commutative(a, b);
    vstd::seq_lib::lemma_multiset_commutative(a.push(x), b);
    assert((a + b).push(x).to_multiset() =~= (a.push(x) + b).to_multiset());
}

/// `s` with `x` put in before the first item of greater rank.
spec fn inserted<T: Ranked>(s: Seq<T>, x: T) -> Seq<T>
    decreases s.len(),
{
    if s.len() == 0 || rank_le(s.last().rank(), x.rank()) {
        s.push(x)
    } else {
        inserted(s.drop_last(), x).push(s.last())
    }
}

proof fn lemma_inserted<T: Ranked>(s: Seq<T>, x: T)
    requires
        sorted(s),
    ensures
        stably_sorted(inserted(s, x), s.push(x)),
    decreases s.len(),
{
    let out = inserted(s, x);
    if s.len() == 0 || rank_le(s.last().rank(), x.rank()) {
        assert forall|i: int, j: int| 0 <= i < j < out.len() implies rank_le(
            (#[trigger] out[i]).rank(),
            (#[trigger] out[j]).rank(),
        ) by {
            if j == s.len() {
                assert(s.last() == s[s.len() - 1]);
                if i < s.len() - 1 {
                    assert(rank_le(s[i].rank(), s[s.len() - 1].rank()));
                }
            }
        }
    } else {
        let rest = s.drop_last();
        let y = s.last();
        lemma_inserted(rest, x);
        let mid = inserted(rest, x);
        assert(s =~= rest.push(y));
        lemma_push(mid, y);
        lemma_push(rest.push(x), y);
        lemma_push(rest, x);
        lemma_push(rest, y);
        lemma_push(s, x);
        assert(out.to_multiset() =~= s.push(x).to_multiset());
        assert forall|i: int, j: int| 0 <= i < j < out.len() implies rank_le(
            (#[trigger] out[i]).rank(),
            (#[trigger] out[j]).rank(),
        ) by {
            if j == mid.len() {
                lemma_member(mid, rest.push(x), i);
                let k = choose|k: int| 0 <= k < rest.push(x).len() && rest.push(x)[k] == mid[i];
                if k < rest.len() {
                    assert(rank_le(s[k].rank(), s[s.len() - 1].rank()));
                }
            }
        }
        assert forall|k: Rank| #[trigger] of_rank(out, k) == of_rank(s.push(x), k) by {
            lemma_of_rank_push(mid, y, k);
            lemma_of_rank_push(s, x, k);
            lemma_of_rank_push(rest, x, k);
            lemma_of_rank_push(rest, y, k);
            assert(of_rank(mid, k) == of_rank(rest.push(x), k));
        }
    }
}

proof fn lemma_member<T>(a: Seq<T>, b: Seq<T>, i: int)
    requires
        a.to_multiset() == b.to_multiset(),
        0 <= i < a.len(),
    ensures
        b.contains(a[i]),
{
    broadcast use vstd::seq_lib::group_to_multiset_ensures;

    assert(a.contains(a[i]));
    assert(a.to_multiset().count(a[i]) > 0);
}

/// Every list has a stably sorted order.
pub proof fn lemma_stable_order_exists<T: Ranked>(s: Seq<T>)
    ensures
        stably_sorted(stable_order(s), s),
    decreases s.len(),
{
    if s.len() == 0 {
        lemma_stable_order(s, s);
    } else {
        let rest = s.drop_last();
        let x = s.last();
        lemma_stable_order_exists(rest);
        let mid = stable_order(rest);
        lemma_inserted(mid, x);
        let out = inserted(mid, x);
        assert(s =~= rest.push(x));
        lemma_push(mid, x);
        lemma_push(rest, x);
        assert forall|k: Rank| #[trigger] of_rank(out, k) == of_rank(s, k) by {
            lemma_of_rank_push(mid, x, k);
            lemma_of_rank_push(rest, x, k);
            assert(of_rank(out, k) == of_rank(mid.push(x), k));
            assert(of_rank(mid, k) == of_rank(rest, k));
        }
        lemma_stable_order(out, s);
    }
}

/// Merges two sorted lists; of equal ranks the items of `a` come first.
fn merge<T: Ranked + Copy>(a: &Vec<T>, b: &Vec<T>) -> (out: Vec<T>)
    requires
        sorted(a@),
        sorted(b@),
    ensures
        stably_sorted(out@, a@ + b@),
{
    let mut out: Vec<T> = Vec::new();
    let mut i: usize = 0;
    let mut j: usize = 0;
    proof {
        assert(a@.take(0) + b@.take(0) =~= out@);
        assert forall|k: Rank| #[trigger] of_rank(out@, k) == of_rank(a@.take(0), k) + of_rank(
            b@.take(0),
            k,
        ) by {
            assert(a@.take(0) =~= Seq::<T>::empty());
            assert(b@.take(0) =~= Seq::<T>::empty());
        }
    }
    while i < a.len() || j < b.len()
        invariant
            i <= a@.len(),
            j <= b@.len(),
            out@.len() == i + j,
            sorted(a@),
            sorted(b@),
            sorted(out@),
            out@.to_multiset() == (a@.take(i as int) + b@.take(j as int)).to_multiset(),
            forall|k: Rank| #[trigger]
                of_rank(out@, k) == of_rank(a@.take(i as int), k) + of_rank(b@.take(j as int), k),
            forall|x: int|
                0 <= x < j ==> i < a@.len() ==> !rank_le(a@[i as int].rank(), (#[trigger] b@[x]).rank()),
            forall|x: int|
                0 <= x < out@.len() && i < a@.len() ==> rank_le(
                    (#[trigger] out@[x]).rank(),
                    a@[i as int].rank(),
                ),
            forall|x: int|
                0 <= x < out@.len() && j < b@.len() ==> rank_le(
                    (#[trigger] out@[x]).rank(),
                    b@[j as int].rank(),
                ),
        decreases a@.len() - i + b@.len() - j,
    {
        let from_a = if i < a.len() {
            if j < b.len() {
                le(a[i].get_rank(), b[j].get_rank())
            } else {
                true
            }
        } else {
            false
        };
        let ghost before = out@;
        let ghost ta = a@.take(i as int);
        let ghost tb = b@.take(j as int);
        if from_a {
            let x = a[i];
            out.push(x);
            i = i + 1;
            proof {
                assert(a@.take(i as int) =~= ta.push(x));
                assert forall|k: Rank| #[trigger] of_rank(out@, k) == of_rank(a@.take(i as int), k)
                    + of_rank(tb, k) by {
                    lemma_of_rank_push(before, x, k);
                    lemma_of_rank_push(ta, x, k);
                    assert(of_rank(before, k) == of_rank(ta, k) + of_rank(tb, k));
                    if x.rank() == k {
                        assert forall|y: int| 0 <= y < tb.len() implies (#[trigger] tb[y]).rank() != k by {
                            assert(tb[y] == b@[y]);
                        }
                        lemma_of_rank_none(tb, k);
                        assert(of_rank(out@, k) =~= of_rank(a@.take(i as int), k) + of_rank(tb, k));
                    }
                }
                lemma_push_first(ta, tb, x);
                lemma_push(before, x);
                lemma_push(ta + tb, x);
                assert forall|x2: int| 0 <= x2 < j && i < a@.len() implies !rank_le(
                    a@[i as int].rank(),
                    (#[trigger] b@[x2]).rank(),
                ) by {
                    assert(rank_le(a@[i - 1].rank(), a@[i as int].rank()));
                }
            }
        } else {
            let x = b[j];
            out.push(x);
            j = j + 1;
            proof {
                assert(b@.take(j as int) =~= tb.push(x));
                assert forall|k: Rank| #[trigger] of_rank(out@, k) == of_rank(ta, k) + of_rank(
                    b@.take(j as int),
                    k,
                ) by {
                    lemma_of_rank_push(before, x, k);
                    lemma_of_rank_push(tb, x, k);
                    assert(of_rank(before, k) == of_rank(ta, k) + of_rank(tb, k));
                    assert(of_rank(out@, k) =~= of_rank(ta, k) + of_rank(b@.take(j as int), k));
                }
                assert(ta + tb.push(x) =~= (ta + tb).push(x));
                lemma_push(before, x);
                lemma_push(ta + tb, x);
            }
        }
    }
    proof {
        assert(a@.take(i as int) =~= a@);
        assert(b@.take(j as int) =~= b@);
        assert forall|k: Rank| #[trigger] of_rank(out@, k) == of_rank(a@ + b@, k) by {
            lemma_of_rank_add(a@, b@, k);
        }
    }
    out
}

/// The items of `v` from `lo` up to `hi`, stably sorted by rank.
fn sort_range<T: Ranked + Copy>(v: &Vec<T>, lo: usize, hi: usize) -> (out: Vec<T>)
    requires
        lo <= hi <= v@.len(),
    ensures
        stably_sorted(out@, v@.subrange(lo as int, hi as int)),
    decreases hi - lo,
{
    if hi - lo <= 1 {
        let mut out: Vec<T> = Vec::new();
        if lo < hi {
            out.push(v[lo]);
        }
        assert(out@ =~= v@.subrange(lo as int, hi as int));
        return out;
    }
    let mid: usize = lo + (hi - lo) / 2;
    let a = sort_range(v, lo, mid);
    let b = sort_range(v, mid, hi);
    let out = merge(&a, &b);
    proof {
        broadcast use vstd::seq_lib::group_to_multiset_ensures;

        let sa = v@.subrange(lo as int, mid as int);
        let sb = v@.subrange(mid as int, hi as int);
        let s = v@.subrange(lo as int, hi as int);
        assert(s =~= sa + sb);
        vstd::seq_lib::lemma_multiset_commutative(sa, sb);
        vstd::seq_lib::lemma_multiset_commutative(a@, b@);
        assert forall|k: Rank| #[trigger] of_rank(out@, k) == of_rank(s, k) by {
            lemma_of_rank_add(sa, sb, k);
            lemma_of_rank_add(a@, b@, k);
            assert(of_rank(a@, k) == of_rank(sa, k));
            assert(of_rank(b@, k) == of_rank(sb, k));
            assert(of_rank(out@, k) == of_rank(a@ + b@, k));
        }
    }
    out
}

/// Sorts by rank; items of equal rank keep their order.
pub fn stable_sort<T: Ranked + Copy>(v: &Vec<T>) -> (out: Vec<T>)
    ensures
        out@ == stable_order(v@),
        stably_sorted(out@, v@),
{
    assert(v@.subrange(0, v@.len() as int) =~= v@);
    let out = sort_range(v, 0, v.len());
    proof {
        lemma_stable_order(out@, v@);
    }
    out
}

/// Whether the items stand in the order of their ranks.
pub fn is_sorted<T: Ranked + Copy>(v: &Vec<T>) -> (r: bool)
    ensures
        r == sorted(v@),
        r ==> v@ == stable_order(v@),
{
    if v.len() == 0 {
        proof {
            lemma_stable_order(v@, v@);
        }
        return true;
    }
    let mut i: usize = 1;
    while i < v.len()
        invariant
            1 <= i <= v@.len(),
            forall|a: int, b: int|
                0 <= a < b < i ==> rank_le((#[trigger] v@[a]).rank(), (#[trigger] v@[b]).rank()),
        decreases v@.len() - i,
    {
        if !le(v[i - 1].get_rank(), v[i].get_rank()) {
            assert(!rank_le(v@[i - 1].rank(), v@[i as int].rank()));
            return false;
        }
        assert forall|a: int| 0 <= a < i implies rank_le(
            (#[trigger] v@[a]).rank(),
            v@[i as int].rank(),
        ) by {
            if a < i - 1 {
                assert(rank_le(v@[a].rank(), v@[i - 1].rank()));
            }
        }
        i = i + 1;
    }
    proof {
        lemma_stable_order(v@, v@);
    }
    true
}

} // verus!
