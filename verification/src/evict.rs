//! Dropping the content of tiles that nobody looks at.
use crate::sorting::{stable_order, stable_sort, Rank, Ranked};
use crate::stream::{is_ready, CutAction, TileSlot};
use vstd::prelude::*;

verus! {

/// `a - b`, not below zero.
pub open spec fn age(frame: u64, seen: u64) -> int {
    if frame >= seen {
        frame - seen
    } else {
        0
    }
}

/// What eviction goes by.
pub struct Residents {
    pub slots: Seq<TileSlot>,
    pub want: Seq<bool>,
    pub hold: Seq<bool>,
    /// When each tile was last wanted.
    pub touched: Seq<u64>,
}

/// A tile whose content may be dropped: in memory, outside the cut, covering
/// for no other.
pub open spec fn is_idle(r: Residents, i: int) -> bool {
    is_ready(r.slots[i]) && !r.want[i] && !r.hold[i]
}

/// A tile whose content has been idle for longer than the grace period.
pub open spec fn is_expired(r: Residents, i: int, frame: u64, grace: u64) -> bool {
    is_idle(r, i) && age(frame, r.touched[i]) > grace
}

/// The expired tiles among the first `k`, in order.
pub open spec fn expired_up_to(r: Residents, k: int, frame: u64, grace: u64) -> Seq<usize>
    decreases k,
{
    if k <= 0 {
        Seq::empty()
    } else if is_expired(r, k - 1, frame, grace) {
        expired_up_to(r, k - 1, frame, grace).push((k - 1) as usize)
    } else {
        expired_up_to(r, k - 1, frame, grace)
    }
}

/// A tile with the frame in which it was last wanted.
#[derive(Clone, Copy, Debug)]
pub struct Aged {
    pub tile: usize,
    pub seen: u64,
}

impl Ranked for Aged {
    open spec fn rank(self) -> Rank {
        (self.seen, 0, 0, 0, 0)
    }

    fn get_rank(&self) -> (r: Rank) {
        (self.seen, 0, 0, 0, 0)
    }
}

/// The idle tiles among the first `k` that have not expired.
pub open spec fn spare_up_to(r: Residents, k: int, frame: u64, grace: u64) -> Seq<Aged>
    decreases k,
{
    if k <= 0 {
        Seq::empty()
    } else if is_idle(r, k - 1) && !is_expired(r, k - 1, frame, grace) {
        spare_up_to(r, k - 1, frame, grace).push(
            Aged { tile: (k - 1) as usize, seen: r.touched[k - 1] },
        )
    } else {
        spare_up_to(r, k - 1, frame, grace)
    }
}

/// How many of the first `k` tiles are in memory.
pub open spec fn ready_up_to(slots: Seq<TileSlot>, k: int) -> nat
    decreases k,
{
    if k <= 0 {
        0
    } else {
        ready_up_to(slots, k - 1) + if is_ready(slots[k - 1]) {
            1nat
        } else {
            0
        }
    }
}

/// How many tiles are in memory.
pub open spec fn ready_count(slots: Seq<TileSlot>) -> nat {
    ready_up_to(slots, slots.len() as int)
}

/// The smaller number.
pub open spec fn least(a: int, b: int) -> int {
    if a < b {
        a
    } else {
        b
    }
}

/// The tiles of a list.
pub open spec fn tiles_in(v: Seq<Aged>) -> Seq<usize> {
    Seq::new(v.len(), |i: int| v[i].tile)
}

/// How many tiles must go beside the expired ones.
pub open spec fn surplus(r: Residents, frame: u64, grace: u64, max: int) -> int {
    ready_count(r.slots) - expired_up_to(r, r.slots.len() as int, frame, grace).len() - max
}

/// The tiles to drop: the expired ones, and then, while more than `max` are in
/// memory, the ones that were wanted longest ago.
pub open spec fn evicted(r: Residents, frame: u64, grace: u64, max: int) -> Seq<usize> {
    let n = r.slots.len() as int;
    let old = expired_up_to(r, n, frame, grace);
    let over = surplus(r, frame, grace, max);
    if over > 0 {
        let spare = stable_order(spare_up_to(r, n, frame, grace));
        old + tiles_in(spare.take(least(over, spare.len() as int)))
    } else {
        old
    }
}

proof fn lemma_expired(r: Residents, k: int, frame: u64, grace: u64)
    requires
        0 <= k <= r.slots.len() <= usize::MAX,
    ensures
        expired_up_to(r, k, frame, grace).len() + spare_up_to(r, k, frame, grace).len()
            <= ready_up_to(r.slots, k) <= k,
        forall|j: int|
            0 <= j < expired_up_to(r, k, frame, grace).len() ==> (#[trigger] expired_up_to(
                r,
                k,
                frame,
                grace,
            )[j]) < k && is_idle(r, expired_up_to(r, k, frame, grace)[j] as int),
        forall|j: int|
            0 <= j < spare_up_to(r, k, frame, grace).len() ==> (#[trigger] spare_up_to(
                r,
                k,
                frame,
                grace,
            )[j]).tile < k && is_idle(r, spare_up_to(r, k, frame, grace)[j].tile as int),
    decreases k,
{
    if k > 0 {
        lemma_expired(r, k - 1, frame, grace);
    }
}

/// Only idle content is dropped: nothing that is in the cut, and nothing that
/// covers for a tile of the cut.
pub proof fn eviction_spares_the_scene(r: Residents, frame: u64, grace: u64, max: int, j: int)
    requires
        r.slots.len() <= usize::MAX,
        0 <= max,
        0 <= j < evicted(r, frame, grace, max).len(),
    ensures
        evicted(r, frame, grace, max)[j] < r.slots.len(),
        is_idle(r, evicted(r, frame, grace, max)[j] as int),
{
    let n = r.slots.len() as int;
    lemma_expired(r, n, frame, grace);
    let old = expired_up_to(r, n, frame, grace);
    if j >= old.len() {
        let spare = spare_up_to(r, n, frame, grace);
        let order = stable_order(spare);
        crate::sorting::lemma_stable_order_exists(spare);
        let m = j - old.len();
        assert(evicted(r, frame, grace, max)[j] == order[m].tile);
        order.to_multiset_ensures();
        spare.to_multiset_ensures();
        assert(order.contains(order[m]));
        assert(spare.to_multiset().count(order[m]) > 0);
        assert(spare.contains(order[m]));
        let p = choose|p: int| 0 <= p < spare.len() && spare[p] == order[m];
        assert(is_idle(r, spare[p].tile as int));
    }
}

/// After the drop no more than `max` tiles are in memory, or everything that is
/// idle was dropped.
pub proof fn eviction_reaches_the_cap(r: Residents, frame: u64, grace: u64, max: int)
    requires
        r.slots.len() <= usize::MAX,
        0 <= max,
    ensures
        ({
            let n = r.slots.len() as int;
            let gone = evicted(r, frame, grace, max).len();
            ||| ready_count(r.slots) - gone <= max
            ||| gone == expired_up_to(r, n, frame, grace).len() + spare_up_to(
                r,
                n,
                frame,
                grace,
            ).len()
        }),
{
    let n = r.slots.len() as int;
    lemma_expired(r, n, frame, grace);
    crate::sorting::lemma_stable_order_exists(spare_up_to(r, n, frame, grace));
}

/// Picks the tiles to drop.
pub fn plan_eviction(
    slots: &Vec<TileSlot>,
    want: &Vec<bool>,
    hold: &Vec<bool>,
    touched: &Vec<u64>,
    frame: u64,
    grace: u64,
    max_resident: usize,
) -> (out: Vec<usize>)
    requires
        want@.len() == slots@.len(),
        hold@.len() == slots@.len(),
        touched@.len() == slots@.len(),
    ensures
        out@ == evicted(
            Residents { slots: slots@, want: want@, hold: hold@, touched: touched@ },
            frame,
            grace,
            max_resident as int,
        ),
        forall|j: int| 0 <= j < out@.len() ==> #[trigger] out@[j] < slots@.len(),
{
    let ghost r = Residents { slots: slots@, want: want@, hold: hold@, touched: touched@ };
    let n: usize = slots.len();
    let mut out: Vec<usize> = Vec::new();
    let mut spare: Vec<Aged> = Vec::new();
    let mut resident: usize = 0;
    let mut i: usize = 0;
    while i < n
        invariant
            i <= n,
            n == slots@.len(),
            want@.len() == n,
            hold@.len() == n,
            touched@.len() == n,
            r == (Residents { slots: slots@, want: want@, hold: hold@, touched: touched@ }),
            out@ == expired_up_to(r, i as int, frame, grace),
            spare@ == spare_up_to(r, i as int, frame, grace),
            resident == ready_up_to(r.slots, i as int),
            resident <= i,
        decreases n - i,
    {
        if let TileSlot::Ready { .. } = slots[i] {
            resident = resident + 1;
            if !want[i] && !hold[i] {
                let seen: u64 = touched[i];
                let old: u64 = if frame >= seen {
                    frame - seen
                } else {
                    0
                };
                if old > grace {
                    out.push(i);
                } else {
                    spare.push(Aged { tile: i, seen });
                }
            }
        }
        i = i + 1;
    }
    proof {
        lemma_expired(r, n as int, frame, grace);
    }
    let kept: usize = resident - out.len();
    let ghost old = out@;
    if kept > max_resident {
        let over: usize = kept - max_resident;
        let order = stable_sort(&spare);
        let ghost cut = order@.take(least(over as int, order@.len() as int));
        let mut k: usize = 0;
        assert(old + tiles_in(cut.take(0)) =~= old);
        while k < order.len() && k < over
            invariant
                k <= order@.len(),
                k <= over,
                cut == order@.take(least(over as int, order@.len() as int)),
                out@ == old + tiles_in(cut.take(k as int)),
            decreases order@.len() - k,
        {
            assert(cut.take(k + 1) =~= cut.take(k as int).push(order@[k as int]));
            out.push(order[k].tile);
            assert(out@ =~= old + tiles_in(cut.take(k + 1)));
            k = k + 1;
        }
        assert(cut.take(k as int) =~= cut);
    }
    assert forall|j: int| 0 <= j < out@.len() implies #[trigger] out@[j] < slots@.len() by {
        eviction_spares_the_scene(r, frame, grace, max_resident as int, j);
    }
    out
}

/// What becomes of the tiles while content is dropped.
pub struct Dropping {
    pub slots: Seq<TileSlot>,
    pub caches: Seq<Seq<u64>>,
    pub actions: Seq<CutAction>,
}

/// A tile drops its content, and leaves the scene where it is in it.
pub open spec fn dropped(d: Dropping, i: int) -> Dropping {
    match d.slots[i] {
        TileSlot::Ready { entity, .. } => Dropping {
            slots: d.slots.update(i, TileSlot::NotLoaded),
            caches: d.caches.update(i, Seq::empty()),
            actions: match entity {
                Some(e) => d.actions.push(CutAction::Despawn { entity: e }),
                None => d.actions,
            },
        },
        _ => d,
    }
}

/// The first `k` tiles of a list drop their content.
pub open spec fn dropped_up_to(d: Dropping, list: Seq<usize>, k: int) -> Dropping
    decreases k,
{
    if k <= 0 {
        d
    } else {
        dropped(dropped_up_to(d, list, k - 1), list[k - 1] as int)
    }
}

/// The views of lists.
pub open spec fn lists(v: Seq<Vec<u64>>) -> Seq<Seq<u64>> {
    Seq::new(v.len(), |i: int| v[i]@)
}

/// Drops the content of tiles.
pub fn drop_content(
    slots: &mut Vec<TileSlot>,
    caches: &mut Vec<Vec<u64>>,
    actions: &mut Vec<CutAction>,
    list: &Vec<usize>,
)
    requires
        old(caches)@.len() == old(slots)@.len(),
        forall|j: int| 0 <= j < list@.len() ==> #[trigger] list@[j] < old(slots)@.len(),
    ensures
        dropped_up_to(
            Dropping {
                slots: old(slots)@,
                caches: lists(old(caches)@),
                actions: old(actions)@,
            },
            list@,
            list@.len() as int,
        ) == (Dropping {
            slots: final(slots)@,
            caches: lists(final(caches)@),
            actions: final(actions)@,
        }),
        final(slots)@.len() == old(slots)@.len(),
        final(caches)@.len() == old(caches)@.len(),
{
    let ghost d = Dropping { slots: slots@, caches: lists(caches@), actions: actions@ };
    let mut k: usize = 0;
    while k < list.len()
        invariant
            k <= list@.len(),
            slots@.len() == d.slots.len(),
            caches@.len() == d.slots.len(),
            forall|j: int| 0 <= j < list@.len() ==> #[trigger] list@[j] < d.slots.len(),
            dropped_up_to(d, list@, k as int) == (Dropping {
                slots: slots@,
                caches: lists(caches@),
                actions: actions@,
            }),
        decreases list@.len() - k,
    {
        let i: usize = list[k];
        if let TileSlot::Ready { entity, .. } = slots[i] {
            if let Some(e) = entity {
                actions.push(CutAction::Despawn { entity: e });
            }
            let ghost had = lists(caches@);
            let none: Vec<u64> = Vec::new();
            assert(none@ =~= Seq::empty());
            caches.set(i, none);
            assert(lists(caches@) =~= had.update(i as int, Seq::empty()));
            slots.set(i, TileSlot::NotLoaded);
        }
        k = k + 1;
    }
}

} // verus!
