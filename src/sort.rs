use vstd::prelude::*;
use vstd::seq_lib::{lemma_multiset_commutative, to_multiset_update};

use crate::block::Block;
use crate::AllocType;

verus! {

broadcast use vstd::seq_lib::group_to_multiset_ensures;

/// The order that a strategy keeps its free list in: by start address under `First`,
/// by size ascending under `Best`, by size descending under `Worst`. Absent slots come
/// after every present one.
pub open spec fn precedes(a: Option<Block>, b: Option<Block>, kind: AllocType) -> bool {
    match (a, b) {
        (Some(x), Some(y)) => match kind {
            AllocType::First => x.start <= y.start,
            AllocType::Best => x.size <= y.size,
            AllocType::Worst => x.size >= y.size,
        },
        (Some(_), None) => true,
        (None, None) => true,
        (None, Some(_)) => false,
    }
}

/// Slots `lo .. hi` of `s` are in the strategy's order.
pub open spec fn sorted_between(s: Seq<Option<Block>>, lo: int, hi: int, kind: AllocType) -> bool {
    forall|i: int, j: int| lo <= i < j < hi ==> precedes(#[trigger] s[i], #[trigger] s[j], kind)
}

/// `t` holds the slots `lo ..= hi` of `s` in some order, and the other slots as they were.
pub open spec fn permutes_between(s: Seq<Option<Block>>, t: Seq<Option<Block>>, lo: int, hi: int) -> bool {
    &&& s.len() == t.len()
    &&& forall|k: int| 0 <= k < s.len() && !(lo <= k <= hi) ==> s[k] == t[k]
    &&& lo <= hi ==> s.subrange(lo, hi + 1).to_multiset() =~= t.subrange(lo, hi + 1).to_multiset()
}

fn precedes_exec(a: &Option<Block>, b: &Option<Block>, kind: AllocType) -> (r: bool)
    ensures
        r == precedes(*a, *b, kind),
{
    match (a, b) {
        (Some(x), Some(y)) => match kind {
            AllocType::First => x.start <= y.start,
            AllocType::Best => x.size <= y.size,
            AllocType::Worst => x.size >= y.size,
        },
        (Some(_), None) => true,
        (None, None) => true,
        (None, Some(_)) => false,
    }
}

proof fn lemma_swap_permutes(s: Seq<Option<Block>>, i: int, j: int, lo: int, hi: int)
    requires
        0 <= lo <= i <= hi,
        lo <= j <= hi,
        hi < s.len(),
    ensures
        permutes_between(s, s.update(i, s[j]).update(j, s[i]), lo, hi),
{
    let t = s.update(i, s[j]).update(j, s[i]);
    let sub = s.subrange(lo, hi + 1);
    let u = sub.update(i - lo, s[j]);
    assert(t.subrange(lo, hi + 1) =~= u.update(j - lo, s[i]));
    to_multiset_update(sub, i - lo, s[j]);
    to_multiset_update(u, j - lo, s[i]);
    assert(sub.to_multiset() =~= t.subrange(lo, hi + 1).to_multiset());
}

proof fn lemma_split3(s: Seq<Option<Block>>, lo: int, a: int, b: int, hi: int)
    requires
        0 <= lo <= a <= b <= hi + 1,
        hi < s.len(),
    ensures
        s.subrange(lo, hi + 1).to_multiset() =~= s.subrange(lo, a).to_multiset().add(
            s.subrange(a, b).to_multiset(),
        ).add(s.subrange(b, hi + 1).to_multiset()),
{
    assert(s.subrange(lo, hi + 1) =~= s.subrange(lo, a) + s.subrange(a, b) + s.subrange(b, hi + 1));
    lemma_multiset_commutative(s.subrange(lo, a), s.subrange(a, b));
    lemma_multiset_commutative(s.subrange(lo, a) + s.subrange(a, b), s.subrange(b, hi + 1));
    assert(s.subrange(lo, a) + s.subrange(a, b) =~= s.subrange(lo, b));
}

/// A rearrangement of the inner range `a ..= b` is also one of the wider range `lo ..= hi`.
proof fn lemma_permutes_widen(s: Seq<Option<Block>>, t: Seq<Option<Block>>, lo: int, a: int, b: int, hi: int)
    requires
        0 <= lo <= a,
        a <= b + 1,
        b <= hi,
        hi < s.len(),
        permutes_between(s, t, a, b),
    ensures
        permutes_between(s, t, lo, hi),
{
    lemma_split3(s, lo, a, b + 1, hi);
    lemma_split3(t, lo, a, b + 1, hi);
    assert(s.subrange(lo, a) =~= t.subrange(lo, a));
    assert(s.subrange(b + 1, hi + 1) =~= t.subrange(b + 1, hi + 1));
    if a > b {
        assert(s.subrange(a, b + 1) =~= t.subrange(a, b + 1));
    }
}

proof fn lemma_permutes_trans(s: Seq<Option<Block>>, t: Seq<Option<Block>>, u: Seq<Option<Block>>, lo: int, hi: int)
    requires
        permutes_between(s, t, lo, hi),
        permutes_between(t, u, lo, hi),
    ensures
        permutes_between(s, u, lo, hi),
{
}

/// What held of every slot of a range holds of every slot after it is rearranged.
pub(crate) proof fn lemma_permutes_keeps(s: Seq<Option<Block>>, t: Seq<Option<Block>>, lo: int, hi: int, p: spec_fn(Option<Block>) -> bool)
    requires
        0 <= lo <= hi < s.len(),
        permutes_between(s, t, lo, hi),
        forall|k: int| lo <= k <= hi ==> p(#[trigger] s[k]),
    ensures
        forall|k: int| lo <= k <= hi ==> p(#[trigger] t[k]),
{
    assert forall|k: int| lo <= k <= hi implies p(#[trigger] t[k]) by {
        let ts = t.subrange(lo, hi + 1);
        let ss = s.subrange(lo, hi + 1);
        assert(ts[k - lo] == t[k]);
        assert(ts.contains(t[k]));
        assert(ss.to_multiset().count(t[k]) > 0);
        assert(ss.contains(t[k]));
        let m = choose|m: int| 0 <= m < ss.len() && ss[m] == t[k];
        assert(s[lo + m] == t[k]);
    }
}

/// A value held at two distinct positions is counted at least twice.
pub(crate) proof fn lemma_twice_counted(s: Seq<Option<Block>>, i: int, j: int)
    requires
        0 <= i < s.len(),
        0 <= j < s.len(),
        i != j,
        s[i] == s[j],
    ensures
        s.to_multiset().count(s[i]) >= 2,
{
    let r = s.remove(i);
    let k = if j < i { j } else { j - 1 };
    assert(r[k] == s[i]);
    assert(r.contains(s[i]));
    assert(r.to_multiset().count(s[i]) > 0);
    assert(r.to_multiset() =~= s.to_multiset().remove(s[i]));
    assert(s.to_multiset().count(s[i]) > 0);
}

/// A value counted at least twice is held at two distinct positions.
pub(crate) proof fn lemma_two_positions(s: Seq<Option<Block>>, x: Option<Block>)
    requires
        s.to_multiset().count(x) >= 2,
    ensures
        exists|i: int, j: int| 0 <= i < s.len() && 0 <= j < s.len() && i != j && s[i] == x && s[j] == x,
{
    assert(s.contains(x));
    let i = choose|i: int| 0 <= i < s.len() && s[i] == x;
    let r = s.remove(i);
    assert(r.to_multiset().count(x) >= 1);
    assert(r.contains(x));
    let k = choose|k: int| 0 <= k < r.len() && r[k] == x;
    let j = if k < i { k } else { k + 1 };
    assert(s[j] == x);
}

fn swap_slots(nums: &mut [Option<Block>; 32], i: usize, j: usize)
    requires
        i < 32,
        j < 32,
    ensures
        final(nums)@ == old(nums)@.update(i as int, old(nums)@[j as int]).update(j as int, old(nums)@[i as int]),
{
    let a = nums[i];
    let b = nums[j];
    nums[i] = b;
    nums[j] = a;
}

/// Splits slots `lo ..= hi` round the last one: what precedes it goes before, the rest after.
fn partition(nums: &mut [Option<Block>; 32], lo: usize, hi: usize, kind: AllocType) -> (p: usize)
    requires
        lo <= hi < 32,
    ensures
        lo <= p <= hi,
        permutes_between(old(nums)@, final(nums)@, lo as int, hi as int),
        forall|k: int| lo <= k < p ==> precedes(#[trigger] final(nums)@[k], final(nums)@[p as int], kind),
        forall|k: int| p < k <= hi ==> precedes(final(nums)@[p as int], #[trigger] final(nums)@[k], kind),
{
    let pivot = nums[hi];
    let mut i: usize = lo;
    let mut j: usize = lo;
    while j < hi
        invariant
            lo <= i <= j <= hi < 32,
            nums@[hi as int] == pivot,
            permutes_between(old(nums)@, nums@, lo as int, hi as int),
            forall|k: int| lo <= k < i ==> precedes(#[trigger] nums@[k], pivot, kind),
            forall|k: int| i <= k < j ==> !precedes(#[trigger] nums@[k], pivot, kind),
        decreases hi - j,
    {
        if precedes_exec(&nums[j], &pivot, kind) {
            proof {
                lemma_swap_permutes(nums@, i as int, j as int, lo as int, hi as int);
                lemma_permutes_trans(old(nums)@, nums@, nums@.update(i as int, nums@[j as int]).update(j as int, nums@[i as int]), lo as int, hi as int);
            }
            swap_slots(nums, i, j);
            i = i + 1;
        }
        j = j + 1;
    }
    proof {
        lemma_swap_permutes(nums@, i as int, hi as int, lo as int, hi as int);
        lemma_permutes_trans(old(nums)@, nums@, nums@.update(i as int, nums@[hi as int]).update(hi as int, nums@[i as int]), lo as int, hi as int);
    }
    swap_slots(nums, i, hi);
    i
}

/// Sorts slots `left ..= right` into the strategy's order, in place, by partition exchange.
fn quick_sort(nums: &mut [Option<Block>; 32], left: usize, right: usize, kind: AllocType)
    requires
        right < 32,
    ensures
        permutes_between(old(nums)@, final(nums)@, left as int, right as int),
        sorted_between(final(nums)@, left as int, right + 1, kind),
    decreases right - left,
{
    if left >= right {
        return;
    }
    let ghost s0 = nums@;
    let p = partition(nums, left, right, kind);
    let ghost s1 = nums@;
    let ghost pv = s1[p as int];
    if p > left {
        quick_sort(nums, left, p - 1, kind);
        proof {
            lemma_permutes_keeps(s1, nums@, left as int, p - 1, |x: Option<Block>| precedes(x, pv, kind));
        }
    }
    let ghost s2 = nums@;
    proof {
        lemma_permutes_widen(s1, s2, left as int, left as int, p - 1, right as int);
    }
    if p < right {
        quick_sort(nums, p + 1, right, kind);
        proof {
            lemma_permutes_keeps(s2, nums@, p + 1, right as int, |x: Option<Block>| precedes(pv, x, kind));
        }
    }
    proof {
        let s3 = nums@;
        lemma_permutes_widen(s2, s3, left as int, p + 1, right as int, right as int);
        lemma_permutes_trans(s0, s1, s2, left as int, right as int);
        lemma_permutes_trans(s0, s2, s3, left as int, right as int);
        assert(s3[p as int] == pv);
        assert forall|i: int, j: int| left <= i < j < right + 1 implies precedes(#[trigger] s3[i], #[trigger] s3[j], kind) by {
            if i < p && j > p {
                assert(precedes(s3[i], pv, kind));
                assert(precedes(pv, s3[j], kind));
            }
        }
    }
}

/// Orders slots `left ..= right` by start address, absent slots last.
pub fn quick_sort_for_first(nums: &mut [Option<Block>; 32], left: usize, right: usize)
    requires
        right < 32,
    ensures
        permutes_between(old(nums)@, final(nums)@, left as int, right as int),
        sorted_between(final(nums)@, left as int, right + 1, AllocType::First),
{
    quick_sort(nums, left, right, AllocType::First)
}

/// Orders slots `left ..= right` by size, smallest first, absent slots last.
pub fn quick_sort_for_best(nums: &mut [Option<Block>; 32], left: usize, right: usize)
    requires
        right < 32,
    ensures
        permutes_between(old(nums)@, final(nums)@, left as int, right as int),
        sorted_between(final(nums)@, left as int, right + 1, AllocType::Best),
{
    quick_sort(nums, left, right, AllocType::Best)
}

/// Orders slots `left ..= right` by size, largest first, absent slots last.
pub fn quick_sort_for_worst(nums: &mut [Option<Block>; 32], left: usize, right: usize)
    requires
        right < 32,
    ensures
        permutes_between(old(nums)@, final(nums)@, left as int, right as int),
        sorted_between(final(nums)@, left as int, right + 1, AllocType::Worst),
{
    quick_sort(nums, left, right, AllocType::Worst)
}

} // verus!
