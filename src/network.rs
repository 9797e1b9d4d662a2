//! The bitonic network as spec functions over sequences, and the proof that it
//! sorts every sequence whose length is a power of two.
use crate::order::{is_total_order, lemma_after, ordered, out_of_order};
use crate::pow2::{is_pow2, lemma_pow2_halves};
use crate::zero_one::{
    bitonic01, falling01, high01, lemma_fall_then_rise, lemma_half_clean01, lemma_rise_then_fall,
    low01, rising01,
};
use core::cmp::Ordering;
use vstd::prelude::*;

verus! {

/// One compare-and-swap pass: element `k` of the first half and element `k` of
/// the second half trade places when they are out of order.
pub open spec fn half_clean<T>(ord: spec_fn(T, T) -> Ordering, up: bool, s: Seq<T>) -> Seq<T> {
    let m = s.len() / 2;
    Seq::new(
        s.len(),
        |i: int|
            if i < m {
                if out_of_order(ord, up, s[i], s[i + m]) {
                    s[i + m]
                } else {
                    s[i]
                }
            } else if i < 2 * m {
                if out_of_order(ord, up, s[i - m], s[i]) {
                    s[i - m]
                } else {
                    s[i]
                }
            } else {
                s[i]
            },
    )
}

/// The merge stage: a compare-and-swap pass, then each half merged on its own.
pub open spec fn merge<T>(ord: spec_fn(T, T) -> Ordering, up: bool, s: Seq<T>) -> Seq<T>
    decreases s.len(),
{
    if s.len() <= 1 {
        s
    } else {
        let c = half_clean(ord, up, s);
        let m = s.len() / 2;
        merge(ord, up, c.subrange(0, m as int)) + merge(ord, up, c.subrange(m as int, s.len() as int))
    }
}

/// The whole sort: first half ascending, second half descending, then a merge
/// in the requested direction.
pub open spec fn bitonic_sort<T>(ord: spec_fn(T, T) -> Ordering, up: bool, s: Seq<T>) -> Seq<T>
    decreases s.len(),
{
    if s.len() <= 1 {
        s
    } else {
        let m = s.len() / 2;
        merge(
            ord,
            up,
            bitonic_sort(ord, true, s.subrange(0, m as int)) + bitonic_sort(
                ord,
                false,
                s.subrange(m as int, s.len() as int),
            ),
        )
    }
}

/// Which elements of `s` come strictly after `t`.
pub open spec fn above<T>(ord: spec_fn(T, T) -> Ordering, up: bool, s: Seq<T>, t: T) -> Seq<bool> {
    Seq::new(s.len(), |i: int| out_of_order(ord, up, s[i], t))
}

/// For every threshold, which elements lie beyond it has the shape `0*1*0*` or `1*0*1*`.
pub open spec fn bitonic<T>(ord: spec_fn(T, T) -> Ordering, up: bool, s: Seq<T>) -> bool {
    forall|t: T| bitonic01(#[trigger] above(ord, up, s, t))
}

/// Seen through any threshold, a compare-and-swap pass is the 0-1 pass.
pub proof fn lemma_above_half_clean<T>(ord: spec_fn(T, T) -> Ordering, up: bool, s: Seq<T>, t: T)
    requires
        is_total_order(ord),
        s.len() % 2 == 0,
    ensures
        above(ord, up, half_clean(ord, up, s).subrange(0, (s.len() / 2) as int), t) == low01(
            above(ord, up, s, t),
        ),
        above(ord, up, half_clean(ord, up, s).subrange((s.len() / 2) as int, s.len() as int), t) == high01(
            above(ord, up, s, t),
        ),
{
    let m = (s.len() / 2) as int;
    let c = half_clean(ord, up, s);
    let z = above(ord, up, s, t);
    assert forall|k: int| 0 <= k < m implies out_of_order(ord, up, #[trigger] c[k], t) == (z[k]
        && z[k + m]) && out_of_order(ord, up, c[k + m], t) == (z[k] || z[k + m]) by {
        lemma_after(ord, up, s[k], s[k + m], t);
    }
    assert(above(ord, up, c.subrange(0, m), t) =~= low01(z));
    let r = c.subrange(m, s.len() as int);
    assert forall|k: int| 0 <= k < m implies out_of_order(ord, up, #[trigger] r[k], t) == (z[k]
        || z[k + m]) by {
        assert(r[k] == c[k + m]);
        assert(out_of_order(ord, up, c[k], t) == (z[k] && z[k + m]));
    }
    assert(above(ord, up, r, t) =~= high01(z));
}

/// The merge stage keeps the length, and keeps any property that holds of every element.
pub proof fn lemma_merge_keeps<T>(
    ord: spec_fn(T, T) -> Ordering,
    up: bool,
    s: Seq<T>,
    p: spec_fn(T) -> bool,
)
    ensures
        merge(ord, up, s).len() == s.len(),
        (forall|i: int| 0 <= i < s.len() ==> #[trigger] p(s[i])) ==> (forall|i: int|
            0 <= i < s.len() ==> #[trigger] p(merge(ord, up, s)[i])),
    decreases s.len(),
{
    if s.len() > 1 {
        let m = (s.len() / 2) as int;
        let c = half_clean(ord, up, s);
        let l = c.subrange(0, m);
        let r = c.subrange(m, s.len() as int);
        lemma_merge_keeps(ord, up, l, p);
        lemma_merge_keeps(ord, up, r, p);
        if forall|i: int| 0 <= i < s.len() ==> #[trigger] p(s[i]) {
            assert forall|i: int| 0 <= i < s.len() implies #[trigger] p(c[i]) by {
                if i < m {
                    assert(p(s[i]) && p(s[i + m]));
                } else if i < 2 * m {
                    assert(p(s[i]) && p(s[i - m]));
                }
            }
            assert forall|i: int| 0 <= i < l.len() implies #[trigger] p(l[i]) by {
                assert(l[i] == c[i]);
            }
            assert forall|i: int| 0 <= i < r.len() implies #[trigger] p(r[i]) by {
                assert(r[i] == c[i + m]);
            }
            let ms = merge(ord, up, s);
            assert forall|i: int| 0 <= i < s.len() implies #[trigger] p(ms[i]) by {
                if i < m {
                    assert(ms[i] == merge(ord, up, l)[i]);
                } else {
                    assert(ms[i] == merge(ord, up, r)[i - m]);
                }
            }
        }
    }
}

/// A sorted sequence, seen through a threshold, rises in its own direction and
/// falls in the other.
pub proof fn lemma_above_ordered<T>(ord: spec_fn(T, T) -> Ordering, up: bool, s: Seq<T>, t: T)
    requires
        is_total_order(ord),
        ordered(ord, up, s),
    ensures
        rising01(above(ord, up, s, t)),
        falling01(above(ord, !up, s, t)),
{
    let z = above(ord, up, s, t);
    let w = above(ord, !up, s, t);
    assert forall|i: int, j: int| 0 <= i < j < z.len() && #[trigger] z[i] implies #[trigger] z[j] by {
        assert(!out_of_order(ord, up, s[i], s[j]));
        lemma_after(ord, up, s[i], s[j], t);
    }
    assert forall|i: int, j: int| 0 <= i < j < w.len() && #[trigger] w[j] implies #[trigger] w[i] by {
        assert(!out_of_order(ord, up, s[i], s[j]));
        lemma_after(ord, up, s[j], t, t);
        lemma_after(ord, up, s[i], t, t);
        lemma_after(ord, up, t, s[i], s[j]);
    }
}

/// The merge stage sorts a bitonic sequence whose length is a power of two.
pub proof fn lemma_merge_sorts<T>(ord: spec_fn(T, T) -> Ordering, up: bool, s: Seq<T>)
    requires
        is_total_order(ord),
        is_pow2(s.len()),
        bitonic(ord, up, s),
    ensures
        ordered(ord, up, merge(ord, up, s)),
        merge(ord, up, s).len() == s.len(),
    decreases s.len(),
{
    lemma_merge_keeps(ord, up, s, |x: T| true);
    if s.len() > 1 {
        lemma_pow2_halves(s.len());
        let m = (s.len() / 2) as int;
        let c = half_clean(ord, up, s);
        let l = c.subrange(0, m);
        let r = c.subrange(m, s.len() as int);
        assert forall|t: T| bitonic01(#[trigger] above(ord, up, l, t)) by {
            lemma_above_half_clean(ord, up, s, t);
            lemma_half_clean01(above(ord, up, s, t));
        }
        assert forall|t: T| bitonic01(#[trigger] above(ord, up, r, t)) by {
            lemma_above_half_clean(ord, up, s, t);
            lemma_half_clean01(above(ord, up, s, t));
        }
        lemma_merge_sorts(ord, up, l);
        lemma_merge_sorts(ord, up, r);
        let ml = merge(ord, up, l);
        let mr = merge(ord, up, r);
        let ms = merge(ord, up, s);
        assert(ms == ml + mr);
        assert forall|i: int, j: int| 0 <= i < m && 0 <= j < m implies !out_of_order(
            ord,
            up,
            #[trigger] ml[i],
            #[trigger] mr[j],
        ) by {
            let y = mr[j];
            let z = above(ord, up, s, y);
            lemma_above_half_clean(ord, up, s, y);
            lemma_half_clean01(z);
            lemma_after(ord, up, y, y, y);
            let past = |x: T| out_of_order(ord, up, x, y);
            let not_past = |x: T| !out_of_order(ord, up, x, y);
            lemma_merge_keeps(ord, up, r, past);
            lemma_merge_keeps(ord, up, l, not_past);
            if forall|k: int| 0 <= k < m ==> #[trigger] high01(z)[k] {
                assert forall|k: int| 0 <= k < r.len() implies #[trigger] past(r[k]) by {
                    assert(high01(z)[k] == above(ord, up, r, y)[k]);
                }
                assert(past(mr[j]));
                assert(false);
            } else {
                assert forall|k: int| 0 <= k < l.len() implies #[trigger] not_past(l[k]) by {
                    assert(low01(z)[k] == above(ord, up, l, y)[k]);
                }
                assert(not_past(ml[i]));
            }
        }
        assert forall|i: int, j: int| 0 <= i < j < ms.len() implies !out_of_order(
            ord,
            up,
            #[trigger] ms[i],
            #[trigger] ms[j],
        ) by {
            if j < m {
                assert(ms[i] == ml[i] && ms[j] == ml[j]);
            } else if i >= m {
                assert(ms[i] == mr[i - m] && ms[j] == mr[j - m]);
            } else {
                assert(ms[i] == ml[i] && ms[j] == mr[j - m]);
            }
        }
    }
}

/// The whole network sorts every sequence whose length is a power of two.
pub proof fn lemma_bitonic_sort_sorts<T>(ord: spec_fn(T, T) -> Ordering, up: bool, s: Seq<T>)
    requires
        is_total_order(ord),
        is_pow2(s.len()),
    ensures
        ordered(ord, up, bitonic_sort(ord, up, s)),
        bitonic_sort(ord, up, s).len() == s.len(),
    decreases s.len(),
{
    if s.len() > 1 {
        lemma_pow2_halves(s.len());
        let m = (s.len() / 2) as int;
        let l = bitonic_sort(ord, true, s.subrange(0, m));
        let r = bitonic_sort(ord, false, s.subrange(m, s.len() as int));
        lemma_bitonic_sort_sorts(ord, true, s.subrange(0, m));
        lemma_bitonic_sort_sorts(ord, false, s.subrange(m, s.len() as int));
        let c = l + r;
        assert forall|t: T| bitonic01(#[trigger] above(ord, up, c, t)) by {
            assert(above(ord, up, c, t) =~= above(ord, up, l, t) + above(ord, up, r, t));
            lemma_above_ordered(ord, true, l, t);
            lemma_above_ordered(ord, false, r, t);
            if up {
                lemma_rise_then_fall(above(ord, up, l, t), above(ord, up, r, t));
            } else {
                lemma_fall_then_rise(above(ord, up, l, t), above(ord, up, r, t));
            }
        }
        lemma_merge_sorts(ord, up, c);
    }
}

/// Exchanging two entries keeps the multiset of a sequence.
pub proof fn lemma_swap_multiset<T>(s: Seq<T>, a: int, b: int)
    requires
        0 <= a < s.len(),
        0 <= b < s.len(),
    ensures
        s.update(a, s[b]).update(b, s[a]).to_multiset() == s.to_multiset(),
{
    broadcast use vstd::seq_lib::group_to_multiset_ensures;

    let s1 = s.update(a, s[b]);
    if a != b {
        assert(s1[b] == s[b]);
    }
    assert(s.update(a, s[b]).update(b, s[a]).to_multiset() =~= s.to_multiset());
}

/// The compare-and-swap pass carried out on the first `k` pairs only.
spec fn clean_upto<T>(ord: spec_fn(T, T) -> Ordering, up: bool, s: Seq<T>, k: nat) -> Seq<T>
    decreases k,
{
    if k == 0 {
        s
    } else {
        let p = clean_upto(ord, up, s, (k - 1) as nat);
        let i = k - 1;
        let m = s.len() / 2;
        if out_of_order(ord, up, p[i], p[i + m]) {
            p.update(i, p[i + m]).update(i + m, p[i])
        } else {
            p
        }
    }
}

proof fn lemma_clean_upto<T>(ord: spec_fn(T, T) -> Ordering, up: bool, s: Seq<T>, k: nat)
    requires
        k <= s.len() / 2,
    ensures
        clean_upto(ord, up, s, k).len() == s.len(),
        clean_upto(ord, up, s, k).to_multiset() == s.to_multiset(),
        forall|j: int|
            0 <= j < s.len() ==> #[trigger] clean_upto(ord, up, s, k)[j] == if j < k || (s.len()
                / 2 <= j < s.len() / 2 + k) {
                half_clean(ord, up, s)[j]
            } else {
                s[j]
            },
    decreases k,
{
    if k > 0 {
        let m = (s.len() / 2) as int;
        let i = k - 1;
        lemma_clean_upto(ord, up, s, (k - 1) as nat);
        let p = clean_upto(ord, up, s, (k - 1) as nat);
        assert(p[i] == s[i]);
        assert(p[i + m] == s[i + m]);
        if out_of_order(ord, up, p[i], p[i + m]) {
            lemma_swap_multiset(p, i, i + m);
        }
    }
}

/// A compare-and-swap pass only rearranges.
pub proof fn lemma_half_clean_multiset<T>(ord: spec_fn(T, T) -> Ordering, up: bool, s: Seq<T>)
    ensures
        half_clean(ord, up, s).to_multiset() == s.to_multiset(),
{
    let m = s.len() / 2;
    lemma_clean_upto(ord, up, s, m);
    assert(clean_upto(ord, up, s, m) =~= half_clean(ord, up, s));
}

/// The merge stage only rearranges.
pub proof fn lemma_merge_multiset<T>(ord: spec_fn(T, T) -> Ordering, up: bool, s: Seq<T>)
    ensures
        merge(ord, up, s).to_multiset() == s.to_multiset(),
    decreases s.len(),
{
    broadcast use vstd::seq_lib::lemma_multiset_commutative;

    if s.len() > 1 {
        let m = (s.len() / 2) as int;
        let c = half_clean(ord, up, s);
        lemma_half_clean_multiset(ord, up, s);
        lemma_merge_multiset(ord, up, c.subrange(0, m));
        lemma_merge_multiset(ord, up, c.subrange(m, s.len() as int));
        assert(c =~= c.subrange(0, m) + c.subrange(m, s.len() as int));
    }
}

/// The whole network only rearranges.
pub proof fn lemma_bitonic_sort_multiset<T>(ord: spec_fn(T, T) -> Ordering, up: bool, s: Seq<T>)
    ensures
        bitonic_sort(ord, up, s).to_multiset() == s.to_multiset(),
    decreases s.len(),
{
    broadcast use vstd::seq_lib::lemma_multiset_commutative;

    if s.len() > 1 {
        let m = (s.len() / 2) as int;
        let l = s.subrange(0, m);
        let r = s.subrange(m, s.len() as int);
        lemma_bitonic_sort_multiset(ord, true, l);
        lemma_bitonic_sort_multiset(ord, false, r);
        lemma_merge_multiset(ord, up, bitonic_sort(ord, true, l) + bitonic_sort(ord, false, r));
        assert(s =~= l + r);
    }
}

} // verus!
