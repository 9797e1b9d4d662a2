//! Sequences of booleans that are one block of `true` or one block of `false`,
//! and what a compare-and-swap pass does to them.
use vstd::prelude::*;

verus! {

/// `z` is `true` exactly on the indices `a..b`.
pub open spec fn ones_between(z: Seq<bool>, a: int, b: int) -> bool {
    &&& 0 <= a <= b <= z.len()
    &&& forall|i: int| 0 <= i < z.len() ==> #[trigger] z[i] == (a <= i < b)
}

/// `z` is `false` exactly on the indices `a..b`.
pub open spec fn zeros_between(z: Seq<bool>, a: int, b: int) -> bool {
    &&& 0 <= a <= b <= z.len()
    &&& forall|i: int| 0 <= i < z.len() ==> #[trigger] z[i] == !(a <= i < b)
}

/// `z` has the shape `0*1*0*` or `1*0*1*`.
pub open spec fn bitonic01(z: Seq<bool>) -> bool {
    exists|a: int, b: int| ones_between(z, a, b) || zeros_between(z, a, b)
}

/// `z` has the shape `0*1*`.
pub open spec fn rising01(z: Seq<bool>) -> bool {
    forall|i: int, j: int| 0 <= i < j < z.len() && #[trigger] z[i] ==> #[trigger] z[j]
}

/// `z` has the shape `1*0*`.
pub open spec fn falling01(z: Seq<bool>) -> bool {
    forall|i: int, j: int| 0 <= i < j < z.len() && #[trigger] z[j] ==> #[trigger] z[i]
}

/// The lower half after one compare-and-swap pass: the smaller of each pair.
pub open spec fn low01(z: Seq<bool>) -> Seq<bool> {
    let m = z.len() / 2;
    Seq::new(m, |k: int| z[k] && z[k + m])
}

/// The upper half after one compare-and-swap pass: the larger of each pair.
pub open spec fn high01(z: Seq<bool>) -> Seq<bool> {
    let m = z.len() / 2;
    Seq::new(m, |k: int| z[k] || z[k + m])
}

/// The length of the longest prefix of `z` whose entries all equal `v`.
pub open spec fn lead(z: Seq<bool>, v: bool) -> nat
    decreases z.len(),
{
    if z.len() == 0 || z[0] != v {
        0
    } else {
        1 + lead(z.drop_first(), v)
    }
}

pub proof fn lemma_lead(z: Seq<bool>, v: bool)
    ensures
        lead(z, v) <= z.len(),
        forall|i: int| 0 <= i < lead(z, v) ==> #[trigger] z[i] == v,
        lead(z, v) < z.len() ==> z[lead(z, v) as int] != v,
    decreases z.len(),
{
    if z.len() > 0 && z[0] == v {
        lemma_lead(z.drop_first(), v);
        assert forall|i: int| 0 <= i < lead(z, v) implies #[trigger] z[i] == v by {
            if i > 0 {
                assert(z[i] == z.drop_first()[i - 1]);
            }
        }
    }
}

/// A rising sequence followed by a falling one is one block of `true`.
pub proof fn lemma_rise_then_fall(z: Seq<bool>, w: Seq<bool>)
    requires
        rising01(z),
        falling01(w),
    ensures
        ones_between(z + w, lead(z, false) as int, z.len() + lead(w, true) as int),
        bitonic01(z + w),
{
    lemma_lead(z, false);
    lemma_lead(w, true);
    let a = lead(z, false) as int;
    let b = z.len() + lead(w, true) as int;
    let c = z + w;
    assert forall|i: int| 0 <= i < c.len() implies #[trigger] c[i] == (a <= i < b) by {
        if i < z.len() {
            if i >= a {
                assert(z[a]);
                if i > a {
                    assert(z[a] ==> z[i]);
                }
            }
        } else {
            let j = i - z.len();
            assert(c[i] == w[j]);
            if j >= lead(w, true) {
                assert(!w[lead(w, true) as int]);
                if j > lead(w, true) {
                    assert(w[j] ==> w[lead(w, true) as int]);
                }
            }
        }
    }
    assert(ones_between(c, a, b));
}

/// A falling sequence followed by a rising one is one block of `false`.
pub proof fn lemma_fall_then_rise(z: Seq<bool>, w: Seq<bool>)
    requires
        falling01(z),
        rising01(w),
    ensures
        zeros_between(z + w, lead(z, true) as int, z.len() + lead(w, false) as int),
        bitonic01(z + w),
{
    lemma_lead(z, true);
    lemma_lead(w, false);
    let a = lead(z, true) as int;
    let b = z.len() + lead(w, false) as int;
    let c = z + w;
    assert forall|i: int| 0 <= i < c.len() implies #[trigger] c[i] == !(a <= i < b) by {
        if i < z.len() {
            if i >= a {
                assert(!z[a]);
                if i > a {
                    assert(z[i] ==> z[a]);
                }
            }
        } else {
            let j = i - z.len();
            assert(c[i] == w[j]);
            if j >= lead(w, false) {
                assert(w[lead(w, false) as int]);
                if j > lead(w, false) {
                    assert(w[lead(w, false) as int] ==> w[j]);
                }
            }
        }
    }
    assert(zeros_between(c, a, b));
}

/// One compare-and-swap pass on a bitonic 0-1 sequence of even length leaves two
/// bitonic halves, and either the lower half is all `false` or the upper half is
/// all `true`.
pub proof fn lemma_half_clean01(z: Seq<bool>)
    requires
        bitonic01(z),
        z.len() % 2 == 0,
    ensures
        bitonic01(low01(z)),
        bitonic01(high01(z)),
        (forall|k: int| 0 <= k < z.len() / 2 ==> !#[trigger] low01(z)[k]) || (forall|k: int|
            0 <= k < z.len() / 2 ==> #[trigger] high01(z)[k]),
{
    let m = (z.len() / 2) as int;
    let lo = low01(z);
    let hi = high01(z);
    let (a, b) = choose|a: int, b: int| ones_between(z, a, b) || zeros_between(z, a, b);
    if ones_between(z, a, b) {
        if b - a <= m {
            assert(ones_between(lo, 0, 0));
            if b <= m {
                assert(ones_between(hi, a, b));
            } else if a >= m {
                assert(ones_between(hi, a - m, b - m));
            } else {
                assert(zeros_between(hi, b - m, a));
            }
        } else {
            assert(ones_between(lo, a, b - m));
            assert(ones_between(hi, 0, m));
        }
    } else {
        if b - a <= m {
            assert(zeros_between(hi, 0, 0));
            if b <= m {
                assert(zeros_between(lo, a, b));
            } else if a >= m {
                assert(zeros_between(lo, a - m, b - m));
            } else {
                assert(ones_between(lo, b - m, a));
            }
        } else {
            assert(zeros_between(hi, a, b - m));
            assert(ones_between(lo, 0, 0));
        }
    }
}

} // verus!
