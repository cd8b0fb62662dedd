//! Points in time, held as the IEEE-754 binary64 encoding of a number of
//! seconds, and compared in the total order of that encoding (negative
//! values below `-0`, `-0` below `+0`, positive values above).
use vstd::prelude::*;

verus! {

/// The sign bit of a binary64 encoding.
pub const SIGN_BIT: u64 = 0x8000_0000_0000_0000;

/// The encoding of positive infinity: the smallest magnitude that is not finite.
pub const INFINITY_BITS: u64 = 0x7FF0_0000_0000_0000;

/// The encoding of `+0.0`.
pub const ZERO_BITS: u64 = 0;

/// Position of an encoded value in the total order of binary64 values.
pub open spec fn total_key(b: u64) -> int {
    if b < SIGN_BIT {
        b + SIGN_BIT
    } else {
        0xFFFF_FFFF_FFFF_FFFFu64 - b
    }
}

/// `a` comes no later than `b` in the total order.
pub open spec fn no_later(a: u64, b: u64) -> bool {
    total_key(a) <= total_key(b)
}

/// The encoded value is neither infinite nor NaN.
pub open spec fn is_finite(b: u64) -> bool {
    b % SIGN_BIT < INFINITY_BITS
}

/// The latest of a sequence of encoded times, `+0` for an empty one.
pub open spec fn latest_of(s: Seq<u64>) -> u64
    decreases s.len(),
{
    if s.len() == 0 {
        ZERO_BITS
    } else {
        let rest = latest_of(s.drop_last());
        if s.len() == 1 || no_later(rest, s.last()) {
            s.last()
        } else {
            rest
        }
    }
}

/// Index of the first element of `s` that no other element precedes.
pub open spec fn is_first_earliest(s: Seq<u64>, i: int) -> bool {
    &&& 0 <= i < s.len()
    &&& forall|j: int| 0 <= j < s.len() ==> no_later(s[i], #[trigger] s[j])
    &&& forall|j: int| 0 <= j < i ==> total_key(s[i]) < total_key(#[trigger] s[j])
}

pub proof fn lemma_latest_of_bounds(s: Seq<u64>)
    requires
        s.len() > 0,
    ensures
        s.contains(latest_of(s)),
        forall|j: int| 0 <= j < s.len() ==> no_later(#[trigger] s[j], latest_of(s)),
    decreases s.len(),
{
    if s.len() > 1 {
        lemma_latest_of_bounds(s.drop_last());
        let rest = latest_of(s.drop_last());
        assert forall|j: int| 0 <= j < s.len() implies no_later(#[trigger] s[j], latest_of(s)) by {
            if j < s.len() - 1 {
                assert(s.drop_last()[j] == s[j]);
            }
        }
        let k = choose|k: int| 0 <= k < s.drop_last().len() && s.drop_last()[k] == rest;
        assert(s[k] == rest);
    } else {
        assert(s[0] == s.last());
    }
}

/// Whether `a` comes no later than `b` in the total order.
pub fn not_later(a: u64, b: u64) -> (r: bool)
    ensures
        r == no_later(a, b),
{
    order_key(a) <= order_key(b)
}

/// The position of `b` in the total order, as an integer.
pub fn order_key(b: u64) -> (r: u64)
    ensures
        r as int == total_key(b),
{
    if b < SIGN_BIT {
        b + SIGN_BIT
    } else {
        0xFFFF_FFFF_FFFF_FFFFu64 - b
    }
}

/// Whether the encoded time is a finite number.
pub fn finite(b: u64) -> (r: bool)
    ensures
        r == is_finite(b),
{
    b % SIGN_BIT < INFINITY_BITS
}

/// The later of two encoded times (`b` when they are equal).
pub fn later(a: u64, b: u64) -> (r: u64)
    ensures
        r == latest_of(seq![a, b]),
        no_later(a, r) && no_later(b, r),
        r == a || r == b,
{
    assert(seq![a, b].drop_last() =~= seq![a]);
    assert(seq![a].drop_last() =~= Seq::<u64>::empty());
    assert(latest_of(seq![a]) == a);
    assert(seq![a, b].last() == b);
    if not_later(a, b) {
        b
    } else {
        a
    }
}

/// The latest of `times`, or `+0` when there is none.
pub fn latest(times: &Vec<u64>) -> (r: u64)
    ensures
        r == latest_of(times@),
        times@.len() == 0 ==> r == ZERO_BITS,
        times@.len() > 0 ==> times@.contains(r),
        forall|j: int| 0 <= j < times@.len() ==> no_later(#[trigger] times@[j], r),
{
    if times.len() == 0 {
        return ZERO_BITS;
    }
    let mut best: u64 = times[0];
    let mut i: usize = 1;
    assert(times@.take(1).drop_last() =~= Seq::<u64>::empty());
    while i < times.len()
        invariant
            1 <= i <= times@.len(),
            best == latest_of(times@.take(i as int)),
        decreases times@.len() - i,
    {
        assert(times@.take(i as int + 1).drop_last() =~= times@.take(i as int));
        if not_later(best, times[i]) {
            best = times[i];
        }
        i += 1;
    }
    assert(times@.take(i as int) =~= times@);
    proof {
        lemma_latest_of_bounds(times@);
    }
    best
}

/// Index of the first of `times` that no other precedes in the total order.
pub fn first_earliest(times: &Vec<u64>) -> (r: usize)
    requires
        times@.len() > 0,
    ensures
        is_first_earliest(times@, r as int),
{
    let mut best: usize = 0;
    let mut i: usize = 1;
    while i < times.len()
        invariant
            1 <= i <= times@.len(),
            best < i,
            forall|j: int| 0 <= j < i ==> no_later(times@[best as int], #[trigger] times@[j]),
            forall|j: int| 0 <= j < best ==> total_key(times@[best as int]) < total_key(#[trigger] times@[j]),
        decreases times@.len() - i,
    {
        if !not_later(times[best], times[i]) {
            best = i;
        }
        i += 1;
    }
    best
}

/// The earliest time is unique: any two indices that both satisfy
/// `is_first_earliest` are the same.
pub proof fn lemma_first_earliest_unique(s: Seq<u64>, i: int, k: int)
    requires
        is_first_earliest(s, i),
        is_first_earliest(s, k),
    ensures
        i == k,
{
    if i < k {
        assert(total_key(s[k]) < total_key(s[i]));
        assert(no_later(s[k], s[i]));
    } else if k < i {
        assert(total_key(s[i]) < total_key(s[k]));
        assert(no_later(s[i], s[k]));
    }
}

} // verus!
