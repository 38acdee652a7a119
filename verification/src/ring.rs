//! Arithmetic of ring buffers.
//!
//! A ring of `len` slots stores the value with the logical index `i` in the
//! slot `i % len`. The lemmas here say how the slots of neighbouring logical
//! indices lie.

use vstd::arithmetic::div_mod;
use vstd::prelude::*;

verus! {

/// Whether slot `j` of a ring of `len` slots belongs to a logical index in
/// `start..end`.
pub open spec fn covers(start: int, end: int, len: int, j: int) -> bool {
    exists|i: int| start <= i < end && #[trigger] (i % len) == j
}

/// Going `k` steps forward from `i` moves `k` slots forward, wrapping around
/// the end of the ring at most once.
pub proof fn lemma_step(i: int, k: int, len: int)
    requires
        0 < len,
        0 <= k <= len,
    ensures
        0 <= i % len < len,
        i % len + k < len ==> (i + k) % len == i % len + k,
        i % len + k >= len ==> (i + k) % len == i % len + k - len,
{
    div_mod::lemma_fundamental_div_mod(i, len);
    let q = i / len;
    let r = i % len;
    assert(i == q * len + r) by (nonlinear_arith)
        requires
            i == len * q + r,
    ;
    if r + k < len {
        div_mod::lemma_fundamental_div_mod_converse(i + k, len, q, r + k);
    } else {
        assert((q + 1) * len == q * len + len) by (nonlinear_arith);
        div_mod::lemma_fundamental_div_mod_converse(i + k, len, q + 1, r + k - len);
    }
}

/// Where one ring is a whole number of times as long as another, a slot of the
/// longer one lies as far from the next multiple of the shorter length as the
/// slot of the same index does in the shorter one. Past that multiple there is
/// the end of the longer ring, or room for the shorter length once more.
pub proof fn lemma_multiple(i: int, short: int, long: int)
    requires
        0 < short,
        0 < long,
        long % short == 0,
    ensures
        (i % long) % short == i % short,
        i % long + (short - i % short) <= long,
        i % long + (short - i % short) < long ==> i % long + (short - i % short) + short <= long,
        short <= long,
{
    let k = long / short;
    div_mod::lemma_fundamental_div_mod(long, short);
    assert(k > 0) by (nonlinear_arith)
        requires
            long == short * k,
            0 < short,
            0 < long,
    ;
    assert(short <= long) by (nonlinear_arith)
        requires
            long == short * k,
            0 < k,
            0 < short,
    ;
    div_mod::lemma_mod_mod(i, short, k);
    let r = i % long;
    div_mod::lemma_fundamental_div_mod(r, short);
    div_mod::lemma_fundamental_div_mod(i, long);
    let q = r / short;
    assert(short * (q + 1) <= short * k) by (nonlinear_arith)
        requires
            r == short * q + r % short,
            0 <= r % short,
            r < long,
            long == short * k,
            0 < short,
    ;
    assert(short * (q + 1) == short * q + short) by (nonlinear_arith);
    if short * (q + 1) < long {
        assert(short * (q + 1) + short <= long) by (nonlinear_arith)
            requires
                short * (q + 1) < long,
                long == short * k,
                0 < short,
        ;
    }
}

/// Two different logical indices less than `len` apart have different slots.
pub proof fn lemma_distinct(i: int, j: int, len: int)
    requires
        0 < len,
        i < j < i + len,
    ensures
        i % len != j % len,
{
    lemma_step(i, j - i, len);
}

/// Any window of `len` consecutive logical indices reaches every slot.
pub proof fn lemma_window(base: int, len: int, j: int) -> (i: int)
    requires
        0 < len,
        0 <= j < len,
    ensures
        base <= i < base + len,
        i % len == j,
{
    lemma_step(base, 0, len);
    let r = base % len;
    let k = if j >= r { j - r } else { j + len - r };
    lemma_step(base, k, len);
    base + k
}

} // verus!
