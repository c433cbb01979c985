//! Percentiles of measured latencies.

use vstd::prelude::*;

verus! {

/// The index of the `pct`-th percentile among `len` sorted samples:
/// `len * pct / 100`, held below `len`.
pub open spec fn percentile_index(len: nat, pct: nat) -> nat
    recommends
        len > 0,
{
    if len * pct / 100 >= len {
        (len - 1) as nat
    } else {
        len * pct / 100
    }
}

/// The `pct`-th percentile of the latencies `lats`, which are sorted and
/// given in nanoseconds; zero where there are none.
pub fn percentile(lats: &[u128], pct: usize) -> (out: u128)
    ensures
        lats@.len() == 0 ==> out == 0,
        lats@.len() > 0 ==> out == lats@[percentile_index(lats@.len(), pct as nat) as int],
{
    if lats.len() == 0 {
        return 0;
    }
    let len = lats.len();
    assert(len * pct <= 0xFFFF_FFFF_FFFF_FFFF * 0xFFFF_FFFF_FFFF_FFFF) by (nonlinear_arith)
        requires
            0 <= len <= 0xFFFF_FFFF_FFFF_FFFF,
            0 <= pct <= 0xFFFF_FFFF_FFFF_FFFF,
    ;
    let product: u128 = (len as u128) * (pct as u128);
    let scaled: u128 = product / 100;
    let idx: usize = if scaled >= len as u128 {
        len - 1
    } else {
        scaled as usize
    };
    lats[idx]
}

} // verus!
