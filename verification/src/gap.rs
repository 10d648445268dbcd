//! The gap evaluator: an exact pass/fail decision on the relative price gap
//! between the spot and the futures market.

use vstd::prelude::*;

verus! {

/// The exact relative gap `(spot - fut) / fut * 100` percent exceeds the
/// threshold `thr / 10^4` percent, with the divisions cleared: prices are in
/// `10^-8` units (the common scale cancels) and the threshold in `10^-4`
/// percent units, so the comparison is `(spot - fut) * 10^6 > thr * fut`.
pub open spec fn gap_exceeds(fut: int, spot: int, thr: int) -> bool {
    (spot - fut) * 1000000 > thr * fut
}

/// The signed relative gap in percent, as the exact rational `num / den`:
/// `100 * (spot - fut)` price units over `fut` price units, and whether it
/// exceeds the threshold.
pub struct GapEval {
    pub num: i128,
    pub den: u64,
    pub qualifies: bool,
}

/// Evaluates one symbol's prices against the threshold.
///
/// Returns `None` exactly when the futures price is zero: a missing or
/// unparsable price defaults to zero and must be skipped, never evaluated.
/// Otherwise the result carries the exact signed gap and qualifies if and
/// only if the gap strictly exceeds the threshold.
pub fn evaluate(fut_price: u64, spot_price: u64, threshold: u64) -> (r: Option<GapEval>)
    ensures
        r is Some <==> fut_price > 0,
        r is Some ==> {
            let g = r.unwrap();
            &&& g.num == 100 * (spot_price - fut_price)
            &&& g.den == fut_price
            &&& g.qualifies == gap_exceeds(fut_price as int, spot_price as int, threshold as int)
        },
{
    if fut_price == 0 {
        return None;
    }
    let num: i128 = 100i128 * (spot_price as i128 - fut_price as i128);
    let qualifies: bool = if spot_price > fut_price {
        let lhs: u128 = (spot_price - fut_price) as u128 * 1_000_000u128;
        proof {
            assert((threshold as int) * (fut_price as int)
                <= 0xffff_ffff_ffff_ffffu64 * 0xffff_ffff_ffff_ffffu64) by (nonlinear_arith)
                requires
                    threshold <= 0xffff_ffff_ffff_ffffu64,
                    fut_price <= 0xffff_ffff_ffff_ffffu64,
            ;
        }
        let rhs: u128 = (threshold as u128) * (fut_price as u128);
        lhs > rhs
    } else {
        proof {
            assert((threshold as int) * (fut_price as int) >= 0) by (nonlinear_arith)
                requires
                    threshold >= 0,
                    fut_price >= 0,
            ;
            assert((spot_price - fut_price) * 1000000 <= 0);
        }
        false
    };
    Some(GapEval { num, den: fut_price, qualifies })
}

} // verus!
