use vstd::prelude::*;

use crate::errors::OracleError;
use crate::helpers::calc_product;

verus! {

/// Percentages are parts of this divisor: 10_000 is 100%.
pub const PERCENTAGE_DIVISOR: u16 = 10_000;

/// From `threshold` of valuation up, the resolution fee is `percentage`.
#[derive(Clone, Copy, Debug, PartialEq, Eq, Structural)]
pub struct FeeBand {
    pub threshold: u128,
    pub percentage: u16,
}

/// Fee bands, ordered by ascending threshold.
pub struct FeeConfig {
    pub bands: Vec<FeeBand>,
}

/// The band that applies to `valuation`: the last one whose threshold it reaches, or the
/// first band where it reaches none.
pub open spec fn band_index(bands: Seq<FeeBand>, valuation: u128) -> int
    decreases bands.len(),
{
    if bands.len() == 0 {
        0
    } else if bands.last().threshold <= valuation {
        bands.len() - 1
    } else {
        band_index(bands.drop_last(), valuation)
    }
}

/// Among bands, the one chosen is one of them.
pub proof fn lemma_band_index_in_range(bands: Seq<FeeBand>, valuation: u128)
    requires
        bands.len() > 0,
    ensures
        0 <= band_index(bands, valuation) < bands.len(),
    decreases bands.len(),
{
    if bands.last().threshold > valuation {
        if bands.len() > 1 {
            lemma_band_index_in_range(bands.drop_last(), valuation);
        } else {
            assert(band_index(bands.drop_last(), valuation) == 0);
        }
    }
}

/// How a requester's stake cost departs from the base bond.
#[derive(Clone, Copy, Debug, PartialEq, Eq, Structural)]
pub enum CustomFeeStakeArgs {
    /// The base bond as it is.
    Base,
    /// A fixed amount in place of the base bond.
    Fixed(u128),
    /// The base bond times this percentage (of `PERCENTAGE_DIVISOR`).
    Multiplier(u16),
}

/// The stake cost for base bond `base`, over the integers.
pub open spec fn stake_cost_of(base: u128, custom: CustomFeeStakeArgs) -> int {
    match custom {
        CustomFeeStakeArgs::Base => base as int,
        CustomFeeStakeArgs::Fixed(f) => f as int,
        CustomFeeStakeArgs::Multiplier(m) => (base as int) * (m as int) / (PERCENTAGE_DIVISOR as int),
    }
}

/// The stake cost can be computed in 128 bits: a multiplier's product fits.
pub open spec fn stake_cost_fits(base: u128, custom: CustomFeeStakeArgs) -> bool {
    match custom {
        CustomFeeStakeArgs::Multiplier(m) => (base as int) * (m as int) <= u128::MAX,
        _ => true,
    }
}

impl FeeConfig {
    pub open spec fn wf(&self) -> bool {
        let b = self.bands@;
        &&& b.len() > 0
        &&& forall|i: int, j: int| 0 <= i < j < b.len() ==> b[i].threshold < b[j].threshold
        &&& forall|i: int| 0 <= i < b.len() ==> b[i].percentage <= PERCENTAGE_DIVISOR
    }

    /// The resolution fee percentage for a target whose valuation is `valuation`.
    pub fn resolution_fee_percentage(&self, valuation: u128) -> (r: u16)
        requires
            self.wf(),
        ensures
            0 <= band_index(self.bands@, valuation) < self.bands@.len(),
            r == self.bands@[band_index(self.bands@, valuation)].percentage,
            r <= PERCENTAGE_DIVISOR,
    {
        proof {
            lemma_band_index_in_range(self.bands@, valuation);
        }
        let mut i: usize = self.bands.len();
        assert(self.bands@.take(i as int) =~= self.bands@);
        while i > 0
            invariant
                i <= self.bands@.len(),
                self.wf(),
                band_index(self.bands@, valuation) == band_index(
                    self.bands@.take(i as int),
                    valuation,
                ),
            decreases i,
        {
            if self.bands[i - 1].threshold <= valuation {
                assert(self.bands@.take(i as int).last() == self.bands@[i - 1]);
                return self.bands[i - 1].percentage;
            }
            assert(self.bands@.take(i as int).drop_last() =~= self.bands@.take(i - 1));
            i -= 1;
        }
        assert(self.bands@.take(0) =~= Seq::<FeeBand>::empty());
        self.bands[0].percentage
    }
}

/// The part of `paid_fee` that `percentage` (of `PERCENTAGE_DIVISOR`) gives, rounded down.
pub fn fee_share(paid_fee: u128, percentage: u16) -> (r: u128)
    requires
        percentage <= PERCENTAGE_DIVISOR,
    ensures
        r == (paid_fee as int) * (percentage as int) / (PERCENTAGE_DIVISOR as int),
        r <= paid_fee,
{
    proof {
        assert((paid_fee as int) * (percentage as int) <= (paid_fee as int) * 10_000)
            by (nonlinear_arith)
            requires
                percentage <= 10_000,
        ;
        assert((paid_fee as int) * (percentage as int) / 10_000 <= paid_fee) by (nonlinear_arith)
            requires
                (paid_fee as int) * (percentage as int) <= (paid_fee as int) * 10_000,
                paid_fee >= 0,
        ;
    }
    calc_product(paid_fee, percentage as u128, PERCENTAGE_DIVISOR as u128)
}

/// The stake cost for base bond `base`: `base` itself, a fixed amount, or `base` times a
/// percentage. Fails only where the product `base * multiplier` does not fit in 128 bits.
pub fn stake_cost(base: u128, custom: CustomFeeStakeArgs) -> (r: Result<u128, OracleError>)
    ensures
        !stake_cost_fits(base, custom) ==> r == Err::<u128, OracleError>(
            OracleError::ArithmeticOverflow,
        ),
        stake_cost_fits(base, custom) ==> r == Ok::<u128, OracleError>(
            stake_cost_of(base, custom) as u128,
        ),
        stake_cost_fits(base, custom) ==> stake_cost_of(base, custom) <= u128::MAX,
{
    match custom {
        CustomFeeStakeArgs::Base => Ok(base),
        CustomFeeStakeArgs::Fixed(f) => Ok(f),
        CustomFeeStakeArgs::Multiplier(m) => {
            if m != 0 && base > u128::MAX / (m as u128) {
                proof {
                    assert((base as int) * (m as int) > u128::MAX) by (nonlinear_arith)
                        requires
                            m > 0,
                            base > (u128::MAX as int) / (m as int),
                    ;
                }
                return Err(OracleError::ArithmeticOverflow);
            }
            proof {
                if m != 0 {
                    assert((base as int) * (m as int) <= u128::MAX) by (nonlinear_arith)
                        requires
                            m > 0,
                            base <= (u128::MAX as int) / (m as int),
                    ;
                }
            }
            Ok(base * (m as u128) / (PERCENTAGE_DIVISOR as u128))
        },
    }
}

} // verus!
