//! Weight (visual size) policies for forest nodes.
//!
//! The address-space policy gives a range the weight `growth ^ (128 -
//! prefix)`, with the growth factor an exact ratio of two integers and the
//! prefix length clamped to a configurable band, so that neither very short
//! nor very long prefixes dominate the picture. The uniform policy gives
//! every range weight one.

use vstd::prelude::*;
use vstd::arithmetic::div_mod::{lemma_div_is_ordered, lemma_div_multiples_vanish};

verus! {

/// Fixed-point scale of the power computation: twenty binary digits below
/// the point keep a fractional growth ratio from truncating to nothing.
pub const POW_SCALE: u64 = 1048576;

/// Scaled saturating fixed-ratio power: `(bn/bd)^e * scale`, computed by
/// `e` integer multiply-then-divide steps from `scale`, capped at
/// `u64::MAX`.
pub open spec fn pow_step(bn: int, bd: int, e: nat, scale: int) -> int
    decreases e,
{
    if e == 0 {
        scale
    } else {
        let p = pow_step(bn, bd, (e - 1) as nat, scale);
        let q = p * bn / bd;
        if q > u64::MAX as int {
            u64::MAX as int
        } else {
            q
        }
    }
}

/// The weight value of `(bn/bd)^e`: the scaled power, brought back to
/// whole units.
pub open spec fn pow_sat(bn: int, bd: int, e: nat) -> int {
    pow_step(bn, bd, e, POW_SCALE as int) / (POW_SCALE as int)
}

/// A non-shrinking growth ratio keeps every scaled power at least at the
/// scale and within the machine range.
pub proof fn lemma_pow_step_pos(bn: int, bd: int, e: nat, scale: int)
    requires
        1 <= bd <= bn,
        1 <= scale <= u64::MAX as int,
    ensures
        scale <= pow_step(bn, bd, e, scale) <= u64::MAX as int,
    decreases e,
{
    if e > 0 {
        lemma_pow_step_pos(bn, bd, (e - 1) as nat, scale);
        let p = pow_step(bn, bd, (e - 1) as nat, scale);
        assert(p * bd <= p * bn) by (nonlinear_arith)
            requires
                p >= 1,
                bd <= bn,
        ;
        lemma_div_is_ordered(p * bd, p * bn, bd);
        lemma_div_multiples_vanish(p, bd);
        assert(p * bd == bd * p);
    }
}

/// Compute the saturating fixed-ratio power `(bn/bd)^e`, in whole units.
pub fn growth_weight(bn: u64, bd: u64, e: u8) -> (r: u64)
    requires
        1 <= bd <= bn,
    ensures
        r as int == pow_sat(bn as int, bd as int, e as nat),
        r >= 1,
{
    let mut acc: u64 = POW_SCALE;
    let mut i: u8 = 0;
    while i < e
        invariant
            1 <= bd <= bn,
            i <= e,
            acc as int == pow_step(bn as int, bd as int, i as nat, POW_SCALE as int),
            acc >= 1,
        decreases e - i,
    {
        proof {
            lemma_pow_step_pos(bn as int, bd as int, (i + 1) as nat, POW_SCALE as int);
            assert(acc as int * bn as int <= u128::MAX as int && acc as int * bn as int >= 0)
                by (nonlinear_arith)
                requires
                    0 <= acc as int <= u64::MAX as int,
                    0 <= bn as int <= u64::MAX as int,
            ;
        }
        let q: u128 = (acc as u128) * (bn as u128) / (bd as u128);
        acc = if q > u64::MAX as u128 {
            u64::MAX
        } else {
            q as u64
        };
        i = i + 1;
    }
    proof {
        lemma_pow_step_pos(bn as int, bd as int, e as nat, POW_SCALE as int);
        lemma_div_is_ordered(POW_SCALE as int, acc as int, POW_SCALE as int);
        assert(POW_SCALE as int / POW_SCALE as int == 1) by (nonlinear_arith);
    }
    acc / POW_SCALE
}

/// Configuration of the address-space weight policy.
#[derive(Clone, Copy, Debug)]
pub struct SizeParams {
    /// Numerator of the per-bit growth ratio.
    pub base_num: u64,
    /// Denominator of the per-bit growth ratio.
    pub base_den: u64,
    /// Prefix lengths below this are treated as this.
    pub min_prefix: u8,
    /// Prefix lengths above this are treated as this.
    pub max_prefix: u8,
}

impl SizeParams {
    pub open spec fn wf(self) -> bool {
        1 <= self.base_den <= self.base_num && self.min_prefix <= self.max_prefix
            && self.max_prefix <= 128
    }

    /// The prefix length actually used for sizing.
    pub open spec fn clamped(self, prefix: u8) -> u8 {
        if prefix < self.min_prefix {
            self.min_prefix
        } else if prefix > self.max_prefix {
            self.max_prefix
        } else {
            prefix
        }
    }

    /// The default policy: each extra prefix bit shrinks a range to ten
    /// twelfths of its covering range, over the whole prefix band. A mild
    /// growth ratio keeps very short prefixes from dominating the picture.
    pub fn address_space() -> (r: SizeParams)
        ensures
            r.wf(),
            r.base_num == 12,
            r.base_den == 10,
            r.min_prefix == 0,
            r.max_prefix == 128,
    {
        SizeParams { base_num: 12, base_den: 10, min_prefix: 0, max_prefix: 128 }
    }

    /// The weight of a range under this policy: `growth ^ (128 - clamped
    /// prefix)`, saturating, never zero.
    pub fn weight_for(&self, prefix: u8) -> (r: u64)
        requires
            self.wf(),
        ensures
            r as int == pow_sat(
                self.base_num as int,
                self.base_den as int,
                (128 - self.clamped(prefix)) as nat,
            ),
            r >= 1,
    {
        let p = if prefix < self.min_prefix {
            self.min_prefix
        } else if prefix > self.max_prefix {
            self.max_prefix
        } else {
            prefix
        };
        growth_weight(self.base_num, self.base_den, 128 - p)
    }
}

} // verus!
