//! The `real` kind, held as a fixed-point decimal: a signed mantissa
//! scaled by one thousand millionths.  Decimal text parses and prints
//! exactly in this form, and the tolerance used for equality and for
//! sentinel detection is one unit of the scale.

use crate::util::{
    push_digits_fixed_u64, push_digits_u64, spec_digits, spec_digits_fixed, spec_pow10, DASH, DOT,
};
use vstd::prelude::*;

verus! {

/// The scale of the mantissa: a real's value is `man` divided by this.
pub const REAL_SCALE: u64 = 1_000_000_000;

/// Mantissa magnitudes must stay below this, so that the whole part has
/// at most seventeen digits.
pub const REAL_MAN_LIMIT: i128 = 100_000_000_000_000_000_000_000_000;

/// The mantissa of the reserved `real` sentinel.
pub const REAL_SENTINEL_MAN: i128 = -1_808_080_808_080_800_000;

/// True when two mantissas are within tolerance (one scale unit) of
/// each other.
pub open spec fn spec_real_close(a: int, b: int) -> bool {
    -1 <= a - b <= 1
}

/// A fixed-point decimal value.
#[derive(Clone, Copy, Debug)]
pub struct Real {
    pub man: i128,
}

impl Real {
    /// The scaled mantissa.
    pub open spec fn spec_man(&self) -> int {
        self.man as int
    }

    /// True when the mantissa is within the representable range.
    pub open spec fn wf(&self) -> bool {
        -REAL_MAN_LIMIT < self.man < REAL_MAN_LIMIT
    }

    /// Builds a real from a scaled mantissa, or returns `None` when the
    /// mantissa is out of range.
    pub fn new(man: i128) -> (r: Option<Real>)
        ensures
            r is Some <==> -REAL_MAN_LIMIT < man < REAL_MAN_LIMIT,
            r matches Some(v) ==> v.spec_man() == man && v.wf(),
    {
        if -REAL_MAN_LIMIT < man && man < REAL_MAN_LIMIT {
            Some(Real { man })
        } else {
            None
        }
    }

    /// Reports whether the mantissa is within the representable range.
    pub fn is_wf(&self) -> (r: bool)
        ensures
            r == self.wf(),
    {
        -REAL_MAN_LIMIT < self.man && self.man < REAL_MAN_LIMIT
    }

    /// The scaled mantissa.
    pub fn man(&self) -> (r: i128)
        ensures
            r as int == self.spec_man(),
    {
        self.man
    }

    /// True when this real is within tolerance of the reserved sentinel.
    pub fn is_sentinel(&self) -> (r: bool)
        requires
            self.wf(),
        ensures
            r == spec_real_close(self.spec_man(), REAL_SENTINEL_MAN as int),
    {
        let d = self.man - REAL_SENTINEL_MAN;
        -1 <= d && d <= 1
    }
}

/// The digit string with its trailing zero digits removed.
pub open spec fn spec_strip_zeros(s: Seq<u8>) -> Seq<u8>
    decreases s.len(),
{
    if s.len() > 0 && s.last() == 0x30u8 {
        spec_strip_zeros(s.drop_last())
    } else {
        s
    }
}

/// A run of `n` zero digits.
pub open spec fn spec_zero_digits(n: nat) -> Seq<u8> {
    Seq::new(n, |i: int| 0x30u8)
}

/// The mantissa truncated towards zero to `dp` decimal places; places
/// zero (natural form) and nine or more keep every digit.
pub open spec fn spec_trunc_man(man: int, dp: int) -> int {
    if 1 <= dp < 9 {
        let p = spec_pow10((9 - dp) as nat);
        let mag = if man < 0 {
            -man
        } else {
            man
        };
        let magr = (mag / p) * p;
        if man < 0 {
            -magr
        } else {
            magr
        }
    } else {
        man
    }
}

/// The canonical text of a real at `dp` decimal places (already
/// clamped): sign, whole digits, and, at natural precision, the exact
/// fraction with trailing zeros dropped, else exactly `dp` fraction
/// digits, truncated or zero padded as needed.
pub open spec fn spec_encode_real(man: int, dp: int) -> Seq<u8>
    recommends
        0 <= dp <= 15,
{
    let magr = if spec_trunc_man(man, dp) < 0 {
        -spec_trunc_man(man, dp)
    } else {
        spec_trunc_man(man, dp)
    };
    let sign: Seq<u8> = if man < 0 && magr > 0 {
        seq![DASH]
    } else {
        Seq::empty()
    };
    let units = magr / (REAL_SCALE as int);
    let frac = magr % (REAL_SCALE as int);
    if dp == 0 {
        if frac == 0 {
            sign + spec_digits(units)
        } else {
            sign + spec_digits(units) + seq![DOT] + spec_strip_zeros(spec_digits_fixed(frac, 9))
        }
    } else if dp <= 9 {
        sign + spec_digits(units) + seq![DOT] + spec_digits_fixed(
            frac / spec_pow10((9 - dp) as nat),
            dp as nat,
        )
    } else {
        sign + spec_digits(units) + seq![DOT] + spec_digits_fixed(frac, 9) + spec_zero_digits(
            (dp - 9) as nat,
        )
    }
}

/// Ten to the power `w`, for widths up to eighteen.
pub fn pow10_u64(w: u8) -> (r: u64)
    requires
        w <= 18,
    ensures
        r as int == spec_pow10(w as nat),
{
    proof {
        reveal_with_fuel(spec_pow10, 20);
    }
    match w {
        0 => 1,
        1 => 10,
        2 => 100,
        3 => 1_000,
        4 => 10_000,
        5 => 100_000,
        6 => 1_000_000,
        7 => 10_000_000,
        8 => 100_000_000,
        9 => 1_000_000_000,
        10 => 10_000_000_000,
        11 => 100_000_000_000,
        12 => 1_000_000_000_000,
        13 => 10_000_000_000_000,
        14 => 100_000_000_000_000,
        15 => 1_000_000_000_000_000,
        16 => 10_000_000_000_000_000,
        17 => 100_000_000_000_000_000,
        _ => 1_000_000_000_000_000_000,
    }
}

/// Appends the canonical text of a real to `out`.
#[verifier::rlimit(100)]
pub fn push_real(man: i128, dp: u8, out: &mut Vec<u8>)
    requires
        -REAL_MAN_LIMIT < man < REAL_MAN_LIMIT,
        dp <= 15,
    ensures
        final(out)@ == old(out)@ + spec_encode_real(man as int, dp as int),
{
    proof {
        reveal_with_fuel(spec_pow10, 20);
    }
    let mag: i128 = if man < 0 {
        -man
    } else {
        man
    };
    let magr: i128 = if 1 <= dp && dp < 9 {
        let p = pow10_u64(9 - dp) as i128;
        assert(p > 0);
        assert((mag / p) * p <= mag && (mag / p) * p >= 0) by (nonlinear_arith)
            requires
                p > 0,
                mag >= 0,
        ;
        (mag / p) * p
    } else {
        mag
    };
    assert(magr == if spec_trunc_man(man as int, dp as int) < 0 {
        -spec_trunc_man(man as int, dp as int)
    } else {
        spec_trunc_man(man as int, dp as int)
    });
    if man < 0 && magr > 0 {
        out.push(DASH);
    }
    let units: u64 = (magr / 1_000_000_000) as u64;
    let frac: u64 = (magr % 1_000_000_000) as u64;
    push_digits_u64(units, out);
    if dp == 0 {
        if frac > 0 {
            out.push(DOT);
            let mut tmp: Vec<u8> = Vec::new();
            push_digits_fixed_u64(frac, 9, &mut tmp);
            while tmp.len() > 0 && tmp[tmp.len() - 1] == 0x30
                invariant
                    spec_strip_zeros(tmp@) == spec_strip_zeros(spec_digits_fixed(frac as int, 9)),
                decreases tmp.len(),
            {
                let ghost pre = tmp@;
                tmp.pop();
                proof {
                    assert(tmp@ =~= pre.drop_last());
                }
            }
            proof {
                assert(spec_strip_zeros(tmp@) == tmp@);
            }
            let mut j: usize = 0;
            let ghost mid = out@;
            while j < tmp.len()
                invariant
                    0 <= j <= tmp@.len(),
                    out@ == mid + tmp@.take(j as int),
                decreases tmp@.len() - j,
            {
                out.push(tmp[j]);
                j += 1;
                proof {
                    assert(out@ =~= mid + tmp@.take(j as int));
                }
            }
            proof {
                assert(tmp@.take(tmp@.len() as int) =~= tmp@);
                assert(out@ =~= old(out)@ + spec_encode_real(man as int, dp as int));
            }
        } else {
            proof {
                assert(out@ =~= old(out)@ + spec_encode_real(man as int, dp as int));
            }
        }
    } else if dp <= 9 {
        out.push(DOT);
        let p = pow10_u64(9 - dp);
        assert(p > 0);
        proof {
            lemma_pow10_adds((9 - dp) as nat, dp as nat);
        }
        assert((frac as int) / (p as int) < spec_pow10(dp as nat)) by (nonlinear_arith)
            requires
                (frac as int) < spec_pow10(9),
                (p as int) == spec_pow10((9 - dp) as nat),
                spec_pow10(9) == spec_pow10((9 - dp) as nat) * spec_pow10(dp as nat),
                (p as int) > 0,
                frac >= 0,
        ;
        push_digits_fixed_u64(frac / p, dp, out);
        proof {
            assert(out@ =~= old(out)@ + spec_encode_real(man as int, dp as int));
        }
    } else {
        out.push(DOT);
        push_digits_fixed_u64(frac, 9, out);
        let ghost mid = out@;
        let mut k: u8 = 9;
        while k < dp
            invariant
                9 <= k <= dp,
                out@ == mid + spec_zero_digits((k - 9) as nat),
            decreases dp - k,
        {
            out.push(0x30);
            k += 1;
            proof {
                assert(out@ =~= mid + spec_zero_digits((k - 9) as nat));
            }
        }
        proof {
            assert(out@ =~= old(out)@ + spec_encode_real(man as int, dp as int));
        }
    }
}

/// Splitting an exponent splits the power.
pub proof fn lemma_pow10_adds(a: nat, b: nat)
    ensures
        spec_pow10(a + b) == spec_pow10(a) * spec_pow10(b),
    decreases a,
{
    if a == 0 {
    } else {
        lemma_pow10_adds((a - 1) as nat, b);
        assert(spec_pow10(a + b) == 10 * spec_pow10((a + b - 1) as nat));
        assert(spec_pow10(a) * spec_pow10(b) == 10 * (spec_pow10((a - 1) as nat) * spec_pow10(b)))
            by (nonlinear_arith)
            requires
                spec_pow10(a) == 10 * spec_pow10((a - 1) as nat),
        ;
    }
}

} // verus!
