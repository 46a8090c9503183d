//! Numbers as bit patterns: which double-precision floats are natural
//! numbers, and the float of a natural number.

use vstd::prelude::*;
use vstd::arithmetic::div_mod::{lemma_fundamental_div_mod_converse, lemma_small_mod};
use vstd::arithmetic::power2::{
    lemma2_to64, lemma2_to64_rest, lemma_pow2_adds, lemma_pow2_pos, lemma_pow2_strictly_increases,
    pow2,
};
use crate::context::Num;

verus! {

/// Two to the power of 52: the weight of the hidden bit of a double.
pub const HIDDEN_BIT: u64 = 4503599627370496;

/// Two to the power of 63: the sign bit of a double.
pub const SIGN_BIT: u64 = 9223372036854775808;

/// The exponent bias of a double.
pub const BIAS: u64 = 1023;

/// The biased exponent at which the significand of a double counts units.
pub const UNIT_EXPONENT: u64 = 1075;

/// Whether `p` is the position of the highest set bit of `n`.
pub open spec fn is_top_bit(n: nat, p: nat) -> bool {
    pow2(p) <= n < pow2(p + 1)
}

/// The position of the highest set bit of a positive number.
pub open spec fn top_bit(n: nat) -> nat {
    choose|p: nat| is_top_bit(n, p)
}

/// The bits of the double that equals `n`, a number below two to the 53.
pub open spec fn nat_bits(n: nat) -> nat {
    if n == 0 {
        0
    } else {
        let p = top_bit(n);
        ((BIAS + p) * HIDDEN_BIT + (n - pow2(p)) * pow2((52 - p) as nat)) as nat
    }
}

/// The natural number that a double equals, if it equals one: zero of
/// either sign, or a positive finite double without a fraction.
pub open spec fn bits_nat(bits: u64) -> Option<nat> {
    let sign = bits / SIGN_BIT;
    let e = (bits / HIDDEN_BIT) % 2048;
    let m = bits % HIDDEN_BIT;
    let s = HIDDEN_BIT + m;
    if e == 0 {
        if m == 0 {
            Some(0)
        } else {
            None
        }
    } else if sign == 1 || e == 2047 || e < BIAS {
        None
    } else if e >= UNIT_EXPONENT {
        Some((s * pow2((e - UNIT_EXPONENT) as nat)) as nat)
    } else if s % (pow2((UNIT_EXPONENT - e) as nat) as int) == 0 {
        Some((s / (pow2((UNIT_EXPONENT - e) as nat) as int)) as nat)
    } else {
        None
    }
}

/// The highest set bit of a number is unique.
pub proof fn lemma_top_bit_unique(n: nat, p: nat, q: nat)
    requires
        is_top_bit(n, p),
        is_top_bit(n, q),
    ensures
        p == q,
{
    if p < q {
        if p + 1 < q {
            lemma_pow2_strictly_increases(p + 1, q);
        }
    } else if q < p {
        if q + 1 < p {
            lemma_pow2_strictly_increases(q + 1, p);
        }
    }
}

impl Num {
    /// The number that equals `n`, where `n` is below two to the 53 and so
    /// has a double of its own.
    #[verifier::rlimit(60)]
    pub fn from_nat(n: usize) -> (r: Option<Num>)
        ensures
            n < 2 * HIDDEN_BIT ==> r == Some(Num { bits: nat_bits(n as nat) as u64 }),
            n < 2 * HIDDEN_BIT ==> nat_bits(n as nat) <= u64::MAX,
            n >= 2 * HIDDEN_BIT ==> r is None,
    {
        let n64: u64 = n as u64;
        if n64 >= 2 * HIDDEN_BIT {
            return None;
        }
        if n64 == 0 {
            return Some(Num { bits: 0 });
        }
        proof {
            lemma2_to64();
            lemma2_to64_rest();
        }
        let mut top: u64 = 1;
        let mut p: u64 = 0;
        while top <= n64 / 2
            invariant
                top == pow2(p as nat),
                1 <= top <= n64,
                n64 < 2 * HIDDEN_BIT,
                pow2(53) == 2 * HIDDEN_BIT,
                p <= 52,
            decreases n64 - top,
        {
            proof {
                lemma_pow2_adds(p as nat, 1);
                lemma2_to64();
                if p + 1 > 52 {
                    if p + 1 > 53 {
                        lemma_pow2_strictly_increases(53, (p + 1) as nat);
                    }
                }
            }
            top = top * 2;
            p = p + 1;
        }
        proof {
            lemma_pow2_adds(p as nat, 1);
            lemma2_to64();
            assert(is_top_bit(n as nat, p as nat));
            let t = top_bit(n as nat);
            lemma_top_bit_unique(n as nat, p as nat, t);
        }
        let mut mant: u64 = n64 - top;
        let mut q: u64 = p;
        proof {
            lemma2_to64();
            lemma2_to64_rest();
            assert(pow2(0) == 1);
            assert((n64 - top) * pow2((q - p) as nat) == (n64 - top)) by (nonlinear_arith)
                requires
                    pow2((q - p) as nat) == 1,
            ;
            if p < 52 {
                lemma_pow2_strictly_increases(p as nat, 52);
            }
        }
        while q < 52
            invariant
                p <= q <= 52,
                top == pow2(p as nat),
                top <= n64 < 2 * top,
                mant == (n64 - top) * pow2((q - p) as nat),
                mant < pow2(q as nat),
                pow2(52) == HIDDEN_BIT,
            decreases 52 - q,
        {
            proof {
                lemma_pow2_adds((q - p) as nat, 1);
                lemma_pow2_adds(q as nat, 1);
                lemma2_to64();
                if q + 1 < 52 {
                    lemma_pow2_strictly_increases((q + 1) as nat, 52);
                }
                let a = (n64 - top) as int;
                let b = pow2((q - p) as nat) as int;
                assert(a * (b * 2) == (a * b) * 2) by (nonlinear_arith);
            }
            mant = mant * 2;
            q = q + 1;
        }
        let bits: u64 = (BIAS + p) * HIDDEN_BIT + mant;
        Some(Num { bits })
    }

    /// The number that equals a byte.
    pub fn from_byte(b: u8) -> (r: Num)
        ensures
            r.bits == nat_bits(b as nat),
    {
        match Num::from_nat(b as usize) {
            Some(n) => n,
            None => Num { bits: 0 },
        }
    }

    /// The natural number that this number equals, if it equals one that
    /// the machine word holds.
    #[verifier::rlimit(60)]
    pub fn as_nat(&self) -> (r: Option<usize>)
        ensures
            r == match bits_nat(self.bits) {
                Some(v) => if v <= usize::MAX {
                    Some(v as usize)
                } else {
                    None
                },
                None => None,
            },
    {
        let bits: u64 = self.bits;
        let sign: u64 = bits / SIGN_BIT;
        let e: u64 = (bits / HIDDEN_BIT) % 2048;
        let m: u64 = bits % HIDDEN_BIT;
        let s: u64 = HIDDEN_BIT + m;
        if e == 0 {
            return if m == 0 {
                Some(0)
            } else {
                None
            };
        }
        if sign == 1 || e == 2047 || e < BIAS {
            return None;
        }
        proof {
            lemma2_to64();
            lemma2_to64_rest();
            assert(s * pow2(0) == s) by (nonlinear_arith)
                requires
                    pow2(0) == 1,
            ;
        }
        if e >= UNIT_EXPONENT {
            let mut v: u64 = s;
            let mut i: u64 = UNIT_EXPONENT;
            while i < e
                invariant
                    UNIT_EXPONENT <= i <= e,
                    v == s * pow2((i - UNIT_EXPONENT) as nat),
                    s >= 1,
                ensures
                    i == e && v == s * pow2((e - UNIT_EXPONENT) as nat) || s * pow2(
                        (e - UNIT_EXPONENT) as nat,
                    ) > u64::MAX,
                decreases e - i,
            {
                proof {
                    lemma_pow2_adds((i - UNIT_EXPONENT) as nat, 1);
                    lemma2_to64();
                    let a = s as int;
                    let b = pow2((i - UNIT_EXPONENT) as nat) as int;
                    assert(a * (b * 2) == (a * b) * 2) by (nonlinear_arith);
                }
                if v > u64::MAX / 2 {
                    proof {
                        let a = s as int;
                        let lo = pow2((i + 1 - UNIT_EXPONENT) as nat) as int;
                        let hi = pow2((e - UNIT_EXPONENT) as nat) as int;
                        if i + 1 < e {
                            lemma_pow2_strictly_increases(
                                (i + 1 - UNIT_EXPONENT) as nat,
                                (e - UNIT_EXPONENT) as nat,
                            );
                        }
                        assert(a * lo <= a * hi) by (nonlinear_arith)
                            requires
                                lo <= hi,
                                a >= 1,
                        ;
                    }
                    break ;
                }
                v = v * 2;
                i = i + 1;
            }
            if i < e {
                return None;
            }
            if v > usize::MAX as u64 {
                return None;
            }
            Some(v as usize)
        } else {
            let mut d: u64 = 1;
            let mut i: u64 = e;
            while i < UNIT_EXPONENT
                invariant
                    e <= i <= UNIT_EXPONENT,
                    BIAS <= e,
                    d == pow2((i - e) as nat),
                    d <= HIDDEN_BIT,
                    pow2(52) == HIDDEN_BIT,
                decreases UNIT_EXPONENT - i,
            {
                proof {
                    lemma_pow2_adds((i - e) as nat, 1);
                    lemma2_to64();
                    if i + 1 - e < 52 {
                        lemma_pow2_strictly_increases((i + 1 - e) as nat, 52);
                    }
                }
                d = d * 2;
                i = i + 1;
            }
            if s % d == 0 {
                let v: u64 = s / d;
                if v > usize::MAX as u64 {
                    None
                } else {
                    Some(v as usize)
                }
            } else {
                None
            }
        }
    }
}

/// Every positive number has a highest set bit.
pub proof fn lemma_top_bit_exists(n: nat)
    requires
        n >= 1,
    ensures
        is_top_bit(n, top_bit(n)),
    decreases n,
{
    lemma2_to64();
    if n == 1 {
        assert(is_top_bit(n, 0));
    } else {
        lemma_top_bit_exists(n / 2);
        let p = top_bit(n / 2);
        lemma_pow2_adds(p, 1);
        lemma_pow2_adds(p + 1, 1);
        assert(is_top_bit(n, p + 1));
    }
}

/// The double that is made of a natural number below two to the 53 equals
/// that number again.
#[verifier::rlimit(60)]
pub proof fn lemma_bits_round_trip(n: nat)
    requires
        n < 2 * HIDDEN_BIT,
    ensures
        nat_bits(n) <= u64::MAX,
        bits_nat(nat_bits(n) as u64) == Some(n),
{
    lemma2_to64();
    lemma2_to64_rest();
    if n > 0 {
        lemma_top_bit_exists(n);
        let p = top_bit(n);
        if p > 52 {
            if p > 53 {
                lemma_pow2_strictly_increases(53, p);
            }
        }
        let k = (52 - p) as nat;
        lemma_pow2_adds(p, k);
        lemma_pow2_adds(p, 1);
        lemma_pow2_pos(k);
        lemma_pow2_pos(p);
        let top = pow2(p) as int;
        let scale = pow2(k) as int;
        let hidden = HIDDEN_BIT as int;
        let mant = (n - top) * scale;
        assert(top * scale == hidden);
        assert(0 <= mant < hidden) by (nonlinear_arith)
            requires
                mant == (n - top) * scale,
                top <= n < 2 * top,
                scale >= 1,
                top * scale == hidden,
        ;
        let e = (BIAS + p) as int;
        let bits = e * hidden + mant;
        assert(nat_bits(n) == bits);
        assert(bits < 1076 * hidden) by (nonlinear_arith)
            requires
                bits == e * hidden + mant,
                e <= 1075,
                mant < hidden,
                hidden > 0,
        ;
        lemma_fundamental_div_mod_converse(bits, hidden, e, mant);
        lemma_fundamental_div_mod_converse(bits, SIGN_BIT as int, 0, bits);
        lemma_small_mod(e as nat, 2048);
        let s = hidden + mant;
        assert(s == n * scale) by (nonlinear_arith)
            requires
                s == hidden + mant,
                mant == (n - top) * scale,
                top * scale == hidden,
        ;
        if p == 52 {
            assert(scale == 1);
            assert(s * pow2(0) == n) by (nonlinear_arith)
                requires
                    s == n * scale,
                    scale == 1,
                    pow2(0) == 1,
            ;
        } else {
            assert(s == scale * n) by (nonlinear_arith)
                requires
                    s == n * scale,
            ;
            lemma_fundamental_div_mod_converse(s, scale, n as int, 0);
        }
    }
}

} // verus!
