//! Variable-length integers.
//!
//! A value is carried as a byte stream in which every byte holds seven
//! bits of magnitude, least significant group first, and a set high bit
//! announces a continuation.  The signed form sign-extends from the last
//! group.

use vstd::prelude::*;
use crate::value::{AbiValue, ValueV, value_wf, leb_shape};

verus! {

/// The continuation-bit byte encoding of an unsigned value, least
/// significant seven-bit group first.
pub open spec fn uleb_of(n: nat) -> Seq<u8>
    decreases n,
{
    if n < 128 {
        seq![n as u8]
    } else {
        seq![(128 + n % 128) as u8] + uleb_of(n / 128)
    }
}

/// The continuation-bit byte encoding of a signed value, least
/// significant seven-bit group first, the final group carrying the sign.
pub open spec fn sleb_of(v: int) -> Seq<u8>
    decreases (if v < 0 {
        -v
    } else {
        v
    }),
{
    if -64 <= v < 64 {
        seq![(v % 128) as u8]
    } else {
        seq![(v % 128 + 128) as u8] + sleb_of(v / 128)
    }
}

/// The unsigned encoding ends in a clear continuation bit and sets it
/// everywhere else.
pub proof fn lemma_uleb_shape(n: nat)
    ensures
        leb_shape(uleb_of(n)),
    decreases n,
{
    if n >= 128 {
        lemma_uleb_shape(n / 128);
        let rest = uleb_of(n / 128);
        let whole = uleb_of(n);
        assert(whole.last() == rest.last());
        assert forall|i: int| 0 <= i < whole.len() - 1 implies whole[i] >= 128 by {
            if i > 0 {
                assert(whole[i] == rest[i - 1]);
            }
        }
    }
}

/// The signed encoding ends in a clear continuation bit and sets it
/// everywhere else.
pub proof fn lemma_sleb_shape(v: int)
    ensures
        leb_shape(sleb_of(v)),
    decreases (if v < 0 {
        -v
    } else {
        v
    }),
{
    if -64 <= v < 64 {
        vstd::arithmetic::div_mod::lemma_mod_bound(v, 128);
    } else {
        lemma_sleb_shape(v / 128);
        vstd::arithmetic::div_mod::lemma_mod_bound(v, 128);
        let rest = sleb_of(v / 128);
        let whole = sleb_of(v);
        assert(whole.last() == rest.last());
        assert forall|i: int| 0 <= i < whole.len() - 1 implies whole[i] >= 128 by {
            if i > 0 {
                assert(whole[i] == rest[i - 1]);
            }
        }
    }
}

/// A value below `pow2(7 * k)` encodes into at most `k` groups.
pub proof fn lemma_uleb_len(n: nat, k: nat)
    requires
        1 <= k,
        n < vstd::arithmetic::power2::pow2(7 * k),
    ensures
        uleb_of(n).len() <= k,
    decreases k,
{
    if n >= 128 {
        vstd::arithmetic::power2::lemma2_to64();
        vstd::arithmetic::power2::lemma_pow2_pos(7 * k);
        vstd::arithmetic::power2::lemma_pow2_pos((7 * k - 7) as nat);
        vstd::arithmetic::power2::lemma_pow2_adds(7, (7 * k - 7) as nat);
        assert(k >= 2) by {
            if k == 1 {
                assert(vstd::arithmetic::power2::pow2(7) == 128);
            }
        }
        assert(n / 128 < vstd::arithmetic::power2::pow2((7 * k - 7) as nat)) by {
            let m = vstd::arithmetic::power2::pow2((7 * k - 7) as nat) as int;
            if n / 128 >= m {
                vstd::arithmetic::div_mod::lemma_fundamental_div_mod(n as int, 128);
                vstd::arithmetic::mul::lemma_mul_inequality(m, n as int / 128, 128);
                assert(128 * (n as int / 128) >= 128 * m);
                assert(n as int >= 128 * m);
            }
        }
        assert(7 * (k - 1) == 7 * k - 7) by (nonlinear_arith);
        lemma_uleb_len(n / 128, (k - 1) as nat);
    }
}

/// A value within the `pow2(7 * k - 1)` signed range encodes into at
/// most `k` groups.
pub proof fn lemma_sleb_len(v: int, k: nat)
    requires
        1 <= k,
        -(vstd::arithmetic::power2::pow2((7 * k - 1) as nat) as int) <= v
            < vstd::arithmetic::power2::pow2((7 * k - 1) as nat) as int,
    ensures
        sleb_of(v).len() <= k,
    decreases k,
{
    if !(-64 <= v < 64) {
        let p = vstd::arithmetic::power2::pow2((7 * k - 1) as nat) as int;
        vstd::arithmetic::power2::lemma2_to64();
        vstd::arithmetic::power2::lemma_pow2_pos((7 * k - 1) as nat);
        assert(k >= 2) by {
            if k == 1 {
                assert(vstd::arithmetic::power2::pow2(6) == 64);
            }
        }
        let p2 = vstd::arithmetic::power2::pow2((7 * k - 8) as nat) as int;
        vstd::arithmetic::power2::lemma_pow2_pos((7 * k - 8) as nat);
        vstd::arithmetic::power2::lemma_pow2_adds(7, (7 * k - 8) as nat);
        assert(p == 128 * p2);
        assert(-p2 <= v / 128 < p2) by {
            vstd::arithmetic::div_mod::lemma_fundamental_div_mod(v, 128);
            vstd::arithmetic::div_mod::lemma_mod_bound(v, 128);
            if v / 128 >= p2 {
                vstd::arithmetic::mul::lemma_mul_inequality(p2, v / 128, 128);
            }
            if v / 128 < -p2 {
                vstd::arithmetic::mul::lemma_mul_inequality(v / 128 + 1, -p2, 128);
            }
        }
        assert(7 * (k - 1) - 1 == 7 * k - 8) by (nonlinear_arith);
        lemma_sleb_len(v / 128, (k - 1) as nat);
    }
}

/// A `duint` value holding `v`.
pub fn duint_from_u128(v: u128) -> (r: AbiValue)
    ensures
        r@ == ValueV::Duint(uleb_of(v as nat)),
        value_wf(r@),
{
    let mut out: Vec<u8> = Vec::new();
    let mut x: u128 = v;
    loop
        invariant_except_break
            out@ + uleb_of(x as nat) == uleb_of(v as nat),
        ensures
            out@ == uleb_of(v as nat),
        decreases x,
    {
        if x < 128 {
            out.push(x as u8);
            proof {
                assert(out@ =~= uleb_of(v as nat));
            }
            break ;
        } else {
            let c: u8 = 128 + ((x % 128) as u8);
            let ghost before = out@;
            out.push(c);
            x = x / 128;
            proof {
                assert(before + (seq![c] + uleb_of(x as nat)) =~= out@ + uleb_of(x as nat));
            }
        }
    }
    proof {
        lemma_uleb_shape(v as nat);
        crate::bits::lemma_pow2_widths();
        vstd::arithmetic::power2::lemma_pow2_adds(128, 5);
        vstd::arithmetic::power2::lemma_pow2_pos(5);
        assert(vstd::arithmetic::power2::pow2(133)
            == vstd::arithmetic::power2::pow2(128) * vstd::arithmetic::power2::pow2(5));
        assert(vstd::arithmetic::power2::pow2(128) * 1
            <= vstd::arithmetic::power2::pow2(128) * vstd::arithmetic::power2::pow2(5)) by {
            vstd::arithmetic::mul::lemma_mul_inequality(
                1, vstd::arithmetic::power2::pow2(5) as int,
                vstd::arithmetic::power2::pow2(128) as int);
        }
        assert(7 * 19nat == 133nat);
        lemma_uleb_len(v as nat, 19);
    }
    AbiValue::Duint(out)
}

/// A `dint` value holding `v`.
pub fn dint_from_i128(v: i128) -> (r: AbiValue)
    ensures
        r@ == ValueV::Dint(sleb_of(v as int)),
        value_wf(r@),
{
    let mut out: Vec<u8> = Vec::new();
    let mut x: i128 = v;
    loop
        invariant_except_break
            out@ + sleb_of(x as int) == sleb_of(v as int),
        ensures
            out@ == sleb_of(v as int),
        decreases (if x < 0 {
            -(x as int)
        } else {
            x as int
        }),
    {
        if -64 <= x && x < 64 {
            let b: u8 = if x >= 0 {
                x as u8
            } else {
                (x + 128) as u8
            };
            proof {
                assert(b as int == x as int % 128) by {
                    if x >= 0 {
                        vstd::arithmetic::div_mod::lemma_small_mod(x as nat, 128);
                    } else {
                        vstd::arithmetic::div_mod::lemma_fundamental_div_mod_converse(
                            x as int, 128, -1, x as int + 128);
                    }
                }
            }
            out.push(b);
            proof {
                assert(out@ =~= sleb_of(v as int));
            }
            break ;
        } else if x >= 64 {
            let xu: u128 = x as u128;
            let m: u8 = (xu % 128) as u8;
            let c: u8 = 128 + m;
            let ghost before = out@;
            out.push(c);
            x = (xu / 128) as i128;
            proof {
                assert(before + (seq![c] + sleb_of(x as int)) =~= out@ + sleb_of(x as int));
            }
        } else {
            // x < -64: work on the magnitude, which fits an unsigned word
            let y1: u128 = (-(x + 1)) as u128;
            let y: u128 = y1 + 1;
            let r: u128 = y % 128;
            let k: u128 = y / 128;
            proof {
                assert(y as int == -(x as int));
                assert(y as int == 128 * (k as int) + (r as int)) by {
                    vstd::arithmetic::div_mod::lemma_fundamental_div_mod(y as int, 128);
                }
            }
            let m: u8 = if r == 0 {
                0
            } else {
                (128 - r) as u8
            };
            let c: u8 = 128 + m;
            let ghost before = out@;
            out.push(c);
            let q128: u128 = (y + 127) / 128;
            proof {
                if r == 0 {
                    vstd::arithmetic::div_mod::lemma_fundamental_div_mod_converse(
                        x as int, 128, -(k as int), 0);
                    vstd::arithmetic::div_mod::lemma_fundamental_div_mod_converse(
                        y as int + 127, 128, k as int, 127);
                } else {
                    vstd::arithmetic::div_mod::lemma_fundamental_div_mod_converse(
                        x as int, 128, -(k as int) - 1, 128 - r as int);
                    vstd::arithmetic::div_mod::lemma_fundamental_div_mod_converse(
                        y as int + 127, 128, k as int + 1, r as int - 1);
                }
                assert(m as int == x as int % 128);
                assert(q128 as int == -(x as int / 128));
            }
            x = -(q128 as i128);
            proof {
                assert(before + (seq![c] + sleb_of(x as int)) =~= out@ + sleb_of(x as int));
            }
        }
    }
    proof {
        lemma_sleb_shape(v as int);
        crate::bits::lemma_pow2_widths();
        vstd::arithmetic::power2::lemma_pow2_adds(127, 5);
        vstd::arithmetic::power2::lemma_pow2_pos(5);
        assert(vstd::arithmetic::power2::pow2(132)
            == vstd::arithmetic::power2::pow2(127) * vstd::arithmetic::power2::pow2(5));
        assert(vstd::arithmetic::power2::pow2(127) * 1
            <= vstd::arithmetic::power2::pow2(127) * vstd::arithmetic::power2::pow2(5)) by {
            vstd::arithmetic::mul::lemma_mul_inequality(
                1, vstd::arithmetic::power2::pow2(5) as int,
                vstd::arithmetic::power2::pow2(127) as int);
        }
        assert(7 * 19nat - 1 == 132nat);
        lemma_sleb_len(v as int, 19);
    }
    AbiValue::Dint(out)
}

} // verus!
