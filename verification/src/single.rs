use vstd::prelude::*;
use vstd::arithmetic::div_mod::{lemma_fundamental_div_mod, lemma_fundamental_div_mod_converse};
use vstd::arithmetic::power2::{
    lemma2_to64, lemma2_to64_rest, lemma_pow2_adds, lemma_pow2_pos, lemma_pow2_strictly_increases,
    lemma_pow2_unfold, pow2,
};

verus! {

/// The exponent field of a single-precision bit pattern: bits 23 to 30.
pub open spec fn exponent_field(bits: u32) -> nat {
    ((bits / 0x80_0000) % 0x100) as nat
}

/// The fraction field of a single-precision bit pattern: bits 0 to 22.
pub open spec fn fraction_field(bits: u32) -> nat {
    (bits % 0x80_0000) as nat
}

/// Whether the sign bit is set.
pub open spec fn is_negative(bits: u32) -> bool {
    bits >= 0x8000_0000
}

/// Whether the bit pattern is an infinity or not a number.
pub open spec fn is_not_finite(bits: u32) -> bool {
    exponent_field(bits) == 0xFF
}

/// Whether the bit pattern is not a number.
pub open spec fn is_nan(bits: u32) -> bool {
    exponent_field(bits) == 0xFF && fraction_field(bits) != 0
}

/// Whether the bit pattern is a number above zero and below infinity.
pub open spec fn is_positive_finite(bits: u32) -> bool {
    0 < bits < 0x7F80_0000
}

/// Whether the bit pattern is zero or a number above it and below infinity:
/// what a place among the input samples can be.
pub open spec fn is_position(bits: u32) -> bool {
    bits < 0x7F80_0000
}

/// The significand of a finite number as a whole number: the fraction
/// field, with the hidden bit above it unless the number is subnormal.
pub open spec fn significand(bits: u32) -> nat {
    if exponent_field(bits) == 0 {
        fraction_field(bits)
    } else {
        0x80_0000 + fraction_field(bits)
    }
}

/// The power of two that the significand of a finite number is scaled by,
/// counted from the smallest: the number's magnitude is
/// `significand * 2^(scale - 150)`.
pub open spec fn scale(bits: u32) -> nat {
    if exponent_field(bits) == 0 {
        1
    } else {
        exponent_field(bits)
    }
}

/// The magnitude of a finite number, counted in units of `2^-150`.
pub open spec fn magnitude(bits: u32) -> nat {
    significand(bits) * pow2(scale(bits))
}

/// The whole part of a position: the number rounded down.
pub open spec fn floor_of(bits: u32) -> nat {
    magnitude(bits) / pow2(150)
}

/// Whether a position is a whole number.
pub open spec fn is_whole(bits: u32) -> bool {
    magnitude(bits) % pow2(150) == 0
}

/// What a position has over its whole part, counted in units of `2^-150`.
pub open spec fn rest_of(bits: u32) -> nat {
    magnitude(bits) % pow2(150)
}

/// The fractional part of a position: the position whose magnitude is what
/// the given one has over its whole part. There is one such position and
/// no more.
pub open spec fn fract_of(bits: u32) -> u32 {
    choose|t: u32| is_position(t) && magnitude(t) == rest_of(bits)
}

/// Whether a number is less than one half, as single precision compares:
/// what is not a number is less than nothing, every negative number and
/// minus zero are less, and numbers from zero on are in the order of their
/// bit patterns.
pub open spec fn below_half(bits: u32) -> bool {
    if is_nan(bits) {
        false
    } else if is_negative(bits) {
        true
    } else {
        bits < 0x3F00_0000
    }
}

/// Whether a number is less than one half.
pub fn is_below_half(bits: u32) -> (r: bool)
    ensures
        r == below_half(bits),
{
    if (bits / 0x80_0000) % 0x100 == 0xFF && bits % 0x80_0000 != 0 {
        false
    } else if bits >= 0x8000_0000 {
        true
    } else {
        bits < 0x3F00_0000
    }
}

/// The most that `power_of_two` raises two to.
pub const MAX_SHIFT: u32 = 40;

/// Two to the power `e`.
fn power_of_two(e: u32) -> (p: u64)
    requires
        e <= MAX_SHIFT,
    ensures
        p == pow2(e as nat),
        0 < p <= 0x100_0000_0000,
{
    let mut p: u64 = 1;
    let mut j: u32 = 0;
    proof {
        lemma2_to64();
        lemma2_to64_rest();
    }
    while j < e
        invariant
            j <= e <= MAX_SHIFT,
            p == pow2(j as nat),
            p > 0,
            p * pow2((MAX_SHIFT - j) as nat) == 0x100_0000_0000,
        decreases e - j,
    {
        proof {
            lemma_pow2_unfold((j + 1) as nat);
            lemma_pow2_unfold((MAX_SHIFT - j) as nat);
            assert(p * (2 * pow2((MAX_SHIFT - j - 1) as nat)) == (p * 2) * pow2(
                (MAX_SHIFT - j - 1) as nat,
            )) by (nonlinear_arith);
            assert(p * 2 <= (p * 2) * pow2((MAX_SHIFT - j - 1) as nat)) by (nonlinear_arith)
                requires
                    pow2((MAX_SHIFT - j - 1) as nat) > 0,
            ;
            lemma_pow2_pos((MAX_SHIFT - j - 1) as nat);
        }
        p = p * 2;
        j = j + 1;
    }
    proof {
        lemma_pow2_pos((MAX_SHIFT - j) as nat);
        assert(p <= p * pow2((MAX_SHIFT - j) as nat)) by (nonlinear_arith)
            requires
                pow2((MAX_SHIFT - j) as nat) > 0,
        ;
    }
    p
}

/// A significand that is so many whole units of `2^down` and a rest, scaled
/// by the `2^e` that makes a unit one, has those units for its whole part.
proof fn lemma_whole_and_rest(m: nat, e: nat, down: nat, k: nat, rest: nat)
    requires
        e + down == 150,
        m == k * pow2(down) + rest,
        rest < pow2(down),
    ensures
        (m * pow2(e)) / pow2(150) == k,
        (m * pow2(e)) % pow2(150) == rest * pow2(e),
{
    lemma_pow2_adds(e, down);
    lemma_pow2_pos(e);
    let (a, b) = (pow2(e) as int, pow2(down) as int);
    assert(m * a == k * (a * b) + rest * a) by (nonlinear_arith)
        requires
            m == k * b + rest,
    ;
    assert(rest * a < a * b) by (nonlinear_arith)
        requires
            rest < b,
            a > 0,
    ;
    assert(rest * a >= 0) by (nonlinear_arith)
        requires
            rest >= 0,
            a > 0,
    ;
    lemma_fundamental_div_mod_converse(m * a, a * b, k as int, rest * a);
}

/// The whole part of a position, and what it has over it, read from its
/// significand: with a scale `down` below the one at which the significand
/// counts whole numbers, the significand is so many units of `2^down` and a
/// rest, and those units are the whole part.
pub proof fn lemma_floor_and_rest(bits: u32, down: nat, k: nat, rest: nat)
    requires
        scale(bits) + down == 150,
        significand(bits) == k * pow2(down) + rest,
        rest < pow2(down),
    ensures
        floor_of(bits) == k,
        rest_of(bits) == rest * pow2(scale(bits)),
        is_whole(bits) <==> rest == 0,
{
    lemma_whole_and_rest(significand(bits), scale(bits), down, k, rest);
    lemma_pow2_pos(scale(bits));
    assert(rest == 0 <==> rest * pow2(scale(bits)) == 0) by (nonlinear_arith)
        requires
            pow2(scale(bits)) > 0,
            rest >= 0,
    ;
}

/// The fractional part of a position is the position that has what the
/// first has over its whole part.
pub proof fn lemma_fract_is(bits: u32, t: u32)
    requires
        is_position(bits),
        is_position(t),
        magnitude(t) == rest_of(bits),
    ensures
        fract_of(bits) == t,
{
    lemma_magnitude_tells(t, fract_of(bits));
}

/// Two positions of one magnitude are one position.
pub proof fn lemma_magnitude_tells(a: u32, b: u32)
    requires
        is_position(a),
        is_position(b),
        magnitude(a) == magnitude(b),
    ensures
        a == b,
{
    let (ma, ea) = (significand(a) as int, scale(a));
    let (mb, eb) = (significand(b) as int, scale(b));
    lemma_pow2_pos(ea);
    lemma_pow2_pos(eb);
    if ea < eb {
        lemma_scales_apart(ma, ea, mb, eb);
    } else if eb < ea {
        lemma_scales_apart(mb, eb, ma, ea);
    } else {
        assert(ma == mb) by (nonlinear_arith)
            requires
                ma * pow2(ea) == mb * pow2(ea),
                pow2(ea) > 0,
        ;
    }
}

/// A significand at a lower scale stays below every normal significand at
/// a higher one.
proof fn lemma_scales_apart(low: int, e_low: nat, high: int, e_high: nat)
    requires
        0 <= low < 0x100_0000,
        0x80_0000 <= high,
        e_low < e_high,
    ensures
        low * pow2(e_low) < high * pow2(e_high),
{
    lemma_pow2_pos(e_low);
    lemma_pow2_unfold(e_low + 1);
    if e_low + 1 < e_high {
        lemma_pow2_strictly_increases(e_low + 1, e_high);
    }
    let (p, q) = (pow2(e_low) as int, pow2(e_high) as int);
    assert(low * p < high * q) by (nonlinear_arith)
        requires
            0 <= low < 0x100_0000,
            0x80_0000 <= high,
            p > 0,
            q >= 2 * p,
    ;
}

/// The fractional part of a position; nothing for what is no position.
pub fn fract(bits: u32) -> (r: Option<u32>)
    ensures
        r is Some <==> is_position(bits),
        r is Some ==> r->Some_0 == fract_of(bits) && is_position(r->Some_0) && magnitude(
            r->Some_0,
        ) == rest_of(bits),
{
    if bits >= 0x7F80_0000 {
        return None;
    }
    let field: u32 = (bits / 0x80_0000) % 0x100;
    let fraction: u32 = bits % 0x80_0000;
    let m: u64 = if field == 0 {
        fraction as u64
    } else {
        0x80_0000 + fraction as u64
    };
    let e: u32 = if field == 0 {
        1
    } else {
        field
    };
    assert(m == significand(bits) && e == scale(bits));
    let t: u32 = if e >= 150 {
        proof {
            let up = (e - 150) as nat;
            lemma_pow2_adds(up, 150);
            lemma_pow2_pos(150);
            assert(m * pow2(e as nat) == (m * pow2(up)) * pow2(150)) by (nonlinear_arith)
                requires
                    pow2(e as nat) == pow2(up) * pow2(150),
            ;
            assert(m * pow2(up) >= 0) by (nonlinear_arith)
                requires
                    m >= 0,
                    pow2(up) >= 0,
            ;
            lemma_fundamental_div_mod_converse(
                (m * pow2(e as nat)) as int,
                pow2(150) as int,
                (m * pow2(up)) as int,
                0,
            );
            assert(magnitude(0) == 0) by {
                assert(significand(0) == 0);
                assert(0 * pow2(scale(0)) == 0) by (nonlinear_arith);
            }
        }
        0
    } else if e < 127 {
        proof {
            let down = (150 - e) as nat;
            lemma2_to64();
            if down > 24 {
                lemma_pow2_strictly_increases(24, down);
            }
            lemma_whole_and_rest(m as nat, e as nat, down, 0, m as nat);
        }
        bits
    } else {
        let p: u64 = power_of_two(150 - e);
        let rest: u64 = m % p;
        proof {
            lemma_fundamental_div_mod(m as int, p as int);
            assert(p * (m / p) == (m / p) * p) by (nonlinear_arith);
            lemma_whole_and_rest(m as nat, e as nat, (150 - e) as nat, (m / p) as nat, rest as nat);
            lemma2_to64();
            if 150 - e < 23 {
                lemma_pow2_strictly_increases((150 - e) as nat, 23);
            }
        }
        if rest == 0 {
            proof {
                assert(rest * pow2(e as nat) == 0) by (nonlinear_arith)
                    requires
                        rest == 0,
                ;
                assert(magnitude(0) == 0) by {
                    assert(significand(0) == 0);
                    assert(0 * pow2(scale(0)) == 0) by (nonlinear_arith);
                }
            }
            0
        } else {
            let mut r: u64 = rest;
            let mut x: u32 = e;
            proof {
                lemma2_to64();
                assert(pow2(0) == 1);
            }
            while r < 0x80_0000
                invariant
                    0 < r < 0x100_0000,
                    x <= e,
                    127 <= e < 150,
                    r * pow2(x as nat) == rest * pow2(e as nat),
                    r >= pow2((e - x) as nat),
                decreases 0x100_0000 - r,
            {
                proof {
                    lemma2_to64();
                    if e - x >= 23 {
                        if e - x > 23 {
                            lemma_pow2_strictly_increases(23, (e - x) as nat);
                        }
                        assert(false);
                    }
                    lemma_pow2_unfold(x as nat);
                    lemma_pow2_unfold((e - x + 1) as nat);
                    assert((2 * r) * pow2((x - 1) as nat) == r * (2 * pow2((x - 1) as nat)))
                        by (nonlinear_arith);
                }
                r = 2 * r;
                x = x - 1;
            }
            proof {
                lemma2_to64();
                if e - x >= 24 {
                    if e - x > 24 {
                        lemma_pow2_strictly_increases(24, (e - x) as nat);
                    }
                    assert(false);
                }
            }
            let made: u32 = x * 0x80_0000 + (r as u32 - 0x80_0000);
            assert(exponent_field(made) == x && fraction_field(made) == r - 0x80_0000);
            assert(significand(made) == r && scale(made) == x);
            made
        }
    };
    proof {
        assert(is_position(t) && magnitude(t) == rest_of(bits));
        let chosen = fract_of(bits);
        lemma_magnitude_tells(t, chosen);
    }
    Some(t)
}

/// Where a position lies among the whole numbers up to `limit`: its whole
/// part, and whether it is that whole number. Nothing is returned for what
/// is no position, nor for a position past `limit`.
pub fn locate(bits: u32, limit: usize) -> (r: Option<(usize, bool)>)
    ensures
        r is Some <==> is_position(bits) && floor_of(bits) <= limit,
        r is Some ==> r->Some_0.0 == floor_of(bits) && r->Some_0.1 == is_whole(bits),
{
    if bits >= 0x7F80_0000 {
        return None;
    }
    let field: u32 = (bits / 0x80_0000) % 0x100;
    let fraction: u32 = bits % 0x80_0000;
    let m: u64 = if field == 0 {
        fraction as u64
    } else {
        0x80_0000 + fraction as u64
    };
    let e: u32 = if field == 0 {
        1
    } else {
        field
    };
    assert(m == significand(bits) && e == scale(bits));
    proof {
        lemma_pow2_pos(e as nat);
        lemma_pow2_pos(150);
    }
    if e >= 150 {
        let up: u32 = e - 150;
        proof {
            lemma_pow2_adds(up as nat, 150);
            lemma_pow2_pos(up as nat);
            assert(m * pow2(e as nat) == (m * pow2(up as nat)) * pow2(150)) by (nonlinear_arith)
                requires
                    pow2(e as nat) == pow2(up as nat) * pow2(150),
            ;
            lemma_fundamental_div_mod_converse(
                (m * pow2(e as nat)) as int,
                pow2(150) as int,
                (m * pow2(up as nat)) as int,
                0,
            );
        }
        if up > MAX_SHIFT {
            proof {
                lemma2_to64_rest();
                if up > 41 {
                    lemma_pow2_strictly_increases(41, up as nat);
                }
                assert(m * pow2(up as nat) >= 0x80_0000 * 0x200_0000_0000) by (nonlinear_arith)
                    requires
                        m >= 0x80_0000,
                        pow2(up as nat) >= 0x200_0000_0000,
                ;
            }
            return None;
        }
        let p: u64 = power_of_two(up);
        assert(m * p < 0x100_0000 * 0x100_0000_0000) by (nonlinear_arith)
            requires
                m < 0x100_0000,
                0 < p <= 0x100_0000_0000,
        ;
        let whole: u64 = m * p;
        if whole > limit as u64 {
            None
        } else {
            Some((whole as usize, true))
        }
    } else {
        let down: u32 = 150 - e;
        proof {
            lemma_pow2_adds(e as nat, down as nat);
            lemma_pow2_pos(down as nat);
        }
        if down >= 24 {
            proof {
                lemma2_to64();
                if down > 24 {
                    lemma_pow2_strictly_increases(24, down as nat);
                }
                assert(m * pow2(e as nat) < pow2(down as nat) * pow2(e as nat))
                    by (nonlinear_arith)
                    requires
                        m < pow2(down as nat),
                        pow2(e as nat) > 0,
                ;
                assert(pow2(down as nat) * pow2(e as nat) == pow2(e as nat) * pow2(down as nat))
                    by (nonlinear_arith);
                assert(m * pow2(e as nat) == 0 * pow2(150) + m * pow2(e as nat));
                lemma_fundamental_div_mod_converse(
                    (m * pow2(e as nat)) as int,
                    pow2(150) as int,
                    0,
                    (m * pow2(e as nat)) as int,
                );
                assert(m == 0 <==> m * pow2(e as nat) == 0) by (nonlinear_arith)
                    requires
                        pow2(e as nat) > 0,
                        m >= 0,
                ;
            }
            return Some((0, m == 0));
        }
        let p: u64 = power_of_two(down);
        let k: u64 = m / p;
        let rest: u64 = m % p;
        proof {
            lemma_fundamental_div_mod(m as int, p as int);
            assert(p * k == k * p) by (nonlinear_arith);
            assert(m * pow2(e as nat) == k * (pow2(e as nat) * p) + rest * pow2(e as nat))
                by (nonlinear_arith)
                requires
                    m == k * p + rest,
            ;
            assert(rest * pow2(e as nat) < p * pow2(e as nat)) by (nonlinear_arith)
                requires
                    rest < p,
                    pow2(e as nat) > 0,
            ;
            assert(p * pow2(e as nat) == pow2(e as nat) * p) by (nonlinear_arith);
            lemma_fundamental_div_mod_converse(
                (m * pow2(e as nat)) as int,
                pow2(150) as int,
                k as int,
                (rest * pow2(e as nat)) as int,
            );
            assert(rest == 0 <==> rest * pow2(e as nat) == 0) by (nonlinear_arith)
                requires
                    pow2(e as nat) > 0,
                    rest >= 0,
            ;
        }
        if k > limit as u64 {
            None
        } else {
            Some((k as usize, rest == 0))
        }
    }
}

} // verus!
