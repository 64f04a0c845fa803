//! Numeric literals of the path mini-language.
//!
//! A numeric token is the maximal run of bytes from `0-9 . - e`.  A valid
//! token is `-? (digits .? digits? | . digits) (e -? digits)?`; its value is
//! the exact mathematical value `sign * digits * 10^(exp - fraction_digits)`,
//! brought to millionths of a unit, truncated toward zero, and clamped into
//! the coordinate range (`spec_scaled_value`).  The executable parser is
//! proved to return exactly that value for every token, however long.

use vstd::prelude::*;
use vstd::arithmetic::power::{
    lemma_pow_adds, lemma_pow_increases, lemma_pow_positive, pow,
};
use vstd::arithmetic::div_mod::{
    lemma_basic_div, lemma_div_is_ordered, lemma_div_multiples_vanish,
    lemma_fundamental_div_mod_converse,
};
use vstd::arithmetic::mul::{lemma_mul_inequality, lemma_mul_strict_inequality};
use vstd::slice::slice_subrange;
use vstd::slice::slice_to_vec;
use crate::geom::{MAX_COORD, clamp_coord};
use crate::prim::{
    PRes, ParseError, is_digit, is_num_char, lemma_skip_while_bounds, num_char_pred, ok_in_bounds,
    res_view, spec_is_digit, spec_skip_while,
};

verus! {

/// The decimal digit class.
pub open spec fn digit_pred() -> spec_fn(u8) -> bool {
    |c: u8| spec_is_digit(c)
}

/// Every byte of `t` is a decimal digit.
pub open spec fn all_digits(t: Seq<u8>) -> bool {
    forall|k: int| 0 <= k < t.len() ==> spec_is_digit(t[k])
}

/// The number a run of decimal digit bytes denotes.
pub open spec fn digits_val(t: Seq<u8>) -> int
    decreases t.len(),
{
    if t.len() == 0 {
        0
    } else {
        digits_val(t.drop_last()) * 10 + (t.last() - 48)
    }
}

pub proof fn lemma_digits_val_bounds(t: Seq<u8>)
    requires
        all_digits(t),
    ensures
        0 <= digits_val(t) < pow(10, t.len() as nat),
    decreases t.len(),
{
    reveal(pow);
    if t.len() == 0 {
    } else {
        assert(all_digits(t.drop_last()));
        lemma_digits_val_bounds(t.drop_last());
        assert(pow(10, t.len() as nat) == 10 * pow(10, (t.len() - 1) as nat));
        assert(spec_is_digit(t.last()));
    }
}

pub proof fn lemma_digits_val_append(a: Seq<u8>, b: Seq<u8>)
    ensures
        digits_val(a + b) == digits_val(a) * pow(10, b.len() as nat) + digits_val(b),
    decreases b.len(),
{
    reveal(pow);
    if b.len() == 0 {
        assert(a + b =~= a);
        assert(pow(10, 0) == 1);
        assert(digits_val(a) * 1 == digits_val(a));
    } else {
        let b1 = b.drop_last();
        lemma_digits_val_append(a, b1);
        assert((a + b).drop_last() =~= a + b1);
        assert((a + b).last() == b.last());
        assert(pow(10, b.len() as nat) == 10 * pow(10, b1.len() as nat));
        assert(digits_val(a + b) == digits_val(a + b1) * 10 + (b.last() - 48));
        assert((digits_val(a) * pow(10, b1.len() as nat) + digits_val(b1)) * 10 == digits_val(a)
            * (10 * pow(10, b1.len() as nat)) + digits_val(b1) * 10) by (nonlinear_arith);
    }
}

pub proof fn lemma_digits_val_all_zeros(t: Seq<u8>)
    requires
        forall|k: int| 0 <= k < t.len() ==> t[k] == 48,
    ensures
        digits_val(t) == 0,
    decreases t.len(),
{
    if t.len() > 0 {
        lemma_digits_val_all_zeros(t.drop_last());
    }
}

pub proof fn lemma_digits_val_skip_zeros(t: Seq<u8>, z: int)
    requires
        0 <= z <= t.len(),
        forall|k: int| 0 <= k < z ==> t[k] == 48,
    ensures
        digits_val(t) == digits_val(t.subrange(z, t.len() as int)),
{
    let a = t.subrange(0, z);
    let b = t.subrange(z, t.len() as int);
    assert(t =~= a + b);
    lemma_digits_val_append(a, b);
    lemma_digits_val_all_zeros(a);
    lemma_pow_positive(10, b.len() as nat);
}

pub proof fn lemma_digits_val_lower(t: Seq<u8>)
    requires
        all_digits(t),
        t.len() > 0,
        t[0] != 48,
    ensures
        digits_val(t) >= pow(10, (t.len() - 1) as nat),
{
    let a = t.subrange(0, 1);
    let b = t.subrange(1, t.len() as int);
    assert(t =~= a + b);
    lemma_digits_val_append(a, b);
    assert(a.drop_last() =~= Seq::<u8>::empty());
    assert(digits_val(Seq::<u8>::empty()) == 0);
    assert(digits_val(a) == (t[0] - 48));
    assert(digits_val(a) >= 1);
    assert(all_digits(b));
    lemma_digits_val_bounds(b);
    lemma_pow_positive(10, b.len() as nat);
    assert(digits_val(a) * pow(10, b.len() as nat) >= 1 * pow(10, b.len() as nat)) by {
        lemma_mul_inequality(1, digits_val(a), pow(10, b.len() as nat));
    }
}

/// Saturation bound for exponent digits: far beyond any index the input can
/// hold, so saturating there never changes the stored value.
pub open spec fn exp_cap() -> int {
    1000000000000000000000
}

/// Exponent digits folded with saturation at `exp_cap`.
pub open spec fn digits_val_cap(t: Seq<u8>) -> int
    decreases t.len(),
{
    if t.len() == 0 {
        0
    } else {
        let p = digits_val_cap(t.drop_last());
        if p * 10 + (t.last() - 48) > exp_cap() {
            exp_cap()
        } else {
            p * 10 + (t.last() - 48)
        }
    }
}

pub proof fn lemma_digits_val_cap(t: Seq<u8>)
    requires
        all_digits(t),
    ensures
        0 <= digits_val_cap(t) <= exp_cap(),
        digits_val(t) <= exp_cap() ==> digits_val_cap(t) == digits_val(t),
        digits_val(t) > exp_cap() ==> digits_val_cap(t) == exp_cap(),
    decreases t.len(),
{
    if t.len() == 0 {
    } else {
        let t1 = t.drop_last();
        assert(all_digits(t1));
        lemma_digits_val_cap(t1);
        lemma_digits_val_bounds(t1);
        lemma_digits_val_bounds(t);
        assert(digits_val(t) == digits_val(t1) * 10 + (t.last() - 48));
        assert(digits_val(t1) * 10 >= digits_val(t1)) by (nonlinear_arith)
            requires
                digits_val(t1) >= 0,
        ;
        if digits_val(t1) > exp_cap() {
            assert(digits_val_cap(t1) == exp_cap());
            assert(exp_cap() * 10 + (t.last() - 48) > exp_cap());
        }
    }
}

/// The stored coordinate of a decimal literal: its mathematical value
/// `sign * digits * 10^k0`, brought to millionths of a unit (so times
/// `10^(k0 + 6)`), truncated toward zero, and clamped into the coordinate
/// range.
pub open spec fn spec_scaled_value(neg: bool, digits: Seq<u8>, k0: int) -> i64 {
    let k = k0 + 6;
    let d = digits_val(digits);
    let abs = if k >= 0 {
        d * pow(10, k as nat)
    } else {
        d / pow(10, (-k) as nat)
    };
    clamp_coord(if neg {
        -abs
    } else {
        abs
    }) as i64
}

/// Concrete powers of ten the proofs compare against.
proof fn lemma_pow10_concrete()
    ensures
        pow(10, 6) == 1000000,
        pow(10, 15) == MAX_COORD as int,
        pow(10, 16) == 10000000000000000,
        pow(10, 17) == 100000000000000000,
        pow(10, 20) == 100000000000000000000,
{
    reveal_with_fuel(pow, 21);
}

/// A literal whose digits are all zero stores zero, whatever the scale.
proof fn lemma_scaled_zero(neg: bool, digits: Seq<u8>, k0: int)
    requires
        digits_val(digits) == 0,
    ensures
        spec_scaled_value(neg, digits, k0) == 0,
{
    let k = k0 + 6;
    if k >= 0 {
        assert(0 * pow(10, k as nat) == 0) by (nonlinear_arith);
    } else {
        lemma_pow_positive(10, (-k) as nat);
        lemma_basic_div(0, pow(10, (-k) as nat));
    }
}

/// With `ns` significant digits and scale `k = k0 + 6`, `ns + k > 16` pushes
/// the magnitude past the coordinate range, so the stored value clamps.
proof fn lemma_scaled_big(neg: bool, digits: Seq<u8>, k0: int, z: int)
    requires
        all_digits(digits),
        0 <= z < digits.len(),
        forall|j: int| 0 <= j < z ==> digits[j] == 48,
        digits[z] != 48,
        (digits.len() - z) + (k0 + 6) > 16,
    ensures
        spec_scaled_value(neg, digits, k0) == if neg {
            (-MAX_COORD) as i64
        } else {
            MAX_COORD
        },
{
    let k = k0 + 6;
    let n = digits.len() as int;
    let ns = n - z;
    let sig = digits.subrange(z, n);
    lemma_digits_val_skip_zeros(digits, z);
    lemma_digits_val_lower(sig);
    lemma_pow10_concrete();
    let d = digits_val(digits);
    if k >= 0 {
        lemma_pow_positive(10, k as nat);
        assert(pow(10, (ns - 1) as nat) * pow(10, k as nat) <= d * pow(10, k as nat)) by {
            lemma_mul_inequality(pow(10, (ns - 1) as nat), d, pow(10, k as nat));
        }
        lemma_pow_adds(10, (ns - 1) as nat, k as nat);
        lemma_pow_increases(10, 16, (ns - 1 + k) as nat);
        assert(d * pow(10, k as nat) > MAX_COORD as int);
    } else {
        let m = (-k) as nat;
        assert(ns - 1 - m >= 16);
        lemma_pow_adds(10, (ns - 1 - m) as nat, m);
        lemma_pow_positive(10, m);
        lemma_pow_positive(10, (ns - 1 - m) as nat);
        assert(d >= pow(10, (ns - 1 - m) as nat) * pow(10, m));
        assert((pow(10, m) * pow(10, (ns - 1 - m) as nat)) / pow(10, m) == pow(
            10,
            (ns - 1 - m) as nat,
        )) by {
            lemma_div_multiples_vanish(pow(10, (ns - 1 - m) as nat), pow(10, m));
        }
        assert(pow(10, (ns - 1 - m) as nat) * pow(10, m) == pow(10, m) * pow(
            10,
            (ns - 1 - m) as nat,
        )) by (nonlinear_arith);
        lemma_div_is_ordered(pow(10, (ns - 1 - m) as nat) * pow(10, m), d, pow(10, m));
        lemma_pow_increases(10, 16, (ns - 1 - m) as nat);
        assert(d / pow(10, m) > MAX_COORD as int);
    }
}

/// With `ns + k <= 0` the magnitude truncates to zero.
proof fn lemma_scaled_tiny(neg: bool, digits: Seq<u8>, k0: int, ns: int)
    requires
        all_digits(digits),
        0 <= ns,
        digits_val(digits) < pow(10, ns as nat),
        ns + (k0 + 6) <= 0,
    ensures
        spec_scaled_value(neg, digits, k0) == 0,
{
    let k = k0 + 6;
    lemma_digits_val_bounds(digits);
    if k >= 0 {
        assert(ns == 0 && k == 0);
        reveal(pow);
        assert(digits_val(digits) == 0);
        assert(digits_val(digits) * pow(10, 0) == 0);
    } else {
        let m = (-k) as nat;
        assert(ns <= m);
        lemma_pow_increases(10, ns as nat, m);
        lemma_pow_positive(10, m);
        lemma_basic_div(digits_val(digits), pow(10, m));
    }
}

/// `10^e`, executably.
fn pow10_i64(e: u32) -> (r: i64)
    requires
        e <= 17,
    ensures
        r as int == pow(10, e as nat),
        r >= 1,
{
    proof {
        lemma_pow10_concrete();
    }
    let mut r: i64 = 1;
    let mut c: u32 = 0;
    proof {
        reveal(pow);
    }
    while c < e
        invariant
            c <= e <= 17,
            r as int == pow(10, c as nat),
            1 <= r as int <= pow(10, 17),
        decreases e - c,
    {
        proof {
            reveal(pow);
            lemma_pow_increases(10, c as nat, 16);
            lemma_pow10_concrete();
            assert(pow(10, (c + 1) as nat) == 10 * pow(10, c as nat));
            lemma_pow_increases(10, (c + 1) as nat, 17);
        }
        r = r * 10;
        c = c + 1;
    }
    r
}

/// Compute the stored value from a literal's parts: sign, digit string
/// (integer and fraction digits together), exponent sign and digits, and the
/// number of fraction digits.
fn scaled_from_parts(neg: bool, digits: &Vec<u8>, eneg: bool, edig: &Vec<u8>, frac_len: usize) -> (v:
    i64)
    requires
        all_digits(digits@),
        all_digits(edig@),
        frac_len <= digits@.len(),
    ensures
        v == spec_scaled_value(
            neg,
            digits@,
            (if eneg {
                -digits_val(edig@)
            } else {
                digits_val(edig@)
            }) - frac_len as int,
        ),
{
    proof {
        lemma_pow10_concrete();
        lemma_digits_val_cap(edig@);
        lemma_digits_val_bounds(digits@);
    }
    let ghost e_exact: int = digits_val(edig@);
    let ghost k0: int = (if eneg {
        -e_exact
    } else {
        e_exact
    }) - frac_len as int;
    let ghost k_exact: int = k0 + 6;

    // Exponent digits, folded with saturation far beyond any useful value.
    let mut e_acc: i128 = 0;
    let mut idx: usize = 0;
    while idx < edig.len()
        invariant
            idx <= edig@.len(),
            all_digits(edig@),
            e_acc as int == digits_val_cap(edig@.subrange(0, idx as int)),
            0 <= e_acc as int <= exp_cap(),
        decreases edig@.len() - idx,
    {
        let d = edig[idx];
        let ghost pre = edig@.subrange(0, idx as int);
        let next: i128 = e_acc * 10 + (d as i128 - 48);
        if next > 1000000000000000000000i128 {
            e_acc = 1000000000000000000000i128;
        } else {
            e_acc = next;
        }
        proof {
            let cur = edig@.subrange(0, idx + 1 as int);
            assert(cur.drop_last() =~= pre);
            assert(cur.last() == edig@[idx as int]);
        }
        idx = idx + 1;
    }
    proof {
        assert(edig@.subrange(0, edig@.len() as int) =~= edig@);
    }

    // First significant digit.
    let mut z: usize = 0;
    while z < digits.len() && digits[z] == 48
        invariant
            z <= digits@.len(),
            forall|j: int| 0 <= j < z ==> digits@[j] == 48,
        decreases digits@.len() - z,
    {
        z = z + 1;
    }
    let n_sig: usize = digits.len() - z;

    if n_sig == 0 {
        proof {
            lemma_digits_val_all_zeros(digits@);
            lemma_scaled_zero(neg, digits@, k0);
        }
        return 0;
    }

    let kc: i128 = (if eneg {
        -e_acc
    } else {
        e_acc
    }) - frac_len as i128 + 6;
    let ghost sig = digits@.subrange(z as int, digits@.len() as int);
    proof {
        assert((usize::MAX as int) < pow(10, 20));
        lemma_digits_val_skip_zeros(digits@, z as int);
        assert(all_digits(sig));
        lemma_digits_val_bounds(sig);
        if e_exact <= exp_cap() {
            assert(e_acc as int == e_exact);
            assert(kc as int == k_exact);
        } else {
            assert(e_acc as int == exp_cap());
        }
    }

    if n_sig as i128 + kc > 16 {
        proof {
            if e_exact > exp_cap() {
                assert(!eneg);
                assert(k_exact >= exp_cap() - frac_len as int + 6);
            }
            assert(n_sig as int + k_exact > 16);
            lemma_scaled_big(neg, digits@, k0, z as int);
        }
        return if neg {
            -MAX_COORD
        } else {
            MAX_COORD
        };
    }

    if n_sig as i128 + kc <= 0 {
        proof {
            if e_exact > exp_cap() {
                assert(eneg);
                assert(k_exact <= kc as int);
            }
            assert(n_sig as int + k_exact <= 0);
            lemma_scaled_tiny(neg, digits@, k0, n_sig as int);
        }
        return 0;
    }

    // From here the saturation cannot have been reached, so `kc` is exact.
    proof {
        if e_exact > exp_cap() {
            if eneg {
                assert(n_sig as i128 + kc <= 0);
            } else {
                assert(n_sig as i128 + kc > 16);
            }
            assert(false);
        }
        assert(kc as int == k_exact);
        assert(1 <= n_sig as int + k_exact <= 16);
    }

    let take: usize = if kc >= 0 {
        n_sig
    } else {
        proof {
            assert(((-kc) as int) < n_sig as int);
        }
        n_sig - ((-kc) as usize)
    };
    proof {
        assert(take <= 16);
        assert(z + take <= digits@.len());
    }

    // The leading `take` significant digits.
    let mut h: i64 = 0;
    let mut c: usize = 0;
    proof {
        reveal(pow);
        assert(digits@.subrange(z as int, z as int) =~= Seq::<u8>::empty());
        assert(digits_val(Seq::<u8>::empty()) == 0);
        assert(pow(10, 0) == 1);
    }
    while c < take
        invariant
            c <= take <= 16,
            z + take <= digits@.len(),
            digits@.len() <= usize::MAX,
            all_digits(digits@),
            h as int == digits_val(digits@.subrange(z as int, z + c as int)),
            0 <= h as int && (h as int) < pow(10, c as nat),
        decreases take - c,
    {
        let d = digits[z + c];
        proof {
            lemma_pow_increases(10, c as nat, 16);
            lemma_pow10_concrete();
            reveal(pow);
            let cur = digits@.subrange(z as int, z + (c + 1) as int);
            assert(cur.drop_last() =~= digits@.subrange(z as int, z + c as int));
            assert(cur.last() == digits@[z + c as int]);
            assert(pow(10, (c + 1) as nat) == 10 * pow(10, c as nat));
        }
        h = h * 10 + (d as i64 - 48);
        c = c + 1;
    }

    let ghost win = digits@.subrange(z as int, z + take as int);
    let v_abs: i64;
    if kc >= 0 {
        let p10 = pow10_i64(kc as u32);
        proof {
            assert(win =~= sig);
            assert(h as int * (p10 as int) < pow(10, take as nat) * (p10 as int)) by {
                lemma_mul_strict_inequality(h as int, pow(10, take as nat), p10 as int);
            }
            lemma_pow_adds(10, take as nat, (kc as int) as nat);
            lemma_pow_increases(10, (take as int + kc as int) as nat, 16);
            assert(h as int * (p10 as int) >= 0) by (nonlinear_arith)
                requires
                    h as int >= 0 && p10 as int >= 1,
            ;
        }
        v_abs = h * p10;
        proof {
            assert(v_abs as int == digits_val(digits@) * pow(10, k_exact as nat)) by {
                assert(h as int == digits_val(sig) == digits_val(digits@));
            }
        }
    } else {
        v_abs = h;
        proof {
            let m = (-k_exact) as nat;
            let tail = sig.subrange(take as int, sig.len() as int);
            assert(win =~= sig.subrange(0, take as int));
            assert(sig =~= win + tail);
            lemma_digits_val_append(win, tail);
            assert(all_digits(tail));
            lemma_digits_val_bounds(tail);
            assert(tail.len() == m);
            lemma_pow_positive(10, m);
            lemma_fundamental_div_mod_converse(
                digits_val(sig),
                pow(10, m),
                digits_val(win),
                digits_val(tail),
            );
            assert(digits_val(digits@) / pow(10, m) == h as int);
        }
    }
    proof {
        let abs = if k_exact >= 0 {
            digits_val(digits@) * pow(10, k_exact as nat)
        } else {
            digits_val(digits@) / pow(10, (-k_exact) as nat)
        };
        assert(abs == v_abs as int);
        assert(v_abs >= 0);
    }
    let clamped: i64 = if v_abs > MAX_COORD {
        MAX_COORD
    } else {
        v_abs
    };
    if neg {
        -clamped
    } else {
        clamped
    }
}

/// Skip decimal digits.
fn skip_digits(t: &Vec<u8>, p: usize) -> (j: usize)
    requires
        p <= t@.len(),
    ensures
        j as int == spec_skip_while(t@, p as int, digit_pred()),
        p <= j <= t@.len(),
        forall|k: int| p <= k < j ==> spec_is_digit(t@[k]),
{
    let mut j: usize = p;
    while j < t.len() && is_digit(t[j])
        invariant
            p <= j <= t@.len(),
            spec_skip_while(t@, p as int, digit_pred()) == spec_skip_while(
                t@,
                j as int,
                digit_pred(),
            ),
        decreases t@.len() - j,
    {
        proof {
            assert(digit_pred()(t@[j as int]));
            assert(spec_skip_while(t@, j as int, digit_pred()) == spec_skip_while(
                t@,
                j + 1 as int,
                digit_pred(),
            ));
        }
        j = j + 1;
    }
    proof {
        if j < t@.len() {
            assert(!digit_pred()(t@[j as int]));
        }
        assert(spec_skip_while(t@, j as int, digit_pred()) == j);
        lemma_skip_while_bounds(t@, p as int, digit_pred());
        assert forall|k: int| p <= k < j implies spec_is_digit(t@[k]) by {
            assert(digit_pred()(t@[k]));
        }
    }
    j
}

/// The value a numeric token stores, when the token is a valid literal:
/// `-? (digits .? digits? | . digits) (e -? digits)?`, at least one mantissa
/// digit, evaluated by `spec_scaled_value`.
pub open spec fn spec_lit_value(t: Seq<u8>) -> Option<i64> {
    let neg = t.len() > 0 && t[0] == 45;
    let p = if neg {
        1int
    } else {
        0int
    };
    let d1 = spec_skip_while(t, p, digit_pred());
    let has_frac = d1 < t.len() && t[d1] == 46;
    let fs = if has_frac {
        d1 + 1
    } else {
        d1
    };
    let d2 = if has_frac {
        spec_skip_while(t, d1 + 1, digit_pred())
    } else {
        d1
    };
    if (d1 - p) + (d2 - fs) == 0 {
        None
    } else if d2 == t.len() {
        Some(spec_scaled_value(neg, t.subrange(p, d1) + t.subrange(fs, d2), 0 - (d2 - fs)))
    } else if t[d2] == 101 {
        let p3 = d2 + 1;
        let eneg = p3 < t.len() && t[p3] == 45;
        let p4 = if eneg {
            p3 + 1
        } else {
            p3
        };
        let d3 = spec_skip_while(t, p4, digit_pred());
        if d3 == t.len() && d3 > p4 {
            Some(
                spec_scaled_value(
                    neg,
                    t.subrange(p, d1) + t.subrange(fs, d2),
                    (if eneg {
                        -digits_val(t.subrange(p4, d3))
                    } else {
                        digits_val(t.subrange(p4, d3))
                    }) - (d2 - fs),
                ),
            )
        } else {
            None
        }
    } else {
        None
    }
}

/// Evaluate a numeric token.
fn lit_value(t: &Vec<u8>) -> (r: Option<i64>)
    ensures
        r == spec_lit_value(t@),
{
    let n = t.len();
    let neg = n > 0 && t[0] == 45;
    let p: usize = if neg {
        1
    } else {
        0
    };
    let d1 = skip_digits(t, p);
    let has_frac = d1 < n && t[d1] == 46;
    let fs: usize = if has_frac {
        d1 + 1
    } else {
        d1
    };
    let d2: usize = if has_frac {
        skip_digits(t, d1 + 1)
    } else {
        d1
    };
    if (d1 - p) + (d2 - fs) == 0 {
        return None;
    }
    let ts = t.as_slice();
    let mut digits = slice_to_vec(slice_subrange(ts, p, d1));
    let mut frac_v = slice_to_vec(slice_subrange(ts, fs, d2));
    let frac_len = frac_v.len();
    digits.append(&mut frac_v);
    proof {
        assert(digits@ =~= t@.subrange(p as int, d1 as int) + t@.subrange(fs as int, d2 as int));
        assert(all_digits(digits@));
        assert(frac_len <= digits@.len());
    }
    if d2 == n {
        let empty_e: Vec<u8> = Vec::new();
        proof {
            assert(digits_val(empty_e@) == 0);
        }
        Some(scaled_from_parts(neg, &digits, false, &empty_e, frac_len))
    } else if t[d2] == 101 {
        let p3 = d2 + 1;
        let eneg = p3 < n && t[p3] == 45;
        let p4: usize = if eneg {
            p3 + 1
        } else {
            p3
        };
        let d3 = skip_digits(t, p4);
        if d3 == n && d3 > p4 {
            let edig = slice_to_vec(slice_subrange(ts, p4, d3));
            proof {
                assert(all_digits(edig@));
            }
            Some(scaled_from_parts(neg, &digits, eneg, &edig, frac_len))
        } else {
            None
        }
    } else {
        None
    }
}

/// A numeric token: the maximal run of bytes from `0-9 . - e` starting at
/// `i`, which must be nonempty and a valid literal; its stored value and the
/// position after it.
pub open spec fn spec_p_number(s: Seq<u8>, i: int) -> PRes<i64> {
    if i >= s.len() {
        PRes::Incomplete
    } else {
        let j = spec_skip_while(s, i, num_char_pred());
        if j == i {
            PRes::Invalid(i)
        } else {
            match spec_lit_value(s.subrange(i, j)) {
                Some(v) => PRes::Val(v, j),
                None => PRes::Invalid(i),
            }
        }
    }
}

/// Parse a numeric token into a stored coordinate value.
pub fn number(s: &[u8], i: usize) -> (r: Result<(i64, usize), ParseError>)
    requires
        i <= s@.len(),
    ensures
        res_view(r) == spec_p_number(s@, i as int),
        ok_in_bounds(r, i as int, s@.len() as int),
{
    if i >= s.len() {
        return Err(ParseError::Incomplete);
    }
    let mut j: usize = i;
    while j < s.len() && is_num_char(s[j])
        invariant
            i <= j <= s@.len(),
            spec_skip_while(s@, i as int, num_char_pred()) == spec_skip_while(
                s@,
                j as int,
                num_char_pred(),
            ),
        decreases s@.len() - j,
    {
        proof {
            assert(num_char_pred()(s@[j as int]));
            assert(spec_skip_while(s@, j as int, num_char_pred()) == spec_skip_while(
                s@,
                j + 1 as int,
                num_char_pred(),
            ));
        }
        j = j + 1;
    }
    proof {
        if j < s@.len() {
            assert(!num_char_pred()(s@[j as int]));
        }
        assert(spec_skip_while(s@, j as int, num_char_pred()) == j);
    }
    if j == i {
        return Err(ParseError::Invalid(i));
    }
    let tok = slice_to_vec(slice_subrange(s, i, j));
    match lit_value(&tok) {
        Some(v) => Ok((v, j)),
        None => Err(ParseError::Invalid(i)),
    }
}

} // verus!
