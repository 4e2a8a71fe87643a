//! Parsing of metric lines: `name=value` tokens separated by `;`, with
//! values read as decimal numbers, exponent notation included, into
//! micro-units.

use vstd::prelude::*;
use vstd::slice::{slice_subrange, slice_to_vec};

verus! {

/// Why a metric token was rejected.
#[derive(Debug, PartialEq, Eq, Copy, Clone)]
pub enum ParseError {
    /// The token has no `=` separator.
    MissingDelimiter,
    /// The text after `=` is not a decimal number, or does not fit the
    /// fixed-point range.
    BadValue,
}

pub open spec fn is_digit(b: u8) -> bool {
    48 <= b && b <= 57
}

pub open spec fn all_digits(s: Seq<u8>) -> bool {
    forall|i: int| 0 <= i < s.len() ==> is_digit(#[trigger] s[i])
}

/// The decimal value of a digit string (most significant first).
pub open spec fn dec_val(s: Seq<u8>) -> int
    decreases s.len(),
{
    if s.len() == 0 {
        0
    } else {
        dec_val(s.drop_last()) * 10 + (s.last() - 48)
    }
}

proof fn lemma_dec_val_nonneg(s: Seq<u8>)
    requires
        all_digits(s),
    ensures
        dec_val(s) >= 0,
    decreases s.len(),
{
    if s.len() > 0 {
        assert(all_digits(s.drop_last()));
        lemma_dec_val_nonneg(s.drop_last());
    }
}

/// The index of the first occurrence of `b` in `s`, or `s.len()`.
pub open spec fn first_index(s: Seq<u8>, b: u8) -> int
    decreases s.len(),
{
    if s.len() == 0 {
        0
    } else if s[0] == b {
        0
    } else {
        1 + first_index(s.skip(1), b)
    }
}

proof fn lemma_first_index(s: Seq<u8>, b: u8)
    ensures
        0 <= first_index(s, b) <= s.len(),
        forall|i: int| 0 <= i < first_index(s, b) ==> s[i] != b,
        first_index(s, b) < s.len() ==> s[first_index(s, b)] == b,
    decreases s.len(),
{
    if s.len() == 0 {
    } else if s[0] == b {
    } else {
        lemma_first_index(s.skip(1), b);
        assert(forall|i: int| 0 <= i < s.skip(1).len() ==> s.skip(1)[i] == s[i + 1]);
        assert forall|i: int| 0 <= i < first_index(s, b) implies s[i] != b by {
            if i >= 1 {
                assert(s.skip(1)[i - 1] == s[i]);
            }
        }
        if first_index(s, b) < s.len() {
            assert(s.skip(1)[first_index(s, b) - 1] == s[first_index(s, b)]);
        }
    }
}

proof fn lemma_first_index_is(s: Seq<u8>, b: u8, k: int)
    requires
        0 <= k <= s.len(),
        forall|i: int| 0 <= i < k ==> s[i] != b,
        k < s.len() ==> s[k] == b,
    ensures
        first_index(s, b) == k,
{
    lemma_first_index(s, b);
    let f = first_index(s, b);
    if f < k {
        assert(s[f] == b);
        assert(s[f] != b);
    }
    if k < f {
        assert(s[k] != b);
    }
}

/// The index of the first exponent marker (`e` or `E`) in `s`, or `s.len()`.
pub open spec fn first_exp_index(s: Seq<u8>) -> int
    decreases s.len(),
{
    if s.len() == 0 {
        0
    } else if s[0] == 101 || s[0] == 69 {
        0
    } else {
        1 + first_exp_index(s.skip(1))
    }
}

proof fn lemma_first_exp_index(s: Seq<u8>)
    ensures
        0 <= first_exp_index(s) <= s.len(),
        forall|i: int| 0 <= i < first_exp_index(s) ==> s[i] != 101 && s[i] != 69,
        first_exp_index(s) < s.len() ==> s[first_exp_index(s)] == 101 || s[first_exp_index(s)]
            == 69,
    decreases s.len(),
{
    if s.len() == 0 {
    } else if s[0] == 101 || s[0] == 69 {
    } else {
        lemma_first_exp_index(s.skip(1));
        assert(forall|i: int| 0 <= i < s.skip(1).len() ==> s.skip(1)[i] == s[i + 1]);
        assert forall|i: int| 0 <= i < first_exp_index(s) implies s[i] != 101 && s[i] != 69 by {
            if i >= 1 {
                assert(s.skip(1)[i - 1] == s[i]);
            }
        }
        if first_exp_index(s) < s.len() {
            assert(s.skip(1)[first_exp_index(s) - 1] == s[first_exp_index(s)]);
        }
    }
}

proof fn lemma_first_exp_index_is(s: Seq<u8>, k: int)
    requires
        0 <= k <= s.len(),
        forall|i: int| 0 <= i < k ==> s[i] != 101 && s[i] != 69,
        k < s.len() ==> s[k] == 101 || s[k] == 69,
    ensures
        first_exp_index(s) == k,
{
    lemma_first_exp_index(s);
    let f = first_exp_index(s);
    if f < k {
        assert(s[f] == 101 || s[f] == 69);
        assert(s[f] != 101 && s[f] != 69);
    }
    if k < f {
        assert(s[k] != 101 && s[k] != 69);
    }
}

proof fn lemma_first_exp_index_gt(s: Seq<u8>, k: int)
    requires
        0 <= k < s.len(),
        forall|i: int| 0 <= i <= k ==> s[i] != 101 && s[i] != 69,
    ensures
        k < first_exp_index(s) <= s.len(),
{
    lemma_first_exp_index(s);
    let f = first_exp_index(s);
    if f <= k {
        assert(s[f] == 101 || s[f] == 69);
        assert(s[f] != 101 && s[f] != 69);
    }
}

/// The digits of `s` after an optional leading sign.
pub open spec fn number_body(s: Seq<u8>) -> Seq<u8> {
    if s.len() > 0 && (s[0] == 43 || s[0] == 45) {
        s.skip(1)
    } else {
        s
    }
}

pub open spec fn is_negative(s: Seq<u8>) -> bool {
    s.len() > 0 && s[0] == 45
}

/// The digits before the first `.` of the body.
pub open spec fn int_digits(body: Seq<u8>) -> Seq<u8> {
    body.take(first_index(body, 46))
}

/// The digits after the first `.` of the body, empty when there is none.
pub open spec fn frac_digits(body: Seq<u8>) -> Seq<u8> {
    let d = first_index(body, 46);
    if d == body.len() {
        Seq::empty()
    } else {
        body.skip(d + 1)
    }
}

/// The mantissa: the body before the first exponent marker.
pub open spec fn mantissa(body: Seq<u8>) -> Seq<u8> {
    body.take(first_exp_index(body))
}

pub open spec fn has_exp(body: Seq<u8>) -> bool {
    first_exp_index(body) < body.len()
}

/// The text after the exponent marker, empty when there is none.
pub open spec fn exp_text(body: Seq<u8>) -> Seq<u8> {
    let d = first_exp_index(body);
    if d == body.len() {
        Seq::empty()
    } else {
        body.skip(d + 1)
    }
}

/// The exponent digits, after the exponent's own optional sign.
pub open spec fn exp_digits(body: Seq<u8>) -> Seq<u8> {
    number_body(exp_text(body))
}

pub open spec fn exp_negative(body: Seq<u8>) -> bool {
    is_negative(exp_text(body))
}

/// The signed decimal exponent, zero when there is none.
pub open spec fn exp_value(body: Seq<u8>) -> int {
    if exp_negative(body) {
        -dec_val(exp_digits(body))
    } else {
        dec_val(exp_digits(body))
    }
}

/// A decimal number: an optional sign, then digits with at most one
/// decimal point and at least one digit, then an optional exponent part
/// (`e` or `E`, an optional sign, at least one digit). The infinity and
/// not-a-number spellings of a float are not values of this fixed-point
/// model and are rejected.
pub open spec fn valid_number(s: Seq<u8>) -> bool {
    let body = number_body(s);
    let m = mantissa(body);
    &&& all_digits(int_digits(m))
    &&& all_digits(frac_digits(m))
    &&& int_digits(m).len() + frac_digits(m).len() >= 1
    &&& (has_exp(body) ==> exp_digits(body).len() >= 1 && all_digits(exp_digits(body)))
}

pub open spec fn pow10(k: nat) -> int
    decreases k,
{
    if k == 0 {
        1
    } else {
        10 * pow10((k - 1) as nat)
    }
}

/// The mantissa's digits, integer part then fraction, as one digit string.
pub open spec fn mantissa_digits(m: Seq<u8>) -> Seq<u8> {
    int_digits(m) + frac_digits(m)
}

/// The magnitude of the number in micro-units: the mantissa digits read as
/// one integer, scaled by ten to the exponent, adjusted for the fraction
/// length and the six micro digits, the result truncated toward zero.
pub open spec fn magnitude_micro(s: Seq<u8>) -> int {
    let body = number_body(s);
    let m = mantissa(body);
    let k = exp_value(body) + 6 - frac_digits(m).len();
    if k >= 0 {
        dec_val(mantissa_digits(m)) * pow10(k as nat)
    } else {
        dec_val(mantissa_digits(m)) / pow10((-k) as nat)
    }
}

/// The signed value of the number in micro-units, truncated toward zero
/// below one micro-unit.
pub open spec fn number_value(s: Seq<u8>) -> int {
    if is_negative(s) {
        -magnitude_micro(s)
    } else {
        magnitude_micro(s)
    }
}

/// Whether the magnitude fits the fixed-point value range.
pub open spec fn number_fits(s: Seq<u8>) -> bool {
    magnitude_micro(s) <= 0x7fffffffffffffff
}

/// Parse a decimal number, with an optional exponent, into micro-units;
/// `None` exactly when the text is not a valid number or its magnitude
/// does not fit the fixed-point range (a magnitude beyond the range is an
/// error, never a saturated value).
#[verifier::rlimit(100)]
pub fn parse_value(tok: &[u8]) -> (r: Option<i64>)
    ensures
        match r {
            Some(v) => valid_number(tok@) && number_fits(tok@) && v as int == number_value(tok@),
            None => !(valid_number(tok@) && number_fits(tok@)),
        },
{
    let len = tok.len();
    let mut j: usize = 0;
    let mut neg = false;
    if len > 0 && (tok[0] == 43 || tok[0] == 45) {
        neg = tok[0] == 45;
        j = 1;
    }
    let ghost boff = j as int;
    let ghost body = number_body(tok@);
    proof {
        assert(body =~= tok@.skip(boff));
    }
    // scan the mantissa up to an exponent marker or the end, holding the
    // first nineteen digits exactly and counting the digits beyond them
    let mut a: u128 = 0;
    let mut dropped: usize = 0;
    let mut ndigits: usize = 0;
    let mut fcnt: usize = 0;
    let mut seen_dot = false;
    let ghost mut dotp: int = -1;
    let ghost mut digits: Seq<u8> = Seq::empty();
    while j < len && tok[j] != 101 && tok[j] != 69
        invariant
            0 <= boff <= j <= len,
            len == tok@.len(),
            body == tok@.skip(boff),
            body == number_body(tok@),
            forall|p: int| boff <= p < j ==> tok@[p] != 101 && tok@[p] != 69,
            !seen_dot ==> digits =~= tok@.subrange(boff, j as int) && fcnt == 0 && (forall|p: int|
                boff <= p < j ==> tok@[p] != 46),
            seen_dot ==> boff <= dotp < j && tok@[dotp] == 46 && digits =~= tok@.subrange(
                boff,
                dotp,
            ) + tok@.subrange(dotp + 1, j as int) && fcnt == j - dotp - 1 && (forall|p: int|
                boff <= p < j && p != dotp ==> tok@[p] != 46),
            all_digits(digits),
            ndigits == digits.len(),
            dropped <= ndigits,
            a as int == dec_val(digits.take(digits.len() - dropped)),
            a < 10_000_000_000_000_000_000u128,
            dropped > 0 ==> a >= 1_000_000_000_000_000_000u128,
        decreases len - j,
    {
        let b = tok[j];
        if b == 46 {
            if seen_dot {
                proof {
                    lemma_bad_mantissa_byte(tok@, boff, j as int, dotp, seen_dot);
                }
                return None;
            }
            seen_dot = true;
            proof {
                dotp = j as int;
                assert(digits =~= tok@.subrange(boff, dotp) + tok@.subrange(
                    dotp + 1,
                    j as int + 1,
                ));
            }
        } else if b < 48 || b > 57 {
            proof {
                lemma_bad_mantissa_byte(tok@, boff, j as int, dotp, seen_dot);
            }
            return None;
        } else {
            let ghost pre_digits = digits;
            proof {
                digits = digits.push(tok@[j as int]);
            }
            if a < 1_000_000_000_000_000_000u128 {
                a = a * 10 + ((b - 48) as u128);
                proof {
                    assert(digits.take(digits.len() - dropped).drop_last() =~= pre_digits.take(
                        pre_digits.len() - dropped,
                    ));
                    assert(digits.take(digits.len() - dropped).last() == tok@[j as int]);
                }
            } else {
                dropped = dropped + 1;
                proof {
                    assert(digits.take(digits.len() - dropped) =~= pre_digits.take(
                        pre_digits.len() - (dropped - 1),
                    ));
                }
            }
            proof {
                if seen_dot {
                    assert(digits =~= tok@.subrange(boff, dotp) + tok@.subrange(
                        dotp + 1,
                        j as int + 1,
                    ));
                } else {
                    assert(digits =~= tok@.subrange(boff, j as int + 1));
                }
            }
            if seen_dot {
                fcnt = fcnt + 1;
            }
            ndigits = ndigits + 1;
        }
        j = j + 1;
    }
    // tie the scan to the mantissa, its digit string and its dot split
    let ghost epos = j as int;
    let ghost m = mantissa(body);
    proof {
        assert forall|i: int| 0 <= i < epos - boff implies body[i] != 101 && body[i] != 69 by {
            assert(body[i] == tok@[boff + i]);
        }
        if j < len {
            assert(body[epos - boff] == tok@[epos]);
        }
        lemma_first_exp_index_is(body, epos - boff);
        assert(m =~= tok@.subrange(boff, epos));
        if seen_dot {
            assert forall|i: int| 0 <= i < dotp - boff implies m[i] != 46 by {
                assert(m[i] == tok@[boff + i]);
            }
            assert(m[dotp - boff] == tok@[dotp]);
            lemma_first_index_is(m, 46, dotp - boff);
            assert(int_digits(m) =~= tok@.subrange(boff, dotp));
            assert(frac_digits(m) =~= tok@.subrange(dotp + 1, epos));
        } else {
            assert forall|i: int| 0 <= i < m.len() implies m[i] != 46 by {
                assert(m[i] == tok@[boff + i]);
            }
            lemma_first_index_is(m, 46, m.len() as int);
            assert(int_digits(m) =~= tok@.subrange(boff, epos));
            assert(frac_digits(m) =~= Seq::<u8>::empty());
        }
        assert(digits =~= mantissa_digits(m));
        assert(fcnt == frac_digits(m).len());
        assert(all_digits(int_digits(m))) by {
            assert forall|i: int| 0 <= i < int_digits(m).len() implies is_digit(
                #[trigger] int_digits(m)[i],
            ) by {
                assert(int_digits(m)[i] == digits[i]);
            }
        }
        assert(all_digits(frac_digits(m))) by {
            assert forall|i: int| 0 <= i < frac_digits(m).len() implies is_digit(
                #[trigger] frac_digits(m)[i],
            ) by {
                assert(frac_digits(m)[i] == digits[int_digits(m).len() + i]);
            }
        }
    }
    if ndigits == 0 {
        proof {
            assert(int_digits(m).len() + frac_digits(m).len() == 0);
        }
        return None;
    }
    // scan the exponent, saturating far beyond any representable shift
    let mut x: u128 = 0;
    let mut xflag = false;
    let mut xneg = false;
    let ghost mut xoff: int = len as int;
    if j < len {
        j = j + 1;
        if j < len && (tok[j] == 43 || tok[j] == 45) {
            xneg = tok[j] == 45;
            j = j + 1;
        }
        proof {
            xoff = j as int;
            assert(exp_text(body) =~= tok@.subrange(epos + 1, len as int));
            assert(exp_digits(body) =~= tok@.subrange(xoff, len as int));
            assert(exp_negative(body) == xneg);
        }
        if j == len {
            proof {
                assert(exp_digits(body).len() == 0);
                assert(has_exp(body));
                assert(!valid_number(tok@));
            }
            return None;
        }
        while j < len
            invariant
                0 <= xoff <= j <= len,
                len == tok@.len(),
                body == number_body(tok@),
                exp_digits(body) =~= tok@.subrange(xoff, len as int),
                forall|p: int| xoff <= p < j ==> is_digit(tok@[p]),
                !xflag ==> x as int == dec_val(tok@.subrange(xoff, j as int)) && x
                    <= 10_000_000_000_000_000_000_000_000_000_000_000_000u128,
                xflag ==> dec_val(tok@.subrange(xoff, j as int))
                    > 10_000_000_000_000_000_000_000_000_000_000_000_000u128,
                has_exp(body),
            decreases len - j,
        {
            let b = tok[j];
            if b < 48 || b > 57 {
                proof {
                    assert(exp_digits(body)[j as int - xoff] == tok@.subrange(
                        xoff,
                        len as int,
                    )[j as int - xoff]);
                    assert(tok@.subrange(xoff, len as int)[j as int - xoff] == tok@[j as int]);
                    assert(!is_digit(exp_digits(body)[j as int - xoff]));
                }
                return None;
            }
            let ghost pre_seq = tok@.subrange(xoff, j as int);
            let ghost post_seq = tok@.subrange(xoff, j as int + 1);
            proof {
                assert(post_seq.drop_last() =~= pre_seq);
                assert(post_seq.last() == tok@[j as int]);
            }
            if !xflag {
                let nx = x * 10 + ((b - 48) as u128);
                if nx > 10_000_000_000_000_000_000_000_000_000_000_000_000u128 {
                    xflag = true;
                }
                x = nx;
            }
            j = j + 1;
        }
        proof {
            assert(exp_digits(body) =~= tok@.subrange(xoff, len as int));
            assert(all_digits(exp_digits(body)));
        }
    } else {
        proof {
            assert(exp_text(body) =~= Seq::<u8>::empty());
            assert(exp_digits(body) =~= Seq::<u8>::empty());
            assert(!exp_negative(body));
            assert(!has_exp(body));
        }
    }
    proof {
        assert(valid_number(tok@));
        assert(is_negative(tok@) == neg);
    }
    value_from_parts(a, dropped, fcnt, x, xflag, xneg, neg, Ghost(tok@))
}

/// Decide the parsed value from the scanned parts: the held digit prefix
/// `a`, the count of digits dropped past it, the fraction length, and the
/// (possibly saturated) exponent.
#[verifier::rlimit(100)]
fn value_from_parts(
    a: u128,
    dropped: usize,
    fcnt: usize,
    x: u128,
    xflag: bool,
    xneg: bool,
    neg: bool,
    Ghost(tokv): Ghost<Seq<u8>>,
) -> (r: Option<i64>)
    requires
        ({
            let body = number_body(tokv);
            let m = mantissa(body);
            let digs = mantissa_digits(m);
            &&& valid_number(tokv)
            &&& is_negative(tokv) == neg
            &&& fcnt == frac_digits(m).len()
            &&& digs.len() >= 1
            &&& digs.len() <= 0xffffffffffffffff
            &&& all_digits(digs)
            &&& dropped <= digs.len()
            &&& a as int == dec_val(digs.take(digs.len() - dropped))
            &&& a < 10_000_000_000_000_000_000u128
            &&& (dropped > 0 ==> a >= 1_000_000_000_000_000_000u128)
            &&& (!xflag ==> x as int == dec_val(exp_digits(body)) && x
                <= 10_000_000_000_000_000_000_000_000_000_000_000_000u128)
            &&& (xflag ==> dec_val(exp_digits(body))
                > 10_000_000_000_000_000_000_000_000_000_000_000_000)
            &&& xneg == exp_negative(body)
        }),
    ensures
        match r {
            Some(v) => valid_number(tokv) && number_fits(tokv) && v as int == number_value(tokv),
            None => !(valid_number(tokv) && number_fits(tokv)),
        },
{
    let ghost body = number_body(tokv);
    let ghost m = mantissa(body);
    let ghost ndigits = mantissa_digits(m).len();
    // decompose the digit string: its value is a * 10^dropped + b_rest
    let ghost digs = mantissa_digits(m);
    let ghost bigm = dec_val(digs);
    let ghost b_rest = dec_val(digs.skip(digs.len() - dropped));
    let ghost xv = exp_value(body);
    let ghost kk = xv + 6 - frac_digits(m).len();
    proof {
        assert(digs.take(digs.len() - dropped) + digs.skip(digs.len() - dropped) =~= digs);
        lemma_dec_val_concat(digs.take(digs.len() - dropped), digs.skip(digs.len() - dropped));
        assert(all_digits(digs.skip(digs.len() - dropped))) by {
            assert forall|i: int| 0 <= i < dropped implies is_digit(
                #[trigger] digs.skip(digs.len() - dropped)[i],
            ) by {
                assert(digs.skip(digs.len() - dropped)[i] == digs[digs.len() - dropped + i]);
            }
        }
        lemma_dec_val_lt_pow10(digs.skip(digs.len() - dropped));
        assert(digs.skip(digs.len() - dropped).len() == dropped);
        assert(bigm == a * pow10(dropped as nat) + b_rest);
        assert(0 <= b_rest < pow10(dropped as nat));
        assert(magnitude_micro(tokv) == (if kk >= 0 {
            bigm * pow10(kk as nat)
        } else {
            bigm / pow10((-kk) as nat)
        }));
    }
    if xflag {
        // the exponent exceeds every representable shift
        if xneg {
            proof {
                assert(kk < -(ndigits as int)) by {
                    assert(xv < -10_000_000_000_000_000_000_000_000_000_000_000_000);
                    assert(ndigits <= 0xffffffffffffffff);
                    assert(fcnt >= 0);
                }
                lemma_dec_val_nonneg(digs);
                lemma_dec_val_lt_pow10(digs);
                lemma_pow10_increases(digs.len(), (-kk) as nat);
                vstd::arithmetic::div_mod::lemma_basic_div(bigm, pow10((-kk) as nat));
                assert(magnitude_micro(tokv) == 0);
            }
            return Some(0);
        }
        if a == 0 {
            proof {
                lemma_zero_mantissa(bigm, a as int, dropped as nat, b_rest, kk);
            }
            return Some(0);
        }
        proof {
            assert(kk >= 20) by {
                assert(xv > 10_000_000_000_000_000_000_000_000_000_000_000_000);
                assert(fcnt <= 0xffffffffffffffff);
            }
            assert(bigm >= 1) by {
                lemma_pow10_bounds(dropped as nat);
                assert(a as int * pow10(dropped as nat) >= 1) by (nonlinear_arith)
                    requires
                        a >= 1,
                        pow10(dropped as nat) >= 1,
                ;
            }
            lemma_pow10_vals();
            lemma_pow10_increases(20, kk as nat);
            assert(bigm * pow10(kk as nat) > 0x7fffffffffffffff) by (nonlinear_arith)
                requires
                    bigm >= 1,
                    pow10(kk as nat) >= 100_000_000_000_000_000_000,
            ;
        }
        return None;
    }
    let xi: i128 = if xneg {
        -(x as i128)
    } else {
        x as i128
    };
    proof {
        assert(xi as int == xv);
    }
    let k128: i128 = xi + 6 - (fcnt as i128);
    let t: i128 = k128 + (dropped as i128);
    proof {
        assert(k128 as int == kk);
    }
    if a == 0 {
        proof {
            lemma_zero_mantissa(bigm, a as int, dropped as nat, b_rest, kk);
        }
        return Some(0);
    }
    if t >= 1 {
        proof {
            lemma_mag_shift_lower(a as int, dropped as nat, b_rest, t as int);
        }
        if t > 19 {
            proof {
                lemma_pow10_vals();
                lemma_pow10_increases(20, t as nat);
                assert(a as int * pow10(t as nat) > 0x7fffffffffffffff) by (nonlinear_arith)
                    requires
                        a >= 1,
                        pow10(t as nat) >= 100_000_000_000_000_000_000,
                ;
            }
            return None;
        }
        if dropped > 0 {
            proof {
                lemma_pow10_bounds(t as nat);
                assert(a as int * pow10(t as nat) > 0x7fffffffffffffff) by (nonlinear_arith)
                    requires
                        a >= 1_000_000_000_000_000_000,
                        pow10(t as nat) >= 10,
                ;
            }
            return None;
        }
        let p = pow10_u128(t as u64);
        proof {
            lemma_pow10_vals();
            lemma_pow10_increases(t as nat, 19);
            assert((a as int) * (p as int) < 100_000_000_000_000_000_000_000_000_000_000_000_000)
                by (nonlinear_arith)
                requires
                    0 <= (a as int) && (a as int) < 10_000_000_000_000_000_000,
                    0 <= (p as int) && (p as int) <= 10_000_000_000_000_000_000,
            ;
        }
        let v128 = a * p;
        proof {
            assert(bigm == a as int);
            assert(magnitude_micro(tokv) == v128 as int);
        }
        if v128 > 0x7fffffffffffffffu128 {
            return None;
        }
        let v = v128 as i64;
        if neg {
            return Some(-v);
        } else {
            return Some(v);
        }
    }
    if t == 0 {
        proof {
            lemma_mag_exact_div(a as int, dropped as nat, b_rest, 0);
            assert(pow10(0) == 1);
            assert(magnitude_micro(tokv) == a as int / 1int);
            vstd::arithmetic::div_mod::lemma_div_basics_1(a as int);
        }
        if a > 0x7fffffffffffffffu128 {
            return None;
        }
        let v = a as i64;
        if neg {
            return Some(-v);
        } else {
            return Some(v);
        }
    }
    // t < 0: the value is a shifted right by -t decimal places
    let q: i128 = -t;
    proof {
        lemma_mag_exact_div(a as int, dropped as nat, b_rest, q as nat);
        assert((-kk) as nat == dropped as nat + q as nat);
        assert(magnitude_micro(tokv) == (a as int) / pow10(q as nat));
    }
    if q >= 19 {
        proof {
            lemma_pow10_vals();
            lemma_pow10_increases(19, q as nat);
            vstd::arithmetic::div_mod::lemma_basic_div(a as int, pow10(q as nat));
            assert(magnitude_micro(tokv) == 0);
        }
        return Some(0);
    }
    let p = pow10_u128(q as u64);
    let v128 = a / p;
    proof {
        lemma_pow10_vals();
        assert(pow10(1) == 10);
        lemma_pow10_increases(1, q as nat);
        assert(p >= 10);
        assert((a as int) < (p as int) * 1_000_000_000_000_000_000) by (nonlinear_arith)
            requires
                (p as int) >= 10,
                (a as int) < 10_000_000_000_000_000_000,
        ;
        vstd::arithmetic::div_mod::lemma_multiply_divide_lt(
            a as int,
            p as int,
            1_000_000_000_000_000_000,
        );
        assert(v128 < 1_000_000_000_000_000_000);
        assert(magnitude_micro(tokv) == v128 as int);
    }
    let v = v128 as i64;
    if neg {
        Some(-v)
    } else {
        Some(v)
    }
}

/// A non-digit byte at `j` (or a second dot) falsifies the mantissa grammar.
proof fn lemma_bad_mantissa_byte(tokv: Seq<u8>, boff: int, j: int, dotp: int, seen_dot: bool)
    requires
        0 <= boff <= j < tokv.len(),
        number_body(tokv) == tokv.skip(boff),
        tokv[j] != 101 && tokv[j] != 69,
        !is_digit(tokv[j]),
        forall|p: int| boff <= p < j ==> tokv[p] != 101 && tokv[p] != 69,
        seen_dot ==> boff <= dotp < j && tokv[dotp] == 46 && (forall|p: int|
            boff <= p < j && p != dotp ==> tokv[p] != 46),
        !seen_dot ==> (forall|p: int| boff <= p < j ==> tokv[p] != 46) && tokv[j] != 46,
    ensures
        !valid_number(tokv),
{
    let body = number_body(tokv);
    assert forall|i: int| 0 <= i <= j - boff implies body[i] != 101 && body[i] != 69 by {
        assert(body[i] == tokv[boff + i]);
    }
    lemma_first_exp_index_gt(body, j - boff);
    let m = mantissa(body);
    assert(j - boff < m.len());
    assert(forall|i: int| 0 <= i < m.len() ==> m[i] == tokv[boff + i]);
    if seen_dot {
        assert forall|i: int| 0 <= i < dotp - boff implies m[i] != 46 by {
            assert(m[i] == tokv[boff + i]);
        }
        assert(m[dotp - boff] == 46);
        lemma_first_index_is(m, 46, dotp - boff);
        let fi = j - boff - (dotp - boff) - 1;
        assert(frac_digits(m)[fi] == m[dotp - boff + 1 + fi]);
        assert(frac_digits(m)[fi] == tokv[j]);
        assert(!is_digit(frac_digits(m)[fi]));
        assert(0 <= fi < frac_digits(m).len());
        assert(!all_digits(frac_digits(m)));
    } else {
        assert forall|i: int| 0 <= i <= j - boff implies m[i] != 46 by {
            assert(m[i] == tokv[boff + i]);
        }
        lemma_first_index_gt(m, 46, j - boff);
        assert(int_digits(m)[j - boff] == m[j - boff]);
        assert(m[j - boff] == tokv[j]);
        assert(!is_digit(int_digits(m)[j - boff]));
        assert(j - boff < int_digits(m).len());
        assert(!all_digits(int_digits(m)));
    }
}

/// Concatenated digit strings read as `high * 10^len(low) + low`.
proof fn lemma_dec_val_concat(hi: Seq<u8>, lo: Seq<u8>)
    ensures
        dec_val(hi + lo) == dec_val(hi) * pow10(lo.len()) + dec_val(lo),
    decreases lo.len(),
{
    if lo.len() == 0 {
        assert(hi + lo =~= hi);
        assert(pow10(0) == 1);
    } else {
        lemma_dec_val_concat(hi, lo.drop_last());
        assert((hi + lo).drop_last() =~= hi + lo.drop_last());
        assert((hi + lo).last() == lo.last());
        assert(pow10(lo.len()) == 10 * pow10((lo.len() - 1) as nat));
        assert(dec_val(hi) * pow10(lo.len()) == (dec_val(hi) * pow10((lo.len() - 1) as nat)) * 10)
            by (nonlinear_arith)
            requires
                pow10(lo.len()) == 10 * pow10((lo.len() - 1) as nat),
        ;
    }
}

/// Ten to a larger power is at least ten to a smaller one.
proof fn lemma_pow10_increases(a: nat, b: nat)
    requires
        a <= b,
    ensures
        pow10(a) <= pow10(b),
    decreases b,
{
    if a < b {
        lemma_pow10_increases(a, (b - 1) as nat);
        lemma_pow10_bounds((b - 1) as nat);
    }
}

/// The powers of ten the range checks lean on.
proof fn lemma_pow10_vals()
    ensures
        pow10(6) == 1_000_000,
        pow10(12) == 1_000_000_000_000,
        pow10(18) == 1_000_000_000_000_000_000,
        pow10(19) == 10_000_000_000_000_000_000,
        pow10(20) == 100_000_000_000_000_000_000,
        pow10(38) == 100_000_000_000_000_000_000_000_000_000_000_000_000,
{
    assert(pow10(6) == 1_000_000) by {
        assert(pow10(6) == 10 * pow10(5));
        assert(pow10(5) == 10 * pow10(4));
        assert(pow10(4) == 10 * pow10(3));
        assert(pow10(3) == 10 * pow10(2));
        assert(pow10(2) == 10 * pow10(1));
        assert(pow10(1) == 10 * pow10(0));
    }
    lemma_pow10_adds(6, 6);
    lemma_pow10_adds(12, 6);
    lemma_pow10_adds(18, 1);
    assert(pow10(1) == 10 * pow10(0));
    lemma_pow10_adds(19, 1);
    lemma_pow10_adds(19, 19);
}

/// A zero digit string gives a zero magnitude under any shift.
proof fn lemma_zero_mantissa(bigm: int, a: int, dropped: nat, b_rest: int, kk: int)
    requires
        a == 0,
        dropped == 0,
        0 <= b_rest < pow10(dropped),
        bigm == a * pow10(dropped) + b_rest,
    ensures
        kk >= 0 ==> bigm * pow10(kk as nat) == 0,
        kk < 0 ==> bigm / pow10((-kk) as nat) == 0,
{
    assert(pow10(0) == 1);
    assert(bigm == 0);
    if kk < 0 {
        lemma_pow10_bounds((-kk) as nat);
        vstd::arithmetic::div_mod::lemma_basic_div(0, pow10((-kk) as nat));
    }
}

/// A positive shift `t` puts the magnitude at or above `a * 10^t`.
proof fn lemma_mag_shift_lower(a: int, dropped: nat, b_rest: int, t: int)
    requires
        a >= 0,
        0 <= b_rest < pow10(dropped),
        t >= 1,
    ensures
        ({
            let bigm = a * pow10(dropped) + b_rest;
            let kk = t - dropped;
            (if kk >= 0 {
                bigm * pow10(kk as nat)
            } else {
                bigm / pow10((-kk) as nat)
            }) >= a * pow10(t as nat)
        }),
{
    let bigm = a * pow10(dropped) + b_rest;
    let kk = t - dropped;
    lemma_pow10_bounds(dropped);
    lemma_pow10_bounds(t as nat);
    if kk >= 0 {
        lemma_pow10_adds(dropped, kk as nat);
        lemma_pow10_bounds(kk as nat);
        assert(bigm * pow10(kk as nat) >= (a * pow10(dropped)) * pow10(kk as nat))
            by (nonlinear_arith)
            requires
                b_rest >= 0,
                pow10(kk as nat) >= 1,
                bigm == a * pow10(dropped) + b_rest,
        ;
        assert((a * pow10(dropped)) * pow10(kk as nat) == a * pow10(t as nat))
            by (nonlinear_arith)
            requires
                pow10(dropped) * pow10(kk as nat) == pow10(t as nat),
        ;
    } else {
        let q = (-kk) as nat;
        lemma_pow10_bounds(q);
        lemma_pow10_adds(t as nat, q);
        assert(a * pow10(dropped) == (a * pow10(t as nat)) * pow10(q)) by (nonlinear_arith)
            requires
                pow10(t as nat) * pow10(q) == pow10(dropped),
        ;
        vstd::arithmetic::div_mod::lemma_div_is_ordered(
            (a * pow10(t as nat)) * pow10(q),
            bigm,
            pow10(q) as int,
        );
        vstd::arithmetic::div_mod::lemma_div_multiples_vanish(a * pow10(t as nat), pow10(q) as int);
        assert((a * pow10(t as nat)) * pow10(q) == pow10(q) as int * (a * pow10(t as nat)))
            by (nonlinear_arith);
    }
}

/// Shifting the digit string right by `dropped + q` places reads off the
/// held prefix shifted right by `q`: the dropped digits never reach the
/// truncated result.
proof fn lemma_mag_exact_div(a: int, dropped: nat, b_rest: int, q: nat)
    requires
        a >= 0,
        0 <= b_rest < pow10(dropped),
    ensures
        (a * pow10(dropped) + b_rest) / pow10(dropped + q) == a / pow10(q),
{
    let bigm = a * pow10(dropped) + b_rest;
    lemma_pow10_bounds(dropped);
    lemma_pow10_bounds(q);
    vstd::arithmetic::div_mod::lemma_fundamental_div_mod_converse(
        bigm,
        pow10(dropped) as int,
        a,
        b_rest,
    );
    assert(bigm / pow10(dropped) as int == a);
    lemma_pow10_adds(dropped, q);
    vstd::arithmetic::div_mod::lemma_div_denominator(bigm, pow10(dropped) as int, pow10(q) as int);
    assert(bigm / (pow10(dropped) as int * pow10(q) as int) == a / pow10(q) as int);
}

/// Ten to the `k`, computed by repeated multiplication.
fn pow10_u128(k: u64) -> (p: u128)
    requires
        k <= 19,
    ensures
        p as int == pow10(k as nat),
        p >= 1,
{
    proof {
        lemma_pow10_vals();
    }
    let mut p: u128 = 1;
    let mut i: u64 = 0;
    assert(pow10(0) == 1);
    while i < k
        invariant
            i <= k <= 19,
            p as int == pow10(i as nat),
            p >= 1,
        decreases k - i,
    {
        proof {
            assert(pow10((i + 1) as nat) == 10 * pow10(i as nat));
            lemma_pow10_increases((i + 1) as nat, 19);
            lemma_pow10_vals();
        }
        p = p * 10;
        i = i + 1;
    }
    p
}

proof fn lemma_first_index_gt(s: Seq<u8>, b: u8, k: int)
    requires
        0 <= k < s.len(),
        forall|i: int| 0 <= i <= k ==> s[i] != b,
    ensures
        k < first_index(s, b) <= s.len(),
{
    lemma_first_index(s, b);
    let f = first_index(s, b);
    if f <= k {
        assert(s[f] == b);
        assert(s[f] != b);
    }
}

proof fn lemma_pow10_bounds(k: nat)
    ensures
        pow10(k) >= 1,
        k <= 6 ==> pow10(k) <= 1_000_000,
        k <= 5 ==> pow10(k) <= 100_000,
        k <= 4 ==> pow10(k) <= 10_000,
        k <= 3 ==> pow10(k) <= 1_000,
        k <= 2 ==> pow10(k) <= 100,
        k <= 1 ==> pow10(k) <= 10,
        k == 0 ==> pow10(k) == 1,
    decreases k,
{
    if k > 0 {
        lemma_pow10_bounds((k - 1) as nat);
    }
}

proof fn lemma_pow10_adds(a: nat, b: nat)
    ensures
        pow10(a) * pow10(b) == pow10(a + b),
    decreases a,
{
    if a == 0 {
    } else {
        lemma_pow10_adds((a - 1) as nat, b);
        assert(10 * pow10((a - 1) as nat) * pow10(b) == 10 * (pow10((a - 1) as nat) * pow10(b)))
            by (nonlinear_arith);
    }
}

proof fn lemma_dec_val_lt_pow10(s: Seq<u8>)
    requires
        all_digits(s),
    ensures
        0 <= dec_val(s) < pow10(s.len()),
    decreases s.len(),
{
    if s.len() == 0 {
    } else {
        assert(all_digits(s.drop_last()));
        lemma_dec_val_lt_pow10(s.drop_last());
        let p = pow10((s.len() - 1) as nat);
        assert(dec_val(s.drop_last()) * 10 <= (p - 1) * 10) by (nonlinear_arith)
            requires
                dec_val(s.drop_last()) <= p - 1,
        ;
    }
}

/// The name part of a metric token: the bytes before its first `=`.
pub open spec fn name_of(tok: Seq<u8>) -> Seq<u8> {
    tok.take(first_index(tok, 61))
}

/// The value text of a metric token: the bytes after its first `=`.
pub open spec fn value_text(tok: Seq<u8>) -> Seq<u8> {
    tok.skip(first_index(tok, 61) + 1)
}

pub open spec fn has_delimiter(tok: Seq<u8>) -> bool {
    first_index(tok, 61) < tok.len()
}

/// An accepted metric token: it has an `=`, and what follows is a
/// fixed-point decimal that fits.
pub open spec fn valid_metric(tok: Seq<u8>) -> bool {
    &&& has_delimiter(tok)
    &&& valid_number(value_text(tok))
    &&& number_fits(value_text(tok))
}

pub open spec fn metric_value(tok: Seq<u8>) -> int {
    number_value(value_text(tok))
}

/// Split one metric token at its first `=` and parse the value.
pub fn parse_input(metric: &[u8]) -> (r: Result<(Vec<u8>, i64), ParseError>)
    ensures
        match r {
            Ok(p) => valid_metric(metric@) && p.0@ == name_of(metric@) && p.1 as int
                == metric_value(metric@),
            Err(ParseError::MissingDelimiter) => !has_delimiter(metric@),
            Err(ParseError::BadValue) => has_delimiter(metric@) && !(valid_number(
                value_text(metric@),
            ) && number_fits(value_text(metric@))),
        },
{
    let len = metric.len();
    let mut e: usize = 0;
    while e < len && metric[e] != 61
        invariant
            e <= len,
            len == metric@.len(),
            forall|p: int| 0 <= p < e ==> metric@[p] != 61,
        decreases len - e,
    {
        e = e + 1;
    }
    proof {
        lemma_first_index_is(metric@, 61, e as int);
    }
    if e == len {
        return Err(ParseError::MissingDelimiter);
    }
    let name_slice = slice_subrange(metric, 0, e);
    let val_slice = slice_subrange(metric, e + 1, len);
    proof {
        assert(name_slice@ =~= name_of(metric@));
        assert(val_slice@ =~= value_text(metric@));
    }
    match parse_value(val_slice) {
        Some(v) => Ok((slice_to_vec(name_slice), v)),
        None => Err(ParseError::BadValue),
    }
}

/// The samples accepted from one line: for each `;`-separated token that
/// is a valid metric, its name and micro-unit value, in order; empty and
/// rejected tokens contribute nothing.
pub open spec fn line_samples(s: Seq<u8>) -> Seq<(Seq<u8>, int)>
    decreases s.len(),
    via line_samples_decreases
{
    let e = token_end(s);
    let tok = s.take(e);
    let head: Seq<(Seq<u8>, int)> = if valid_metric(tok) {
        seq![(name_of(tok), metric_value(tok))]
    } else {
        Seq::empty()
    };
    if e == s.len() {
        head
    } else {
        head + line_samples(s.skip(e + 1))
    }
}

/// The end of the first token: the first `;`, or the end of the line.
pub open spec fn token_end(s: Seq<u8>) -> int {
    first_index(s, 59)
}

#[via_fn]
proof fn line_samples_decreases(s: Seq<u8>) {
    lemma_first_index(s, 59);
}

/// The mathematical content of a list of parsed samples.
pub open spec fn samples_view(r: Seq<(Vec<u8>, i64)>) -> Seq<(Seq<u8>, int)> {
    r.map_values(|p: (Vec<u8>, i64)| (p.0@, p.1 as int))
}

fn parse_line_into(line: &[u8], start: usize, out: &mut Vec<(Vec<u8>, i64)>)
    requires
        start as int <= line@.len(),
    ensures
        samples_view(final(out)@) == samples_view(old(out)@) + line_samples(
            line@.skip(start as int),
        ),
    decreases line@.len() - start,
{
    let ghost entry_out = out@;
    let len = line.len();
    let mut e: usize = start;
    while e < len && line[e] != 59
        invariant
            start <= e <= len,
            len == line@.len(),
            forall|p: int| start <= p < e ==> line@[p] != 59,
        decreases len - e,
    {
        e = e + 1;
    }
    let ghost rest = line@.skip(start as int);
    proof {
        assert forall|i: int| 0 <= i < e - start implies rest[i] != 59 by {
            assert(rest[i] == line@[start + i]);
        }
        if e < len {
            assert(rest[e - start] == line@[e as int]);
        }
        lemma_first_index_is(rest, 59, e as int - start as int);
        assert(rest.take(e - start) =~= line@.subrange(start as int, e as int));
    }
    let tok = slice_subrange(line, start, e);
    let ghost head = if valid_metric(tok@) {
        seq![(name_of(tok@), metric_value(tok@))]
    } else {
        Seq::<(Seq<u8>, int)>::empty()
    };
    match parse_input(tok) {
        Ok(p) => {
            let (n, v) = p;
            let ghost nv = (n@, v as int);
            out.push((n, v));
            proof {
                assert(samples_view(out@) =~= samples_view(entry_out) + head);
            }
        },
        Err(_) => {
            proof {
                assert(samples_view(out@) =~= samples_view(entry_out) + head);
            }
        },
    }
    if e < len {
        let ghost mid_out = out@;
        parse_line_into(line, e + 1, out);
        proof {
            assert(rest.skip(e as int - start + 1) =~= line@.skip(e as int + 1));
            assert(line_samples(rest) == head + line_samples(rest.skip(e as int - start + 1)));
            assert(samples_view(out@) =~= samples_view(entry_out) + line_samples(rest));
        }
    } else {
        proof {
            assert(line_samples(rest) == head);
        }
    }
}

/// Parse one input line: split on `;`, parse each non-empty token as
/// `name=value`, and keep the accepted samples in order; a token without
/// `=` or with an unparsable value is skipped, never fatal.
pub fn parse_metric_line(line: &[u8]) -> (r: Vec<(Vec<u8>, i64)>)
    ensures
        samples_view(r@) == line_samples(line@),
{
    let mut out: Vec<(Vec<u8>, i64)> = Vec::new();
    proof {
        assert(line@.skip(0) =~= line@);
        assert(samples_view(Seq::<(Vec<u8>, i64)>::empty()) =~= Seq::<(Seq<u8>, int)>::empty());
    }
    parse_line_into(line, 0, &mut out);
    out
}

} // verus!
