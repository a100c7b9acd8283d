//! The numeric field grammar.
//!
//! A field is a decimal literal: an optional minus sign, one or more integer
//! digits, and optionally a decimal point followed by one to six fraction
//! digits. Its value is held as a fixed-point `i64` counting units of
//! `1 / SCALE`, so every comparison the tree trainer makes is exact integer
//! arithmetic. A field that does not fit this grammar, or whose magnitude
//! does not fit an `i64`, has no value.

use vstd::prelude::*;
use vstd::string::StrSliceExecFns;

verus! {

/// Fixed-point units per 1.0: six decimal digits of fraction are kept.
pub const SCALE: i64 = 1000000;

/// Whether `c` is a decimal digit.
pub open spec fn is_digit(c: char) -> bool {
    ||| c == '0'
    ||| c == '1'
    ||| c == '2'
    ||| c == '3'
    ||| c == '4'
    ||| c == '5'
    ||| c == '6'
    ||| c == '7'
    ||| c == '8'
    ||| c == '9'
}

/// The numeric value of a decimal digit.
pub open spec fn digit_val(c: char) -> int {
    if c == '0' {
        0
    } else if c == '1' {
        1
    } else if c == '2' {
        2
    } else if c == '3' {
        3
    } else if c == '4' {
        4
    } else if c == '5' {
        5
    } else if c == '6' {
        6
    } else if c == '7' {
        7
    } else if c == '8' {
        8
    } else {
        9
    }
}

/// Whether every character of `s` is a decimal digit.
pub open spec fn all_digits(s: Seq<char>) -> bool {
    forall|i: int| 0 <= i < s.len() ==> is_digit(#[trigger] s[i])
}

/// The value of a digit string, most significant digit first.
pub open spec fn digits_val(s: Seq<char>) -> int
    decreases s.len(),
{
    if s.len() == 0 {
        0
    } else {
        digits_val(s.drop_last()) * 10 + digit_val(s.last())
    }
}

/// Ten to the `k`.
pub open spec fn pow10(k: nat) -> int
    decreases k,
{
    if k == 0 {
        1
    } else {
        10 * pow10((k - 1) as nat)
    }
}

/// Whether the field starts with a minus sign.
pub open spec fn has_sign(s: Seq<char>) -> bool {
    s.len() > 0 && s[0] == '-'
}

/// The field with its sign, if any, removed.
pub open spec fn body_of(s: Seq<char>) -> Seq<char> {
    if has_sign(s) {
        s.skip(1)
    } else {
        s
    }
}

/// `p` marks the decimal point of `t`: at least one digit on its left, one
/// to six digits and nothing else on its right.
pub open spec fn dot_split_at(t: Seq<char>, p: int) -> bool {
    &&& 1 <= p < t.len()
    &&& t[p] == '.'
    &&& all_digits(t.take(p))
    &&& all_digits(t.skip(p + 1))
    &&& 1 <= t.len() - p - 1 <= 6
}

/// Applies a sign to a magnitude and checks that it fits an `i64`.
pub open spec fn signed_fixed(neg: bool, m: int) -> Option<i64> {
    if m > i64::MAX {
        None
    } else if neg {
        Some((-m) as i64)
    } else {
        Some(m as i64)
    }
}

/// The fixed-point value of a whole field: `None` when the field is not a
/// decimal literal of the grammar above or its magnitude does not fit.
pub open spec fn parse_real(s: Seq<char>) -> Option<i64> {
    let t = body_of(s);
    if t.len() >= 1 && all_digits(t) {
        signed_fixed(has_sign(s), digits_val(t) * SCALE)
    } else if exists|p: int| dot_split_at(t, p) {
        let p = choose|p: int| dot_split_at(t, p);
        let frac = t.skip(p + 1);
        signed_fixed(
            has_sign(s),
            digits_val(t.take(p)) * SCALE + digits_val(frac) * pow10((6 - frac.len()) as nat),
        )
    } else {
        None
    }
}

/// Class id of a label field: its value truncated toward zero to a whole
/// number of units, negative values saturating to class 0. Fractional label
/// values are a caller error; they are truncated, not rejected.
pub open spec fn parse_class(s: Seq<char>) -> Option<u64> {
    match parse_real(s) {
        None => None,
        Some(v) => Some(if v <= 0 { 0u64 } else { ((v as int) / (SCALE as int)) as u64 }),
    }
}

pub proof fn lemma_digits_val_nonneg(s: Seq<char>)
    requires
        all_digits(s),
    ensures
        digits_val(s) >= 0,
    decreases s.len(),
{
    if s.len() > 0 {
        assert(all_digits(s.drop_last()));
        lemma_digits_val_nonneg(s.drop_last());
        assert(digits_val(s.drop_last()) * 10 >= 0) by (nonlinear_arith)
            requires
                digits_val(s.drop_last()) >= 0,
        ;
    }
}

/// A digit string is worth at least any of its prefixes.
pub proof fn lemma_digits_val_prefix(s: Seq<char>, k: int)
    requires
        all_digits(s),
        0 <= k <= s.len(),
    ensures
        digits_val(s.take(k)) <= digits_val(s),
    decreases s.len() - k,
{
    if k == s.len() {
        assert(s.take(k) =~= s);
    } else {
        let a = s.take(k);
        let b = s.take(k + 1);
        assert(b.drop_last() =~= a);
        assert(all_digits(a));
        lemma_digits_val_nonneg(a);
        assert(digits_val(a) * 10 >= digits_val(a)) by (nonlinear_arith)
            requires
                digits_val(a) >= 0,
        ;
        assert(digits_val(b) >= digits_val(a));
        lemma_digits_val_prefix(s, k + 1);
    }
}

/// A string of `k` digits is worth less than ten to the `k`.
pub proof fn lemma_digits_val_bound(s: Seq<char>)
    requires
        all_digits(s),
    ensures
        digits_val(s) < pow10(s.len()),
    decreases s.len(),
{
    if s.len() == 0 {
    } else {
        let d = s.drop_last();
        assert(all_digits(d));
        lemma_digits_val_bound(d);
        assert(digit_val(s.last()) <= 9);
        assert(digits_val(d) * 10 + 9 < pow10(d.len()) * 10) by (nonlinear_arith)
            requires
                digits_val(d) < pow10(d.len()),
        ;
        assert(pow10(s.len()) == 10 * pow10(d.len()));
    }
}

pub proof fn lemma_pow10_pos(k: nat)
    ensures
        pow10(k) >= 1,
    decreases k,
{
    if k > 0 {
        lemma_pow10_pos((k - 1) as nat);
    }
}

pub proof fn lemma_pow10_add(a: nat, b: nat)
    ensures
        pow10(a) * pow10(b) == pow10(a + b),
    decreases a,
{
    if a == 0 {
        assert(pow10(0) * pow10(b) == pow10(b)) by (nonlinear_arith)
            requires
                pow10(0) == 1,
        ;
    } else {
        lemma_pow10_add((a - 1) as nat, b);
        assert((10 * pow10((a - 1) as nat)) * pow10(b) == 10 * (pow10((a - 1) as nat) * pow10(
            b,
        ))) by (nonlinear_arith);
    }
}

/// A field has at most one decimal point that splits it into digit runs.
proof fn lemma_dot_split_unique(t: Seq<char>, p1: int, p2: int)
    requires
        dot_split_at(t, p1),
        dot_split_at(t, p2),
    ensures
        p1 == p2,
{
    if p1 < p2 {
        assert(t.skip(p1 + 1)[p2 - p1 - 1] == t[p2]);
        assert(is_digit('.'));
        assert(false);
    }
    if p2 < p1 {
        assert(t.skip(p2 + 1)[p1 - p2 - 1] == t[p1]);
        assert(is_digit('.'));
        assert(false);
    }
}

/// What the grammar gives a field whose body is one digit run.
proof fn lemma_parse_real_digits(s: Seq<char>)
    requires
        body_of(s).len() >= 1,
        all_digits(body_of(s)),
    ensures
        parse_real(s) == signed_fixed(has_sign(s), digits_val(body_of(s)) * SCALE),
{
}

/// What the grammar gives a field whose body splits at the point `p`.
proof fn lemma_parse_real_dot(s: Seq<char>, p: int)
    requires
        dot_split_at(body_of(s), p),
    ensures
        parse_real(s) == signed_fixed(
            has_sign(s),
            digits_val(body_of(s).take(p)) * SCALE + digits_val(body_of(s).skip(p + 1)) * pow10(
                (6 - (body_of(s).len() - p - 1)) as nat,
            ),
        ),
{
    let t = body_of(s);
    assert(!is_digit(t[p]));
    assert(!all_digits(t));
    let pc = choose|pp: int| dot_split_at(t, pp);
    assert(dot_split_at(t, pc));
    lemma_dot_split_unique(t, pc, p);
}

/// A character that is neither digit nor point rules every reading out.
proof fn lemma_parse_real_bad_char(s: Seq<char>, q: int)
    requires
        0 <= q < body_of(s).len(),
        !is_digit(body_of(s)[q]),
        body_of(s)[q] != '.',
    ensures
        parse_real(s) is None,
{
    let t = body_of(s);
    assert(!all_digits(t));
    assert forall|pp: int| !dot_split_at(t, pp) by {
        if dot_split_at(t, pp) {
            if q < pp {
                assert(t.take(pp)[q] == t[q]);
            } else if q > pp {
                assert(t.skip(pp + 1)[q - pp - 1] == t[q]);
            } else {
                assert(t[pp] == '.');
            }
        }
    }
}

/// Two decimal points rule every reading out.
proof fn lemma_parse_real_two_dots(s: Seq<char>, p: int, j: int)
    requires
        0 <= p < j < body_of(s).len(),
        body_of(s)[p] == '.',
        body_of(s)[j] == '.',
    ensures
        parse_real(s) is None,
{
    let t = body_of(s);
    assert(!is_digit('.'));
    assert(!all_digits(t)) by {
        assert(t[p] == '.');
    }
    assert forall|pp: int| !dot_split_at(t, pp) by {
        if dot_split_at(t, pp) {
            if pp == p {
                assert(t.skip(pp + 1)[j - pp - 1] == t[j]);
            } else if p < pp {
                assert(t.take(pp)[p] == t[p]);
            } else {
                assert(t.skip(pp + 1)[p - pp - 1] == t[p]);
            }
        }
    }
}

/// One decimal point whose surroundings break the grammar rules every
/// reading out: here every character but `t[p]` is a digit.
proof fn lemma_parse_real_bad_dot(s: Seq<char>, p: int)
    requires
        0 <= p < body_of(s).len(),
        body_of(s)[p] == '.',
        forall|q: int| 0 <= q < body_of(s).len() && q != p ==> is_digit(#[trigger] body_of(s)[q]),
        !(p >= 1 && 1 <= body_of(s).len() - p - 1 <= 6),
    ensures
        parse_real(s) is None,
{
    let t = body_of(s);
    assert(!is_digit('.'));
    assert(!all_digits(t)) by {
        assert(t[p] == '.');
    }
    assert forall|pp: int| !dot_split_at(t, pp) by {
        if dot_split_at(t, pp) {
            if pp != p {
                assert(t[pp] == '.');
                assert(is_digit(t[pp]));
            } else {
                assert(all_digits(t.take(p)));
                if p < 1 {
                } else {
                    assert(!(1 <= t.len() - p - 1 <= 6));
                }
            }
        }
    }
}

/// An empty body rules every reading out.
proof fn lemma_parse_real_empty(s: Seq<char>)
    requires
        body_of(s).len() == 0,
    ensures
        parse_real(s) is None,
{
    assert(forall|pp: int| !dot_split_at(body_of(s), pp));
}

/// The digit, if any, that `c` is.
pub fn digit_of(c: char) -> (r: Option<u8>)
    ensures
        r is Some <==> is_digit(c),
        r is Some ==> r->0 as int == digit_val(c),
{
    match c {
        '0' => Some(0u8),
        '1' => Some(1u8),
        '2' => Some(2u8),
        '3' => Some(3u8),
        '4' => Some(4u8),
        '5' => Some(5u8),
        '6' => Some(6u8),
        '7' => Some(7u8),
        '8' => Some(8u8),
        '9' => Some(9u8),
        _ => None,
    }
}

/// The value of the digit run `s[start..end]`, `None` when it exceeds
/// `i64::MAX`.
fn digits_value_exec(s: &str, start: usize, end: usize) -> (r: Option<i64>)
    requires
        start <= end <= s@.len(),
        all_digits(s@.subrange(start as int, end as int)),
    ensures
        match r {
            Some(v) => v >= 0 && v as int == digits_val(s@.subrange(start as int, end as int)),
            None => digits_val(s@.subrange(start as int, end as int)) > i64::MAX,
        },
{
    let ghost run = s@.subrange(start as int, end as int);
    let mut acc: i128 = 0;
    let mut k: usize = start;
    while k < end
        invariant
            start <= k <= end <= s@.len(),
            all_digits(run),
            run == s@.subrange(start as int, end as int),
            0 <= acc <= i64::MAX,
            acc as int == digits_val(run.take(k - start)),
        decreases end - k,
    {
        let c = s.get_char(k);
        assert(c == run[k - start]);
        let d: u8 = match digit_of(c) {
            Some(d) => d,
            None => {
                proof {
                    assert(is_digit(run[k - start]));
                    assert(false);
                }
                0
            },
        };
        proof {
            let pre = run.take(k - start);
            let cur = run.take(k - start + 1);
            assert(cur.drop_last() =~= pre);
            assert(cur.last() == run[k - start]);
        }
        acc = acc * 10 + (d as i128);
        if acc > i64::MAX as i128 {
            proof {
                lemma_digits_val_prefix(run, k + 1 - start);
            }
            return None;
        }
        k += 1;
    }
    proof {
        assert(run.take(end - start) =~= run);
    }
    Some(acc as i64)
}

/// Ten to the `k` as a machine integer, for the small exponents the fraction
/// scaling needs.
fn pow10_exec(k: usize) -> (r: i64)
    requires
        k <= 6,
    ensures
        r as int == pow10(k as nat),
        1 <= r <= 1000000,
{
    proof {
        reveal_with_fuel(pow10, 8);
    }
    match k {
        0 => 1,
        1 => 10,
        2 => 100,
        3 => 1000,
        4 => 10000,
        5 => 100000,
        _ => 1000000,
    }
}

/// Parses one field. Returns exactly the value the grammar gives it, and
/// `None` exactly where the grammar gives none.
pub fn parse_field(s: &str) -> (r: Option<i64>)
    ensures
        r == parse_real(s@),
{
    let n = s.unicode_len();
    let neg = n > 0 && s.get_char(0) == '-';
    let start: usize = if neg {
        1
    } else {
        0
    };
    let ghost t = body_of(s@);
    let tlen = n - start;

    // First pass: locate the decimal point and check every other character
    // is a digit.
    let mut dot: Option<usize> = None;
    let mut j: usize = 0;
    while j < tlen
        invariant
            n == s@.len(),
            start <= 1,
            start <= n,
            tlen == n - start,
            tlen == t.len(),
            neg == has_sign(s@),
            t == body_of(s@),
            start == (if neg { 1int } else { 0int }),
            forall|q: int| 0 <= q < tlen ==> t[q] == s@[q + start],
            0 <= j <= tlen,
            match dot {
                None => forall|q: int| 0 <= q < j ==> is_digit(#[trigger] t[q]),
                Some(p) => p < j && t[p as int] == '.' && (forall|q: int|
                    0 <= q < j && q != p ==> is_digit(#[trigger] t[q])),
            },
        decreases tlen - j,
    {
        let c = s.get_char(start + j);
        assert(c == t[j as int]);
        match digit_of(c) {
            Some(_) => {
            },
            None => {
                if c == '.' {
                    match dot {
                        None => {
                            dot = Some(j);
                        },
                        Some(p) => {
                            proof {
                                lemma_parse_real_two_dots(s@, p as int, j as int);
                            }
                            return None;
                        },
                    }
                } else {
                    proof {
                        lemma_parse_real_bad_char(s@, j as int);
                    }
                    return None;
                }
            },
        }
        j += 1;
    }

    match dot {
        None => {
            if tlen == 0 {
                proof {
                    lemma_parse_real_empty(s@);
                }
                return None;
            }
            assert(all_digits(t));
            assert(t =~= s@.subrange(start as int, n as int));
            let m = digits_value_exec(s, start, n);
            proof {
                lemma_parse_real_digits(s@);
            }
            finish(neg, m, 0, Ghost(digits_val(t)))
        },
        Some(p) => {
            let flen = tlen - p - 1;
            if p < 1 || flen < 1 || flen > 6 {
                proof {
                    lemma_parse_real_bad_dot(s@, p as int);
                }
                return None;
            }
            proof {
                assert(all_digits(t.take(p as int))) by {
                    assert(forall|q: int| 0 <= q < p ==> #[trigger] t.take(p as int)[q] == t[q]);
                }
                assert(all_digits(t.skip(p + 1))) by {
                    assert(forall|q: int|
                        0 <= q < t.len() - p - 1 ==> #[trigger] t.skip(p + 1)[q] == t[q + p + 1]);
                }
                assert(dot_split_at(t, p as int));
                lemma_parse_real_dot(s@, p as int);
                assert(t.take(p as int) =~= s@.subrange(start as int, (start + p) as int));
                assert(t.skip(p as int + 1) =~= s@.subrange((start + p + 1) as int, n as int));
            }
            let ip = digits_value_exec(s, start, start + p);
            let fr = digits_value_exec(s, start + p + 1, n);
            let ghost frac = t.skip(p as int + 1);
            let fv: i64 = match fr {
                Some(fv) => fv,
                None => {
                    proof {
                        lemma_frac_fits(frac);
                        assert(false);
                    }
                    0
                },
            };
            let scale_exp = 6 - flen;
            let p10 = pow10_exec(scale_exp);
            proof {
                lemma_frac_scaled_bounds(frac);
            }
            let fscaled: i64 = fv * p10;
            assert(fscaled as int == digits_val(frac) * pow10((6 - frac.len()) as nat));
            assert(0 <= fscaled < 1000000);
            finish(neg, ip, fscaled, Ghost(digits_val(t.take(p as int))))
        },
    }
}

/// A fraction run of at most six digits is worth less than a million, and
/// scaling it to six places keeps it there.
proof fn lemma_frac_scaled_bounds(frac: Seq<char>)
    requires
        all_digits(frac),
        1 <= frac.len() <= 6,
    ensures
        0 <= digits_val(frac) * pow10((6 - frac.len()) as nat),
        digits_val(frac) * pow10((6 - frac.len()) as nat) < 1000000,
        digits_val(frac) <= i64::MAX,
{
    let e = (6 - frac.len()) as nat;
    lemma_digits_val_bound(frac);
    lemma_digits_val_nonneg(frac);
    lemma_pow10_pos(frac.len());
    lemma_pow10_pos(e);
    lemma_pow10_add(frac.len(), e);
    reveal_with_fuel(pow10, 8);
    assert(digits_val(frac) * pow10(e) < pow10(frac.len()) * pow10(e)) by (nonlinear_arith)
        requires
            digits_val(frac) < pow10(frac.len()),
            pow10(e) >= 1,
    ;
    assert(digits_val(frac) * pow10(e) >= 0) by (nonlinear_arith)
        requires
            digits_val(frac) >= 0,
            pow10(e) >= 1,
    ;
}

/// A fraction run of at most six digits itself fits an `i64`.
proof fn lemma_frac_fits(frac: Seq<char>)
    requires
        all_digits(frac),
        1 <= frac.len() <= 6,
    ensures
        digits_val(frac) <= i64::MAX,
{
    lemma_digits_val_bound(frac);
    lemma_pow10_pos((6 - frac.len()) as nat);
    lemma_pow10_add(frac.len(), (6 - frac.len()) as nat);
    reveal_with_fuel(pow10, 8);
    assert(pow10(frac.len()) * pow10((6 - frac.len()) as nat) >= pow10(frac.len()) * 1) by (nonlinear_arith)
        requires
            pow10((6 - frac.len()) as nat) >= 1,
            pow10(frac.len()) >= 1,
    ;
}

/// Combines integer part, scaled fraction and sign, watching the `i64`
/// range; the ghost argument carries the exact integer-part value.
fn finish(neg: bool, ip: Option<i64>, fscaled: i64, Ghost(ipval): Ghost<int>) -> (r: Option<i64>)
    requires
        0 <= fscaled < 1000000,
        match ip {
            Some(v) => v >= 0 && v as int == ipval,
            None => ipval > i64::MAX,
        },
        ipval >= 0,
    ensures
        r == signed_fixed(neg, ipval * SCALE + fscaled),
{
    match ip {
        Some(v) => {
            let m: i128 = (v as i128) * 1000000 + (fscaled as i128);
            if m > i64::MAX as i128 {
                None
            } else {
                let m64 = m as i64;
                if neg {
                    Some(-m64)
                } else {
                    Some(m64)
                }
            }
        },
        None => {
            proof {
                assert(ipval * 1000000 >= ipval) by (nonlinear_arith)
                    requires
                        ipval >= 0,
                ;
            }
            None
        },
    }
}

/// Parses one label field into a class id, exactly as `parse_class` says.
pub fn parse_class_field(s: &str) -> (r: Option<u64>)
    ensures
        r == parse_class(s@),
{
    match parse_field(s) {
        None => None,
        Some(v) => {
            if v <= 0 {
                Some(0u64)
            } else {
                Some((v / SCALE) as u64)
            }
        },
    }
}

} // verus!
