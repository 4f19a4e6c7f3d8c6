//! Converting captured energy values to output lines.
//!
//! Each captured number is multiplied by the fixed unit-conversion constant
//! 239.2311 and written with exactly six decimal places, newline-terminated.
//! The arithmetic is exact decimal arithmetic: the capture's digits are read
//! as an integer scaled by its fraction length, multiplied by 2392311, and
//! rounded at the sixth decimal place, halves away from zero.  A capture so
//! long that exactness cannot be guaranteed is rejected rather than rounded
//! silently, and a malformed capture is rejected outright: a result that
//! cannot be trusted must not look like data.

use vstd::prelude::*;
use vstd::arithmetic::div_mod::{lemma_div_nonincreasing, lemma_div_pos_is_pos, lemma_mod_bound};
use crate::digits::{
    all_digits, append_bytes, dec_digits, decimal_of_u128, digits_val, is_ascii_digit,
    is_digit_byte, lemma_digits_val_bound, lemma_digits_val_concat, lemma_pow10_add,
    lemma_pow10_fits_u128, lemma_pow10_monotone, lemma_pow10_pos, padded_digits, padded_of_u128,
    pow10, pow10_u128, value_of_digits,
};
use crate::extract::{
    digit_run_end, energy_prefix, extract_captures, lemma_digit_run_end_bounds,
    lemma_match_tail_bounds, lemma_space_run_end_bounds, match_tail, prefix_matches,
    scan_captures, space_run_end,
};

verus! {

/// The unit-conversion constant 239.2311, held exactly as
/// `ENERGY_SCALE_UNITS / 10^ENERGY_SCALE_DECIMALS`.
pub const ENERGY_SCALE_UNITS: u64 = 2392311;

/// Decimal places of the conversion constant.
pub const ENERGY_SCALE_DECIMALS: u32 = 4;

/// Decimal places of every output line.
pub const OUTPUT_DECIMALS: u32 = 6;

/// Longest capture (counted in digits) converted exactly.
pub const MAX_CAPTURE_DIGITS: usize = 25;

/// Why the engine's reply was rejected.
#[derive(Clone, Copy, PartialEq, Eq, Structural, Debug)]
pub enum ExtractError {
    /// The reply holds a different number of energy lines than the request
    /// had points.
    CountMismatch,
    /// A captured number is not of the accepted numeric shape.
    MalformedNumber,
    /// A captured number has too many digits to convert exactly.
    NumberTooLong,
}

/// The capture starts with a minus sign.
pub open spec fn cap_negative(c: Seq<u8>) -> bool {
    c.len() > 0 && c[0] == 45
}

/// The capture without its sign.
pub open spec fn cap_body(c: Seq<u8>) -> Seq<u8> {
    if cap_negative(c) {
        c.skip(1)
    } else {
        c
    }
}

/// First position at or after `j` holding a dot, or the length when none.
pub open spec fn dot_pos(c: Seq<u8>, j: int) -> int
    decreases c.len() - j,
{
    if 0 <= j < c.len() && c[j] != 46 {
        dot_pos(c, j + 1)
    } else {
        j
    }
}

/// The digits before the dot (or the whole body when there is no dot).
pub open spec fn int_digits(c: Seq<u8>) -> Seq<u8> {
    cap_body(c).take(dot_pos(cap_body(c), 0))
}

/// The digits after the dot (empty when there is no dot).
pub open spec fn frac_digits(c: Seq<u8>) -> Seq<u8> {
    let b = cap_body(c);
    let d = dot_pos(b, 0);
    if d < b.len() {
        b.skip(d + 1)
    } else {
        Seq::empty()
    }
}

/// A numeric capture: an optional sign, at least one integer digit, and —
/// when a dot is present — at least one fraction digit, with nothing else.
pub open spec fn capture_wf(c: Seq<u8>) -> bool {
    let b = cap_body(c);
    let d = dot_pos(b, 0);
    &&& 0 < d
    &&& all_digits(b.take(d))
    &&& (d < b.len() ==> d + 1 < b.len() && all_digits(b.skip(d + 1)))
}

/// How many digits the capture holds, sign and dot not counted.
pub open spec fn digit_count(c: Seq<u8>) -> int {
    int_digits(c).len() + frac_digits(c).len() as int
}

/// The capture is well-formed and short enough to convert exactly.
pub open spec fn capture_convertible(c: Seq<u8>) -> bool {
    capture_wf(c) && digit_count(c) <= MAX_CAPTURE_DIGITS
}

/// The capture's magnitude with the dot dropped: its value times ten to
/// the number of fraction digits.
pub open spec fn cap_scaled_val(c: Seq<u8>) -> int {
    digits_val(int_digits(c) + frac_digits(c))
}

/// The converted magnitude in millionths: the capture's magnitude times
/// 239.2311, rounded at the sixth decimal place, halves away from zero.
pub open spec fn converted_millionths(c: Seq<u8>) -> int {
    let scaled = cap_scaled_val(c) * ENERGY_SCALE_UNITS;
    let e = frac_digits(c).len() + ENERGY_SCALE_DECIMALS;
    if e <= OUTPUT_DECIMALS {
        scaled * pow10((OUTPUT_DECIMALS - e) as nat)
    } else {
        let d = pow10((e - OUTPUT_DECIMALS) as nat);
        scaled / d + if 2 * (scaled % d) >= d {
            1int
        } else {
            0int
        }
    }
}

/// The output line of one capture: sign if the capture had one, the integer
/// part, a dot, exactly six decimals, and a newline.
pub open spec fn converted_line(c: Seq<u8>) -> Seq<u8> {
    let r = converted_millionths(c);
    let sign: Seq<u8> = if cap_negative(c) {
        seq![45u8]
    } else {
        Seq::empty()
    };
    sign + dec_digits(r / 1000000) + seq![46u8] + padded_digits(r % 1000000, 6) + seq![10u8]
}

/// Where the first dot of `c` at or after `j` is known byte by byte, the
/// search finds exactly it.
proof fn lemma_dot_pos_from(c: Seq<u8>, j: int, d: int)
    requires
        0 <= j <= d <= c.len(),
        forall|t: int| j <= t < d ==> #[trigger] c[t] != 46,
        d < c.len() ==> c[d] == 46,
    ensures
        dot_pos(c, j) == d,
    decreases d - j,
{
    if j < d {
        lemma_dot_pos_from(c, j + 1, d);
    }
}

/// Every capture the pattern yields has the accepted numeric shape: an
/// optional sign, integer digits, and at most one dot with digits after it.
proof fn lemma_match_capture_wf(s: Seq<u8>, i: int)
    requires
        0 <= i,
        i + energy_prefix().len() <= s.len(),
    ensures
        match_tail(s, i) matches Option::Some(ec) ==> capture_wf(ec.1),
{
    let j0 = i + energy_prefix().len();
    lemma_space_run_end_bounds(s, j0);
    let w = space_run_end(s, j0);
    if w != j0 {
        let k: int = if w < s.len() && s[w] == 45 {
            w + 1
        } else {
            w
        };
        lemma_digit_run_end_bounds(s, k);
        let d1 = digit_run_end(s, k);
        if d1 != k {
            if d1 < s.len() && s[d1] == 46 && d1 + 1 < s.len() && is_digit_byte(s[d1 + 1]) {
                lemma_digit_run_end_bounds(s, d1 + 1);
                let ce = digit_run_end(s, d1 + 1);
                lemma_space_run_end_bounds(s, ce);
                let we = space_run_end(s, ce);
                if we != ce && we + 1 < s.len() && s[we] == 101 && s[we + 1] == 86 {
                    let c = s.subrange(w, ce);
                    let b = cap_body(c);
                    assert(b =~= s.subrange(k, ce));
                    lemma_dot_pos_from(b, 0, d1 - k);
                    assert(b.take(d1 - k) =~= s.subrange(k, d1));
                    assert(b.skip(d1 - k + 1) =~= s.subrange(d1 + 1, ce));
                    assert(capture_wf(c));
                }
            } else if d1 - k >= 2 {
                lemma_space_run_end_bounds(s, d1);
                let we = space_run_end(s, d1);
                if we != d1 && we + 1 < s.len() && s[we] == 101 && s[we + 1] == 86 {
                    let c = s.subrange(w, d1);
                    let b = cap_body(c);
                    assert(b =~= s.subrange(k, d1));
                    lemma_dot_pos_from(b, 0, b.len() as int);
                    assert(b.take(b.len() as int) =~= b);
                    assert(capture_wf(c));
                }
            }
        }
    }
}

/// Every capture the scanner yields has the accepted numeric shape:
/// scanning never produces a malformed number, only — at worst — one too
/// long to convert exactly.
pub proof fn lemma_scan_captures_wf(s: Seq<u8>, i: int)
    requires
        0 <= i,
    ensures
        forall|k: int|
            0 <= k < scan_captures(s, i).len() ==> capture_wf(
                #[trigger] scan_captures(s, i)[k],
            ),
    decreases s.len() - i,
{
    if i + energy_prefix().len() > s.len() {
    } else if prefix_matches(s, i) {
        match match_tail(s, i) {
            Option::Some(ec) => {
                lemma_match_tail_bounds(s, i);
                lemma_match_capture_wf(s, i);
                lemma_scan_captures_wf(s, ec.0);
                assert forall|k: int| 0 <= k < scan_captures(s, i).len() implies capture_wf(
                    #[trigger] scan_captures(s, i)[k],
                ) by {
                    if k > 0 {
                        assert(scan_captures(s, i)[k] == scan_captures(s, ec.0)[k - 1]);
                    } else {
                        assert(scan_captures(s, i)[0] == ec.1);
                    }
                }
            },
            Option::None => {
                lemma_scan_captures_wf(s, i + 1);
                assert(scan_captures(s, i) == scan_captures(s, i + 1));
            },
        }
    } else {
        lemma_scan_captures_wf(s, i + 1);
        assert(scan_captures(s, i) == scan_captures(s, i + 1));
    }
}

/// Every byte of `s[a..b]` is a digit.
fn all_digits_range(s: &[u8], a: usize, b: usize) -> (r: bool)
    requires
        a <= b <= s@.len(),
    ensures
        r == all_digits(s@.subrange(a as int, b as int)),
{
    let mut k: usize = a;
    while k < b
        invariant
            a <= k <= b <= s@.len(),
            forall|u: int| a <= u < k ==> is_digit_byte(#[trigger] s@[u]),
        decreases b - k,
    {
        if !is_ascii_digit(s[k]) {
            proof {
                assert(!is_digit_byte(s@.subrange(a as int, b as int)[k - a]));
            }
            return false;
        }
        k = k + 1;
    }
    proof {
        assert forall|u: int| 0 <= u < b - a implies is_digit_byte(
            #[trigger] s@.subrange(a as int, b as int)[u],
        ) by {
            assert(s@.subrange(a as int, b as int)[u] == s@[a + u]);
        }
    }
    true
}

/// The output line for one captured number, or why it is rejected: a
/// malformed capture never converts, an over-long one never converts, and
/// every other capture converts to exactly its value times 239.2311 written
/// with six decimals.
#[verifier::rlimit(100)]
pub fn convert_capture(cap: &[u8]) -> (r: Result<Vec<u8>, ExtractError>)
    ensures
        r is Ok <==> capture_convertible(cap@),
        r matches Ok(line) ==> line@ == converted_line(cap@),
        !capture_wf(cap@) ==> r == Err::<Vec<u8>, ExtractError>(ExtractError::MalformedNumber),
        capture_wf(cap@) && digit_count(cap@) > MAX_CAPTURE_DIGITS ==> r == Err::<
            Vec<u8>,
            ExtractError,
        >(ExtractError::NumberTooLong),
{
    let n = cap.len();
    let neg = n > 0 && cap[0] == 45;
    let start: usize = if neg {
        1
    } else {
        0
    };
    let ghost body = cap_body(cap@);
    proof {
        assert(body =~= cap@.skip(start as int));
    }
    let mut p: usize = start;
    while p < n && cap[p] != 46
        invariant
            start <= p <= n,
            n == cap@.len(),
            start <= 1,
            body == cap@.skip(start as int),
            dot_pos(body, 0) == dot_pos(body, p - start),
        decreases n - p,
    {
        p = p + 1;
    }
    proof {
        assert(dot_pos(body, 0) == p - start);
    }
    if p == start {
        proof {
            assert(!capture_wf(cap@));
        }
        return Err(ExtractError::MalformedNumber);
    }
    if !all_digits_range(cap, start, p) {
        proof {
            assert(body.take(dot_pos(body, 0)) =~= cap@.subrange(start as int, p as int));
        }
        return Err(ExtractError::MalformedNumber);
    }
    proof {
        assert(body.take(dot_pos(body, 0)) =~= cap@.subrange(start as int, p as int));
        assert(int_digits(cap@) == cap@.subrange(start as int, p as int));
    }
    let has_dot = p < n;
    let ghost fd = frac_digits(cap@);
    if has_dot {
        if p + 1 >= n {
            proof {
                assert(!capture_wf(cap@));
            }
            return Err(ExtractError::MalformedNumber);
        }
        if !all_digits_range(cap, p + 1, n) {
            proof {
                assert(body.skip(dot_pos(body, 0) + 1) =~= cap@.subrange(p + 1, n as int));
            }
            return Err(ExtractError::MalformedNumber);
        }
        proof {
            assert(body.skip(dot_pos(body, 0) + 1) =~= cap@.subrange(p + 1, n as int));
            assert(fd == cap@.subrange(p + 1, n as int));
        }
    } else {
        proof {
            assert(fd =~= Seq::<u8>::empty());
        }
    }
    let ic = p - start;
    let fc: usize = if has_dot {
        n - (p + 1)
    } else {
        0
    };
    proof {
        assert(capture_wf(cap@));
        assert(int_digits(cap@).len() == ic);
        assert(fd.len() == fc);
    }
    if ic + fc > MAX_CAPTURE_DIGITS {
        return Err(ExtractError::NumberTooLong);
    }
    proof {
        lemma_pow10_fits_u128(ic as nat);
        lemma_pow10_fits_u128(fc as nat);
        lemma_pow10_fits_u128((ic + fc) as nat);
    }
    let iv = value_of_digits(cap, start, p);
    let fv: u128 = if has_dot {
        value_of_digits(cap, p + 1, n)
    } else {
        0
    };
    let pf = pow10_u128(fc);
    proof {
        lemma_digits_val_bound(int_digits(cap@));
        lemma_digits_val_bound(fd);
        lemma_pow10_add(ic as nat, fc as nat);
        let pi = pow10(ic as nat);
        let pfr = pow10(fc as nat);
        let pif = pow10((ic + fc) as nat);
        assert(iv * pf + fv < pif) by (nonlinear_arith)
            requires
                0 <= iv < pi,
                0 <= fv < pfr,
                pf == pfr,
                pif == pi * pfr,
                0 < pi,
                0 < pfr,
        ;
        lemma_digits_val_concat(int_digits(cap@), fd);
    }
    let num = iv * pf + fv;
    proof {
        assert(num == cap_scaled_val(cap@));
        lemma_pow10_monotone((ic + fc) as nat, 25);
        lemma_pow10_add(25, 7);
        lemma_pow10_fits_u128(32);
        assert(2392311 < pow10(7) && 0 < pow10(7)) by {
            reveal_with_fuel(pow10, 8);
        }
        let p25 = pow10(25);
        let p32 = pow10(32);
        let p7 = pow10(7);
        assert(num * 2392311 < p32) by (nonlinear_arith)
            requires
                0 <= num < p25,
                p32 == p25 * p7,
                2392311 < p7,
                0 < p25,
                0 < p7,
        ;
    }
    let scaled: u128 = num * (ENERGY_SCALE_UNITS as u128);
    let r6: u128;
    if fc + 4 <= 6 {
        proof {
            lemma_pow10_fits_u128((2 - fc) as nat);
            lemma_pow10_monotone((2 - fc) as nat, 2);
            lemma_pow10_add(32, 2);
            lemma_pow10_fits_u128(34);
            assert(pow10(2) == 100 && 0 < pow10(2)) by {
                reveal_with_fuel(pow10, 3);
            }
            let p32 = pow10(32);
            let p34 = pow10(34);
            let p2 = pow10(2);
            let pe = pow10((2 - fc) as nat);
            lemma_pow10_pos((2 - fc) as nat);
            assert(scaled * pe < p34) by (nonlinear_arith)
                requires
                    0 <= scaled < p32,
                    p34 == p32 * p2,
                    0 < pe <= p2,
                    0 < p32,
                    0 < p2,
            ;
        }
        let mult = pow10_u128(2 - fc);
        r6 = scaled * mult;
    } else {
        proof {
            lemma_pow10_fits_u128((fc - 2) as nat);
            lemma_pow10_pos((fc - 2) as nat);
            lemma_pow10_monotone((fc - 2) as nat, 23);
            assert(pow10(23) * 2 <= u128::MAX) by {
                reveal_with_fuel(pow10, 24);
            }
        }
        let dv = pow10_u128(fc - 2);
        let q = scaled / dv;
        let rm = scaled % dv;
        proof {
            lemma_mod_bound(scaled as int, dv as int);
            lemma_div_pos_is_pos(scaled as int, dv as int);
            lemma_div_nonincreasing(scaled as int, dv as int);
        }
        if 2 * rm >= dv {
            r6 = q + 1;
        } else {
            r6 = q;
        }
    }
    proof {
        assert(r6 == converted_millionths(cap@));
    }
    let q6 = r6 / 1000000;
    let f6 = r6 % 1000000;
    let mut line: Vec<u8> = Vec::new();
    if neg {
        line.push(45);
    }
    let qd = decimal_of_u128(q6);
    append_bytes(&mut line, qd.as_slice());
    line.push(46);
    let fdg = padded_of_u128(f6, 6);
    append_bytes(&mut line, fdg.as_slice());
    line.push(10);
    proof {
        assert(line@ =~= converted_line(cap@));
    }
    Ok(line)
}

/// The output lines for one engine reply that was expected to hold
/// `expected` energy lines: one converted line per capture, in reply order.
/// Any other number of matches is rejected, as is any capture that cannot
/// be converted exactly — a missing or malformed result cannot be told from
/// corruption, so nothing is written in that case.
pub fn process_output(s: &[u8], expected: usize) -> (r: Result<Vec<Vec<u8>>, ExtractError>)
    ensures
        r is Ok <==> (scan_captures(s@, 0).len() == expected && forall|k: int|
            0 <= k < expected ==> capture_convertible(#[trigger] scan_captures(s@, 0)[k])),
        r matches Ok(lines) ==> lines.deep_view() == Seq::new(
            expected as nat,
            |k: int| converted_line(scan_captures(s@, 0)[k]),
        ),
        scan_captures(s@, 0).len() != expected ==> r == Err::<Vec<Vec<u8>>, ExtractError>(
            ExtractError::CountMismatch,
        ),
        r is Err && scan_captures(s@, 0).len() == expected ==> (exists|k: int|
            0 <= k < expected && !capture_convertible(#[trigger] scan_captures(s@, 0)[k])),
        r != Err::<Vec<Vec<u8>>, ExtractError>(ExtractError::MalformedNumber),
{
    let caps = extract_captures(s);
    if caps.len() != expected {
        proof {
            assert(scan_captures(s@, 0).len() == caps.deep_view().len());
        }
        return Err(ExtractError::CountMismatch);
    }
    let mut lines: Vec<Vec<u8>> = Vec::new();
    let mut k: usize = 0;
    while k < expected
        invariant
            caps.deep_view() == scan_captures(s@, 0),
            caps@.len() == expected,
            k <= expected,
            lines.deep_view() == Seq::new(
                k as nat,
                |t: int| converted_line(scan_captures(s@, 0)[t]),
            ),
            forall|t: int|
                0 <= t < k ==> capture_convertible(#[trigger] scan_captures(s@, 0)[t]),
        decreases expected - k,
    {
        proof {
            assert(caps.deep_view()[k as int] == caps@[k as int]@);
        }
        match convert_capture(caps[k].as_slice()) {
            Ok(line) => {
                let ghost old_dv = lines.deep_view();
                proof {
                    assert(line.deep_view() =~= line@);
                }
                lines.push(line);
                k = k + 1;
                proof {
                    assert(lines.deep_view() =~= old_dv.push(line@));
                    assert(lines.deep_view() =~= Seq::new(
                        k as nat,
                        |t: int| converted_line(scan_captures(s@, 0)[t]),
                    ));
                }
            },
            Err(e) => {
                proof {
                    lemma_scan_captures_wf(s@, 0);
                    assert(capture_wf(scan_captures(s@, 0)[k as int]));
                    assert(!capture_convertible(scan_captures(s@, 0)[k as int]));
                }
                return Err(e);
            },
        }
    }
    Ok(lines)
}

} // verus!
