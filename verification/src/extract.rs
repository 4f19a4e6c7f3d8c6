//! Scanning the engine's reply for energy lines.
//!
//! The reply is searched left to right for non-overlapping occurrences of
//! the fixed pattern `Final energy = <number> eV`: the literal opening text,
//! one or more whitespace bytes, a number (an optional minus sign, digits,
//! optionally one dot followed by digits — at least two digits when there is
//! no dot), one or more whitespace bytes, and the bytes `eV`.  Each match
//! captures its number; the captures come back in reply order.

use vstd::prelude::*;
use crate::digits::{is_ascii_digit, is_digit_byte};

verus! {

/// An ASCII whitespace byte: space, tab, line feed, vertical tab, form
/// feed, or carriage return.
pub open spec fn is_space_byte(b: u8) -> bool {
    b == 32 || b == 9 || b == 10 || b == 11 || b == 12 || b == 13
}

/// The fixed text opening every energy line: `Final energy =`.
pub open spec fn energy_prefix() -> Seq<u8> {
    seq![70u8, 105u8, 110u8, 97u8, 108u8, 32u8, 101u8, 110u8, 101u8, 114u8, 103u8, 121u8, 32u8,
        61u8]
}

/// First position at or after `j` holding no whitespace byte.
pub open spec fn space_run_end(s: Seq<u8>, j: int) -> int
    decreases s.len() - j,
{
    if 0 <= j < s.len() && is_space_byte(s[j]) {
        space_run_end(s, j + 1)
    } else {
        j
    }
}

/// First position at or after `j` holding no digit byte.
pub open spec fn digit_run_end(s: Seq<u8>, j: int) -> int
    decreases s.len() - j,
{
    if 0 <= j < s.len() && is_digit_byte(s[j]) {
        digit_run_end(s, j + 1)
    } else {
        j
    }
}

/// A whitespace run never moves backwards nor past the end.
pub proof fn lemma_space_run_end_bounds(s: Seq<u8>, j: int)
    requires
        0 <= j <= s.len(),
    ensures
        j <= space_run_end(s, j) <= s.len(),
    decreases s.len() - j,
{
    if j < s.len() && is_space_byte(s[j]) {
        lemma_space_run_end_bounds(s, j + 1);
    }
}

/// A digit run never moves backwards nor past the end, and covers digits
/// only.
pub proof fn lemma_digit_run_end_bounds(s: Seq<u8>, j: int)
    requires
        0 <= j <= s.len(),
    ensures
        j <= digit_run_end(s, j) <= s.len(),
        forall|t: int| j <= t < digit_run_end(s, j) ==> is_digit_byte(#[trigger] s[t]),
    decreases s.len() - j,
{
    if j < s.len() && is_digit_byte(s[j]) {
        lemma_digit_run_end_bounds(s, j + 1);
    }
}

/// Where the number the pattern accepts ends, reading from `k` (after any
/// minus sign): the maximal digit run, extended over one dot only when a
/// digit follows it; without a dot at least two digits are required.
pub open spec fn number_end(s: Seq<u8>, k: int) -> Option<int> {
    let d1 = digit_run_end(s, k);
    if d1 == k {
        Option::None
    } else if d1 < s.len() && s[d1] == 46 && d1 + 1 < s.len() && is_digit_byte(s[d1 + 1]) {
        Option::Some(digit_run_end(s, d1 + 1))
    } else if d1 - k >= 2 {
        Option::Some(d1)
    } else {
        Option::None
    }
}

/// What follows a matched opening text at `i`: `Some((end, capture))` when
/// whitespace, a number, whitespace and `eV` follow, with `end` the position
/// just after `eV` and `capture` the number's bytes with any sign.
pub open spec fn match_tail(s: Seq<u8>, i: int) -> Option<(int, Seq<u8>)> {
    let j0 = i + energy_prefix().len();
    let w = space_run_end(s, j0);
    if w == j0 {
        Option::None
    } else {
        let k = if w < s.len() && s[w] == 45 {
            w + 1
        } else {
            w
        };
        match number_end(s, k) {
            Option::None => Option::None,
            Option::Some(ce) => {
                let we = space_run_end(s, ce);
                if we == ce {
                    Option::None
                } else if we + 1 < s.len() && s[we] == 101 && s[we + 1] == 86 {
                    Option::Some((we + 2, s.subrange(w, ce)))
                } else {
                    Option::None
                }
            },
        }
    }
}

/// The opening text stands at `i`.
pub open spec fn prefix_matches(s: Seq<u8>, i: int) -> bool {
    0 <= i && i + energy_prefix().len() <= s.len() && s.subrange(
        i,
        i + energy_prefix().len(),
    ) == energy_prefix()
}

/// A successful match ends after the position it began at and inside `s`.
pub proof fn lemma_match_tail_bounds(s: Seq<u8>, i: int)
    requires
        0 <= i,
        i + energy_prefix().len() <= s.len(),
    ensures
        match_tail(s, i) matches Option::Some(ec) ==> i < ec.0 <= s.len(),
{
    let j0 = i + energy_prefix().len();
    lemma_space_run_end_bounds(s, j0);
    let w = space_run_end(s, j0);
    if w != j0 {
        let k: int = if w < s.len() && s[w] == 45 {
            w + 1
        } else {
            w
        };
        lemma_digit_run_end_bounds(s, k);
        let d1 = digit_run_end(s, k);
        if d1 != k {
            if d1 < s.len() && s[d1] == 46 && d1 + 1 < s.len() && is_digit_byte(s[d1 + 1]) {
                lemma_digit_run_end_bounds(s, d1 + 1);
                lemma_space_run_end_bounds(s, digit_run_end(s, d1 + 1));
            } else {
                lemma_space_run_end_bounds(s, d1);
            }
        }
    }
}

/// The captures of all non-overlapping pattern matches at or after `i`,
/// searching left to right, in order.
pub open spec fn scan_captures(s: Seq<u8>, i: int) -> Seq<Seq<u8>>
    decreases s.len() - i,
    via scan_captures_termination
{
    if i + energy_prefix().len() > s.len() {
        Seq::empty()
    } else if prefix_matches(s, i) {
        match match_tail(s, i) {
            Option::Some(ec) => seq![ec.1] + scan_captures(s, ec.0),
            Option::None => scan_captures(s, i + 1),
        }
    } else {
        scan_captures(s, i + 1)
    }
}

#[via_fn]
proof fn scan_captures_termination(s: Seq<u8>, i: int) {
    if i + energy_prefix().len() <= s.len() && prefix_matches(s, i) {
        lemma_match_tail_bounds(s, i);
    }
}

/// The opening text as runtime bytes.
fn energy_prefix_vec() -> (v: Vec<u8>)
    ensures
        v@ == energy_prefix(),
{
    let mut v: Vec<u8> = Vec::new();
    v.push(70);
    v.push(105);
    v.push(110);
    v.push(97);
    v.push(108);
    v.push(32);
    v.push(101);
    v.push(110);
    v.push(101);
    v.push(114);
    v.push(103);
    v.push(121);
    v.push(32);
    v.push(61);
    proof {
        assert(v@ =~= energy_prefix());
    }
    v
}

/// Whether `b` is a whitespace byte.
fn is_ascii_space(b: u8) -> (r: bool)
    ensures
        r == is_space_byte(b),
{
    b == 32 || b == 9 || b == 10 || b == 11 || b == 12 || b == 13
}

/// First position at or after `j` holding no whitespace byte.
fn space_end(s: &[u8], j: usize) -> (r: usize)
    requires
        j <= s@.len(),
    ensures
        r == space_run_end(s@, j as int),
        j <= r <= s@.len(),
{
    let mut k: usize = j;
    while k < s.len() && is_ascii_space(s[k])
        invariant
            j <= k <= s@.len(),
            space_run_end(s@, j as int) == space_run_end(s@, k as int),
        decreases s@.len() - k,
    {
        k = k + 1;
    }
    k
}

/// First position at or after `j` holding no digit byte.
fn digit_end(s: &[u8], j: usize) -> (r: usize)
    requires
        j <= s@.len(),
    ensures
        r == digit_run_end(s@, j as int),
        j <= r <= s@.len(),
{
    let mut k: usize = j;
    while k < s.len() && is_ascii_digit(s[k])
        invariant
            j <= k <= s@.len(),
            digit_run_end(s@, j as int) == digit_run_end(s@, k as int),
        decreases s@.len() - k,
    {
        k = k + 1;
    }
    k
}

/// Whether the opening text stands at `i`.
fn prefix_at(s: &[u8], pat: &Vec<u8>, i: usize) -> (b: bool)
    requires
        pat@ == energy_prefix(),
        i + pat@.len() <= s@.len(),
    ensures
        b == prefix_matches(s@, i as int),
{
    let n = pat.len();
    let sn = s.len();
    let mut t: usize = 0;
    while t < n
        invariant
            pat@ == energy_prefix(),
            i + n <= s@.len(),
            s@.len() <= usize::MAX,
            n == pat@.len(),
            t <= n,
            forall|u: int| 0 <= u < t ==> s@[i + u] == pat@[u],
        decreases n - t,
    {
        if s[i + t] != pat[t] {
            proof {
                assert(s@.subrange(i as int, i + n)[t as int] != energy_prefix()[t as int]);
            }
            return false;
        }
        t = t + 1;
    }
    proof {
        assert(s@.subrange(i as int, i + n) =~= energy_prefix());
    }
    true
}

/// The bytes `s[a..b]` as a fresh vector.
fn copy_range(s: &[u8], a: usize, b: usize) -> (v: Vec<u8>)
    requires
        a <= b <= s@.len(),
    ensures
        v@ == s@.subrange(a as int, b as int),
{
    let mut v: Vec<u8> = Vec::new();
    let mut k: usize = a;
    while k < b
        invariant
            a <= k <= b <= s@.len(),
            v@ == s@.subrange(a as int, k as int),
        decreases b - k,
    {
        v.push(s[k]);
        k = k + 1;
        proof {
            assert(s@.subrange(a as int, k as int).drop_last() =~= s@.subrange(a as int, k - 1));
            assert(v@ =~= s@.subrange(a as int, k as int));
        }
    }
    v
}

/// What follows the matched opening text at `i` at runtime: mirrors
/// `match_tail` exactly.
fn match_tail_at(s: &[u8], i: usize, plen: usize) -> (r: Option<(usize, Vec<u8>)>)
    requires
        plen == energy_prefix().len(),
        i + plen <= s@.len(),
    ensures
        r is Some <==> match_tail(s@, i as int) is Some,
        r matches Some(p) ==> (match_tail(s@, i as int) matches Some(q) && p.0 == q.0 && p.1@
            == q.1 && i < p.0 <= s@.len()),
{
    proof {
        lemma_match_tail_bounds(s@, i as int);
    }
    let n = s.len();
    let j0 = i + plen;
    let w = space_end(s, j0);
    if w == j0 {
        return None;
    }
    let mut k = w;
    if w < s.len() && s[w] == 45 {
        k = w + 1;
    }
    let d1 = digit_end(s, k);
    if d1 == k {
        return None;
    }
    let ce: usize;
    if d1 < s.len() && s[d1] == 46 && d1 + 1 < s.len() && is_ascii_digit(s[d1 + 1]) {
        ce = digit_end(s, d1 + 1);
    } else if d1 - k >= 2 {
        ce = d1;
    } else {
        return None;
    }
    let we = space_end(s, ce);
    if we == ce {
        return None;
    }
    if we < n && s[we] == 101 && we + 1 < n && s[we + 1] == 86 {
        let cap = copy_range(s, w, ce);
        Some((we + 2, cap))
    } else {
        None
    }
}

/// Every captured number of the reply, in reply order.
pub fn extract_captures(s: &[u8]) -> (caps: Vec<Vec<u8>>)
    ensures
        caps.deep_view() == scan_captures(s@, 0),
{
    let pat = energy_prefix_vec();
    let plen = pat.len();
    let mut caps: Vec<Vec<u8>> = Vec::new();
    if s.len() < plen {
        proof {
            assert(caps.deep_view() =~= scan_captures(s@, 0));
        }
        return caps;
    }
    let last = s.len() - plen;
    let mut i: usize = 0;
    while i <= last
        invariant
            pat@ == energy_prefix(),
            plen == pat@.len(),
            last + plen == s@.len(),
            s@.len() <= usize::MAX,
            i <= s@.len(),
            scan_captures(s@, 0) == caps.deep_view() + scan_captures(s@, i as int),
        decreases s@.len() - i,
    {
        if prefix_at(s, &pat, i) {
            match match_tail_at(s, i, plen) {
                Some((e, cap)) => {
                    let ghost old_dv = caps.deep_view();
                    proof {
                        assert(cap.deep_view() =~= cap@);
                        assert(old_dv + (seq![cap@] + scan_captures(s@, e as int)) =~= old_dv.push(
                            cap@,
                        ) + scan_captures(s@, e as int));
                    }
                    caps.push(cap);
                    proof {
                        assert(caps.deep_view() =~= old_dv.push(cap@));
                    }
                    i = e;
                },
                None => {
                    i = i + 1;
                },
            }
        } else {
            i = i + 1;
        }
    }
    proof {
        assert(scan_captures(s@, i as int) =~= Seq::<Seq<u8>>::empty());
        assert(caps.deep_view() + scan_captures(s@, i as int) =~= caps.deep_view());
    }
    caps
}

} // verus!
