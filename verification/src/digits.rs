//! Decimal digit strings: their values, bounds, and formatting.
//!
//! Everything the sweep writes is decimal text: result lines with six
//! decimal places and the node/chunk numbers of the output file's name.
//! This module fixes what a digit string is worth and produces shortest and
//! zero-padded decimal forms of machine integers.

use vstd::prelude::*;

verus! {

/// The byte is an ASCII decimal digit.
pub open spec fn is_digit_byte(b: u8) -> bool {
    48 <= b && b <= 57
}

/// Whether `b` is an ASCII decimal digit.
pub fn is_ascii_digit(b: u8) -> (r: bool)
    ensures
        r == is_digit_byte(b),
{
    48 <= b && b <= 57
}

/// Ten to the `k`.
pub open spec fn pow10(k: nat) -> int
    decreases k,
{
    if k == 0 {
        1
    } else {
        10 * pow10((k - 1) as nat)
    }
}

/// The number named by ASCII digits, most significant first; the empty
/// string names zero.
pub open spec fn digits_val(s: Seq<u8>) -> int
    decreases s.len(),
{
    if s.len() == 0 {
        0
    } else {
        digits_val(s.drop_last()) * 10 + (s.last() - 48)
    }
}

/// Every byte of `s` is an ASCII digit.
pub open spec fn all_digits(s: Seq<u8>) -> bool {
    forall|j: int| 0 <= j < s.len() ==> is_digit_byte(#[trigger] s[j])
}

/// The shortest decimal form of `n >= 0`, most significant digit first.
pub open spec fn dec_digits(n: int) -> Seq<u8>
    decreases n,
{
    if n < 10 {
        seq![(48 + n) as u8]
    } else {
        dec_digits(n / 10).push((48 + n % 10) as u8)
    }
}

/// The low `k` decimal digits of `n`, zero-padded to exactly `k` bytes.
pub open spec fn padded_digits(n: int, k: nat) -> Seq<u8>
    decreases k,
{
    if k == 0 {
        Seq::empty()
    } else {
        padded_digits(n / 10, (k - 1) as nat).push((48 + n % 10) as u8)
    }
}

/// Powers of ten are positive.
pub proof fn lemma_pow10_pos(k: nat)
    ensures
        1 <= pow10(k),
    decreases k,
{
    if k > 0 {
        lemma_pow10_pos((k - 1) as nat);
    }
}

/// Powers of ten grow with the exponent.
pub proof fn lemma_pow10_monotone(a: nat, b: nat)
    requires
        a <= b,
    ensures
        pow10(a) <= pow10(b),
    decreases b,
{
    if a < b {
        lemma_pow10_monotone(a, (b - 1) as nat);
        lemma_pow10_pos((b - 1) as nat);
    }
}

/// Powers of ten multiply when exponents add.
pub proof fn lemma_pow10_add(a: nat, b: nat)
    ensures
        pow10(a + b) == pow10(a) * pow10(b),
    decreases a,
{
    if a == 0 {
        assert(pow10(0 + b) == 1 * pow10(b));
    } else {
        lemma_pow10_add((a - 1) as nat, b);
        assert(pow10(a + b) == 10 * pow10((a - 1) as nat + b));
        assert(10 * (pow10((a - 1) as nat) * pow10(b)) == (10 * pow10((a - 1) as nat)) * pow10(
            b,
        )) by (nonlinear_arith);
    }
}

/// Ten to anything up to 38 fits a `u128`.
pub proof fn lemma_pow10_fits_u128(k: nat)
    requires
        k <= 38,
    ensures
        pow10(k) <= u128::MAX,
{
    lemma_pow10_monotone(k, 38);
    assert(pow10(38) <= u128::MAX) by {
        reveal_with_fuel(pow10, 39);
    }
}

/// Append every byte of `src` to `dst`.
pub(crate) fn append_bytes(dst: &mut Vec<u8>, src: &[u8])
    ensures
        final(dst)@ == old(dst)@ + src@,
{
    let mut k: usize = 0;
    while k < src.len()
        invariant
            k <= src@.len(),
            dst@ == old(dst)@ + src@.subrange(0, k as int),
        decreases src@.len() - k,
    {
        dst.push(src[k]);
        k = k + 1;
        proof {
            assert(src@.subrange(0, k as int).drop_last() =~= src@.subrange(0, k - 1));
            assert(dst@ =~= old(dst)@ + src@.subrange(0, k as int));
        }
    }
    proof {
        assert(src@.subrange(0, src@.len() as int) =~= src@);
    }
}

/// A string of `k` digits names a number below ten to the `k`.
pub proof fn lemma_digits_val_bound(s: Seq<u8>)
    requires
        all_digits(s),
    ensures
        0 <= digits_val(s) < pow10(s.len()),
    decreases s.len(),
{
    if s.len() > 0 {
        assert(all_digits(s.drop_last())) by {
            assert(forall|j: int|
                0 <= j < s.len() - 1 ==> s.drop_last()[j] == #[trigger] s[j]);
        }
        lemma_digits_val_bound(s.drop_last());
    }
}

/// Concatenating digit strings scales the left part by ten to the length
/// of the right part.
pub proof fn lemma_digits_val_concat(s: Seq<u8>, t: Seq<u8>)
    ensures
        digits_val(s + t) == digits_val(s) * pow10(t.len()) + digits_val(t),
    decreases t.len(),
{
    if t.len() == 0 {
        assert(s + t =~= s);
    } else {
        assert((s + t).drop_last() =~= s + t.drop_last());
        assert((s + t).last() == t.last());
        lemma_digits_val_concat(s, t.drop_last());
        let a = digits_val(s);
        let p = pow10((t.len() - 1) as nat);
        assert((a * p + digits_val(t.drop_last())) * 10 == a * (10 * p) + digits_val(
            t.drop_last(),
        ) * 10) by (nonlinear_arith);
    }
}

/// The shortest decimal form of `n`, most significant digit first.
pub fn decimal_of_u128(n: u128) -> (v: Vec<u8>)
    ensures
        v@ == dec_digits(n as int),
        v@.len() >= 1,
    decreases n,
{
    if n < 10 {
        let mut v: Vec<u8> = Vec::new();
        v.push(48 + n as u8);
        proof {
            assert(v@ =~= dec_digits(n as int));
        }
        v
    } else {
        let mut v = decimal_of_u128(n / 10);
        v.push(48 + (n % 10) as u8);
        proof {
            assert(v@ =~= dec_digits(n as int));
        }
        v
    }
}

/// The low `k` decimal digits of `n`, zero-padded to exactly `k` bytes.
pub fn padded_of_u128(n: u128, k: usize) -> (v: Vec<u8>)
    ensures
        v@ == padded_digits(n as int, k as nat),
    decreases k,
{
    if k == 0 {
        let v: Vec<u8> = Vec::new();
        proof {
            assert(v@ =~= padded_digits(n as int, 0));
        }
        v
    } else {
        let mut v = padded_of_u128(n / 10, k - 1);
        v.push(48 + (n % 10) as u8);
        proof {
            assert(v@ =~= padded_digits(n as int, k as nat));
        }
        v
    }
}

/// Ten to the `k` as a machine integer.
pub fn pow10_u128(k: usize) -> (p: u128)
    requires
        pow10(k as nat) <= u128::MAX,
    ensures
        p == pow10(k as nat),
{
    let mut p: u128 = 1;
    let mut i: usize = 0;
    while i < k
        invariant
            i <= k,
            p == pow10(i as nat),
            pow10(k as nat) <= u128::MAX,
        decreases k - i,
    {
        proof {
            lemma_pow10_monotone((i + 1) as nat, k as nat);
        }
        p = p * 10;
        i = i + 1;
    }
    p
}

/// The value of the digit bytes `s[from..to]`.
pub fn value_of_digits(s: &[u8], from: usize, to: usize) -> (n: u128)
    requires
        from <= to <= s@.len(),
        all_digits(s@.subrange(from as int, to as int)),
        pow10((to - from) as nat) <= u128::MAX,
    ensures
        n == digits_val(s@.subrange(from as int, to as int)),
{
    let mut n: u128 = 0;
    let mut j: usize = from;
    while j < to
        invariant
            from <= j <= to <= s@.len(),
            all_digits(s@.subrange(from as int, to as int)),
            pow10((to - from) as nat) <= u128::MAX,
            n == digits_val(s@.subrange(from as int, j as int)),
            n < pow10((j - from) as nat),
        decreases to - j,
    {
        proof {
            assert(is_digit_byte(s@.subrange(from as int, to as int)[j - from]));
            lemma_pow10_monotone((j - from + 1) as nat, (to - from) as nat);
        }
        let d: u8 = s[j];
        n = n * 10 + (d - 48) as u128;
        j = j + 1;
        proof {
            assert(s@.subrange(from as int, j as int).drop_last() =~= s@.subrange(
                from as int,
                j - 1,
            ));
            assert(s@.subrange(from as int, j as int).last() == s@[j - 1]);
        }
    }
    proof {
        assert(s@.subrange(from as int, to as int) =~= s@.subrange(from as int, j as int));
    }
    n
}

} // verus!
