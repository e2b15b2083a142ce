//! Unsigned integers and decimal fractions read out of record fields.
//!
//! Frequencies and thresholds are exact rationals (`Frac`), so the
//! threshold comparison is an exact cross-multiplication rather than an
//! approximate one.

use vstd::prelude::*;

verus! {

/// A byte is an ASCII decimal digit.
pub open spec fn is_digit(b: u8) -> bool {
    48 <= b && b <= 57
}

/// Every byte of `s` is an ASCII decimal digit.
pub open spec fn all_digits(s: Seq<u8>) -> bool {
    forall|i: int| 0 <= i < s.len() ==> is_digit(#[trigger] s[i])
}

/// The number a digit string denotes, most significant digit first.
pub open spec fn digits_val(s: Seq<u8>) -> int
    decreases s.len(),
{
    if s.len() == 0 {
        0
    } else {
        digits_val(s.drop_last()) * 10 + (s.last() - 48)
    }
}

/// Ten to the `n`.
pub open spec fn pow10(n: nat) -> int
    decreases n,
{
    if n == 0 {
        1
    } else {
        10 * pow10((n - 1) as nat)
    }
}

pub proof fn lemma_pow10_pos(n: nat)
    ensures
        pow10(n) >= 1,
    decreases n,
{
    if n > 0 {
        lemma_pow10_pos((n - 1) as nat);
    }
}

/// A digit string of length `n` denotes a value below `pow10(n)`.
pub proof fn lemma_digits_val_bound(s: Seq<u8>)
    requires
        all_digits(s),
    ensures
        0 <= digits_val(s) < pow10(s.len()),
    decreases s.len(),
{
    if s.len() > 0 {
        assert(all_digits(s.drop_last()));
        lemma_digits_val_bound(s.drop_last());
    }
}

/// Extending a digit string to the right can only grow its value.
pub proof fn lemma_digits_val_prefix(s: Seq<u8>, i: int)
    requires
        all_digits(s),
        0 <= i <= s.len(),
    ensures
        digits_val(s.take(i)) <= digits_val(s),
    decreases s.len() - i,
{
    if i == s.len() {
        assert(s.take(i) =~= s);
    } else {
        assert(s.take(i + 1).drop_last() =~= s.take(i));
        assert(all_digits(s.take(i)));
        lemma_digits_val_bound(s.take(i));
        assert(digits_val(s.take(i + 1)) == digits_val(s.take(i)) * 10 + (s[i] - 48));
        lemma_digits_val_prefix(s, i + 1);
    }
}

/// Parse a nonempty all-digit string as a `u32`; `None` exactly on empty
/// input, a non-digit byte, or a value above `u32::MAX`.
pub fn parse_u32(s: &Vec<u8>) -> (r: Option<u32>)
    ensures
        match r {
            Some(v) => s@.len() > 0 && all_digits(s@) && v == digits_val(s@),
            None => s@.len() == 0 || !all_digits(s@) || digits_val(s@) > u32::MAX,
        },
{
    if s.len() == 0 {
        return None;
    }
    let mut acc: u32 = 0;
    let mut i: usize = 0;
    while i < s.len()
        invariant
            0 <= i <= s@.len(),
            forall|j: int| 0 <= j < i ==> is_digit(#[trigger] s@[j]),
            acc == digits_val(s@.take(i as int)),
        decreases s@.len() - i,
    {
        let b = s[i];
        if b < 48 || b > 57 {
            assert(!is_digit(s@[i as int]));
            return None;
        }
        let d: u32 = (b - 48) as u32;
        proof {
            assert(s@.take(i + 1).drop_last() =~= s@.take(i as int));
            assert(s@.take(i + 1).last() == s@[i as int]);
            assert(digits_val(s@.take(i + 1)) == acc * 10 + d);
        }
        if acc > (u32::MAX - d) / 10 {
            proof {
                assert(acc * 10 + d > u32::MAX);
                assert(all_digits(s@.take(i + 1)));
                if all_digits(s@) {
                    lemma_digits_val_prefix(s@, i + 1);
                }
            }
            return None;
        }
        assert(acc * 10 + d <= u32::MAX);
        acc = acc * 10 + d;
        i = i + 1;
    }
    proof {
        assert(s@.take(i as int) =~= s@);
    }
    Some(acc)
}

/// A nonnegative rational `num / den`. A zero denominator stands for an
/// infinite value, which arises only as a frequency derived over zero depth.
#[derive(Clone, Copy, PartialEq, Eq, Structural, Debug)]
pub struct Frac {
    pub num: u64,
    pub den: u64,
}

/// `a >= b` on the rationals the two pairs denote, an infinite left side
/// counting as above everything.
pub open spec fn frac_ge(an: int, ad: int, bn: int, bd: int) -> bool {
    if ad == 0 {
        true
    } else {
        an * bd >= bn * ad
    }
}

/// Exact rational comparison by cross-multiplication.
pub fn frac_ge_exec(a: &Frac, b: &Frac) -> (r: bool)
    requires
        b.den >= 1,
    ensures
        r == frac_ge(a.num as int, a.den as int, b.num as int, b.den as int),
{
    if a.den == 0 {
        true
    } else {
        proof {
            assert((a.num as u128) * (b.den as u128) <= u128::MAX) by (nonlinear_arith)
                requires
                    a.num <= u64::MAX && b.den <= u64::MAX,
            ;
            assert((b.num as u128) * (a.den as u128) <= u128::MAX) by (nonlinear_arith)
                requires
                    b.num <= u64::MAX && a.den <= u64::MAX,
            ;
        }
        (a.num as u128) * (b.den as u128) >= (b.num as u128) * (a.den as u128)
    }
}

/// Index of the first occurrence of `x` in `s`, or -1 when absent.
pub open spec fn find_byte(s: Seq<u8>, x: u8) -> int
    decreases s.len(),
{
    if s.len() == 0 {
        -1
    } else if s[0] == x {
        0
    } else if find_byte(s.skip(1), x) < 0 {
        -1
    } else {
        find_byte(s.skip(1), x) + 1
    }
}

pub proof fn lemma_find_byte_props(s: Seq<u8>, x: u8)
    ensures
        find_byte(s, x) == -1 || (0 <= find_byte(s, x) < s.len()),
        find_byte(s, x) >= 0 ==> s[find_byte(s, x)] == x,
        forall|j: int| 0 <= j < find_byte(s, x) ==> s[j] != x,
        find_byte(s, x) == -1 ==> (forall|j: int| 0 <= j < s.len() ==> s[j] != x),
    decreases s.len(),
{
    if s.len() == 0 {
    } else if s[0] == x {
    } else {
        lemma_find_byte_props(s.skip(1), x);
        assert(forall|j: int| 0 <= j < s.skip(1).len() ==> s.skip(1)[j] == s[j + 1]);
        if find_byte(s.skip(1), x) >= 0 {
            assert forall|j: int| 0 <= j < find_byte(s, x) implies s[j] != x by {
                if j > 0 {
                    assert(s.skip(1)[j - 1] != x);
                }
            }
        } else {
            assert forall|j: int| 0 <= j < s.len() implies s[j] != x by {
                if j > 0 {
                    assert(s.skip(1)[j - 1] != x);
                }
            }
        }
    }
}

/// `find_byte` returns the position of the first hit.
pub proof fn lemma_find_byte_at(s: Seq<u8>, x: u8, i: int)
    requires
        0 <= i < s.len(),
        s[i] == x,
        forall|j: int| 0 <= j < i ==> s[j] != x,
    ensures
        find_byte(s, x) == i,
    decreases i,
{
    if i == 0 {
    } else {
        assert(s.skip(1)[i - 1] == x);
        assert forall|j: int| 0 <= j < i - 1 implies s.skip(1)[j] != x by {
            assert(s.skip(1)[j] == s[j + 1]);
        }
        lemma_find_byte_at(s.skip(1), x, i - 1);
    }
}

/// The digit bytes of a decimal fraction literal: everything but the point.
pub open spec fn frac_digits(s: Seq<u8>) -> Seq<u8> {
    if find_byte(s, 46) < 0 {
        s
    } else {
        s.take(find_byte(s, 46)) + s.skip(find_byte(s, 46) + 1)
    }
}

/// How many digits stand after the point.
pub open spec fn frac_scale(s: Seq<u8>) -> nat {
    if find_byte(s, 46) < 0 {
        0
    } else {
        (s.len() - find_byte(s, 46) - 1) as nat
    }
}

/// `s` is a decimal fraction literal: digits around at most one point,
/// with at least one digit.
pub open spec fn is_frac(s: Seq<u8>) -> bool {
    frac_digits(s).len() > 0 && all_digits(frac_digits(s))
}

/// The numerator a fraction literal denotes: its digits read as one number.
pub open spec fn frac_num(s: Seq<u8>) -> int {
    digits_val(frac_digits(s))
}

/// The denominator a fraction literal denotes: ten to the scale.
pub open spec fn frac_den(s: Seq<u8>) -> int {
    pow10(frac_scale(s))
}

pub proof fn lemma_pow10_le(a: nat, b: nat)
    requires
        a <= b,
    ensures
        pow10(a) <= pow10(b),
    decreases b,
{
    if a < b {
        lemma_pow10_le(a, (b - 1) as nat);
        lemma_pow10_pos((b - 1) as nat);
    }
}

/// Parse a decimal fraction literal as an exact rational; `None` exactly
/// when the text is not such a literal or is longer than 19 bytes.
pub fn parse_frac(s: &Vec<u8>) -> (r: Option<Frac>)
    ensures
        match r {
            Some(f) => is_frac(s@) && s@.len() <= 19 && f.num == frac_num(s@) && f.den == frac_den(
                s@,
            ) && f.den >= 1,
            None => !is_frac(s@) || s@.len() > 19,
        },
{
    let n = s.len();
    if n > 19 {
        return None;
    }
    let mut i: usize = 0;
    while i < n && s[i] != 46
        invariant
            0 <= i <= n,
            n == s@.len(),
            forall|j: int| 0 <= j < i ==> s@[j] != 46,
        decreases n - i,
    {
        i = i + 1;
    }
    let dend: usize = i;
    proof {
        if dend < n {
            lemma_find_byte_at(s@, 46, dend as int);
        } else {
            lemma_find_byte_props(s@, 46);
            assert(find_byte(s@, 46) == -1);
        }
    }
    let mut acc: u64 = 0;
    let mut j: usize = 0;
    while j < dend
        invariant
            0 <= j <= dend <= n <= 19,
            n == s@.len(),
            dend < n ==> find_byte(s@, 46) == dend,
            dend == n ==> find_byte(s@, 46) == -1,
            forall|k: int| 0 <= k < j ==> is_digit(#[trigger] s@[k]),
            acc == digits_val(s@.take(j as int)),
        decreases dend - j,
    {
        let b = s[j];
        if b < 48 || b > 57 {
            proof {
                assert(!is_digit(s@[j as int]));
                if dend < n {
                    assert(frac_digits(s@)[j as int] == s@.take(dend as int)[j as int]);
                }
                assert(!all_digits(frac_digits(s@)));
            }
            return None;
        }
        let d: u64 = (b - 48) as u64;
        proof {
            assert(s@.take(j + 1).drop_last() =~= s@.take(j as int));
            assert(s@.take(j + 1).last() == s@[j as int]);
            assert(all_digits(s@.take(j + 1)));
            lemma_digits_val_bound(s@.take(j + 1));
            lemma_pow10_le((j + 1) as nat, 19);
            reveal_with_fuel(pow10, 21);
            assert(pow10(19) == 10000000000000000000);
            assert(digits_val(s@.take(j + 1)) == acc * 10 + d);
        }
        acc = acc * 10 + d;
        j = j + 1;
    }
    if dend == n {
        if n == 0 {
            assert(frac_digits(s@) =~= s@);
            return None;
        }
        proof {
            assert(frac_digits(s@) =~= s@);
            assert(s@.take(n as int) =~= s@);
            assert(all_digits(s@));
        }
        return Some(Frac { num: acc, den: 1 });
    }
    if n == 1 {
        proof {
            assert(frac_digits(s@).len() == 0);
        }
        return None;
    }
    let ghost aa: Seq<u8> = s@.take(dend as int);
    let mut den: u64 = 1;
    let mut k: usize = dend + 1;
    proof {
        assert(aa + s@.subrange(dend + 1, dend + 1) =~= aa);
    }
    while k < n
        invariant
            dend + 1 <= k <= n <= 19,
            dend < n,
            n == s@.len(),
            find_byte(s@, 46) == dend,
            aa == s@.take(dend as int),
            forall|m: int| 0 <= m < dend ==> is_digit(#[trigger] s@[m]),
            forall|m: int| dend + 1 <= m < k ==> is_digit(#[trigger] s@[m]),
            acc == digits_val(aa + s@.subrange(dend + 1, k as int)),
            den == pow10((k - dend - 1) as nat),
            den >= 1,
        decreases n - k,
    {
        let b = s[k];
        if b < 48 || b > 57 {
            proof {
                assert(!is_digit(s@[k as int]));
                assert(frac_digits(s@)[k - 1] == s@.skip(dend + 1)[k - 1 - dend]);
                assert(s@.skip(dend + 1)[k - 1 - dend] == s@[k as int]);
                assert(!all_digits(frac_digits(s@)));
            }
            return None;
        }
        let d: u64 = (b - 48) as u64;
        proof {
            let t = aa + s@.subrange(dend + 1, k + 1);
            assert(t.drop_last() =~= aa + s@.subrange(dend + 1, k as int));
            assert(t.last() == s@[k as int]);
            assert(all_digits(t));
            lemma_digits_val_bound(t);
            lemma_pow10_le(t.len(), 19);
            lemma_pow10_le((k - dend) as nat, 18);
            lemma_pow10_pos((k - dend - 1) as nat);
            reveal_with_fuel(pow10, 21);
            assert(pow10(19) == 10000000000000000000);
            assert(digits_val(t) == acc * 10 + d);
        }
        acc = acc * 10 + d;
        den = den * 10;
        k = k + 1;
    }
    proof {
        assert(s@.subrange(dend + 1, n as int) =~= s@.skip(dend + 1));
        assert(frac_digits(s@) == aa + s@.skip(dend + 1));
        assert(frac_digits(s@).len() == n - 1);
        assert forall|m: int| 0 <= m < frac_digits(s@).len() implies is_digit(
            #[trigger] frac_digits(s@)[m],
        ) by {
            if m < dend {
                assert(frac_digits(s@)[m] == s@[m]);
            } else {
                assert(frac_digits(s@)[m] == s@.skip(dend + 1)[m - dend]);
                assert(s@.skip(dend + 1)[m - dend] == s@[m + 1]);
            }
        }
        assert(frac_scale(s@) == (n - dend - 1) as nat);
    }
    Some(Frac { num: acc, den })
}

} // verus!
