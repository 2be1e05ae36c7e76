//! Sizes of tmpfs mounts: a number of bytes, or a string matching
//! `^\d+(k|m|g)?$` whose suffix scales by 1024, 1024² or 1024³.

use vstd::prelude::*;

use crate::chars::{chars_of, digit_class, is_ascii_digit, is_digit_char};
use crate::decimal::{all_ascii_digits, digits_to_u64, digits_value};

verus! {

/// Why a tmpfs size string was refused.
#[derive(Clone, Copy, Debug, PartialEq, Eq, Structural)]
pub enum TmpfsSizeError {
    /// The string does not match `^\d+(k|m|g)?$`.
    Malformed,
    /// The digits hold a `\d` character that is not an ASCII digit.
    InvalidDigit,
    /// The number does not fit in a `u64`.
    TooLarge,
}

/// Every character of `s[lo..hi]` is in the `\d` class.
pub open spec fn all_digit_class(s: Seq<char>, lo: int, hi: int) -> bool {
    forall|i: int| lo <= i < hi ==> #[trigger] digit_class(s[i])
}

/// A unit suffix.
pub open spec fn is_unit(c: char) -> bool {
    c == 'k' || c == 'm' || c == 'g'
}

/// The factor of a unit suffix.
pub open spec fn unit_factor(c: char) -> nat {
    if c == 'k' {
        1024
    } else if c == 'm' {
        1024 * 1024
    } else {
        1024 * 1024 * 1024
    }
}

/// How `s` matches `^\d+(k|m|g)?$`: the length of the digits and the factor
/// of the suffix (1 without one).
pub open spec fn tmpfs_shape(s: Seq<char>) -> Option<(int, nat)> {
    if s.len() >= 1 && all_digit_class(s, 0, s.len() as int) {
        Some((s.len() as int, 1))
    } else if s.len() >= 2 && all_digit_class(s, 0, s.len() - 1) && is_unit(s.last()) {
        Some((s.len() - 1, unit_factor(s.last())))
    } else {
        None
    }
}

/// The length of the longest prefix of `s` made of ASCII digits.
pub open spec fn ascii_digit_prefix(s: Seq<char>) -> nat
    decreases s.len(),
{
    if s.len() == 0 {
        0
    } else if is_ascii_digit(s[0]) {
        1 + ascii_digit_prefix(s.drop_first())
    } else {
        0
    }
}

/// `u64::from_str` on non-empty text, which reads the digits left to right:
/// the value, or the error it meets first.
pub open spec fn u64_from_text(d: Seq<char>) -> Result<nat, TmpfsSizeError> {
    let k = ascii_digit_prefix(d);
    if digits_value(d.subrange(0, k as int)) > u64::MAX {
        Err(TmpfsSizeError::TooLarge)
    } else if k < d.len() {
        Err(TmpfsSizeError::InvalidDigit)
    } else {
        Ok(digits_value(d))
    }
}

/// The size in bytes that the string `s` denotes, or why it is refused.
pub open spec fn tmpfs_size_spec(s: Seq<char>) -> Result<nat, TmpfsSizeError> {
    match tmpfs_shape(s) {
        None => Err(TmpfsSizeError::Malformed),
        Some((n, f)) => match u64_from_text(s.subrange(0, n)) {
            Ok(v) => Ok(v * f),
            Err(e) => Err(e),
        },
    }
}

/// A size string whose scaling does not overflow `u64` (scaling beyond it
/// is an arithmetic overflow).
pub open spec fn tmpfs_size_in_range(s: Seq<char>) -> bool {
    tmpfs_size_spec(s) matches Ok(n) ==> n <= u64::MAX
}

proof fn lemma_ascii_digit_prefix(s: Seq<char>)
    ensures
        ascii_digit_prefix(s) <= s.len(),
        all_ascii_digits(s.subrange(0, ascii_digit_prefix(s) as int)),
        ascii_digit_prefix(s) < s.len() ==> !is_ascii_digit(s[ascii_digit_prefix(s) as int]),
    decreases s.len(),
{
    if s.len() > 0 && is_ascii_digit(s[0]) {
        let t = s.drop_first();
        lemma_ascii_digit_prefix(t);
        let k = ascii_digit_prefix(s) as int;
        assert forall|i: int| 0 <= i < k implies #[trigger] is_ascii_digit(s.subrange(0, k)[i]) by {
            if i > 0 {
                assert(s.subrange(0, k)[i] == t.subrange(0, k - 1)[i - 1]);
            }
        }
        if k < s.len() {
            assert(s[k] == t[k - 1]);
        }
    } else {
        assert(s.subrange(0, 0).len() == 0);
    }
}

/// The ASCII digit prefix of ASCII digits is all of them.
proof fn lemma_all_ascii_digit_prefix(d: Seq<char>)
    requires
        all_ascii_digits(d),
    ensures
        ascii_digit_prefix(d) == d.len(),
    decreases d.len(),
{
    if d.len() > 0 {
        let t = d.drop_first();
        assert(is_ascii_digit(d[0]));
        assert forall|i: int| 0 <= i < t.len() implies #[trigger] is_ascii_digit(t[i]) by {
            assert(t[i] == d[i + 1]);
        }
        lemma_all_ascii_digit_prefix(t);
    }
}

/// A size written as ASCII digits is that number of bytes, and a `k`, `m`
/// or `g` after the digits multiplies it by 1024, 1024² or 1024³; the
/// number must fit in a `u64`.
pub proof fn lemma_tmpfs_units(d: Seq<char>, u: char)
    requires
        d.len() >= 1,
        all_ascii_digits(d),
        digits_value(d) <= u64::MAX,
    ensures
        tmpfs_size_spec(d) == Ok::<nat, TmpfsSizeError>(digits_value(d)),
        u == 'k' ==> tmpfs_size_spec(d.push(u)) == Ok::<nat, TmpfsSizeError>(digits_value(d) * 1024),
        u == 'm' ==> tmpfs_size_spec(d.push(u)) == Ok::<nat, TmpfsSizeError>(digits_value(d) * 1024 * 1024),
        u == 'g' ==> tmpfs_size_spec(d.push(u)) == Ok::<nat, TmpfsSizeError>(
            digits_value(d) * 1024 * 1024 * 1024,
        ),
        !is_unit(u) && !digit_class(u) ==> tmpfs_size_spec(d.push(u)) == Err::<nat, TmpfsSizeError>(
            TmpfsSizeError::Malformed,
        ),
{
    assert forall|i: int| 0 <= i < d.len() implies #[trigger] digit_class(d[i]) by {
        assert(is_ascii_digit(d[i]));
    }
    lemma_all_ascii_digit_prefix(d);
    assert(d.subrange(0, d.len() as int) =~= d);
    let e = d.push(u);
    assert(e.subrange(0, d.len() as int) =~= d);
    assert(e.last() == u);
    assert forall|i: int| 0 <= i < e.len() - 1 implies #[trigger] digit_class(e[i]) by {
        assert(e[i] == d[i]);
    }
    if is_unit(u) {
        assert(!digit_class(e[e.len() - 1]));
    }
    let v = digits_value(d);
    assert(v * (1024 * 1024) == v * 1024 * 1024) by (nonlinear_arith);
    assert(v * (1024 * 1024 * 1024) == v * 1024 * 1024 * 1024) by (nonlinear_arith);
    if !is_unit(u) && !digit_class(u) {
        assert(!digit_class(e[e.len() - 1]));
    }
}

/// The characters up to the first non-ASCII-digit are a prefix of ASCII
/// digits, and `j` is where it ends.
proof fn lemma_prefix_is_ascii_digit_prefix(s: Seq<char>, j: int)
    requires
        0 <= j <= s.len(),
        all_ascii_digits(s.subrange(0, j)),
        j < s.len() ==> !is_ascii_digit(s[j]),
    ensures
        ascii_digit_prefix(s) == j,
    decreases s.len(),
{
    if s.len() > 0 && j > 0 {
        assert(is_ascii_digit(s.subrange(0, j)[0]));
        let t = s.drop_first();
        assert forall|i: int| 0 <= i < j - 1 implies #[trigger] is_ascii_digit(t.subrange(0, j - 1)[i]) by {
            assert(t.subrange(0, j - 1)[i] == s.subrange(0, j)[i + 1]);
        }
        if j - 1 < t.len() {
            assert(t[j - 1] == s[j]);
        }
        lemma_prefix_is_ascii_digit_prefix(t, j - 1);
    }
}

/// Parses a size string into its value and unit factor: the pattern
/// `^\d+(k|m|g)?$`, then the digits as `u64::from_str` reads them.
fn tmpfs_value_and_factor(s: &str) -> (r: Result<(u64, u64), TmpfsSizeError>)
    ensures
        match tmpfs_size_spec(s@) {
            Ok(n) => r matches Ok((v, f)) && n == v * f && f >= 1,
            Err(e) => r == Err::<(u64, u64), TmpfsSizeError>(e),
        },
{
    let v = chars_of(s);
    let len = v.len();
    // Length of the run of `\d` characters at the start.
    let mut k: usize = 0;
    let mut more = len > 0 && is_digit_char(v[0]);
    while more
        invariant
            k <= len == v@.len(),
            v@ == s@,
            all_digit_class(v@, 0, k as int),
            more ==> k < len && digit_class(v@[k as int]),
            !more ==> k == len || !digit_class(v@[k as int]),
        decreases len - k,
    {
        k += 1;
        more = k < len && is_digit_char(v[k]);
    }
    let ghost sv = s@;
    let n: usize;
    let f: u64;
    if k >= 1 && k == len {
        n = k;
        f = 1;
    } else if len >= 2 && k == len - 1 && (v[k] == 'k' || v[k] == 'm' || v[k] == 'g') {
        n = k;
        f = if v[k] == 'k' {
            1024
        } else if v[k] == 'm' {
            1024 * 1024
        } else {
            1024 * 1024 * 1024
        };
        assert(sv.last() == v@[k as int]);
    } else {
        proof {
            if len >= 2 && all_digit_class(sv, 0, len - 1) && is_unit(sv.last()) {
                if k < len - 1 {
                    assert(digit_class(sv[k as int]));
                }
                assert(sv.last() == sv[len - 1]);
                if k == len {
                    assert(digit_class(sv[len - 1]));
                }
                assert(k == len - 1);
            }
            if len >= 1 && all_digit_class(sv, 0, len as int) {
                if k < len {
                    assert(digit_class(sv[k as int]));
                }
            }
        }
        return Err(TmpfsSizeError::Malformed);
    }
    proof {
        if n == len - 1 {
            // The suffix is no digit, so the digits end before it.
            assert(sv[len - 1] == v@[k as int]);
            assert(!digit_class(sv[len - 1]));
        }
    }
    assert(tmpfs_shape(sv) == Some((n as int, f as nat)));
    // `u64::from_str` on the digits.
    let ghost d = sv.subrange(0, n as int);
    let mut j: usize = 0;
    while j < n && v[j] >= '0' && v[j] <= '9'
        invariant
            j <= n <= len == v@.len(),
            v@ == sv,
            d == sv.subrange(0, n as int),
            all_ascii_digits(d.subrange(0, j as int)),
        decreases n - j,
    {
        assert(d[j as int] == v@[j as int]);
        assert forall|i: int| 0 <= i < j + 1 implies #[trigger] is_ascii_digit(d.subrange(0, j + 1)[i]) by {
            if i < j {
                assert(d.subrange(0, j + 1)[i] == d.subrange(0, j as int)[i]);
            }
        }
        j += 1;
    }
    proof {
        if j < n {
            assert(d[j as int] == v@[j as int]);
        }
        lemma_prefix_is_ascii_digit_prefix(d, j as int);
    }
    assert(v@.subrange(0, j as int) == d.subrange(0, j as int));
    match digits_to_u64(&v, 0, j) {
        None => Err(TmpfsSizeError::TooLarge),
        Some(x) => {
            if j < n {
                Err(TmpfsSizeError::InvalidDigit)
            } else {
                assert(d.subrange(0, n as int) == d);
                Ok((x, f))
            }
        },
    }
}

/// Whether the size that `s` denotes, if any, fits in a `u64`; a size beyond
/// it overflows in [`parse_tmpfs_size`], which therefore requires this.
pub fn tmpfs_size_fits(s: &str) -> (b: bool)
    ensures
        b == tmpfs_size_in_range(s@),
{
    match tmpfs_value_and_factor(s) {
        Ok((v, f)) => v.checked_mul(f).is_some(),
        Err(_) => true,
    }
}

/// Parses a tmpfs size string: `^\d+(k|m|g)?$`, the digits read as a `u64`,
/// scaled by 1024 per `k`, 1024² per `m`, 1024³ per `g`.
pub fn parse_tmpfs_size(s: &str) -> (r: Result<u64, TmpfsSizeError>)
    requires
        tmpfs_size_in_range(s@),
    ensures
        match tmpfs_size_spec(s@) {
            Ok(n) => r == Ok::<u64, TmpfsSizeError>(n as u64),
            Err(e) => r == Err::<u64, TmpfsSizeError>(e),
        },
{
    match tmpfs_value_and_factor(s) {
        Ok((v, f)) => Ok(v * f),
        Err(e) => Err(e),
    }
}

} // verus!
