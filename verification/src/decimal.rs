use vstd::prelude::*;

use crate::chars::is_ascii_digit;

verus! {

/// The digit characters, `'0'` to `'9'`.
pub open spec fn digit_chars() -> Seq<char> {
    seq!['0', '1', '2', '3', '4', '5', '6', '7', '8', '9']
}

/// The value of one ASCII digit.
pub open spec fn digit_value(c: char) -> nat {
    ((c as u32) - ('0' as u32)) as nat
}

/// The canonical decimal text of `n`: no sign, no leading zero.
pub open spec fn decimal(n: nat) -> Seq<char>
    decreases n,
{
    if n < 10 {
        seq![digit_chars()[n as int]]
    } else {
        decimal(n / 10).push(digit_chars()[(n % 10) as int])
    }
}

/// Every character of `s` is an ASCII digit.
pub open spec fn all_ascii_digits(s: Seq<char>) -> bool {
    forall|i: int| 0 <= i < s.len() ==> #[trigger] is_ascii_digit(s[i])
}

/// The number that a string of ASCII digits denotes (most significant first).
pub open spec fn digits_value(s: Seq<char>) -> nat
    decreases s.len(),
{
    if s.len() == 0 {
        0
    } else {
        digits_value(s.drop_last()) * 10 + digit_value(s.last())
    }
}

/// `s` is canonical decimal text: ASCII digits, and no leading zero unless it
/// is `0` itself.
pub open spec fn is_canonical_decimal(s: Seq<char>) -> bool {
    &&& s.len() >= 1
    &&& all_ascii_digits(s)
    &&& (s.len() > 1 ==> s[0] != '0')
}

proof fn lemma_digit_chars(d: int)
    requires
        0 <= d < 10,
    ensures
        is_ascii_digit(digit_chars()[d]),
        digit_value(digit_chars()[d]) == d,
        d != 0 ==> digit_chars()[d] != '0',
{
    assert(digit_chars()[0] == '0');
    assert(digit_chars()[1] == '1');
    assert(digit_chars()[2] == '2');
    assert(digit_chars()[3] == '3');
    assert(digit_chars()[4] == '4');
    assert(digit_chars()[5] == '5');
    assert(digit_chars()[6] == '6');
    assert(digit_chars()[7] == '7');
    assert(digit_chars()[8] == '8');
    assert(digit_chars()[9] == '9');
}

/// The decimal text of `n` is canonical and denotes `n`.
pub proof fn lemma_decimal(n: nat)
    ensures
        is_canonical_decimal(decimal(n)),
        digits_value(decimal(n)) == n,
        decimal(n).len() >= 1,
        n >= 10 ==> decimal(n).len() >= 2,
    decreases n,
{
    if n < 10 {
        lemma_digit_chars(n as int);
        let s = decimal(n);
        assert(s.drop_last().len() == 0);
        assert(digits_value(s.drop_last()) == 0);
        assert(s.last() == s[0]);
        assert(all_ascii_digits(s));
        assert(s.len() == 1);
        assert(is_canonical_decimal(s));
    } else {
        lemma_decimal(n / 10);
        lemma_digit_chars((n % 10) as int);
        let s = decimal(n);
        assert(s.drop_last() == decimal(n / 10));
        assert(s.last() == digit_chars()[(n % 10) as int]);
        assert(digits_value(s) == digits_value(decimal(n / 10)) * 10 + (n % 10));
        if n / 10 < 10 {
            lemma_digit_chars((n / 10) as int);
            assert(decimal(n / 10)[0] == digit_chars()[(n / 10) as int]);
        }
        assert(s[0] == decimal(n / 10)[0]);
        assert forall|i: int| 0 <= i < s.len() implies #[trigger] is_ascii_digit(s[i]) by {
            if i < s.len() - 1 {
                assert(s[i] == decimal(n / 10)[i]);
            }
        }
        assert(s.len() > 1);
        assert(s[0] != '0');
        assert(is_canonical_decimal(s));
    }
}

/// A prefix of a digit string denotes no more than the whole string.
pub proof fn lemma_digits_value_prefix(s: Seq<char>, j: int)
    requires
        0 <= j <= s.len(),
    ensures
        digits_value(s.subrange(0, j)) <= digits_value(s),
    decreases s.len() - j,
{
    if j < s.len() {
        lemma_digits_value_prefix(s, j + 1);
        assert(s.subrange(0, j + 1).drop_last() == s.subrange(0, j));
    } else {
        assert(s.subrange(0, j) == s);
    }
}

/// Appends the decimal text of `n` to `out`.
pub fn push_decimal(out: &mut String, n: u64)
    ensures
        final(out)@ == old(out)@ + decimal(n as nat),
    decreases n,
{
    if n >= 10 {
        push_decimal(out, n / 10);
    }
    let d = (n % 10) as usize;
    let digits = ['0', '1', '2', '3', '4', '5', '6', '7', '8', '9'];
    let c = digits[d];
    assert(c == digit_chars()[d as int]);
    out.push(c);
    if n >= 10 {
        assert(decimal(n as nat) == decimal((n / 10) as nat).push(c));
    } else {
        assert(decimal(n as nat) == seq![c]);
    }
}

/// The value of the ASCII digits `v[lo..hi]`, or `None` when it exceeds
/// `u64::MAX`.
pub fn digits_to_u64(v: &Vec<char>, lo: usize, hi: usize) -> (r: Option<u64>)
    requires
        lo <= hi <= v@.len(),
        all_ascii_digits(v@.subrange(lo as int, hi as int)),
    ensures
        match r {
            Some(x) => x as nat == digits_value(v@.subrange(lo as int, hi as int)),
            None => digits_value(v@.subrange(lo as int, hi as int)) > u64::MAX,
        },
{
    let ghost s = v@.subrange(lo as int, hi as int);
    let mut acc: u64 = 0;
    let mut i = lo;
    assert(s.subrange(0, 0).len() == 0);
    while i < hi
        invariant
            lo <= i <= hi <= v@.len(),
            s == v@.subrange(lo as int, hi as int),
            all_ascii_digits(s),
            acc as nat == digits_value(s.subrange(0, i - lo)),
        decreases hi - i,
    {
        let c = v[i];
        assert(c == s[i - lo]);
        assert(is_ascii_digit(c));
        let d = (c as u32 - '0' as u32) as u64;
        assert(s.subrange(0, i - lo + 1).drop_last() == s.subrange(0, i - lo));
        assert(s.subrange(0, i - lo + 1).last() == c);
        match acc.checked_mul(10) {
            Some(t) => match t.checked_add(d) {
                Some(u) => {
                    acc = u;
                },
                None => {
                    proof {
                        lemma_digits_value_prefix(s, i - lo + 1);
                    }
                    return None;
                },
            },
            None => {
                proof {
                    lemma_digits_value_prefix(s, i - lo + 1);
                }
                return None;
            },
        }
        i += 1;
    }
    assert(s.subrange(0, hi - lo) == s);
    Some(acc)
}

/// The digit characters are the digits, each at its own value.
proof fn lemma_digit_char_of(c: char)
    requires
        is_ascii_digit(c),
    ensures
        digit_value(c) < 10,
        digit_chars()[digit_value(c) as int] == c,
{
    lemma_digit_chars(0);
    assert(digit_chars()[1] == '1');
    assert(digit_chars()[2] == '2');
    assert(digit_chars()[3] == '3');
    assert(digit_chars()[4] == '4');
    assert(digit_chars()[5] == '5');
    assert(digit_chars()[6] == '6');
    assert(digit_chars()[7] == '7');
    assert(digit_chars()[8] == '8');
    assert(digit_chars()[9] == '9');
}

/// Canonical decimal text is the decimal text of the number it denotes.
pub proof fn lemma_canonical_is_decimal(t: Seq<char>)
    requires
        is_canonical_decimal(t),
    ensures
        decimal(digits_value(t)) == t,
    decreases t.len(),
{
    if t.len() == 1 {
        lemma_digit_char_of(t[0]);
        assert(t.drop_last().len() == 0);
        assert(digits_value(t.drop_last()) == 0);
        assert(t.last() == t[0]);
        assert(digits_value(t) == digit_value(t[0]));
        assert(decimal(digits_value(t)) =~= t);
    } else {
        let h = t.drop_last();
        assert(h[0] == t[0]);
        assert forall|i: int| 0 <= i < h.len() implies #[trigger] is_ascii_digit(h[i]) by {
            assert(h[i] == t[i]);
        }
        assert(is_canonical_decimal(h));
        lemma_canonical_is_decimal(h);
        lemma_digits_value_prefix(h, 1);
        let h1 = h.subrange(0, 1);
        assert(h1.drop_last().len() == 0);
        assert(digits_value(h1.drop_last()) == 0);
        assert(h1.last() == h[0]);
        assert(digits_value(h1) == digit_value(h[0]));
        assert(t[0] != '0');
        assert(is_ascii_digit(h[0]));
        assert((h[0] as u32) > ('0' as u32));
        assert(digit_value(h[0]) >= 1);
        let a = digits_value(h);
        let d = digit_value(t.last());
        assert(is_ascii_digit(t[t.len() - 1]));
        lemma_digit_char_of(t.last());
        let n = a * 10 + d;
        assert(digits_value(t) == n);
        assert(n / 10 == a && n % 10 == d) by (nonlinear_arith)
            requires
                n == a * 10 + d,
                d < 10,
        ;
        assert(n >= 10);
        assert(decimal(n) == decimal(n / 10).push(digit_chars()[(n % 10) as int]));
        assert(decimal(n) =~= t);
    }
}

/// Reads `v[lo..hi]` as the canonical decimal text of a `u64`.
pub fn read_numeral(v: &Vec<char>, lo: usize, hi: usize) -> (r: Option<u64>)
    requires
        lo <= hi <= v@.len(),
    ensures
        match r {
            Some(x) => decimal(x as nat) == v@.subrange(lo as int, hi as int),
            None => forall|n: u64| #[trigger] decimal(n as nat) != v@.subrange(lo as int, hi as int),
        },
{
    let ghost t = v@.subrange(lo as int, hi as int);
    if hi == lo {
        proof {
            assert forall|n: u64| #[trigger] decimal(n as nat) != t by {
                lemma_decimal(n as nat);
            }
        }
        return None;
    }
    let mut i = lo;
    while i < hi
        invariant
            lo <= i <= hi <= v@.len(),
            t == v@.subrange(lo as int, hi as int),
            forall|k: int| 0 <= k < i - lo ==> #[trigger] is_ascii_digit(t[k]),
        decreases hi - i,
    {
        let c = v[i];
        if !('0' <= c && c <= '9') {
            proof {
                assert(t[i - lo] == c);
                assert forall|n: u64| #[trigger] decimal(n as nat) != t by {
                    lemma_decimal(n as nat);
                    if decimal(n as nat) == t {
                        assert(is_ascii_digit(decimal(n as nat)[i - lo]));
                    }
                }
            }
            return None;
        }
        i += 1;
    }
    assert(all_ascii_digits(t));
    if hi - lo > 1 && v[lo] == '0' {
        proof {
            assert(t[0] == '0');
            assert forall|n: u64| #[trigger] decimal(n as nat) != t by {
                lemma_decimal(n as nat);
            }
        }
        return None;
    }
    match digits_to_u64(v, lo, hi) {
        Some(x) => {
            proof {
                lemma_canonical_is_decimal(t);
            }
            Some(x)
        },
        None => {
            proof {
                assert forall|n: u64| #[trigger] decimal(n as nat) != t by {
                    lemma_decimal(n as nat);
                }
            }
            None
        },
    }
}

} // verus!
