use vstd::prelude::*;

verus! {

/// Whether `c` is in the Unicode `\d` class of the `regex` crate (general
/// category `Nd`), for characters outside ASCII.
pub uninterp spec fn unicode_decimal_digit(c: char) -> bool;

/// Whether `c` is in the Unicode `\w` class of the `regex` crate, for
/// characters outside ASCII that are not decimal digits.
pub uninterp spec fn unicode_word_char(c: char) -> bool;

/// An ASCII decimal digit `0`-`9`.
pub open spec fn is_ascii_digit(c: char) -> bool {
    '0' <= c && c <= '9'
}

/// An ASCII letter.
pub open spec fn is_ascii_letter(c: char) -> bool {
    ('a' <= c && c <= 'z') || ('A' <= c && c <= 'Z')
}

/// The `\d` class: on ASCII exactly `0`-`9`.
pub open spec fn digit_class(c: char) -> bool {
    if (c as u32) < 128 {
        is_ascii_digit(c)
    } else {
        unicode_decimal_digit(c)
    }
}

/// The `\w` class: on ASCII exactly `[0-9A-Za-z_]`; outside ASCII it holds
/// every decimal digit, and the other word characters.
pub open spec fn word_class(c: char) -> bool {
    if (c as u32) < 128 {
        is_ascii_digit(c) || is_ascii_letter(c) || c == '_'
    } else {
        unicode_decimal_digit(c) || unicode_word_char(c)
    }
}

/// Tests `c` against the pattern `\A\d\z` of the `regex` crate.
///
/// The contract claims that the crate's Unicode-aware `\d` agrees with
/// [`digit_class`]: ASCII `0`-`9` on ASCII input, and a fixed (named) set of
/// characters elsewhere.
#[verifier::external_body]
pub(crate) fn is_digit_char(c: char) -> (b: bool)
    ensures
        (c as u32) < 128 ==> b == is_ascii_digit(c),
        (c as u32) >= 128 ==> b == unicode_decimal_digit(c),
{
    let mut buf = [0u8; 4];
    match regex::Regex::new(r"\A\d\z") {
        Ok(re) => re.is_match(c.encode_utf8(&mut buf)),
        Err(_) => false,
    }
}

/// Tests `c` against the pattern `\A\w\z` of the `regex` crate.
///
/// The contract claims that the crate's Unicode-aware `\w` agrees with
/// [`word_class`]: `[0-9A-Za-z_]` on ASCII input; outside ASCII it contains
/// every character of `\d` (the documented `\w` includes `Nd`) and a fixed
/// (named) set of other characters.
#[verifier::external_body]
pub(crate) fn is_word_char(c: char) -> (b: bool)
    ensures
        (c as u32) < 128 ==> b == (is_ascii_digit(c) || is_ascii_letter(c) || c == '_'),
        (c as u32) >= 128 ==> b == (unicode_decimal_digit(c) || unicode_word_char(c)),
{
    let mut buf = [0u8; 4];
    match regex::Regex::new(r"\A\w\z") {
        Ok(re) => re.is_match(c.encode_utf8(&mut buf)),
        Err(_) => false,
    }
}

/// The characters of `s`, in order.
pub fn chars_of(s: &str) -> (v: Vec<char>)
    ensures
        v@ == s@,
{
    let mut v: Vec<char> = Vec::new();
    for c in it: s.chars()
        invariant
            it.seq() == s@,
            v@ == it.seq().subrange(0, it.index() as int),
    {
        v.push(c);
    }
    v
}

/// The elements of `s` from index `i` on.
pub open spec fn suffix_from<T>(s: Seq<T>, i: usize) -> Seq<T> {
    s.skip(i as int)
}

/// The element of `s` at index `i`.
pub open spec fn item<T>(s: Seq<T>, i: usize) -> T {
    s[i as int]
}

/// `String::push` appends one character.
pub assume_specification[ String::push ](s: &mut String, ch: char)
    ensures
        final(s)@ == old(s)@.push(ch),
;

/// Appends the characters `v[lo..hi]` to `out`.
pub fn push_chars(out: &mut String, v: &Vec<char>, lo: usize, hi: usize)
    requires
        lo <= hi <= v@.len(),
    ensures
        final(out)@ == old(out)@ + v@.subrange(lo as int, hi as int),
{
    let mut i = lo;
    while i < hi
        invariant
            lo <= i <= hi <= v@.len(),
            out@ == old(out)@ + v@.subrange(lo as int, i as int),
        decreases hi - i,
    {
        out.push(v[i]);
        assert(v@.subrange(lo as int, i + 1) == v@.subrange(lo as int, i as int).push(v@[i as int]));
        i += 1;
    }
}

/// Appends the characters of `s` to `out`.
pub fn push_str(out: &mut String, s: &str)
    ensures
        final(out)@ == old(out)@ + s@,
{
    let v = chars_of(s);
    push_chars(out, &v, 0, v.len());
    assert(v@.subrange(0, v@.len() as int) == v@);
}

/// Whether two texts are the same.
pub fn texts_equal(a: &str, b: &str) -> (r: bool)
    ensures
        r == (a@ == b@),
{
    let u = chars_of(a);
    let v = chars_of(b);
    if u.len() != v.len() {
        return false;
    }
    let mut i: usize = 0;
    while i < u.len()
        invariant
            u@ == a@,
            v@ == b@,
            u@.len() == v@.len(),
            i <= u@.len(),
            forall|j: int| 0 <= j < i ==> u@[j] == v@[j],
        decreases u@.len() - i,
    {
        if u[i] != v[i] {
            return false;
        }
        i += 1;
    }
    assert(u@ =~= v@);
    true
}

} // verus!
