//! Container versions in the semantic versioning format, parsed by the
//! `semver` crate and written back as its `Display` writes them.

use vstd::prelude::*;

use crate::chain::{ident_char, semver_panics};
use crate::chars::{is_ascii_digit, push_str};
use crate::decimal::{all_ascii_digits, decimal, lemma_decimal, push_decimal, read_numeral};

verus! {

/// `semver::SemVerError`, the error of `semver::Version::parse`.
#[verifier::external_type_specification]
#[verifier::external_body]
pub struct ExSemVerError(semver::SemVerError);

/// A pre-release or build identifier.
#[derive(Clone, Debug, PartialEq, Eq, Hash)]
pub enum Identifier {
    /// An identifier that is solely numbers.
    Numeric(u64),
    /// An identifier with letters and numbers.
    AlphaNumeric(String),
}

/// The mathematical value of an [`Identifier`].
pub enum IdentifierView {
    Numeric(u64),
    AlphaNumeric(Seq<char>),
}

impl View for Identifier {
    type V = IdentifierView;

    open spec fn view(&self) -> IdentifierView {
        match self {
            Identifier::Numeric(n) => IdentifierView::Numeric(*n),
            Identifier::AlphaNumeric(s) => IdentifierView::AlphaNumeric(s@),
        }
    }
}

/// A container version. Versions follow the semver format.
#[derive(Clone, Debug)]
pub struct Version {
    pub major: u64,
    pub minor: u64,
    pub patch: u64,
    pub pre: Vec<Identifier>,
    pub build: Vec<Identifier>,
}

/// The mathematical value of a [`Version`].
pub struct VersionView {
    pub major: u64,
    pub minor: u64,
    pub patch: u64,
    pub pre: Seq<IdentifierView>,
    pub build: Seq<IdentifierView>,
}

impl View for Version {
    type V = VersionView;

    open spec fn view(&self) -> VersionView {
        VersionView {
            major: self.major,
            minor: self.minor,
            patch: self.patch,
            pre: self.pre@.map_values(|i: Identifier| i@),
            build: self.build@.map_values(|i: Identifier| i@),
        }
    }
}

/// The version `major.minor.patch`, without pre-release or build metadata.
pub open spec fn plain_version(major: u64, minor: u64, patch: u64) -> VersionView {
    VersionView { major, minor, patch, pre: Seq::empty(), build: Seq::empty() }
}

/// The text `major.minor.patch`, each number in canonical decimal.
pub open spec fn triple_text(major: nat, minor: nat, patch: nat) -> Seq<char> {
    decimal(major) + seq!['.'] + decimal(minor) + seq!['.'] + decimal(patch)
}

/// `s` is the text of three `u64` numbers joined by dots.
pub open spec fn is_triple_text(s: Seq<char>) -> bool {
    exists|t: (u64, u64, u64)| s == triple_text(t.0 as nat, t.1 as nat, t.2 as nat)
}

/// A character that the lexer of `semver-parser` reads as whitespace.
pub open spec fn lexer_space(c: char) -> bool {
    c == ' ' || c == '\t' || c == '\n' || c == '\r'
}

/// `s` holds no `-`, `+` or whitespace: text in which `semver` finds no
/// pre-release or build part, so that it reads only three numbers.
pub open spec fn no_sign_or_space(s: Seq<char>) -> bool {
    forall|i: int| 0 <= i < s.len() ==> !(#[trigger] s[i] == '-' || s[i] == '+' || lexer_space(s[i]))
}

/// `t` is the canonical decimal text of some `u64`.
pub open spec fn is_numeral(t: Seq<char>) -> bool {
    exists|n: u64| #[trigger] decimal(n as nat) == t
}

/// `t` is identifiers of ASCII letters and digits joined by single hyphens,
/// such as `beta-1`.
pub open spec fn chain_text(t: Seq<char>) -> bool {
    &&& t.len() > 0
    &&& ident_char(t[0])
    &&& ident_char(t.last())
    &&& forall|k: int|
        0 <= k < t.len() ==> (ident_char(#[trigger] t[k]) || (t[k] == '-' && ident_char(t[k + 1])))
}

/// An identifier that `semver` reads back from its text: a number, or an
/// alphanumeric chain that is not the text of a number.
pub open spec fn readable_identifier(i: IdentifierView) -> bool {
    match i {
        IdentifierView::Numeric(_) => true,
        IdentifierView::AlphaNumeric(t) => chain_text(t) && !is_numeral(t),
    }
}

/// A version all of whose identifiers `semver` reads back from their text.
pub open spec fn readable_version(v: VersionView) -> bool {
    &&& forall|k: int| 0 <= k < v.pre.len() ==> readable_identifier(#[trigger] v.pre[k])
    &&& forall|k: int| 0 <= k < v.build.len() ==> readable_identifier(#[trigger] v.build[k])
}

/// What `semver::Version::parse` gives for a string, beyond the cases stated
/// by [`semver_parse_spec`].
pub uninterp spec fn semver_parse_result(s: Seq<char>) -> Option<VersionView>;

/// The value that `semver::Version::parse` gives for `s`: the text of three
/// numbers is that version; any other text without `-`, `+` or whitespace
/// is refused; the text of a readable version is that version; the rest is
/// [`semver_parse_result`].
pub open spec fn semver_parse_spec(s: Seq<char>) -> Option<VersionView> {
    if is_triple_text(s) {
        let t = choose|t: (u64, u64, u64)| s == triple_text(t.0 as nat, t.1 as nat, t.2 as nat);
        Some(plain_version(t.0, t.1, t.2))
    } else if no_sign_or_space(s) {
        None
    } else if exists|v: VersionView| readable_version(v) && #[trigger] version_text(v) == s {
        Some(choose|v: VersionView| readable_version(v) && #[trigger] version_text(v) == s)
    } else {
        semver_parse_result(s)
    }
}

/// Calls `semver::Version::parse` and converts its result.
///
/// The contract claims what the grammar of `semver-parser` shows. Without
/// `-`, `+` or whitespace the parser reads three numeric tokens joined by
/// dots and then wants the end of the text: so three numbers in canonical
/// decimal joined by dots parse to that version with no pre-release or build
/// part, and any other such text is refused (leading zeros, values beyond
/// `u64`, other characters). The text that `Display` writes for a version
/// whose identifiers are numbers or hyphen-joined alphanumeric chains that
/// are not numbers parses back to that version: the lexer reads each chain
/// as tokens joined by hyphens, and `bounded_identifier` joins them again.
/// On other strings the result is a function of the string, named
/// [`semver_parse_result`], that nothing here states. The parser panics
/// when it reaches a run of 256 identifiers each followed by a hyphen (its
/// `bounded_identifier`); that text, [`semver_panics`], is left out.
#[verifier::external_body]
fn semver_parse(s: &str) -> (r: Result<Version, semver::SemVerError>)
    requires
        !semver_panics(s@),
    ensures
        match (if is_triple_text(s@) {
            let t = choose|t: (u64, u64, u64)| s@ == triple_text(t.0 as nat, t.1 as nat, t.2 as nat);
            Some(plain_version(t.0, t.1, t.2))
        } else if no_sign_or_space(s@) {
            None
        } else if exists|v: VersionView| readable_version(v) && #[trigger] version_text(v) == s@ {
            Some(choose|v: VersionView| readable_version(v) && #[trigger] version_text(v) == s@)
        } else {
            semver_parse_result(s@)
        }) {
            Some(w) => r matches Ok(v) && v@ == w,
            None => r is Err,
        },
{
    let conv = |i: semver::Identifier| match i {
        semver::Identifier::Numeric(n) => Identifier::Numeric(n),
        semver::Identifier::AlphaNumeric(s) => Identifier::AlphaNumeric(s),
    };
    semver::Version::parse(s).map(|v| Version {
        major: v.major,
        minor: v.minor,
        patch: v.patch,
        pre: v.pre.into_iter().map(conv).collect(),
        build: v.build.into_iter().map(conv).collect(),
    })
}

/// The text of an identifier.
pub open spec fn identifier_text(i: IdentifierView) -> Seq<char> {
    match i {
        IdentifierView::Numeric(n) => decimal(n as nat),
        IdentifierView::AlphaNumeric(s) => s,
    }
}

/// The identifiers' texts joined by dots.
pub open spec fn identifiers_text(ids: Seq<IdentifierView>) -> Seq<char>
    decreases ids.len(),
{
    if ids.len() == 0 {
        Seq::empty()
    } else if ids.len() == 1 {
        identifier_text(ids[0])
    } else {
        identifiers_text(ids.drop_last()) + seq!['.'] + identifier_text(ids.last())
    }
}

/// The text of a version: `major.minor.patch`, then `-` and the pre-release
/// identifiers if there are any, then `+` and the build identifiers if
/// there are any.
pub open spec fn version_text(v: VersionView) -> Seq<char> {
    triple_text(v.major as nat, v.minor as nat, v.patch as nat) + (if v.pre.len() > 0 {
        seq!['-'] + identifiers_text(v.pre)
    } else {
        Seq::empty()
    }) + (if v.build.len() > 0 {
        seq!['+'] + identifiers_text(v.build)
    } else {
        Seq::empty()
    })
}

/// Appends the identifiers' texts joined by dots.
fn push_identifiers(out: &mut String, ids: &Vec<Identifier>)
    ensures
        final(out)@ == old(out)@ + identifiers_text(ids@.map_values(|i: Identifier| i@)),
{
    let ghost views = ids@.map_values(|i: Identifier| i@);
    let mut k: usize = 0;
    while k < ids.len()
        invariant
            k <= ids@.len(),
            views == ids@.map_values(|i: Identifier| i@),
            out@ == old(out)@ + identifiers_text(views.subrange(0, k as int)),
        decreases ids@.len() - k,
    {
        let ghost before = out@;
        if k > 0 {
            out.push('.');
        }
        match &ids[k] {
            Identifier::Numeric(n) => push_decimal(out, *n),
            Identifier::AlphaNumeric(s) => push_str(out, s.as_str()),
        }
        proof {
            let sub = views.subrange(0, k + 1);
            assert(sub.drop_last() == views.subrange(0, k as int));
            assert(sub.last() == ids@[k as int]@);
            if k == 0 {
                assert(identifiers_text(views.subrange(0, 0)) == Seq::<char>::empty());
            }
        }
        k += 1;
    }
    assert(views.subrange(0, ids@.len() as int) == views);
}

impl Version {
    /// Parses a version with the `semver` crate.
    ///
    /// The parser of `semver` panics when it reaches 256 identifiers in a
    /// row, each followed by a hyphen; such text is left out here, and
    /// [`crate::chain::semver_would_panic`] tells it apart.
    pub fn parse(s: &str) -> (r: Result<Version, semver::SemVerError>)
        requires
            !semver_panics(s@),
        ensures
            match semver_parse_spec(s@) {
                Some(w) => r matches Ok(v) && v@ == w,
                None => r is Err,
            },
    {
        semver_parse(s)
    }

    /// The text of the version, as `semver` displays it.
    pub fn to_string(&self) -> (r: String)
        ensures
            r@ == version_text(self@),
    {
        let mut out = String::new();
        push_decimal(&mut out, self.major);
        out.push('.');
        push_decimal(&mut out, self.minor);
        out.push('.');
        push_decimal(&mut out, self.patch);
        let ghost t = out@;
        if self.pre.len() > 0 {
            out.push('-');
            push_identifiers(&mut out, &self.pre);
        }
        let ghost u = out@;
        if self.build.len() > 0 {
            out.push('+');
            push_identifiers(&mut out, &self.build);
        }
        proof {
            let v = self@;
            assert(t == triple_text(v.major as nat, v.minor as nat, v.patch as nat));
            if v.pre.len() > 0 {
                assert(u == t + (seq!['-'] + identifiers_text(v.pre)));
            } else {
                assert(u == t + Seq::<char>::empty());
            }
            if v.build.len() > 0 {
                assert(out@ == u + (seq!['+'] + identifiers_text(v.build)));
            } else {
                assert(out@ == u + Seq::<char>::empty());
            }
        }
        out
    }
}

impl Default for Version {
    /// The version `0.0.0`.
    fn default() -> (v: Version)
        ensures
            v@ == plain_version(0, 0, 0),
    {
        let v = Version { major: 0, minor: 0, patch: 0, pre: Vec::new(), build: Vec::new() };
        assert(v@.pre == Seq::<IdentifierView>::empty());
        assert(v@.build == Seq::<IdentifierView>::empty());
        v
    }
}

/// Digit strings before a dot are told apart by where the dot stands.
proof fn lemma_dot_split(u1: Seq<char>, r1: Seq<char>, u2: Seq<char>, r2: Seq<char>)
    requires
        all_ascii_digits(u1),
        all_ascii_digits(u2),
        u1 + seq!['.'] + r1 == u2 + seq!['.'] + r2,
    ensures
        u1 == u2,
        r1 == r2,
{
    let s = u1 + seq!['.'] + r1;
    if u1.len() < u2.len() {
        assert(s[u1.len() as int] == '.');
        assert(s[u1.len() as int] == u2[u1.len() as int]);
        assert(is_ascii_digit(u2[u1.len() as int]));
    } else if u2.len() < u1.len() {
        assert(s[u2.len() as int] == u1[u2.len() as int]);
        assert(is_ascii_digit(u1[u2.len() as int]));
    }
    assert(u1 =~= s.take(u1.len() as int));
    assert(u2 =~= (u2 + seq!['.'] + r2).take(u2.len() as int));
    assert(r1 =~= s.skip(u1.len() as int + 1));
    assert(r2 =~= (u2 + seq!['.'] + r2).skip(u2.len() as int + 1));
}

/// The text of three numbers determines them.
pub proof fn lemma_triple_text_injective(a: nat, b: nat, c: nat, x: nat, y: nat, z: nat)
    requires
        triple_text(a, b, c) == triple_text(x, y, z),
    ensures
        a == x && b == y && c == z,
{
    lemma_decimal(a);
    lemma_decimal(b);
    lemma_decimal(c);
    lemma_decimal(x);
    lemma_decimal(y);
    lemma_decimal(z);
    let r1 = decimal(b) + seq!['.'] + decimal(c);
    let r2 = decimal(y) + seq!['.'] + decimal(z);
    assert(triple_text(a, b, c) =~= decimal(a) + seq!['.'] + r1);
    assert(triple_text(x, y, z) =~= decimal(x) + seq!['.'] + r2);
    lemma_dot_split(decimal(a), r1, decimal(x), r2);
    lemma_dot_split(decimal(b), decimal(c), decimal(y), decimal(z));
}

/// A version without pre-release or build identifiers is read back from its
/// text.
pub proof fn lemma_plain_version_reads_back(major: u64, minor: u64, patch: u64)
    ensures
        semver_parse_spec(version_text(plain_version(major, minor, patch))) == Some(
            plain_version(major, minor, patch),
        ),
{
    let s = version_text(plain_version(major, minor, patch));
    assert(s =~= triple_text(major as nat, minor as nat, patch as nat));
    assert(is_triple_text(s)) by {
        let w = (major, minor, patch);
        assert(s == triple_text(w.0 as nat, w.1 as nat, w.2 as nat));
    }
    let t = choose|t: (u64, u64, u64)| s == triple_text(t.0 as nat, t.1 as nat, t.2 as nat);
    lemma_triple_text_injective(major as nat, minor as nat, patch as nat, t.0 as nat, t.1 as nat, t.2 as nat);
}

/// Where two texts are each a part without marks followed by an empty part
/// or one that starts with a mark, the parts agree.
proof fn lemma_split_at_mark(
    p1: Seq<char>,
    r1: Seq<char>,
    p2: Seq<char>,
    r2: Seq<char>,
    mark: spec_fn(char) -> bool,
)
    requires
        p1 + r1 == p2 + r2,
        forall|k: int| 0 <= k < p1.len() ==> !mark(#[trigger] p1[k]),
        forall|k: int| 0 <= k < p2.len() ==> !mark(#[trigger] p2[k]),
        r1.len() > 0 ==> mark(r1[0]),
        r2.len() > 0 ==> mark(r2[0]),
    ensures
        p1 == p2,
        r1 == r2,
{
    let s = p1 + r1;
    if p1.len() < p2.len() {
        assert(s[p1.len() as int] == p2[p1.len() as int]);
        if r1.len() > 0 {
            assert(s[p1.len() as int] == r1[0]);
        }
    } else if p2.len() < p1.len() {
        assert(s[p2.len() as int] == p1[p2.len() as int]);
        assert((p2 + r2)[p2.len() as int] == s[p2.len() as int]);
        if r2.len() > 0 {
            assert((p2 + r2)[p2.len() as int] == r2[0]);
        }
    }
    assert(p1 =~= s.take(p1.len() as int));
    assert(p2 =~= (p2 + r2).take(p2.len() as int));
    assert(r1 =~= s.skip(p1.len() as int));
    assert(r2 =~= (p2 + r2).skip(p2.len() as int));
}

/// Two texts that end in a dot and a dot-free part agree in both parts.
proof fn lemma_split_last_dot(a1: Seq<char>, b1: Seq<char>, a2: Seq<char>, b2: Seq<char>)
    requires
        a1 + seq!['.'] + b1 == a2 + seq!['.'] + b2,
        forall|k: int| 0 <= k < b1.len() ==> #[trigger] b1[k] != '.',
        forall|k: int| 0 <= k < b2.len() ==> #[trigger] b2[k] != '.',
    ensures
        a1 == a2,
        b1 == b2,
{
    let s = a1 + seq!['.'] + b1;
    let t = a2 + seq!['.'] + b2;
    if b1.len() < b2.len() {
        let q = s.len() - b1.len() - 1;
        assert(s[q] == '.');
        assert(t[q] == b2[q - a2.len() - 1]);
    } else if b2.len() < b1.len() {
        let q = t.len() - b2.len() - 1;
        assert(t[q] == '.');
        assert(s[q] == b1[q - a1.len() - 1]);
    }
    assert(b1 =~= s.skip(s.len() - b1.len()));
    assert(b2 =~= t.skip(t.len() - b2.len()));
    assert(a1 =~= s.take(a1.len() as int));
    assert(a2 =~= t.take(a2.len() as int));
}

/// The text of a readable identifier holds neither a dot nor a `+`.
proof fn lemma_identifier_text_chars(i: IdentifierView)
    requires
        readable_identifier(i),
    ensures
        identifier_text(i).len() > 0,
        forall|k: int|
            0 <= k < identifier_text(i).len() ==> #[trigger] identifier_text(i)[k] != '.'
                && identifier_text(i)[k] != '+',
{
    match i {
        IdentifierView::Numeric(n) => {
            lemma_decimal(n as nat);
            let t = decimal(n as nat);
            assert forall|k: int| 0 <= k < t.len() implies #[trigger] t[k] != '.' && t[k] != '+' by {
                assert(is_ascii_digit(t[k]));
            }
        },
        IdentifierView::AlphaNumeric(t) => {
            assert forall|k: int| 0 <= k < t.len() implies #[trigger] t[k] != '.' && t[k] != '+' by {
                assert(ident_char(t[k]) || t[k] == '-');
            }
        },
    }
}

/// Readable identifiers are told apart by their text.
proof fn lemma_identifier_text_injective(x: IdentifierView, y: IdentifierView)
    requires
        readable_identifier(x),
        readable_identifier(y),
        identifier_text(x) == identifier_text(y),
    ensures
        x == y,
{
    match (x, y) {
        (IdentifierView::Numeric(n), IdentifierView::Numeric(m)) => {
            lemma_decimal(n as nat);
            lemma_decimal(m as nat);
        },
        (IdentifierView::Numeric(n), IdentifierView::AlphaNumeric(t)) => {
            assert(decimal(n as nat) == t);
        },
        (IdentifierView::AlphaNumeric(t), IdentifierView::Numeric(m)) => {
            assert(decimal(m as nat) == t);
        },
        _ => {},
    }
}

/// The text of readable identifiers holds no `+`.
proof fn lemma_identifiers_text_no_plus(ids: Seq<IdentifierView>)
    requires
        forall|k: int| 0 <= k < ids.len() ==> readable_identifier(#[trigger] ids[k]),
    ensures
        forall|k: int| 0 <= k < identifiers_text(ids).len() ==> #[trigger] identifiers_text(ids)[k] != '+',
    decreases ids.len(),
{
    if ids.len() == 1 {
        lemma_identifier_text_chars(ids[0]);
    } else if ids.len() > 1 {
        let init = ids.drop_last();
        assert forall|k: int| 0 <= k < init.len() implies readable_identifier(#[trigger] init[k]) by {
            assert(init[k] == ids[k]);
        }
        lemma_identifiers_text_no_plus(init);
        lemma_identifier_text_chars(ids.last());
        let a = identifiers_text(init);
        let b = identifier_text(ids.last());
        let t = identifiers_text(ids);
        assert(t == a + seq!['.'] + b);
        assert forall|k: int| 0 <= k < t.len() implies #[trigger] t[k] != '+' by {
            if k < a.len() {
                assert(t[k] == a[k]);
            } else if k > a.len() {
                assert(t[k] == b[k - a.len() - 1]);
            }
        }
    }
}

/// Lists of readable identifiers are told apart by their text.
proof fn lemma_identifiers_text_injective(xs: Seq<IdentifierView>, ys: Seq<IdentifierView>)
    requires
        xs.len() > 0,
        ys.len() > 0,
        forall|k: int| 0 <= k < xs.len() ==> readable_identifier(#[trigger] xs[k]),
        forall|k: int| 0 <= k < ys.len() ==> readable_identifier(#[trigger] ys[k]),
        identifiers_text(xs) == identifiers_text(ys),
    ensures
        xs == ys,
    decreases xs.len() + ys.len(),
{
    lemma_identifier_text_chars(xs.last());
    lemma_identifier_text_chars(ys.last());
    if xs.len() == 1 && ys.len() == 1 {
        lemma_identifier_text_injective(xs[0], ys[0]);
        assert(xs =~= ys);
    } else if xs.len() == 1 {
        let a = identifiers_text(ys.drop_last());
        let t = identifiers_text(ys);
        assert(t == a + seq!['.'] + identifier_text(ys.last()));
        assert(t[a.len() as int] == '.');
        assert(xs.last() == xs[0]);
        assert(identifier_text(xs[0])[a.len() as int] != '.');
    } else if ys.len() == 1 {
        let a = identifiers_text(xs.drop_last());
        let t = identifiers_text(xs);
        assert(t == a + seq!['.'] + identifier_text(xs.last()));
        assert(t[a.len() as int] == '.');
        assert(ys.last() == ys[0]);
        assert(identifier_text(ys[0])[a.len() as int] != '.');
    } else {
        let bx = identifier_text(xs.last());
        let by = identifier_text(ys.last());
        assert forall|k: int| 0 <= k < bx.len() implies #[trigger] bx[k] != '.' by {}
        assert forall|k: int| 0 <= k < by.len() implies #[trigger] by[k] != '.' by {}
        lemma_split_last_dot(identifiers_text(xs.drop_last()), bx, identifiers_text(ys.drop_last()), by);
        lemma_identifier_text_injective(xs.last(), ys.last());
        let ix = xs.drop_last();
        let iy = ys.drop_last();
        assert forall|k: int| 0 <= k < ix.len() implies readable_identifier(#[trigger] ix[k]) by {
            assert(ix[k] == xs[k]);
        }
        assert forall|k: int| 0 <= k < iy.len() implies readable_identifier(#[trigger] iy[k]) by {
            assert(iy[k] == ys[k]);
        }
        lemma_identifiers_text_injective(ix, iy);
        assert(xs =~= ix.push(xs.last()));
        assert(ys =~= iy.push(ys.last()));
    }
}

/// The text of three numbers holds only digits and dots.
pub proof fn lemma_triple_chars(a: nat, b: nat, c: nat)
    ensures
        forall|k: int|
            0 <= k < triple_text(a, b, c).len() ==> #[trigger] triple_text(a, b, c)[k] == '.'
                || is_ascii_digit(triple_text(a, b, c)[k]),
{
    lemma_decimal(a);
    lemma_decimal(b);
    lemma_decimal(c);
    let t = triple_text(a, b, c);
    let da = decimal(a);
    let db = decimal(b);
    let dc = decimal(c);
    assert forall|k: int| 0 <= k < t.len() implies #[trigger] t[k] == '.' || is_ascii_digit(t[k]) by {
        if k < da.len() {
            assert(t[k] == da[k]);
        } else if da.len() < k < da.len() + 1 + db.len() {
            assert(t[k] == db[k - da.len() - 1]);
        } else if k > da.len() + 1 + db.len() {
            assert(t[k] == dc[k - da.len() - db.len() - 2]);
        }
    }
}

/// Readable versions are told apart by their text.
pub proof fn lemma_version_text_injective(v: VersionView, w: VersionView)
    requires
        readable_version(v),
        readable_version(w),
        version_text(v) == version_text(w),
    ensures
        v == w,
{
    let tv = triple_text(v.major as nat, v.minor as nat, v.patch as nat);
    let tw = triple_text(w.major as nat, w.minor as nat, w.patch as nat);
    let pv = if v.pre.len() > 0 { seq!['-'] + identifiers_text(v.pre) } else { Seq::empty() };
    let pw = if w.pre.len() > 0 { seq!['-'] + identifiers_text(w.pre) } else { Seq::empty() };
    let bv = if v.build.len() > 0 { seq!['+'] + identifiers_text(v.build) } else { Seq::empty() };
    let bw = if w.build.len() > 0 { seq!['+'] + identifiers_text(w.build) } else { Seq::empty() };
    assert(version_text(v) =~= tv + (pv + bv));
    assert(version_text(w) =~= tw + (pw + bw));
    lemma_triple_chars(v.major as nat, v.minor as nat, v.patch as nat);
    lemma_triple_chars(w.major as nat, w.minor as nat, w.patch as nat);
    let sign = |c: char| c == '-' || c == '+';
    assert forall|k: int| 0 <= k < tv.len() implies !sign(#[trigger] tv[k]) by {
        assert(tv[k] == '.' || is_ascii_digit(tv[k]));
    }
    assert forall|k: int| 0 <= k < tw.len() implies !sign(#[trigger] tw[k]) by {
        assert(tw[k] == '.' || is_ascii_digit(tw[k]));
    }
    if pv.len() == 0 && bv.len() > 0 {
        assert((pv + bv)[0] == bv[0]);
    }
    if pw.len() == 0 && bw.len() > 0 {
        assert((pw + bw)[0] == bw[0]);
    }
    if pv.len() > 0 {
        assert((pv + bv)[0] == pv[0]);
    }
    if pw.len() > 0 {
        assert((pw + bw)[0] == pw[0]);
    }
    lemma_split_at_mark(tv, pv + bv, tw, pw + bw, sign);
    lemma_triple_text_injective(
        v.major as nat,
        v.minor as nat,
        v.patch as nat,
        w.major as nat,
        w.minor as nat,
        w.patch as nat,
    );
    let plus = |c: char| c == '+';
    if v.pre.len() > 0 {
        lemma_identifiers_text_no_plus(v.pre);
    }
    if w.pre.len() > 0 {
        lemma_identifiers_text_no_plus(w.pre);
    }
    assert forall|k: int| 0 <= k < pv.len() implies !plus(#[trigger] pv[k]) by {
        if k > 0 {
            assert(pv[k] == identifiers_text(v.pre)[k - 1]);
        }
    }
    assert forall|k: int| 0 <= k < pw.len() implies !plus(#[trigger] pw[k]) by {
        if k > 0 {
            assert(pw[k] == identifiers_text(w.pre)[k - 1]);
        }
    }
    lemma_split_at_mark(pv, bv, pw, bw, plus);
    if v.pre.len() > 0 && w.pre.len() > 0 {
        assert(identifiers_text(v.pre) =~= pv.skip(1));
        assert(identifiers_text(w.pre) =~= pw.skip(1));
        lemma_identifiers_text_injective(v.pre, w.pre);
    } else if v.pre.len() > 0 {
        assert(pv.len() > 0);
    } else if w.pre.len() > 0 {
        assert(pw.len() > 0);
    } else {
        assert(v.pre =~= w.pre);
    }
    if v.build.len() > 0 && w.build.len() > 0 {
        assert(identifiers_text(v.build) =~= bv.skip(1));
        assert(identifiers_text(w.build) =~= bw.skip(1));
        lemma_identifiers_text_injective(v.build, w.build);
    } else if v.build.len() > 0 {
        assert(bv.len() > 0);
    } else if w.build.len() > 0 {
        assert(bw.len() > 0);
    } else {
        assert(v.build =~= w.build);
    }
}

/// The text of a readable version reads back as that version: a version
/// whose pre-release and build identifiers are numbers, or hyphen-joined
/// alphanumeric chains that are not numbers.
pub proof fn lemma_version_reads_back(v: VersionView)
    requires
        readable_version(v),
    ensures
        semver_parse_spec(version_text(v)) == Some(v),
{
    let s = version_text(v);
    if v.pre.len() == 0 && v.build.len() == 0 {
        lemma_plain_version_reads_back(v.major, v.minor, v.patch);
        assert(v.pre =~= Seq::<IdentifierView>::empty());
        assert(v.build =~= Seq::<IdentifierView>::empty());
        assert(plain_version(v.major, v.minor, v.patch) == v);
        assert(version_text(plain_version(v.major, v.minor, v.patch)) == s);
    } else {
        let tv = triple_text(v.major as nat, v.minor as nat, v.patch as nat);
        let q = tv.len() as int;
        assert(s[q] == '-' || s[q] == '+');
        lemma_triple_chars(v.major as nat, v.minor as nat, v.patch as nat);
        if is_triple_text(s) {
            let t = choose|t: (u64, u64, u64)| s == triple_text(t.0 as nat, t.1 as nat, t.2 as nat);
            lemma_triple_chars(t.0 as nat, t.1 as nat, t.2 as nat);
            assert(s[q] == '.' || is_ascii_digit(s[q]));
        }
        assert(!no_sign_or_space(s));
        assert(readable_version(v) && version_text(v) == s);
        let w = choose|w: VersionView| readable_version(w) && #[trigger] version_text(w) == s;
        lemma_version_text_injective(v, w);
    }
}

/// In the text of three numbers, the first two dots stand right after the
/// first and the second number.
proof fn lemma_triple_dots(x: nat, y: nat, z: nat, i1: int, i2: int)
    requires
        0 <= i1 < i2 < triple_text(x, y, z).len(),
        triple_text(x, y, z)[i1] == '.',
        triple_text(x, y, z)[i2] == '.',
        forall|k: int| 0 <= k < i1 ==> #[trigger] triple_text(x, y, z)[k] != '.',
        forall|k: int| i1 < k < i2 ==> #[trigger] triple_text(x, y, z)[k] != '.',
    ensures
        i1 == decimal(x).len(),
        i2 == decimal(x).len() + 1 + decimal(y).len(),
        triple_text(x, y, z).subrange(0, i1) == decimal(x),
        triple_text(x, y, z).subrange(i1 + 1, i2) == decimal(y),
        triple_text(x, y, z).subrange(i2 + 1, triple_text(x, y, z).len() as int) == decimal(z),
{
    lemma_decimal(x);
    lemma_decimal(y);
    lemma_decimal(z);
    let t = triple_text(x, y, z);
    let a = decimal(x);
    let b = decimal(y);
    let c = decimal(z);
    let la = a.len() as int;
    let lb = b.len() as int;
    assert(t[la] == '.');
    assert(t[la + 1 + lb] == '.');
    if i1 < la {
        assert(t[i1] == a[i1]);
        assert(is_ascii_digit(a[i1]));
    }
    assert(i1 == la);
    if i2 < la + 1 + lb {
        assert(t[i2] == b[i2 - la - 1]);
        assert(is_ascii_digit(b[i2 - la - 1]));
    }
    if i2 > la + 1 + lb {
        assert(t[la + 1 + lb] != '.');
    }
    assert(t.subrange(0, i1) =~= a);
    assert(t.subrange(i1 + 1, i2) =~= b);
    assert(t.subrange(i2 + 1, t.len() as int) =~= c);
}

/// Where `i1` is the first dot of `t` (or its length) and `i2` the next
/// (or its length), `t` is the text of three numbers only if both dots are
/// there and the three parts between them are numerals.
proof fn lemma_triple_split(t: Seq<char>, i1: int, i2: int)
    requires
        0 <= i1 <= t.len(),
        i1 < t.len() ==> i1 < i2 <= t.len() && t[i1] == '.',
        i1 == t.len() ==> i2 == t.len(),
        i2 < t.len() ==> t[i2] == '.',
        forall|k: int| 0 <= k < i1 ==> #[trigger] t[k] != '.',
        forall|k: int| i1 < k < i2 ==> #[trigger] t[k] != '.',
    ensures
        is_triple_text(t) ==> i2 < t.len() && is_numeral(t.subrange(0, i1)) && is_numeral(
            t.subrange(i1 + 1, i2),
        ) && is_numeral(t.subrange(i2 + 1, t.len() as int)),
{
    if is_triple_text(t) {
        let w = choose|w: (u64, u64, u64)| t == triple_text(w.0 as nat, w.1 as nat, w.2 as nat);
        let (x, y, z) = w;
        lemma_decimal(x as nat);
        lemma_decimal(y as nat);
        let la = decimal(x as nat).len() as int;
        let lb = decimal(y as nat).len() as int;
        assert(t[la] == '.');
        assert(t[la + 1 + lb] == '.');
        if i1 < la {
            assert(t[i1] == decimal(x as nat)[i1]);
            assert(is_ascii_digit(decimal(x as nat)[i1]));
        }
        assert(i1 == la);
        if i2 > la + 1 + lb {
            assert(t[la + 1 + lb] != '.');
        }
        if i2 < la + 1 + lb {
            assert(t[i2] == decimal(y as nat)[i2 - la - 1]);
            assert(is_ascii_digit(decimal(y as nat)[i2 - la - 1]));
        }
        lemma_triple_dots(x as nat, y as nat, z as nat, i1, i2);
        assert(decimal(x as nat) == t.subrange(0, i1));
        assert(decimal(y as nat) == t.subrange(i1 + 1, i2));
        assert(decimal(z as nat) == t.subrange(i2 + 1, t.len() as int));
    }
}

/// Whether `v[lo..hi]` is the text of three `u64` numbers joined by dots.
pub fn triple_at(v: &Vec<char>, lo: usize, hi: usize) -> (r: bool)
    requires
        lo <= hi <= v@.len(),
    ensures
        r == is_triple_text(v@.subrange(lo as int, hi as int)),
{
    let ghost t = v@.subrange(lo as int, hi as int);
    let mut d1 = lo;
    while d1 < hi && v[d1] != '.'
        invariant
            lo <= d1 <= hi <= v@.len(),
            forall|k: int| lo <= k < d1 ==> #[trigger] v@[k] != '.',
        decreases hi - d1,
    {
        d1 += 1;
    }
    let mut d2 = if d1 < hi { d1 + 1 } else { hi };
    while d2 < hi && v[d2] != '.'
        invariant
            d1 <= d2 <= hi <= v@.len(),
            d1 < hi ==> d1 < d2,
            forall|k: int| d1 < k < d2 ==> #[trigger] v@[k] != '.',
        decreases hi - d2,
    {
        d2 += 1;
    }
    proof {
        let i1 = (d1 - lo) as int;
        let i2 = (d2 - lo) as int;
        assert forall|k: int| 0 <= k < i1 implies #[trigger] t[k] != '.' by {
            assert(t[k] == v@[lo + k]);
        }
        assert forall|k: int| i1 < k < i2 implies #[trigger] t[k] != '.' by {
            assert(t[k] == v@[lo + k]);
        }
        if d1 < hi {
            assert(t[i1] == v@[d1 as int]);
        }
        if d2 < hi {
            assert(t[i2] == v@[d2 as int]);
        }
        lemma_triple_split(t, i1, i2);
        assert(v@.subrange(lo as int, d1 as int) =~= t.subrange(0, i1));
        if d2 < hi {
            assert(v@.subrange(d1 + 1, d2 as int) =~= t.subrange(i1 + 1, i2));
            assert(v@.subrange(d2 + 1, hi as int) =~= t.subrange(i2 + 1, t.len() as int));
        }
    }
    if d2 == hi {
        return false;
    }
    let a = read_numeral(v, lo, d1);
    let b = read_numeral(v, d1 + 1, d2);
    let c = read_numeral(v, d2 + 1, hi);
    match (a, b, c) {
        (Some(x), Some(y), Some(z)) => {
            proof {
                let u = v@.subrange(lo as int, d1 as int) + seq!['.'] + v@.subrange(d1 + 1, d2 as int)
                    + seq!['.'] + v@.subrange(d2 + 1, hi as int);
                assert(t =~= u);
                let w = (x, y, z);
                assert(t == triple_text(w.0 as nat, w.1 as nat, w.2 as nat));
            }
            true
        },
        _ => false,
    }
}

} // verus!
