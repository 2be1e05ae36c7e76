//! Equality and precedence of versions, as `semver` defines them: build
//! metadata is ignored, a version without pre-release identifiers comes
//! after one with them, and pre-release identifiers compare in order,
//! numbers before alphanumerics.

use vstd::prelude::*;

use core::cmp::Ordering;
use vstd::std_specs::cmp::{PartialEqSpecImpl, PartialOrdSpecImpl};

use crate::chars::{chars_of, item, suffix_from};
use crate::version::{Identifier, IdentifierView, Version, VersionView};

verus! {

/// Equality of versions: the numbers and the pre-release identifiers agree.
pub open spec fn version_eq(v: VersionView, w: VersionView) -> bool {
    v.major == w.major && v.minor == w.minor && v.patch == w.patch && v.pre == w.pre
}

/// The order of two numbers.
pub open spec fn order_of_u64(a: u64, b: u64) -> Ordering {
    if a < b {
        Ordering::Less
    } else if a == b {
        Ordering::Equal
    } else {
        Ordering::Greater
    }
}

/// The order of two strings: character by character, a proper prefix first
/// (the byte order of UTF-8 text agrees with it).
pub open spec fn order_of_text(a: Seq<char>, b: Seq<char>) -> Ordering
    decreases a.len(),
{
    if a.len() == 0 {
        if b.len() == 0 {
            Ordering::Equal
        } else {
            Ordering::Less
        }
    } else if b.len() == 0 {
        Ordering::Greater
    } else if a[0] < b[0] {
        Ordering::Less
    } else if a[0] > b[0] {
        Ordering::Greater
    } else {
        order_of_text(a.drop_first(), b.drop_first())
    }
}

/// The order of two identifiers: numbers before alphanumerics.
pub open spec fn order_of_identifier(x: IdentifierView, y: IdentifierView) -> Ordering {
    match (x, y) {
        (IdentifierView::Numeric(a), IdentifierView::Numeric(b)) => order_of_u64(a, b),
        (IdentifierView::Numeric(_), IdentifierView::AlphaNumeric(_)) => Ordering::Less,
        (IdentifierView::AlphaNumeric(_), IdentifierView::Numeric(_)) => Ordering::Greater,
        (IdentifierView::AlphaNumeric(a), IdentifierView::AlphaNumeric(b)) => order_of_text(a, b),
    }
}

/// The order of two lists of identifiers: the first difference decides, a
/// proper prefix first.
pub open spec fn order_of_identifiers(xs: Seq<IdentifierView>, ys: Seq<IdentifierView>) -> Ordering
    decreases xs.len(),
{
    if xs.len() == 0 {
        if ys.len() == 0 {
            Ordering::Equal
        } else {
            Ordering::Less
        }
    } else if ys.len() == 0 {
        Ordering::Greater
    } else {
        match order_of_identifier(xs[0], ys[0]) {
            Ordering::Equal => order_of_identifiers(xs.drop_first(), ys.drop_first()),
            o => o,
        }
    }
}

/// The precedence of two versions: major, minor, patch, then the
/// pre-release identifiers, a version without them coming last.
pub open spec fn order_of_versions(v: VersionView, w: VersionView) -> Ordering {
    if v.major != w.major {
        order_of_u64(v.major, w.major)
    } else if v.minor != w.minor {
        order_of_u64(v.minor, w.minor)
    } else if v.patch != w.patch {
        order_of_u64(v.patch, w.patch)
    } else if v.pre.len() == 0 && w.pre.len() == 0 {
        Ordering::Equal
    } else if v.pre.len() == 0 {
        Ordering::Greater
    } else if w.pre.len() == 0 {
        Ordering::Less
    } else {
        order_of_identifiers(v.pre, w.pre)
    }
}

fn compare_u64(a: u64, b: u64) -> (r: Ordering)
    ensures
        r == order_of_u64(a, b),
{
    if a < b {
        Ordering::Less
    } else if a == b {
        Ordering::Equal
    } else {
        Ordering::Greater
    }
}

fn compare_text(a: &String, b: &String) -> (r: Ordering)
    ensures
        r == order_of_text(a@, b@),
{
    let x = chars_of(a.as_str());
    let y = chars_of(b.as_str());
    let mut i: usize = 0;
    assert(suffix_from(x@, 0) == x@);
    assert(suffix_from(y@, 0) == y@);
    while i < x.len() && i < y.len() && x[i] == y[i]
        invariant
            i <= x@.len(),
            i <= y@.len(),
            x@ == a@,
            y@ == b@,
            order_of_text(a@, b@) == order_of_text(suffix_from(x@, i), suffix_from(y@, i)),
        decreases x@.len() - i,
    {
        assert(suffix_from(x@, i).drop_first() == x@.skip(i + 1));
        assert(suffix_from(y@, i).drop_first() == y@.skip(i + 1));
        i += 1;
    }
    if i == x.len() {
        if i == y.len() {
            Ordering::Equal
        } else {
            Ordering::Less
        }
    } else if i == y.len() {
        Ordering::Greater
    } else if x[i] < y[i] {
        Ordering::Less
    } else {
        Ordering::Greater
    }
}

fn compare_identifier(x: &Identifier, y: &Identifier) -> (r: Ordering)
    ensures
        r == order_of_identifier(x@, y@),
{
    match (x, y) {
        (Identifier::Numeric(a), Identifier::Numeric(b)) => compare_u64(*a, *b),
        (Identifier::Numeric(_), Identifier::AlphaNumeric(_)) => Ordering::Less,
        (Identifier::AlphaNumeric(_), Identifier::Numeric(_)) => Ordering::Greater,
        (Identifier::AlphaNumeric(a), Identifier::AlphaNumeric(b)) => compare_text(a, b),
    }
}

fn compare_identifiers(xs: &Vec<Identifier>, ys: &Vec<Identifier>) -> (r: Ordering)
    ensures
        r == order_of_identifiers(
            xs@.map_values(|i: Identifier| i@),
            ys@.map_values(|i: Identifier| i@),
        ),
{
    let ghost vx = xs@.map_values(|i: Identifier| i@);
    let ghost vy = ys@.map_values(|i: Identifier| i@);
    let mut i: usize = 0;
    assert(suffix_from(vx, 0) == vx);
    assert(suffix_from(vy, 0) == vy);
    while i < xs.len() && i < ys.len()
        invariant
            i <= xs@.len(),
            i <= ys@.len(),
            vx == xs@.map_values(|i: Identifier| i@),
            vy == ys@.map_values(|i: Identifier| i@),
            order_of_identifiers(vx, vy) == order_of_identifiers(suffix_from(vx, i), suffix_from(vy, i)),
        decreases xs@.len() - i,
    {
        let o = compare_identifier(&xs[i], &ys[i]);
        assert(suffix_from(vx, i)[0] == item(xs@, i)@);
        assert(suffix_from(vy, i)[0] == item(ys@, i)@);
        match o {
            Ordering::Equal => {},
            _ => {
                return o;
            },
        }
        assert(suffix_from(vx, i).drop_first() == vx.skip(i + 1));
        assert(suffix_from(vy, i).drop_first() == vy.skip(i + 1));
        i += 1;
    }
    if i == xs.len() {
        if i == ys.len() {
            Ordering::Equal
        } else {
            Ordering::Less
        }
    } else {
        Ordering::Greater
    }
}

fn identifiers_equal(xs: &Vec<Identifier>, ys: &Vec<Identifier>) -> (r: bool)
    ensures
        r == (xs@.map_values(|i: Identifier| i@) == ys@.map_values(|i: Identifier| i@)),
{
    let ghost vx = xs@.map_values(|i: Identifier| i@);
    let ghost vy = ys@.map_values(|i: Identifier| i@);
    if xs.len() != ys.len() {
        assert(vx.len() != vy.len());
        return false;
    }
    let mut i: usize = 0;
    while i < xs.len()
        invariant
            i <= xs@.len() == ys@.len(),
            vx == xs@.map_values(|i: Identifier| i@),
            vy == ys@.map_values(|i: Identifier| i@),
            forall|j: int| 0 <= j < i ==> vx[j] == vy[j],
        decreases xs@.len() - i,
    {
        let same = match (&xs[i], &ys[i]) {
            (Identifier::Numeric(a), Identifier::Numeric(b)) => *a == *b,
            (Identifier::AlphaNumeric(a), Identifier::AlphaNumeric(b)) => *a == *b,
            _ => false,
        };
        assert(item(vx, i) == item(xs@, i)@);
        assert(item(vy, i) == item(ys@, i)@);
        if !same {
            return false;
        }
        i += 1;
    }
    assert(vx =~= vy);
    true
}

/// The order seen from the other side.
pub open spec fn flipped(o: Ordering) -> Ordering {
    match o {
        Ordering::Less => Ordering::Greater,
        Ordering::Equal => Ordering::Equal,
        Ordering::Greater => Ordering::Less,
    }
}

proof fn lemma_text_order(a: Seq<char>, b: Seq<char>)
    ensures
        (order_of_text(a, b) == Ordering::Equal) <==> a == b,
        order_of_text(a, b) == flipped(order_of_text(b, a)),
    decreases a.len(),
{
    if a.len() > 0 && b.len() > 0 && a[0] == b[0] {
        lemma_text_order(a.drop_first(), b.drop_first());
        if a.drop_first() == b.drop_first() {
            assert(a =~= seq![a[0]] + a.drop_first());
            assert(b =~= seq![b[0]] + b.drop_first());
        }
        if a == b {
            assert(a.drop_first() == b.drop_first());
        }
    } else if a.len() > 0 && b.len() > 0 {
        assert(a != b);
    } else if a.len() == 0 && b.len() == 0 {
        assert(a =~= b);
    } else {
        assert(a.len() != b.len());
    }
}

proof fn lemma_identifier_order(x: IdentifierView, y: IdentifierView)
    ensures
        (order_of_identifier(x, y) == Ordering::Equal) <==> x == y,
        order_of_identifier(x, y) == flipped(order_of_identifier(y, x)),
{
    match (x, y) {
        (IdentifierView::AlphaNumeric(a), IdentifierView::AlphaNumeric(b)) => {
            lemma_text_order(a, b);
        },
        _ => {},
    }
}

proof fn lemma_identifiers_order(xs: Seq<IdentifierView>, ys: Seq<IdentifierView>)
    ensures
        (order_of_identifiers(xs, ys) == Ordering::Equal) <==> xs == ys,
        order_of_identifiers(xs, ys) == flipped(order_of_identifiers(ys, xs)),
    decreases xs.len(),
{
    if xs.len() > 0 && ys.len() > 0 {
        lemma_identifier_order(xs[0], ys[0]);
        lemma_identifiers_order(xs.drop_first(), ys.drop_first());
        if xs[0] == ys[0] && xs.drop_first() == ys.drop_first() {
            assert(xs =~= seq![xs[0]] + xs.drop_first());
            assert(ys =~= seq![ys[0]] + ys.drop_first());
        }
        if xs == ys {
            assert(xs.drop_first() == ys.drop_first());
        }
    } else if xs.len() == 0 && ys.len() == 0 {
        assert(xs =~= ys);
    } else {
        assert(xs.len() != ys.len());
    }
}

/// Versions are equal exactly when neither precedes the other, and the
/// precedence seen from the other side is reversed.
pub proof fn lemma_version_order(v: VersionView, w: VersionView)
    ensures
        (order_of_versions(v, w) == Ordering::Equal) <==> version_eq(v, w),
        order_of_versions(v, w) == flipped(order_of_versions(w, v)),
{
    lemma_identifiers_order(v.pre, w.pre);
    if v.pre.len() == 0 && w.pre.len() == 0 {
        assert(v.pre =~= w.pre);
    }
}

proof fn lemma_text_order_transitive(a: Seq<char>, b: Seq<char>, c: Seq<char>)
    requires
        order_of_text(a, b) == Ordering::Less,
        order_of_text(b, c) == Ordering::Less,
    ensures
        order_of_text(a, c) == Ordering::Less,
    decreases a.len(),
{
    if a.len() > 0 && b.len() > 0 && c.len() > 0 && a[0] == b[0] && b[0] == c[0] {
        lemma_text_order_transitive(a.drop_first(), b.drop_first(), c.drop_first());
    }
}

proof fn lemma_identifier_order_transitive(x: IdentifierView, y: IdentifierView, z: IdentifierView)
    requires
        order_of_identifier(x, y) == Ordering::Less,
        order_of_identifier(y, z) == Ordering::Less,
    ensures
        order_of_identifier(x, z) == Ordering::Less,
{
    match (x, y, z) {
        (
            IdentifierView::AlphaNumeric(a),
            IdentifierView::AlphaNumeric(b),
            IdentifierView::AlphaNumeric(c),
        ) => {
            lemma_text_order_transitive(a, b, c);
        },
        _ => {},
    }
}

proof fn lemma_identifiers_order_transitive(
    xs: Seq<IdentifierView>,
    ys: Seq<IdentifierView>,
    zs: Seq<IdentifierView>,
)
    requires
        order_of_identifiers(xs, ys) == Ordering::Less,
        order_of_identifiers(ys, zs) == Ordering::Less,
    ensures
        order_of_identifiers(xs, zs) == Ordering::Less,
    decreases xs.len(),
{
    if xs.len() > 0 && ys.len() > 0 && zs.len() > 0 {
        lemma_identifier_order(xs[0], ys[0]);
        lemma_identifier_order(ys[0], zs[0]);
        lemma_identifier_order(xs[0], zs[0]);
        let o1 = order_of_identifier(xs[0], ys[0]);
        let o2 = order_of_identifier(ys[0], zs[0]);
        if o1 == Ordering::Equal && o2 == Ordering::Equal {
            lemma_identifiers_order_transitive(xs.drop_first(), ys.drop_first(), zs.drop_first());
        } else if o1 == Ordering::Less && o2 == Ordering::Less {
            lemma_identifier_order_transitive(xs[0], ys[0], zs[0]);
        }
    }
}

/// Precedence is transitive.
pub proof fn lemma_version_order_transitive(u: VersionView, v: VersionView, w: VersionView)
    requires
        order_of_versions(u, v) == Ordering::Less,
        order_of_versions(v, w) == Ordering::Less,
    ensures
        order_of_versions(u, w) == Ordering::Less,
{
    if u.major == v.major && v.major == w.major && u.minor == v.minor && v.minor == w.minor
        && u.patch == v.patch && v.patch == w.patch && u.pre.len() > 0 && v.pre.len() > 0
        && w.pre.len() > 0 {
        lemma_identifiers_order_transitive(u.pre, v.pre, w.pre);
    }
}

/// Text orders as strings: a proper prefix comes first.
pub proof fn lemma_text_prefix_first(a: Seq<char>, b: Seq<char>)
    requires
        a.len() < b.len(),
        forall|i: int| 0 <= i < a.len() ==> a[i] == b[i],
    ensures
        order_of_text(a, b) == Ordering::Less,
    decreases a.len(),
{
    if a.len() > 0 {
        assert(a[0] == b[0]);
        let a1 = a.drop_first();
        let b1 = b.drop_first();
        assert forall|i: int| 0 <= i < a1.len() implies a1[i] == b1[i] by {
            assert(a[i + 1] == b[i + 1]);
        }
        lemma_text_prefix_first(a1, b1);
    }
}

/// Text orders as strings: the first character in which two texts differ
/// decides.
pub proof fn lemma_text_first_difference(a: Seq<char>, b: Seq<char>, k: int)
    requires
        0 <= k < a.len(),
        k < b.len(),
        forall|i: int| 0 <= i < k ==> a[i] == b[i],
        a[k] < b[k],
    ensures
        order_of_text(a, b) == Ordering::Less,
    decreases k,
{
    if k > 0 {
        assert(a[0] == b[0]);
        let a1 = a.drop_first();
        let b1 = b.drop_first();
        assert forall|i: int| 0 <= i < k - 1 implies a1[i] == b1[i] by {
            assert(a[i + 1] == b[i + 1]);
        }
        assert(a1[k - 1] == a[k] && b1[k - 1] == b[k]);
        lemma_text_first_difference(a1, b1, k - 1);
    }
}

/// Lists of identifiers order as sequences: a proper prefix comes first.
pub proof fn lemma_identifiers_prefix_first(xs: Seq<IdentifierView>, ys: Seq<IdentifierView>)
    requires
        xs.len() < ys.len(),
        forall|i: int| 0 <= i < xs.len() ==> xs[i] == ys[i],
    ensures
        order_of_identifiers(xs, ys) == Ordering::Less,
    decreases xs.len(),
{
    if xs.len() > 0 {
        assert(xs[0] == ys[0]);
        lemma_identifier_order(xs[0], ys[0]);
        let x1 = xs.drop_first();
        let y1 = ys.drop_first();
        assert forall|i: int| 0 <= i < x1.len() implies x1[i] == y1[i] by {
            assert(xs[i + 1] == ys[i + 1]);
        }
        lemma_identifiers_prefix_first(x1, y1);
    }
}

/// Lists of identifiers order as sequences: the first identifier in which
/// they differ decides.
pub proof fn lemma_identifiers_first_difference(xs: Seq<IdentifierView>, ys: Seq<IdentifierView>, k: int)
    requires
        0 <= k < xs.len(),
        k < ys.len(),
        forall|i: int| 0 <= i < k ==> xs[i] == ys[i],
        order_of_identifier(xs[k], ys[k]) == Ordering::Less,
    ensures
        order_of_identifiers(xs, ys) == Ordering::Less,
    decreases k,
{
    if k > 0 {
        assert(xs[0] == ys[0]);
        lemma_identifier_order(xs[0], ys[0]);
        let x1 = xs.drop_first();
        let y1 = ys.drop_first();
        assert forall|i: int| 0 <= i < k - 1 implies x1[i] == y1[i] by {
            assert(xs[i + 1] == ys[i + 1]);
        }
        assert(x1[k - 1] == xs[k] && y1[k - 1] == ys[k]);
        lemma_identifiers_first_difference(x1, y1, k - 1);
    }
}

/// Equal versions have the same numbers and pre-release identifiers, and
/// versions that differ only in build metadata are equal.
pub proof fn lemma_version_eq_meaning(v: VersionView, w: VersionView)
    ensures
        version_eq(v, w) ==> v.major == w.major && v.minor == w.minor && v.patch == w.patch && v.pre == w.pre,
        (v.major == w.major && v.minor == w.minor && v.patch == w.patch && v.pre == w.pre) ==> version_eq(v, w),
        version_eq(v, v),
        version_eq(v, w) == version_eq(w, v),
{
}

/// Precedence of versions goes by the major number first, then the minor,
/// then the patch, whatever the pre-release identifiers.
pub proof fn lemma_version_numbers_order(v: VersionView, w: VersionView)
    ensures
        v.major < w.major ==> order_of_versions(v, w) == Ordering::Less,
        v.major == w.major && v.minor < w.minor ==> order_of_versions(v, w) == Ordering::Less,
        v.major == w.major && v.minor == w.minor && v.patch < w.patch ==> order_of_versions(v, w)
            == Ordering::Less,
{
}

/// Identifiers order numbers before alphanumerics and numbers by value.
pub proof fn lemma_numeric_identifier_order(a: u64, b: u64, t: Seq<char>)
    ensures
        order_of_identifier(IdentifierView::Numeric(a), IdentifierView::AlphaNumeric(t)) == Ordering::Less,
        (order_of_identifier(IdentifierView::Numeric(a), IdentifierView::Numeric(b)) == Ordering::Less) <==> a < b,
{
}

/// Alphanumeric identifiers order as strings: a proper prefix first (`rc`
/// before `rc1`), else the first character in which they differ decides.
pub proof fn lemma_alphanumeric_identifier_order(a: Seq<char>, b: Seq<char>, k: int)
    ensures
        (a.len() < b.len() && forall|i: int| 0 <= i < a.len() ==> a[i] == b[i]) ==> order_of_identifier(
            IdentifierView::AlphaNumeric(a),
            IdentifierView::AlphaNumeric(b),
        ) == Ordering::Less,
        (0 <= k < a.len() && k < b.len() && (forall|i: int| 0 <= i < k ==> a[i] == b[i]) && a[k] < b[k])
            ==> order_of_identifier(IdentifierView::AlphaNumeric(a), IdentifierView::AlphaNumeric(b))
            == Ordering::Less,
{
    if a.len() < b.len() && forall|i: int| 0 <= i < a.len() ==> a[i] == b[i] {
        lemma_text_prefix_first(a, b);
    }
    if 0 <= k < a.len() && k < b.len() && (forall|i: int| 0 <= i < k ==> a[i] == b[i]) && a[k] < b[k] {
        lemma_text_first_difference(a, b, k);
    }
}

/// Precedence of versions with the same three numbers and pre-release
/// identifiers: a release comes after each of its pre-releases; a proper
/// prefix of the identifiers comes first; otherwise the first identifier in
/// which they differ decides, numbers before alphanumerics, numbers by
/// value, alphanumerics as strings (so `1.0.0-rc` precedes `1.0.0-rc1`).
pub proof fn lemma_pre_release_order(v: VersionView, w: VersionView, k: int)
    requires
        v.major == w.major && v.minor == w.minor && v.patch == w.patch,
    ensures
        v.pre.len() > 0 && w.pre.len() == 0 ==> order_of_versions(v, w) == Ordering::Less,
        (0 < v.pre.len() < w.pre.len() && forall|i: int| 0 <= i < v.pre.len() ==> v.pre[i] == w.pre[i])
            ==> order_of_versions(v, w) == Ordering::Less,
        (0 <= k < v.pre.len() && k < w.pre.len() && (forall|i: int| 0 <= i < k ==> v.pre[i] == w.pre[i])
            && order_of_identifier(v.pre[k], w.pre[k]) == Ordering::Less) ==> order_of_versions(v, w)
            == Ordering::Less,
{
    if 0 < v.pre.len() < w.pre.len() && forall|i: int| 0 <= i < v.pre.len() ==> v.pre[i] == w.pre[i] {
        lemma_identifiers_prefix_first(v.pre, w.pre);
    }
    if 0 <= k < v.pre.len() && k < w.pre.len() && (forall|i: int| 0 <= i < k ==> v.pre[i] == w.pre[i]) {
        if order_of_identifier(v.pre[k], w.pre[k]) == Ordering::Less {
            lemma_identifiers_first_difference(v.pre, w.pre, k);
        }
    }
}

impl PartialEq for Version {
    /// Versions are equal when their numbers and pre-release identifiers
    /// are; build metadata is ignored.
    fn eq(&self, other: &Version) -> (r: bool) {
        self.major == other.major && self.minor == other.minor && self.patch == other.patch
            && identifiers_equal(&self.pre, &other.pre)
    }
}

impl PartialEqSpecImpl for Version {
    open spec fn obeys_eq_spec() -> bool {
        true
    }

    open spec fn eq_spec(&self, other: &Version) -> bool {
        version_eq(self@, other@)
    }
}

impl Eq for Version {

}

impl PartialOrd for Version {
    /// The precedence of versions, always defined.
    fn partial_cmp(&self, other: &Version) -> (r: Option<Ordering>) {
        let o = if self.major != other.major {
            compare_u64(self.major, other.major)
        } else if self.minor != other.minor {
            compare_u64(self.minor, other.minor)
        } else if self.patch != other.patch {
            compare_u64(self.patch, other.patch)
        } else if self.pre.len() == 0 && other.pre.len() == 0 {
            Ordering::Equal
        } else if self.pre.len() == 0 {
            Ordering::Greater
        } else if other.pre.len() == 0 {
            Ordering::Less
        } else {
            compare_identifiers(&self.pre, &other.pre)
        };
        Some(o)
    }
}

impl PartialOrdSpecImpl for Version {
    open spec fn obeys_partial_cmp_spec() -> bool {
        true
    }

    open spec fn partial_cmp_spec(&self, other: &Version) -> Option<Ordering> {
        Some(order_of_versions(self@, other@))
    }
}

} // verus!
