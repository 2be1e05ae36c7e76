//! What holds of every mount table that is read from a manifest, and that
//! writing such a table and reading it back gives the same table.

use vstd::prelude::*;

use crate::mounts::{
    dev_path, entry_mount, has_path, has_persist, lemma_resource_match, mounts_from, mounts_step, resource_spec,
    resource_text, source_of, sources_from, MountView, SourceView,
};
use crate::path::same_path;
use crate::resource::{
    leftmost_first, match_at,
    preferred, resource_match,
};
use crate::version::{is_triple_text, lexer_space, no_sign_or_space, plain_version, semver_parse_spec, triple_text, version_text};

verus! {

/// Reading the text that a resource mount is written as gives the mount back.
pub open spec fn resource_reads_back(m: MountView) -> bool {
    m matches MountView::Resource { name, version, dir } ==> resource_spec(
        resource_text(name, version, dir),
    ) == Ok::<MountView, crate::mounts::MountErrorView>(m)
}

/// A mount table as reading a manifest leaves it: no two mounts on the same
/// path, at most one persist mount, a dev mount exactly at `/dev`, and each
/// resource mount reads back from the text it is written as.
pub open spec fn valid_table(ms: Seq<(Seq<char>, MountView)>) -> bool {
    &&& forall|i: int, j: int|
        0 <= i < j < ms.len() ==> !same_path(#[trigger] ms[i].0, #[trigger] ms[j].0)
    &&& forall|i: int, j: int|
        0 <= i < j < ms.len() ==> !(#[trigger] ms[i].1 is Persist && #[trigger] ms[j].1 is Persist)
    &&& forall|i: int| 0 <= i < ms.len() ==> (#[trigger] ms[i].0 == dev_path() <==> ms[i].1 is Dev)
    &&& forall|i: int| 0 <= i < ms.len() ==> resource_reads_back(#[trigger] ms[i].1)
}

/// A match at `q` in a piece of `s` that starts at `p` is a match at `p + q`
/// in `s`.
proof fn lemma_match_in_piece(s: Seq<char>, p: int, l: int, q: int, a: int, b: int, c: int, d: int, e: int)
    requires
        0 <= p,
        0 <= l,
        p + l <= s.len(),
        match_at(s.subrange(p, p + l), q, a, b, c, d, e),
    ensures
        match_at(s, p + q, a, b, c, d, e),
{
    let t = s.subrange(p, p + l);
    assert forall|i: int| p + q <= i < p + q + a implies #[trigger] crate::resource::name_class(s[i]) by {
        assert(s[i] == t[i - p]);
        assert(crate::resource::name_class(t[i - p]));
    }
    assert(s[p + q + a] == t[q + a]);
    assert forall|i: int| p + q + a + 1 <= i < p + q + a + 1 + b implies #[trigger] crate::chars::digit_class(s[i]) by {
        assert(s[i] == t[i - p]);
        assert(crate::chars::digit_class(t[i - p]));
    }
    assert(s[p + q + a + 1 + b] == t[q + a + 1 + b]);
    assert forall|i: int| p + q + a + 2 + b <= i < p + q + a + 2 + b + c implies #[trigger] crate::chars::digit_class(s[i]) by {
        assert(s[i] == t[i - p]);
        assert(crate::chars::digit_class(t[i - p]));
    }
    assert(s[p + q + a + 2 + b + c] == t[q + a + 2 + b + c]);
    assert forall|i: int| p + q + a + 3 + b + c <= i < p + q + a + 3 + b + c + d implies #[trigger] crate::chars::digit_class(s[i]) by {
        assert(s[i] == t[i - p]);
        assert(crate::chars::digit_class(t[i - p]));
    }
    assert forall|i: int| p + q + a + 3 + b + c + d <= i < p + q + a + 3 + b + c + d + e implies #[trigger] crate::resource::dir_class(s[i]) by {
        assert(s[i] == t[i - p]);
        assert(crate::resource::dir_class(t[i - p]));
    }
}

/// The matched piece of `s`, taken alone, has the same match at its start.
proof fn lemma_match_alone(s: Seq<char>, m: (int, int, int, int, int, int))
    requires
        leftmost_first(s, m),
    ensures
        leftmost_first(
            s.subrange(m.0, m.0 + m.1 + m.2 + m.3 + m.4 + m.5 + 3),
            (0, m.1, m.2, m.3, m.4, m.5),
        ),
{
    let (p, a, b, c, d, e) = m;
    let l = a + b + c + d + e + 3;
    let t = s.subrange(p, p + l);
    assert(match_at(s, p, a, b, c, d, e));
    assert forall|i: int| 0 <= i < a implies #[trigger] crate::resource::name_class(t[i]) by {
        assert(t[i] == s[p + i]);
        assert(crate::resource::name_class(s[p + i]));
    }
    assert forall|i: int| a + 1 <= i < a + 1 + b implies #[trigger] crate::chars::digit_class(t[i]) by {
        assert(t[i] == s[p + i]);
        assert(crate::chars::digit_class(s[p + i]));
    }
    assert forall|i: int| a + 2 + b <= i < a + 2 + b + c implies #[trigger] crate::chars::digit_class(t[i]) by {
        assert(t[i] == s[p + i]);
        assert(crate::chars::digit_class(s[p + i]));
    }
    assert forall|i: int| a + 3 + b + c <= i < a + 3 + b + c + d implies #[trigger] crate::chars::digit_class(t[i]) by {
        assert(t[i] == s[p + i]);
        assert(crate::chars::digit_class(s[p + i]));
    }
    assert forall|i: int| a + 3 + b + c + d <= i < a + 3 + b + c + d + e implies #[trigger] crate::resource::dir_class(t[i]) by {
        assert(t[i] == s[p + i]);
        assert(crate::resource::dir_class(s[p + i]));
    }
    assert(t[a] == s[p + a]);
    assert(t[a + 1 + b] == s[p + a + 1 + b]);
    assert(t[a + 2 + b + c] == s[p + a + 2 + b + c]);
    assert(match_at(t, 0, a, b, c, d, e));
    assert forall|q: int, a2: int, b2: int, c2: int, d2: int, e2: int|
        #[trigger] match_at(t, q, a2, b2, c2, d2, e2) implies 0 <= q by {
    }
    assert forall|a2: int, b2: int, c2: int, d2: int, e2: int|
        #[trigger] match_at(t, 0, a2, b2, c2, d2, e2) implies !preferred(a, b, c, d, e, a2, b2, c2, d2, e2) by {
        lemma_match_in_piece(s, p, l, 0, a2, b2, c2, d2, e2);
    }
}

/// The match that [`resource_match`] names is the leftmost-first one.
proof fn lemma_resource_match_is_leftmost_first(s: Seq<char>)
    ensures
        resource_match(s) matches Some(m) ==> leftmost_first(s, m),
{
}

/// A resource that was read from some text reads back from the text it is
/// written as: the version group holds only digits and dots, so the version
/// is written as that same text, and the written text is the matched piece,
/// in which the same match is the leftmost-first one.
pub proof fn lemma_resource_reads_back(s: Seq<char>)
    requires
        resource_spec(s) is Ok,
    ensures
        resource_reads_back(resource_spec(s)->Ok_0),
{
    lemma_resource_match_is_leftmost_first(s);
    let m = resource_match(s)->Some_0;
    let (p, a, b, c, d, e) = m;
    assert(match_at(s, p, a, b, c, d, e));
    let name = s.subrange(p, p + a);
    let ver = s.subrange(p + a + 1, p + a + 3 + b + c + d);
    let dir = s.subrange(p + a + 3 + b + c + d, p + a + 3 + b + c + d + e);
    let v = semver_parse_spec(ver)->Some_0;
    assert(no_sign_or_space(ver)) by {
        assert forall|i: int| 0 <= i < ver.len() implies !(#[trigger] ver[i] == '-' || ver[i] == '+'
            || lexer_space(ver[i])) by {
            assert(ver[i] == s[p + a + 1 + i]);
            if i != b && i != b + 1 + c {
                assert(crate::chars::digit_class(s[p + a + 1 + i]));
            }
        }
    }
    assert(is_triple_text(ver));
    let tr = choose|tr: (u64, u64, u64)| ver == triple_text(tr.0 as nat, tr.1 as nat, tr.2 as nat);
    assert(v == plain_version(tr.0, tr.1, tr.2));
    assert(version_text(v) =~= ver);
    let l = a + b + c + d + e + 3;
    let t = s.subrange(p, p + l);
    assert(resource_text(name, v, dir) =~= t);
    lemma_match_alone(s, m);
    lemma_resource_match(t, (0, a, b, c, d, e));
    assert(t.subrange(0, a) =~= name);
    assert(t.subrange(a + 1, a + 3 + b + c + d) =~= ver);
    assert(t.subrange(a + 3 + b + c + d, a + 3 + b + c + d + e) =~= dir);
}

/// One more entry keeps a table valid.
pub proof fn lemma_step_keeps_valid(ms: Seq<(Seq<char>, MountView)>, entry: (Seq<char>, SourceView))
    requires
        valid_table(ms),
        mounts_step(ms, entry) is Ok,
    ensures
        valid_table(mounts_step(ms, entry)->Ok_0),
{
    let (t, src) = entry;
    let m = entry_mount(t, src, has_persist(ms))->Ok_0;
    let next = ms.push((t, m));
    assert(mounts_step(ms, entry)->Ok_0 == next);
    let n = ms.len() as int;
    assert(next[n] == (t, m));
    assert forall|i: int, j: int| 0 <= i < j < next.len() implies !same_path(#[trigger] next[i].0, #[trigger] next[j].0) by {
        assert(next[i] == ms[i]);
        if j < n {
            assert(next[j] == ms[j]);
        } else {
            assert(!has_path(ms, t));
            assert(!same_path(ms[i].0, t));
        }
    }
    assert forall|i: int, j: int| 0 <= i < j < next.len() implies !(#[trigger] next[i].1 is Persist && #[trigger] next[j].1 is Persist) by {
        assert(next[i] == ms[i]);
        if j < n {
            assert(next[j] == ms[j]);
        } else if m is Persist {
            assert(!has_persist(ms));
            if ms[i].1 is Persist {
                assert(ms[i].1 == MountView::Persist);
            }
        }
    }
    assert forall|i: int| 0 <= i < next.len() implies (#[trigger] next[i].0 == dev_path() <==> next[i].1 is Dev) by {
        if i < n {
            assert(next[i] == ms[i]);
        }
    }
    assert forall|i: int| 0 <= i < next.len() implies resource_reads_back(#[trigger] next[i].1) by {
        if i < n {
            assert(next[i] == ms[i]);
        } else if m is Resource {
            if let SourceView::Resource { resource } = src {
                lemma_resource_reads_back(resource);
            }
        }
    }
}

/// The entries `rest` keep a valid table valid.
proof fn lemma_entries_keep_valid(ms: Seq<(Seq<char>, MountView)>, rest: Seq<(Seq<char>, SourceView)>)
    requires
        valid_table(ms),
        mounts_from(ms, rest) is Ok,
    ensures
        valid_table(mounts_from(ms, rest)->Ok_0),
    decreases rest.len(),
{
    if rest.len() > 0 {
        lemma_step_keeps_valid(ms, rest[0]);
        lemma_entries_keep_valid(mounts_step(ms, rest[0])->Ok_0, rest.drop_first());
    }
}

/// Every mount table read from a manifest's entries is valid: no two mounts
/// on the same path, at most one persist mount, a dev mount exactly at
/// `/dev`, and resources that read back from their text.
pub proof fn lemma_read_table_is_valid(entries: Seq<(Seq<char>, SourceView)>)
    requires
        mounts_from(Seq::empty(), entries) is Ok,
    ensures
        valid_table(mounts_from(Seq::empty(), entries)->Ok_0),
{
    lemma_entries_keep_valid(Seq::empty(), entries);
}

/// The entry written for the mount at index `i` of a valid table.
pub open spec fn written_entry(ms: Seq<(Seq<char>, MountView)>, i: int) -> (Seq<char>, SourceView) {
    (ms[i].0, source_of(ms[i].0, ms[i].1)->Ok_0)
}

/// The entries written for a valid table.
pub open spec fn written_entries(ms: Seq<(Seq<char>, MountView)>) -> Seq<(Seq<char>, SourceView)> {
    Seq::new(ms.len(), |i: int| written_entry(ms, i))
}

/// Each mount of a valid table can be written, and its entry, read after
/// the mounts before it, gives it back.
proof fn lemma_entry_reads_back(ms: Seq<(Seq<char>, MountView)>, i: int)
    requires
        valid_table(ms),
        0 <= i < ms.len(),
    ensures
        source_of(ms[i].0, ms[i].1) is Ok,
        mounts_step(ms.take(i), written_entry(ms, i)) == Ok::<Seq<(Seq<char>, MountView)>, crate::mounts::MountErrorView>(ms.take(i + 1)),
{
    let (t, m) = ms[i];
    let pre = ms.take(i);
    assert(t == dev_path() <==> m is Dev);
    assert(resource_reads_back(m));
    let src = source_of(t, m)->Ok_0;
    if m is Persist {
        assert forall|j: int| 0 <= j < pre.len() implies !(#[trigger] pre[j].1 == MountView::Persist) by {
            assert(pre[j] == ms[j]);
            assert(!(ms[j].1 is Persist && ms[i].1 is Persist));
        }
        assert(!has_persist(pre));
    }
    assert(entry_mount(t, src, has_persist(pre)) == Ok::<MountView, crate::mounts::MountErrorView>(m));
    assert forall|j: int| 0 <= j < pre.len() implies !same_path(#[trigger] pre[j].0, t) by {
        assert(pre[j] == ms[j]);
        assert(!same_path(ms[j].0, ms[i].0));
    }
    assert(!has_path(pre, t));
    assert(pre.push((t, m)) =~= ms.take(i + 1));
}

/// Writing the mounts from index `k` on, after the entries already written,
/// gives all the written entries.
proof fn lemma_write_from(ms: Seq<(Seq<char>, MountView)>, k: int)
    requires
        valid_table(ms),
        0 <= k <= ms.len(),
    ensures
        sources_from(written_entries(ms).take(k), ms.skip(k)) == Ok::<Seq<(Seq<char>, SourceView)>, crate::mounts::MountErrorView>(written_entries(ms)),
    decreases ms.len() - k,
{
    let w = written_entries(ms);
    if k == ms.len() {
        assert(ms.skip(k).len() == 0);
        assert(w.take(k) =~= w);
    } else {
        lemma_entry_reads_back(ms, k);
        lemma_write_from(ms, k + 1);
        assert(ms.skip(k)[0] == ms[k]);
        assert(ms.skip(k).drop_first() =~= ms.skip(k + 1));
        assert(w.take(k).push((ms[k].0, source_of(ms[k].0, ms[k].1)->Ok_0)) =~= w.take(k + 1));
    }
}

/// Reading the written entries from index `k` on, after the mounts before
/// `k`, gives the whole table.
proof fn lemma_read_from(ms: Seq<(Seq<char>, MountView)>, k: int)
    requires
        valid_table(ms),
        0 <= k <= ms.len(),
    ensures
        mounts_from(ms.take(k), written_entries(ms).skip(k)) == Ok::<Seq<(Seq<char>, MountView)>, crate::mounts::MountErrorView>(ms),
    decreases ms.len() - k,
{
    let w = written_entries(ms);
    if k == ms.len() {
        assert(w.skip(k).len() == 0);
        assert(ms.take(k) =~= ms);
    } else {
        lemma_entry_reads_back(ms, k);
        lemma_read_from(ms, k + 1);
        assert(w.skip(k)[0] == written_entry(ms, k));
        assert(w.skip(k).drop_first() =~= w.skip(k + 1));
    }
}

/// Writing a valid mount table succeeds, and reading what was written gives
/// the same table back.
pub proof fn lemma_valid_table_round_trip(ms: Seq<(Seq<char>, MountView)>)
    requires
        valid_table(ms),
    ensures
        sources_from(Seq::empty(), ms) is Ok,
        mounts_from(Seq::empty(), sources_from(Seq::empty(), ms)->Ok_0) == Ok::<
            Seq<(Seq<char>, MountView)>,
            crate::mounts::MountErrorView,
        >(ms),
{
    lemma_write_from(ms, 0);
    lemma_read_from(ms, 0);
    assert(written_entries(ms).take(0) =~= Seq::<(Seq<char>, SourceView)>::empty());
    assert(ms.skip(0) =~= ms);
    assert(written_entries(ms).skip(0) =~= written_entries(ms));
    assert(ms.take(0) =~= Seq::<(Seq<char>, MountView)>::empty());
}

/// Writing a mount table that was read from a manifest succeeds, and
/// reading what was written gives the same table back.
pub proof fn lemma_mounts_round_trip(entries: Seq<(Seq<char>, SourceView)>)
    requires
        mounts_from(Seq::empty(), entries) is Ok,
    ensures
        ({
            let ms = mounts_from(Seq::empty(), entries)->Ok_0;
            &&& sources_from(Seq::empty(), ms) is Ok
            &&& mounts_from(Seq::empty(), sources_from(Seq::empty(), ms)->Ok_0) == Ok::<
                Seq<(Seq<char>, MountView)>,
                crate::mounts::MountErrorView,
            >(ms)
        }),
{
    lemma_read_table_is_valid(entries);
    lemma_valid_table_round_trip(mounts_from(Seq::empty(), entries)->Ok_0);
}

} // verus!
