//! The `mounts` table of a manifest: how each entry's source becomes a
//! mount, how the table is checked, and how mounts are written back.

use vstd::prelude::*;

use crate::chain::lemma_no_sign_no_panic;
use crate::chars::{chars_of, digit_class, push_chars, push_str, texts_equal};
use crate::order::version_eq;
use crate::path::{paths_equal, same_path};
use crate::resource::{find_resource_match, has_match, leftmost_first, lemma_leftmost_first_unique, match_at, resource_match};
use crate::roundtrip::{lemma_step_keeps_valid, valid_table};
use crate::version::{semver_parse_spec, version_text, Identifier, Version, VersionView};

verus! {

/// Flags of a bind mount.
#[derive(Clone, Copy, Debug, PartialEq, Eq, Hash, Structural)]
pub enum MountFlag {
    /// Bind mount read-write.
    Rw,
}

/// Configuration for the /dev mount.
#[derive(Clone, Copy, Debug, PartialEq, Eq, Structural)]
pub enum Dev {
    /// Bind mount the full /dev of the host.
    Full,
}

/// Configuration for the persist mounts.
#[derive(Clone, Copy, Debug, PartialEq, Eq, Structural)]
pub enum Persist {
    Persist,
}

/// A mount of the container.
#[derive(Clone, Debug)]
pub enum Mount {
    /// Mount a directory from a resource.
    Resource { name: String, version: Version, dir: String },
    /// Bind mount of a host dir with flags (a set: each flag counts once).
    Bind { host: String, flags: Vec<MountFlag> },
    /// Mount /dev with flavor `kind`.
    Dev { kind: Dev },
    /// Mount a rw host directory dedicated to this container.
    Persist,
    /// Mount a tmpfs with size.
    Tmpfs { size: u64 },
}

/// How an entry of the `mounts` table is written in a manifest.
#[derive(Clone, Debug, PartialEq, Eq)]
pub enum MountSource {
    /// `resource: name:version/dir`.
    Resource { resource: String },
    /// `tmpfs: size`.
    Tmpfs { tmpfs: u64 },
    /// `host: path` and optional `flags`.
    Bind { host: String, flags: Vec<MountFlag> },
    /// `full`.
    Dev(Dev),
    /// `persist`.
    Persist(Persist),
}

/// Why a mount table was refused.
#[derive(Debug)]
pub enum MountError {
    /// The entry at `/dev` is not a dev mount (`Invalid mount on /dev`).
    InvalidDevSource(MountSource),
    /// The mount at `/dev` is not a dev mount (`Invalid mount type on /dev`).
    InvalidDevMount,
    /// A dev mount elsewhere than `/dev` (`dev cannot be mounted on ...`).
    DevNotAllowed(String),
    /// A second persist entry.
    MultiplePersist,
    /// A resource that does not match `name:major.minor.patch/dir`.
    InvalidResource(String),
    /// The version of a resource is not a semver version.
    InvalidVersion(semver::SemVerError),
    /// Two entries on the same mount point.
    DuplicateMountpoint(String),
}

/// The value of a [`Mount`].
pub enum MountView {
    Resource { name: Seq<char>, version: VersionView, dir: Seq<char> },
    Bind { host: Seq<char>, flags: Set<MountFlag> },
    Dev { kind: Dev },
    Persist,
    Tmpfs { size: u64 },
}

/// The value of a [`MountSource`].
pub enum SourceView {
    Resource { resource: Seq<char> },
    Tmpfs { tmpfs: u64 },
    Bind { host: Seq<char>, flags: Set<MountFlag> },
    Dev(Dev),
    Persist,
}

/// The value of a [`MountError`]; the error of a version is not modelled.
pub enum MountErrorView {
    InvalidDevSource(SourceView),
    InvalidDevMount,
    DevNotAllowed(Seq<char>),
    MultiplePersist,
    InvalidResource(Seq<char>),
    InvalidVersion,
    DuplicateMountpoint(Seq<char>),
}

impl View for Mount {
    type V = MountView;

    open spec fn view(&self) -> MountView {
        match self {
            Mount::Resource { name, version, dir } => MountView::Resource {
                name: name@,
                version: version@,
                dir: dir@,
            },
            Mount::Bind { host, flags } => MountView::Bind { host: host@, flags: flags@.to_set() },
            Mount::Dev { kind } => MountView::Dev { kind: *kind },
            Mount::Persist => MountView::Persist,
            Mount::Tmpfs { size } => MountView::Tmpfs { size: *size },
        }
    }
}

impl View for MountSource {
    type V = SourceView;

    open spec fn view(&self) -> SourceView {
        match self {
            MountSource::Resource { resource } => SourceView::Resource { resource: resource@ },
            MountSource::Tmpfs { tmpfs } => SourceView::Tmpfs { tmpfs: *tmpfs },
            MountSource::Bind { host, flags } => SourceView::Bind {
                host: host@,
                flags: flags@.to_set(),
            },
            MountSource::Dev(d) => SourceView::Dev(*d),
            MountSource::Persist(_) => SourceView::Persist,
        }
    }
}

impl View for MountError {
    type V = MountErrorView;

    open spec fn view(&self) -> MountErrorView {
        match self {
            MountError::InvalidDevSource(s) => MountErrorView::InvalidDevSource(s@),
            MountError::InvalidDevMount => MountErrorView::InvalidDevMount,
            MountError::DevNotAllowed(t) => MountErrorView::DevNotAllowed(t@),
            MountError::MultiplePersist => MountErrorView::MultiplePersist,
            MountError::InvalidResource(r) => MountErrorView::InvalidResource(r@),
            MountError::InvalidVersion(_) => MountErrorView::InvalidVersion,
            MountError::DuplicateMountpoint(t) => MountErrorView::DuplicateMountpoint(t@),
        }
    }
}

/// The text `/dev`.
pub open spec fn dev_path() -> Seq<char> {
    seq!['/', 'd', 'e', 'v']
}

/// The mount that a resource reference denotes: the name, version and
/// directory groups of its leftmost-first match, the version read by
/// `semver`.
pub open spec fn resource_spec(s: Seq<char>) -> Result<MountView, MountErrorView> {
    match resource_match(s) {
        None => Err(MountErrorView::InvalidResource(s)),
        Some(m) => {
            let (p, a, b, c, d, e) = m;
            let name = s.subrange(p, p + a);
            let ver = s.subrange(p + a + 1, p + a + 3 + b + c + d);
            let dir = s.subrange(p + a + 3 + b + c + d, p + a + 3 + b + c + d + e);
            match semver_parse_spec(ver) {
                None => Err(MountErrorView::InvalidVersion),
                Some(v) => Ok(MountView::Resource { name, version: v, dir }),
            }
        },
    }
}

/// The mount of one entry of the table, at `target`, given whether an
/// earlier entry is a persist mount.
pub open spec fn entry_mount(target: Seq<char>, src: SourceView, has_persist: bool) -> Result<
    MountView,
    MountErrorView,
> {
    if target == dev_path() {
        match src {
            SourceView::Dev(d) => Ok(MountView::Dev { kind: d }),
            _ => Err(MountErrorView::InvalidDevSource(src)),
        }
    } else {
        match src {
            SourceView::Bind { host, flags } => Ok(MountView::Bind { host, flags }),
            SourceView::Dev(_) => Err(MountErrorView::DevNotAllowed(target)),
            SourceView::Tmpfs { tmpfs } => Ok(MountView::Tmpfs { size: tmpfs }),
            SourceView::Persist => if has_persist {
                Err(MountErrorView::MultiplePersist)
            } else {
                Ok(MountView::Persist)
            },
            SourceView::Resource { resource } => resource_spec(resource),
        }
    }
}

/// Some mount of the table is a persist mount.
pub open spec fn has_persist(ms: Seq<(Seq<char>, MountView)>) -> bool {
    exists|i: int| 0 <= i < ms.len() && #[trigger] ms[i].1 == MountView::Persist
}

/// Some mount of the table is on the same path as `t`.
pub open spec fn has_path(ms: Seq<(Seq<char>, MountView)>, t: Seq<char>) -> bool {
    exists|i: int| 0 <= i < ms.len() && same_path(#[trigger] ms[i].0, t)
}

/// The table after one more entry.
pub open spec fn mounts_step(ms: Seq<(Seq<char>, MountView)>, entry: (Seq<char>, SourceView)) -> Result<
    Seq<(Seq<char>, MountView)>,
    MountErrorView,
> {
    match entry_mount(entry.0, entry.1, has_persist(ms)) {
        Err(e) => Err(e),
        Ok(m) => if has_path(ms, entry.0) {
            Err(MountErrorView::DuplicateMountpoint(entry.0))
        } else {
            Ok(ms.push((entry.0, m)))
        },
    }
}

/// The table after the entries `rest`, in order; the first refusal stops.
pub open spec fn mounts_from(ms: Seq<(Seq<char>, MountView)>, rest: Seq<(Seq<char>, SourceView)>) -> Result<
    Seq<(Seq<char>, MountView)>,
    MountErrorView,
>
    decreases rest.len(),
{
    if rest.len() == 0 {
        Ok(ms)
    } else {
        match mounts_step(ms, rest[0]) {
            Err(e) => Err(e),
            Ok(next) => mounts_from(next, rest.drop_first()),
        }
    }
}

/// The value of a list of entries.
pub open spec fn entries_view(entries: Seq<(String, MountSource)>) -> Seq<(Seq<char>, SourceView)> {
    entries.map_values(|e: (String, MountSource)| (e.0@, e.1@))
}

/// The value of a mount table.
pub open spec fn mounts_view(ms: Seq<(String, Mount)>) -> Seq<(Seq<char>, MountView)> {
    ms.map_values(|e: (String, Mount)| (e.0@, e.1@))
}

/// Whether `t` is the text `/dev`.
fn is_dev_path(t: &str) -> (r: bool)
    ensures
        r == (t@ == dev_path()),
{
    let v = chars_of(t);
    if v.len() == 4 && v[0] == '/' && v[1] == 'd' && v[2] == 'e' && v[3] == 'v' {
        assert(v@ =~= dev_path());
        true
    } else {
        false
    }
}

/// The string of the characters `v[lo..hi]`.
fn string_of(v: &Vec<char>, lo: usize, hi: usize) -> (s: String)
    requires
        lo <= hi <= v@.len(),
    ensures
        s@ == v@.subrange(lo as int, hi as int),
{
    let mut s = String::new();
    push_chars(&mut s, v, lo, hi);
    s
}

/// The leftmost-first match is the one that [`resource_match`] names.
pub proof fn lemma_resource_match(s: Seq<char>, m: (int, int, int, int, int, int))
    requires
        leftmost_first(s, m),
    ensures
        resource_match(s) == Some(m),
{
    let n = choose|n: (int, int, int, int, int, int)| leftmost_first(s, n);
    lemma_leftmost_first_unique(s, m, n);
}

/// Without a match, [`resource_match`] names none.
proof fn lemma_resource_no_match(s: Seq<char>)
    requires
        !has_match(s),
    ensures
        resource_match(s) == None::<(int, int, int, int, int, int)>,
{
    if exists|m: (int, int, int, int, int, int)| leftmost_first(s, m) {
        let m = choose|m: (int, int, int, int, int, int)| leftmost_first(s, m);
        assert(match_at(s, m.0, m.1, m.2, m.3, m.4, m.5));
    }
}

/// Reads a resource reference `name:major.minor.patch/dir` into a mount.
pub fn resource_mount(resource: String) -> (r: Result<Mount, MountError>)
    ensures
        match resource_spec(resource@) {
            Ok(m) => r matches Ok(x) && x@ == m,
            Err(e) => r matches Err(x) && x@ == e,
        },
{
    let v = chars_of(resource.as_str());
    let len = v.len();
    match find_resource_match(&v) {
        None => {
            proof {
                lemma_resource_no_match(v@);
            }
            Err(MountError::InvalidResource(resource))
        },
        Some((p, a, b, c, d, e)) => {
            proof {
                lemma_resource_match(v@, (p as int, a as int, b as int, c as int, d as int, e as int));
                assert(match_at(v@, p as int, a as int, b as int, c as int, d as int, e as int));
            }
            let name = string_of(&v, p, p + a);
            let ver = string_of(&v, p + a + 1, p + a + 3 + b + c + d);
            let dir = string_of(&v, p + a + 3 + b + c + d, p + a + 3 + b + c + d + e);
            proof {
                let t = v@;
                let lo = p + a + 1;
                assert forall|i: int| 0 <= i < ver@.len() implies #[trigger] ver@[i] != '-' && ver@[i] != '+' by {
                    assert(ver@[i] == t[lo + i]);
                    if i != b as int && i != (b + 1 + c) as int {
                        assert(digit_class(t[lo + i]));
                    }
                }
                lemma_no_sign_no_panic(ver@);
            }
            match Version::parse(ver.as_str()) {
                Err(err) => Err(MountError::InvalidVersion(err)),
                Ok(version) => Ok(Mount::Resource { name, version, dir }),
            }
        },
    }
}

/// Copies a list of flags.
fn copy_flags(flags: &Vec<MountFlag>) -> (r: Vec<MountFlag>)
    ensures
        r@ == flags@,
{
    let mut r: Vec<MountFlag> = Vec::new();
    let mut i: usize = 0;
    while i < flags.len()
        invariant
            i <= flags@.len(),
            r@ == flags@.subrange(0, i as int),
        decreases flags@.len() - i,
    {
        r.push(flags[i]);
        assert(flags@.subrange(0, i + 1) == flags@.subrange(0, i as int).push(flags@[i as int]));
        i += 1;
    }
    assert(flags@.subrange(0, flags@.len() as int) == flags@);
    r
}

/// The mount of one entry of the table, at `target`, given whether an
/// earlier entry is a persist mount.
pub fn mount_from_source(target: &String, source: MountSource, has_persist: bool) -> (r: Result<
    Mount,
    MountError,
>)
    ensures
        match entry_mount(target@, source@, has_persist) {
            Ok(m) => r matches Ok(x) && x@ == m,
            Err(e) => r matches Err(x) && x@ == e,
        },
{
    if is_dev_path(target.as_str()) {
        match source {
            MountSource::Dev(d) => Ok(Mount::Dev { kind: d }),
            _ => Err(MountError::InvalidDevSource(source)),
        }
    } else {
        match source {
            MountSource::Bind { host, flags } => Ok(Mount::Bind { host, flags }),
            MountSource::Dev(_) => Err(MountError::DevNotAllowed(target.clone())),
            MountSource::Tmpfs { tmpfs } => Ok(Mount::Tmpfs { size: tmpfs }),
            MountSource::Persist(_) => if has_persist {
                Err(MountError::MultiplePersist)
            } else {
                Ok(Mount::Persist)
            },
            MountSource::Resource { resource } => resource_mount(resource),
        }
    }
}

/// Whether a mount of the table is a persist mount.
fn table_has_persist(ms: &Vec<(String, Mount)>) -> (r: bool)
    ensures
        r == has_persist(mounts_view(ms@)),
{
    let ghost mv = mounts_view(ms@);
    let mut i: usize = 0;
    while i < ms.len()
        invariant
            i <= ms@.len(),
            mv == mounts_view(ms@),
            forall|j: int| 0 <= j < i ==> mv[j].1 != MountView::Persist,
        decreases ms@.len() - i,
    {
        assert(mv[i as int] == (ms@[i as int].0@, ms@[i as int].1@));
        match &ms[i].1 {
            Mount::Persist => {
                assert(mv[i as int].1 == MountView::Persist);
                return true;
            },
            _ => {},
        }
        i += 1;
    }
    false
}

/// Whether a mount of the table is on the same path as `t`.
fn table_has_path(ms: &Vec<(String, Mount)>, t: &String) -> (r: bool)
    ensures
        r == has_path(mounts_view(ms@), t@),
{
    let ghost mv = mounts_view(ms@);
    let mut i: usize = 0;
    while i < ms.len()
        invariant
            i <= ms@.len(),
            mv == mounts_view(ms@),
            forall|j: int| 0 <= j < i ==> !same_path(#[trigger] mv[j].0, t@),
        decreases ms@.len() - i,
    {
        assert(mv[i as int] == (ms@[i as int].0@, ms@[i as int].1@));
        if paths_equal(ms[i].0.as_str(), t.as_str()) {
            assert(same_path(mv[i as int].0, t@));
            return true;
        }
        i += 1;
    }
    false
}

/// Adds the entry at `target` to the mount table: the entry at `/dev` must
/// be a dev mount and no other may be; at most one entry is a persist
/// mount; a resource is read with [`resource_mount`]; no two entries are on
/// the same path. A refused entry leaves the table as it was.
pub fn add_mount(table: &mut Vec<(String, Mount)>, target: String, source: MountSource) -> (r: Result<
    (),
    MountError,
>)
    ensures
        match mounts_step(mounts_view(old(table)@), (target@, source@)) {
            Ok(ms) => r is Ok && mounts_view(final(table)@) == ms,
            Err(e) => r matches Err(x) && x@ == e && final(table)@ == old(table)@,
        },
        valid_table(mounts_view(old(table)@)) ==> valid_table(mounts_view(final(table)@)),
{
    let ghost src = source@;
    let ghost ms = mounts_view(table@);
    proof {
        if valid_table(ms) && mounts_step(ms, (target@, src)) is Ok {
            lemma_step_keeps_valid(ms, (target@, src));
        }
    }
    let persist = table_has_persist(table);
    let m = match mount_from_source(&target, source, persist) {
        Err(e) => {
            return Err(e);
        },
        Ok(m) => m,
    };
    if table_has_path(table, &target) {
        return Err(MountError::DuplicateMountpoint(target));
    }
    table.push((target, m));
    assert(mounts_view(table@) == ms.push((target@, m@)));
    Ok(())
}

/// Builds the mount table from the entries of a manifest's `mounts`, in
/// order, with [`add_mount`]; the first refusal is returned.
#[verifier::loop_isolation(false)]
pub fn mounts_from_entries(entries: Vec<(String, MountSource)>) -> (r: Result<
    Vec<(String, Mount)>,
    MountError,
>)
    ensures
        match mounts_from(Seq::empty(), entries_view(entries@)) {
            Ok(ms) => r matches Ok(x) && mounts_view(x@) == ms,
            Err(e) => r matches Err(x) && x@ == e,
        },
        r matches Ok(x) ==> valid_table(mounts_view(x@)),
{
    let ghost all = entries_view(entries@);
    let mut entries = entries;
    let mut out: Vec<(String, Mount)> = Vec::new();
    let ghost mut i: int = 0;
    assert(all.skip(0) == all);
    assert(mounts_view(out@) == Seq::<(Seq<char>, MountView)>::empty());
    while entries.len() > 0
        invariant
            0 <= i <= all.len(),
            entries_view(entries@) == all.skip(i),
            mounts_from(Seq::empty(), all) == mounts_from(mounts_view(out@), all.skip(i)),
            valid_table(mounts_view(out@)),
        decreases entries@.len(),
    {
        let ghost rest = all.skip(i);
        assert(rest.len() > 0);
        let (target, source) = entries.remove(0);
        assert(rest[0] == (target@, source@));
        assert(rest.drop_first() == all.skip(i + 1));
        assert(entries_view(entries@) == rest.drop_first());
        let ghost before = mounts_view(out@);
        match add_mount(&mut out, target, source) {
            Err(e) => {
                assert(mounts_from(before, rest) == Err::<Seq<(Seq<char>, MountView)>, MountErrorView>(e@));
                return Err(e);
            },
            Ok(()) => {},
        }
        proof {
            i = i + 1;
        }
    }
    assert(all.skip(i).len() == 0);
    Ok(out)
}

/// The text of a resource reference: `name:version` followed by the dir.
pub open spec fn resource_text(name: Seq<char>, version: VersionView, dir: Seq<char>) -> Seq<char> {
    name + seq![':'] + version_text(version) + dir
}

/// How a mount at `target` is written in a manifest.
pub open spec fn source_of(target: Seq<char>, m: MountView) -> Result<SourceView, MountErrorView> {
    if target == dev_path() {
        match m {
            MountView::Dev { kind } => Ok(SourceView::Dev(kind)),
            _ => Err(MountErrorView::InvalidDevMount),
        }
    } else {
        match m {
            MountView::Bind { host, flags } => Ok(SourceView::Bind { host, flags }),
            MountView::Dev { .. } => Err(MountErrorView::DevNotAllowed(target)),
            MountView::Persist => Ok(SourceView::Persist),
            MountView::Resource { name, version, dir } => Ok(
                SourceView::Resource { resource: resource_text(name, version, dir) },
            ),
            MountView::Tmpfs { size } => Ok(SourceView::Tmpfs { tmpfs: size }),
        }
    }
}

/// The entries written for the mounts `rest` after `acc`, in order; the
/// first refusal stops.
pub open spec fn sources_from(
    acc: Seq<(Seq<char>, SourceView)>,
    rest: Seq<(Seq<char>, MountView)>,
) -> Result<Seq<(Seq<char>, SourceView)>, MountErrorView>
    decreases rest.len(),
{
    if rest.len() == 0 {
        Ok(acc)
    } else {
        match source_of(rest[0].0, rest[0].1) {
            Err(e) => Err(e),
            Ok(src) => sources_from(acc.push((rest[0].0, src)), rest.drop_first()),
        }
    }
}

/// How a mount at `target` is written in a manifest: `/dev` holds only a
/// dev mount and a dev mount is only at `/dev`; a resource is written as
/// `name:version` followed by its dir.
pub fn mount_to_source(target: &String, mount: &Mount) -> (r: Result<MountSource, MountError>)
    ensures
        match source_of(target@, mount@) {
            Ok(s) => r matches Ok(x) && x@ == s,
            Err(e) => r matches Err(x) && x@ == e,
        },
{
    if is_dev_path(target.as_str()) {
        match mount {
            Mount::Dev { kind } => Ok(MountSource::Dev(*kind)),
            _ => Err(MountError::InvalidDevMount),
        }
    } else {
        match mount {
            Mount::Bind { host, flags } => Ok(MountSource::Bind { host: host.clone(), flags: copy_flags(flags) }),
            Mount::Dev { .. } => Err(MountError::DevNotAllowed(target.clone())),
            Mount::Persist => Ok(MountSource::Persist(Persist::Persist)),
            Mount::Resource { name, version, dir } => {
                let mut resource = String::new();
                push_str(&mut resource, name.as_str());
                resource.push(':');
                let v = version.to_string();
                push_str(&mut resource, v.as_str());
                push_str(&mut resource, dir.as_str());
                assert(resource@ =~= resource_text(name@, version@, dir@));
                Ok(MountSource::Resource { resource })
            },
            Mount::Tmpfs { size } => Ok(MountSource::Tmpfs { tmpfs: *size }),
        }
    }
}

/// The value of a list of entries written for mounts.
pub open spec fn sources_view(entries: Seq<(String, MountSource)>) -> Seq<(Seq<char>, SourceView)> {
    entries.map_values(|e: (String, MountSource)| (e.0@, e.1@))
}

/// How a mount table is written in a manifest, entry by entry with
/// [`mount_to_source`]; the first refusal is returned.
#[verifier::loop_isolation(false)]
pub fn mounts_to_sources(mounts: &Vec<(String, Mount)>) -> (r: Result<
    Vec<(String, MountSource)>,
    MountError,
>)
    ensures
        match sources_from(Seq::empty(), mounts_view(mounts@)) {
            Ok(es) => r matches Ok(x) && sources_view(x@) == es,
            Err(e) => r matches Err(x) && x@ == e,
        },
{
    let ghost all = mounts_view(mounts@);
    let mut out: Vec<(String, MountSource)> = Vec::new();
    let mut i: usize = 0;
    assert(all.skip(0) == all);
    assert(sources_view(out@) == Seq::<(Seq<char>, SourceView)>::empty());
    while i < mounts.len()
        invariant
            i <= mounts@.len(),
            sources_from(Seq::empty(), all) == sources_from(sources_view(out@), all.skip(i as int)),
        decreases mounts@.len() - i,
    {
        let ghost rest = all.skip(i as int);
        assert(rest[0] == (mounts@[i as int].0@, mounts@[i as int].1@));
        assert(rest.drop_first() == all.skip(i + 1));
        let target = &mounts[i].0;
        match mount_to_source(target, &mounts[i].1) {
            Err(e) => {
                return Err(e);
            },
            Ok(src) => {
                let ghost before = sources_view(out@);
                out.push((target.clone(), src));
                assert(sources_view(out@) == before.push((target@, src@)));
            },
        }
        i += 1;
    }
    assert(all.skip(i as int).len() == 0);
    Ok(out)
}

} // verus!

verus! {

/// The mount table of a manifest: its mounts by mount point, in the order of
/// the manifest. It is valid by construction: no two mounts on the same
/// path, at most one persist mount, a dev mount exactly at `/dev`, and each
/// resource reads back from its text.
#[derive(Debug)]
pub struct MountTable {
    entries: Vec<(String, Mount)>,
}

impl View for MountTable {
    type V = Seq<(Seq<char>, MountView)>;

    closed spec fn view(&self) -> Seq<(Seq<char>, MountView)> {
        mounts_view(self.entries@)
    }
}

impl MountTable {
    #[verifier::type_invariant]
    spec fn is_valid(self) -> bool {
        valid_table(mounts_view(self.entries@))
    }

    /// The empty table.
    pub fn new() -> (t: MountTable)
        ensures
            t@ == Seq::<(Seq<char>, MountView)>::empty(),
            valid_table(t@),
    {
        let t = MountTable { entries: Vec::new() };
        assert(mounts_view(t.entries@) =~= Seq::<(Seq<char>, MountView)>::empty());
        t
    }

    /// Adds the entry at `target` as [`add_mount`] does; a refused entry
    /// leaves the table as it was.
    pub fn insert(&mut self, target: String, source: MountSource) -> (r: Result<(), MountError>)
        ensures
            match mounts_step(old(self)@, (target@, source@)) {
                Ok(ms) => r is Ok && final(self)@ == ms,
                Err(e) => r matches Err(x) && x@ == e && final(self)@ == old(self)@,
            },
            valid_table(final(self)@),
    {
        proof {
            use_type_invariant(&*self);
        }
        let mut entries: Vec<(String, Mount)> = Vec::new();
        assert(mounts_view(entries@) =~= Seq::<(Seq<char>, MountView)>::empty());
        std::mem::swap(&mut entries, &mut self.entries);
        let r = add_mount(&mut entries, target, source);
        self.entries = entries;
        r
    }

    /// Builds the table from the entries of a manifest's `mounts`, as
    /// [`mounts_from_entries`] does.
    pub fn from_entries(entries: Vec<(String, MountSource)>) -> (r: Result<MountTable, MountError>)
        ensures
            match mounts_from(Seq::empty(), entries_view(entries@)) {
                Ok(ms) => r matches Ok(x) && x@ == ms,
                Err(e) => r matches Err(x) && x@ == e,
            },
            r matches Ok(x) ==> valid_table(x@),
    {
        match mounts_from_entries(entries) {
            Ok(v) => Ok(MountTable { entries: v }),
            Err(e) => Err(e),
        }
    }

    /// The mounts, by mount point, in order.
    pub fn entries(&self) -> (r: &Vec<(String, Mount)>)
        ensures
            mounts_view(r@) == self@,
            valid_table(self@),
    {
        proof {
            use_type_invariant(self);
        }
        &self.entries
    }

    /// The number of mounts.
    pub fn len(&self) -> (n: usize)
        ensures
            n == self@.len(),
    {
        self.entries.len()
    }

    /// How the table is written in a manifest, as [`mounts_to_sources`]
    /// writes it; a valid table is always written.
    pub fn to_sources(&self) -> (r: Result<Vec<(String, MountSource)>, MountError>)
        ensures
            sources_from(Seq::empty(), self@) is Ok,
            r matches Ok(x) && sources_view(x@) == sources_from(Seq::empty(), self@)->Ok_0,
    {
        proof {
            use_type_invariant(self);
            crate::roundtrip::lemma_valid_table_round_trip(self@);
        }
        mounts_to_sources(&self.entries)
    }
}

/// A copy of an identifier.
fn copy_identifier(i: &Identifier) -> (r: Identifier)
    ensures
        r@ == i@,
{
    match i {
        Identifier::Numeric(n) => Identifier::Numeric(*n),
        Identifier::AlphaNumeric(t) => Identifier::AlphaNumeric(t.clone()),
    }
}

/// A copy of a list of identifiers.
fn copy_identifiers(ids: &Vec<Identifier>) -> (r: Vec<Identifier>)
    ensures
        r@.map_values(|i: Identifier| i@) == ids@.map_values(|i: Identifier| i@),
{
    let mut r: Vec<Identifier> = Vec::new();
    let mut k: usize = 0;
    while k < ids.len()
        invariant
            k <= ids@.len(),
            r@.len() == k,
            forall|j: int| 0 <= j < k ==> #[trigger] r@[j]@ == ids@[j]@,
        decreases ids@.len() - k,
    {
        r.push(copy_identifier(&ids[k]));
        k += 1;
    }
    assert(r@.map_values(|i: Identifier| i@) =~= ids@.map_values(|i: Identifier| i@));
    r
}

/// A copy of a version.
fn copy_version(v: &Version) -> (r: Version)
    ensures
        r@ == v@,
{
    Version {
        major: v.major,
        minor: v.minor,
        patch: v.patch,
        pre: copy_identifiers(&v.pre),
        build: copy_identifiers(&v.build),
    }
}

/// A copy of a mount.
fn copy_mount(m: &Mount) -> (r: Mount)
    ensures
        r@ == m@,
{
    match m {
        Mount::Resource { name, version, dir } => Mount::Resource {
            name: name.clone(),
            version: copy_version(version),
            dir: dir.clone(),
        },
        Mount::Bind { host, flags } => Mount::Bind { host: host.clone(), flags: copy_flags(flags) },
        Mount::Dev { kind } => Mount::Dev { kind: *kind },
        Mount::Persist => Mount::Persist,
        Mount::Tmpfs { size } => Mount::Tmpfs { size: *size },
    }
}

impl Clone for MountTable {
    /// A copy of the table.
    fn clone(&self) -> (r: MountTable)
        ensures
            r@ == self@,
    {
        proof {
            use_type_invariant(self);
        }
        let mut out: Vec<(String, Mount)> = Vec::new();
        let mut k: usize = 0;
        while k < self.entries.len()
            invariant
                k <= self.entries@.len(),
                out@.len() == k,
                forall|j: int| 0 <= j < k ==> (#[trigger] out@[j]).0@ == self.entries@[j].0@
                    && out@[j].1@ == self.entries@[j].1@,
            decreases self.entries@.len() - k,
        {
            let e = &self.entries[k];
            out.push((e.0.clone(), copy_mount(&e.1)));
            k += 1;
        }
        assert(mounts_view(out@) =~= mounts_view(self.entries@));
        MountTable { entries: out }
    }
}

/// Two mounts are equal: a resource's version by `semver` equality, its dir
/// and a bind mount's host by path, and flags as sets.
pub open spec fn mount_eq(x: MountView, y: MountView) -> bool {
    match (x, y) {
        (
            MountView::Resource { name, version, dir },
            MountView::Resource { name: n2, version: v2, dir: d2 },
        ) => name == n2 && version_eq(version, v2) && same_path(dir, d2),
        (MountView::Bind { host, flags }, MountView::Bind { host: h2, flags: f2 }) => same_path(
            host,
            h2,
        ) && flags == f2,
        _ => x == y,
    }
}

/// Some mount of `b` is on the same path as `t` and equal to `m`.
pub open spec fn holds_equal(b: Seq<(Seq<char>, MountView)>, t: Seq<char>, m: MountView) -> bool {
    exists|j: int| 0 <= j < b.len() && same_path(t, #[trigger] b[j].0) && mount_eq(m, b[j].1)
}

/// Two tables hold the same mounts by path, whatever their order: each
/// mount of one is, on the same path, equal to a mount of the other.
pub open spec fn tables_equal(a: Seq<(Seq<char>, MountView)>, b: Seq<(Seq<char>, MountView)>) -> bool {
    &&& a.len() == b.len()
    &&& forall|i: int| 0 <= i < a.len() ==> #[trigger] holds_equal(b, a[i].0, a[i].1)
}

/// Whether the flag `f` is in the list.
fn has_flag(flags: &Vec<MountFlag>, f: MountFlag) -> (r: bool)
    ensures
        r == flags@.contains(f),
{
    let mut i: usize = 0;
    while i < flags.len()
        invariant
            i <= flags@.len(),
            forall|j: int| 0 <= j < i ==> flags@[j] != f,
        decreases flags@.len() - i,
    {
        if flags[i] == f {
            return true;
        }
        i += 1;
    }
    false
}

/// Whether every flag of `a` is in `b`.
fn flags_within(a: &Vec<MountFlag>, b: &Vec<MountFlag>) -> (r: bool)
    ensures
        r == a@.to_set().subset_of(b@.to_set()),
{
    let mut i: usize = 0;
    while i < a.len()
        invariant
            i <= a@.len(),
            forall|j: int| 0 <= j < i ==> b@.contains(#[trigger] a@[j]),
        decreases a@.len() - i,
    {
        if !has_flag(b, a[i]) {
            assert(a@.to_set().contains(a@[i as int]));
            return false;
        }
        i += 1;
    }
    assert forall|f: MountFlag| a@.to_set().contains(f) implies b@.to_set().contains(f) by {
        let j = choose|j: int| 0 <= j < a@.len() && a@[j] == f;
        assert(b@.contains(a@[j]));
    }
    true
}

/// Whether two mounts are equal as [`mount_eq`] says.
fn mounts_equal(x: &Mount, y: &Mount) -> (r: bool)
    ensures
        r == mount_eq(x@, y@),
{
    match (x, y) {
        (
            Mount::Resource { name, version, dir },
            Mount::Resource { name: n2, version: v2, dir: d2 },
        ) => texts_equal(name.as_str(), n2.as_str()) && version.eq(v2) && paths_equal(
            dir.as_str(),
            d2.as_str(),
        ),
        (Mount::Bind { host, flags }, Mount::Bind { host: h2, flags: f2 }) => {
            let same_flags = flags_within(flags, f2) && flags_within(f2, flags);
            proof {
                if same_flags {
                    assert(flags@.to_set() =~= f2@.to_set());
                }
            }
            paths_equal(host.as_str(), h2.as_str()) && same_flags
        },
        (Mount::Dev { kind }, Mount::Dev { kind: k2 }) => *kind == *k2,
        (Mount::Persist, Mount::Persist) => true,
        (Mount::Tmpfs { size }, Mount::Tmpfs { size: s2 }) => *size == *s2,
        _ => false,
    }
}

impl PartialEq for Mount {
    /// Mounts are equal as [`mount_eq`] says.
    fn eq(&self, other: &Mount) -> (r: bool) {
        mounts_equal(self, other)
    }
}

impl vstd::std_specs::cmp::PartialEqSpecImpl for Mount {
    open spec fn obeys_eq_spec() -> bool {
        true
    }

    open spec fn eq_spec(&self, other: &Mount) -> bool {
        mount_eq(self@, other@)
    }
}

impl Eq for Mount {
}

impl MountTable {
    /// Whether the mount `m` is on the path `t` in this table.
    fn holds(&self, t: &String, m: &Mount) -> (r: bool)
        ensures
            r == holds_equal(self@, t@, m@),
    {
        let mut j: usize = 0;
        while j < self.entries.len()
            invariant
                j <= self.entries@.len(),
                forall|k: int|
                    0 <= k < j ==> !(same_path(t@, #[trigger] self@[k].0) && mount_eq(m@, self@[k].1)),
            decreases self.entries@.len() - j,
        {
            assert(self@[j as int] == (self.entries@[j as int].0@, self.entries@[j as int].1@));
            if paths_equal(t.as_str(), self.entries[j].0.as_str()) && mounts_equal(m, &self.entries[j].1) {
                assert(same_path(t@, self@[j as int].0) && mount_eq(m@, self@[j as int].1));
                return true;
            }
            j += 1;
        }
        false
    }
}

impl PartialEq for MountTable {
    /// Tables are equal as [`tables_equal`] says: as maps from mount points
    /// to mounts.
    fn eq(&self, other: &MountTable) -> (r: bool) {
        if self.entries.len() != other.entries.len() {
            return false;
        }
        let mut i: usize = 0;
        while i < self.entries.len()
            invariant
                i <= self.entries@.len(),
                self@.len() == other@.len(),
                self.entries@.len() == self@.len(),
                forall|k: int| 0 <= k < i ==> #[trigger] holds_equal(other@, self@[k].0, self@[k].1),
            decreases self.entries@.len() - i,
        {
            assert(self@[i as int] == (self.entries@[i as int].0@, self.entries@[i as int].1@));
            if !other.holds(&self.entries[i].0, &self.entries[i].1) {
                assert(!holds_equal(other@, self@[i as int].0, self@[i as int].1));
                return false;
            }
            i += 1;
        }
        true
    }
}

impl vstd::std_specs::cmp::PartialEqSpecImpl for MountTable {
    open spec fn obeys_eq_spec() -> bool {
        true
    }

    open spec fn eq_spec(&self, other: &MountTable) -> bool {
        tables_equal(self@, other@)
    }
}

impl Eq for MountTable {
}

/// Equality of mounts is reflexive and symmetric.
pub proof fn lemma_mount_eq_symmetric(x: MountView, y: MountView)
    ensures
        mount_eq(x, x),
        mount_eq(x, y) == mount_eq(y, x),
{
}

/// Equal bind mounts have the same host path and the same set of flags;
/// equal resources have the same name, equal versions and the same dir; a
/// tmpfs is equal only to a tmpfs of the same size; mounts of different kinds
/// are never equal.
pub proof fn lemma_mount_eq_meaning(x: MountView, y: MountView)
    ensures
        (x is Bind && y is Bind && mount_eq(x, y)) ==> same_path(x->Bind_host, y->Bind_host) && x->Bind_flags
            == y->Bind_flags,
        (x is Resource && y is Resource && mount_eq(x, y)) ==> x->Resource_name == y->Resource_name && version_eq(
            x->Resource_version,
            y->Resource_version,
        ) && same_path(x->Resource_dir, y->Resource_dir),
        (x is Tmpfs && y is Tmpfs) ==> (mount_eq(x, y) <==> x->Tmpfs_size == y->Tmpfs_size),
        (x is Bind && !(y is Bind)) ==> !mount_eq(x, y),
        (x is Resource && !(y is Resource)) ==> !mount_eq(x, y),
        (x is Tmpfs && !(y is Tmpfs)) ==> !mount_eq(x, y),
        (x is Persist) ==> (mount_eq(x, y) <==> y is Persist),
{
}

/// Equal mount tables hold as many mounts.
pub proof fn lemma_tables_equal_len(a: Seq<(Seq<char>, MountView)>, b: Seq<(Seq<char>, MountView)>)
    requires
        tables_equal(a, b),
    ensures
        a.len() == b.len(),
{
}

/// Equality of valid mount tables (each path once) is symmetric: when every
/// mount of `a` is equal to a mount on the same path in `b`, every mount of
/// `b` is equal to one on the same path in `a`.
pub proof fn lemma_tables_equal_symmetric(a: Seq<(Seq<char>, MountView)>, b: Seq<(Seq<char>, MountView)>)
    requires
        valid_table(a),
        valid_table(b),
        tables_equal(a, b),
    ensures
        tables_equal(b, a),
{
    let n = a.len() as int;
    let f = |i: int|
        choose|j: int| 0 <= j < b.len() && same_path(a[i].0, b[j].0) && mount_eq(a[i].1, b[j].1);
    assert forall|i: int| 0 <= i < n implies 0 <= #[trigger] f(i) < n && same_path(a[i].0, b[f(i)].0)
        && mount_eq(a[i].1, b[f(i)].1) by {
        assert(holds_equal(b, a[i].0, a[i].1));
    }
    assert forall|i1: int, i2: int| 0 <= i1 < n && 0 <= i2 < n && #[trigger] f(i1) == #[trigger] f(i2) implies i1
        == i2 by {
        let j = f(i1);
        assert(same_path(a[i1].0, b[j].0) && same_path(a[i2].0, b[j].0));
        assert(same_path(a[i1].0, a[i2].0));
        if i1 < i2 {
            assert(!same_path(a[i1].0, a[i2].0));
        } else if i2 < i1 {
            assert(!same_path(a[i2].0, a[i1].0));
        }
    }
    assert forall|j: int| 0 <= j < b.len() implies #[trigger] holds_equal(a, b[j].0, b[j].1) by {
        crate::counting::lemma_injection_is_onto(n, f, j);
        let i = choose|i: int| 0 <= i < n && #[trigger] f(i) == j;
        lemma_mount_eq_symmetric(a[i].1, b[j].1);
        assert(same_path(b[j].0, a[i].0) && mount_eq(b[j].1, a[i].1));
    }
}

} // verus!
