//! The manifest of a container and its own check.

use vstd::prelude::*;

use crate::chars::texts_equal;
use crate::keys::{same_pairs, unique_keys, KeyValues};
use crate::mounts::{tables_equal, MountTable};
use crate::order::version_eq;
use crate::path::{paths_equal, same_path};
use crate::roundtrip::valid_table;
use crate::version::Version;

verus! {

/// `serde_yaml::Error`, the error of reading a manifest's YAML text.
#[verifier::external_type_specification]
#[verifier::external_body]
pub struct ExYamlError(serde_yaml::Error);

/// `std::io::Error`, the error of reading a manifest file.
#[verifier::external_type_specification]
#[verifier::external_body]
pub struct ExIoError(std::io::Error);

/// The name of a container.
pub type Name = String;

/// Action on application exit.
#[derive(Clone, Copy, Debug, PartialEq, Eq, Structural)]
pub enum OnExit {
    /// Container is restarted n number and not started anymore after n exits.
    Restart(u32),
}

/// Memory limit of a container.
#[derive(Clone, Copy, Debug, PartialEq, Eq, Structural)]
pub struct CGroupMem {
    /// Limit in bytes.
    pub limit: u64,
}

/// CPU shares of a container.
#[derive(Clone, Copy, Debug, PartialEq, Eq, Structural)]
pub struct CGroupCpu {
    /// CPU shares assigned to this container. CGroups cpu divide the
    /// resource CPU into 1024 shares.
    pub shares: u32,
}

/// CGroup configuration.
#[derive(Clone, Copy, Debug, PartialEq, Eq, Structural)]
pub struct CGroups {
    pub mem: Option<CGroupMem>,
    pub cpu: Option<CGroupCpu>,
}

/// The manifest of a container.
#[derive(Clone, Debug)]
pub struct Manifest {
    /// Name of container.
    pub name: Name,
    /// Container version.
    pub version: Version,
    /// Path to init.
    pub init: Option<String>,
    /// Additional arguments for the application invocation.
    pub args: Option<Vec<String>>,
    /// Environment passed to container.
    pub env: Option<KeyValues>,
    /// Autostart this container upon north startup.
    pub autostart: Option<bool>,
    /// Action on application exit.
    pub on_exit: Option<OnExit>,
    /// CGroup config.
    pub cgroups: Option<CGroups>,
    /// Seccomp configuration.
    pub seccomp: Option<KeyValues>,
    /// Number of instances to mount of this container. The name gets
    /// extended with the instance id.
    pub instances: Option<u32>,
    /// Bind mounts and resources, by mount point, in the order of the
    /// manifest.
    pub mounts: MountTable,
}

/// Why a manifest was refused.
#[derive(Debug)]
pub enum ManifestError {
    /// The manifest breaks a rule of its own.
    Invalid(String),
    /// The YAML text could not be read as a manifest.
    Parse(serde_yaml::Error),
    /// The manifest could not be read.
    Io(std::io::Error),
}

/// The message of a manifest that gives arguments without an init.
pub open spec fn args_without_init_message() -> Seq<char> {
    seq![
        'A', 'r', 'g', 'u', 'm', 'e', 'n', 't', 's', ' ', 'n', 'o', 't', ' ', 'a', 'l', 'l', 'o',
        'w', 'e', 'd', ' ', 'i', 'n', ' ', 'r', 'e', 's', 'o', 'u', 'r', 'c', 'e', ' ', 'c', 'o',
        'n', 't', 'a', 'i', 'n', 'e', 'r',
    ]
}

/// A manifest breaks its own rules: it gives arguments but no init (a
/// resource container runs nothing).
pub open spec fn breaks_rules(m: &Manifest) -> bool {
    m.init is None && m.args is Some
}

/// The tables of a manifest keep their rules: the mount table is valid and
/// no key of the environment or the seccomp table occurs twice.
pub open spec fn manifest_tables_valid(m: &Manifest) -> bool {
    &&& valid_table(m.mounts@)
    &&& m.env matches Some(e) ==> unique_keys(e@)
    &&& m.seccomp matches Some(e) ==> unique_keys(e@)
}

/// Two optional key-value tables are equal: both absent, or both there with
/// the same pairs.
pub open spec fn key_values_eq(a: Option<KeyValues>, b: Option<KeyValues>) -> bool {
    match (a, b) {
        (Some(x), Some(y)) => same_pairs(x@, y@),
        (None, None) => true,
        _ => false,
    }
}

/// Two optional paths are equal: both absent, or both there and the same
/// path.
pub open spec fn path_option_eq(a: Option<String>, b: Option<String>) -> bool {
    match (a, b) {
        (Some(x), Some(y)) => same_path(x@, y@),
        (None, None) => true,
        _ => false,
    }
}

/// The texts of a list of strings.
pub open spec fn texts_view(v: Seq<String>) -> Seq<Seq<char>> {
    v.map_values(|s: String| s@)
}

/// Two optional argument lists are equal.
pub open spec fn args_eq(a: Option<Vec<String>>, b: Option<Vec<String>>) -> bool {
    match (a, b) {
        (Some(x), Some(y)) => texts_view(x@) == texts_view(y@),
        (None, None) => true,
        _ => false,
    }
}

/// Two manifests are equal: the version by `semver` equality, paths by
/// their components, the environment, seccomp and mount tables as maps.
pub open spec fn manifest_eq(a: &Manifest, b: &Manifest) -> bool {
    &&& a.name@ == b.name@
    &&& version_eq(a.version@, b.version@)
    &&& path_option_eq(a.init, b.init)
    &&& args_eq(a.args, b.args)
    &&& key_values_eq(a.env, b.env)
    &&& a.autostart == b.autostart
    &&& a.on_exit == b.on_exit
    &&& a.cgroups == b.cgroups
    &&& key_values_eq(a.seccomp, b.seccomp)
    &&& a.instances == b.instances
    &&& tables_equal(a.mounts@, b.mounts@)
}

/// Whether two optional key-value tables are equal.
fn key_values_equal(a: &Option<KeyValues>, b: &Option<KeyValues>) -> (r: bool)
    ensures
        r == key_values_eq(*a, *b),
{
    match (a, b) {
        (Some(x), Some(y)) => x.eq(y),
        (None, None) => true,
        _ => false,
    }
}

/// Whether two optional paths are equal.
fn path_options_equal(a: &Option<String>, b: &Option<String>) -> (r: bool)
    ensures
        r == path_option_eq(*a, *b),
{
    match (a, b) {
        (Some(x), Some(y)) => paths_equal(x.as_str(), y.as_str()),
        (None, None) => true,
        _ => false,
    }
}

/// Whether two lists of strings are equal.
fn texts_list_equal(a: &Vec<String>, b: &Vec<String>) -> (r: bool)
    ensures
        r == (texts_view(a@) == texts_view(b@)),
{
    if a.len() != b.len() {
        assert(texts_view(a@).len() != texts_view(b@).len());
        return false;
    }
    let mut i: usize = 0;
    while i < a.len()
        invariant
            i <= a@.len(),
            a@.len() == b@.len(),
            forall|j: int| 0 <= j < i ==> a@[j]@ == b@[j]@,
        decreases a@.len() - i,
    {
        if !texts_equal(a[i].as_str(), b[i].as_str()) {
            assert(texts_view(a@)[i as int] != texts_view(b@)[i as int]);
            return false;
        }
        i += 1;
    }
    assert(texts_view(a@) =~= texts_view(b@));
    true
}

/// Whether two optional argument lists are equal.
fn args_equal(a: &Option<Vec<String>>, b: &Option<Vec<String>>) -> (r: bool)
    ensures
        r == args_eq(*a, *b),
{
    match (a, b) {
        (Some(x), Some(y)) => texts_list_equal(x, y),
        (None, None) => true,
        _ => false,
    }
}

impl PartialEq for Manifest {
    /// Manifests are equal as [`manifest_eq`] says.
    fn eq(&self, other: &Manifest) -> (r: bool) {
        texts_equal(self.name.as_str(), other.name.as_str()) && self.version.eq(&other.version)
            && path_options_equal(&self.init, &other.init) && args_equal(&self.args, &other.args)
            && key_values_equal(&self.env, &other.env) && self.autostart == other.autostart
            && self.on_exit == other.on_exit && self.cgroups == other.cgroups && key_values_equal(
            &self.seccomp,
            &other.seccomp,
        ) && self.instances == other.instances && self.mounts.eq(&other.mounts)
    }
}

impl vstd::std_specs::cmp::PartialEqSpecImpl for Manifest {
    open spec fn obeys_eq_spec() -> bool {
        true
    }

    open spec fn eq_spec(&self, other: &Manifest) -> bool {
        manifest_eq(self, other)
    }
}

impl Eq for Manifest {
}

impl Manifest {
    /// Checks the manifest's own rules: arguments need an init.
    pub fn verify(&self) -> (r: Result<(), ManifestError>)
        ensures
            r is Err <==> breaks_rules(self),
            r matches Err(e) ==> e matches ManifestError::Invalid(msg) && msg@
                == args_without_init_message(),
            manifest_tables_valid(self),
    {
        self.tables_kept();
        if self.init.is_none() && self.args.is_some() {
            let mut msg = String::new();
            crate::chars::push_str(&mut msg, "Arguments not allowed in resource container");
            proof {
                reveal_strlit("Arguments not allowed in resource container");
            }
            assert(msg@ =~= args_without_init_message());
            return Err(ManifestError::Invalid(msg));
        }
        Ok(())
    }

    /// Finishes reading a manifest: a parsed manifest is returned if it
    /// keeps its rules, and the error of [`Manifest::verify`] if not; a
    /// parse error is returned as it is.
    pub fn from_parse_result(parsed: Result<Manifest, ManifestError>) -> (r: Result<
        Manifest,
        ManifestError,
    >)
        ensures
            match parsed {
                Err(e) => r == Err::<Manifest, ManifestError>(e),
                Ok(m) => if breaks_rules(&m) {
                    r matches Err(e) && e matches ManifestError::Invalid(msg) && msg@
                        == args_without_init_message()
                } else {
                    r == Ok::<Manifest, ManifestError>(m)
                },
            },
            r matches Ok(m) ==> manifest_tables_valid(&m),
    {
        match parsed {
            Err(e) => Err(e),
            Ok(m) => match m.verify() {
                Err(e) => Err(e),
                Ok(()) => Ok(m),
            },
        }
    }

    /// Every manifest keeps the rules of its tables: its mount table is
    /// valid and no key of its environment or seccomp table occurs twice.
    fn tables_kept(&self)
        ensures
            manifest_tables_valid(self),
    {
        self.mounts.entries();
        if let Some(e) = &self.env {
            e.pairs();
        }
        if let Some(e) = &self.seccomp {
            e.pairs();
        }
    }
}

/// The one rule of a manifest's own check: a manifest with an init is never
/// refused, nor one without arguments; one with arguments and no init always
/// is.
pub proof fn lemma_manifest_rule(m: Manifest)
    ensures
        m.init is Some ==> !breaks_rules(&m),
        m.args is None ==> !breaks_rules(&m),
        m.init is None && m.args is Some ==> breaks_rules(&m),
{
}

} // verus!
