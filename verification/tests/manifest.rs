use npk::chain::semver_would_panic;
use npk::keys::KeyValues;
use npk::manifest::{CGroupCpu, CGroupMem, CGroups, Manifest, ManifestError};
use npk::mounts::{mounts_from_entries, mounts_to_sources, Dev, Mount, MountError, MountFlag, MountSource, MountTable, Persist};
use npk::tmpfs::{parse_tmpfs_size, tmpfs_size_fits, TmpfsSizeError};
use npk::version::Version;

fn s(x: &str) -> String {
    x.to_string()
}

fn tmpfs_text(text: &str) -> MountSource {
    assert!(tmpfs_size_fits(text));
    MountSource::Tmpfs { tmpfs: parse_tmpfs_size(text).unwrap() }
}

/// The mounts of the manifest of the `parse` scenario, as its YAML reads.
fn parse_entries() -> Vec<(String, MountSource)> {
    vec![
        (s("/tmp"), MountSource::Tmpfs { tmpfs: 42 }),
        (s("/dev"), MountSource::Dev(Dev::Full)),
        (s("/lib"), MountSource::Bind { host: s("/lib"), flags: vec![MountFlag::Rw] }),
        (s("/data"), MountSource::Persist(Persist::Persist)),
        (s("/resource"), MountSource::Resource { resource: s("bla-blah.foo:1.0.0/bin/foo") }),
    ]
}

fn kv(pairs: &[(&str, &str)]) -> KeyValues {
    let mut t = KeyValues::new();
    for (k, v) in pairs {
        t.insert(s(k), s(v));
    }
    t
}

fn hello_manifest(mounts: MountTable) -> Manifest {
    Manifest {
        name: s("hello"),
        version: Version::parse("0.0.0").unwrap(),
        init: Some(s("/binary")),
        args: Some(vec![s("one"), s("two")]),
        env: Some(kv(&[("LD_LIBRARY_PATH", "/lib")])),
        autostart: Some(true),
        on_exit: None,
        cgroups: Some(CGroups { mem: Some(CGroupMem { limit: 30 }), cpu: Some(CGroupCpu { shares: 100 }) }),
        seccomp: Some(kv(&[("fork", "1"), ("waitpid", "1")])),
        instances: None,
        mounts,
    }
}

#[test]
fn parse() {
    let mounts = MountTable::from_entries(parse_entries()).unwrap();
    let manifest = Manifest::from_parse_result(Ok(hello_manifest(mounts))).unwrap();

    assert_eq!(manifest.init, Some(s("/binary")));
    assert_eq!(manifest.name, "hello");
    let args = manifest.args.clone().expect("Missing args");
    assert_eq!(args.len(), 2);
    assert_eq!(args[0], "one");
    assert_eq!(args[1], "two");

    assert!(manifest.autostart.unwrap());
    let env = manifest.env.clone().expect("Missing env");
    assert_eq!(env.pairs().iter().find(|(k, _)| k == "LD_LIBRARY_PATH").map(|(_, v)| v.clone()), Some(s("/lib")));

    let expected = vec![
        (s("/tmp"), Mount::Tmpfs { size: 42 }),
        (s("/dev"), Mount::Dev { kind: Dev::Full }),
        (s("/lib"), Mount::Bind { host: s("/lib"), flags: vec![MountFlag::Rw] }),
        (s("/data"), Mount::Persist),
        (
            s("/resource"),
            Mount::Resource { name: s("bla-blah.foo"), version: Version::parse("1.0.0").unwrap(), dir: s("/bin/foo") },
        ),
    ];
    assert_eq!(manifest.mounts.entries(), &expected);
    assert_eq!(
        manifest.cgroups,
        Some(CGroups { mem: Some(CGroupMem { limit: 30 }), cpu: Some(CGroupCpu { shares: 100 }) })
    );
    assert_eq!(manifest.seccomp, Some(kv(&[("fork", "1"), ("waitpid", "1")])));
}

/// Two mounts on the same target are invalid.
#[test]
fn duplicate_mount() {
    let entries = vec![(s("/dev"), MountSource::Dev(Dev::Full)), (s("/dev"), MountSource::Dev(Dev::Full))];
    assert!(mounts_from_entries(entries).is_err());
}

#[test]
fn tmpfs() {
    let entries = vec![
        (s("/a"), MountSource::Tmpfs { tmpfs: 100 }),
        (s("/b"), tmpfs_text("100k")),
        (s("/c"), tmpfs_text("100m")),
        (s("/d"), tmpfs_text("100g")),
    ];
    let mounts = mounts_from_entries(entries).unwrap();
    assert!(mounts[0] == (s("/a"), Mount::Tmpfs { size: 100 }));
    assert!(mounts[1] == (s("/b"), Mount::Tmpfs { size: 100 * 1024 }));
    assert!(mounts[2] == (s("/c"), Mount::Tmpfs { size: 100 * 1024 * 1024 }));
    assert!(mounts[3] == (s("/d"), Mount::Tmpfs { size: 100 * 1024 * 1024 * 1024 }));

    // An invalid tmpfs size string.
    assert!(tmpfs_size_fits("100M"));
    assert!(parse_tmpfs_size("100M").is_err());
}

#[test]
fn invalid_dev() {
    let entries = vec![(s("/dev"), MountSource::Tmpfs { tmpfs: 42 })];
    assert!(mounts_from_entries(entries).is_err());
}

#[test]
fn invalid_dev_names_the_entry() {
    let entries = vec![(s("/dev"), MountSource::Tmpfs { tmpfs: 42 })];
    assert!(matches!(
        mounts_from_entries(entries),
        Err(MountError::InvalidDevSource(MountSource::Tmpfs { tmpfs: 42 }))
    ));
}

#[test]
fn resources_read_back_from_their_text() {
    for text in ["n:1.2.34", "a.b-c_d:0.0.0/x/1", "xx yy:1.2.3/a b", "é:1.2.3ü"] {
        let entries = vec![(s("/r"), MountSource::Resource { resource: s(text) })];
        let mounts = mounts_from_entries(entries).unwrap();
        let written = mounts_to_sources(&mounts).unwrap();
        assert_eq!(mounts_from_entries(written).unwrap(), mounts);
    }
}

#[test]
fn mount_ressource() {
    let entries = vec![(s("/foo"), MountSource::Resource { resource: s("foo-bar.qwerty12:0.0.1/") })];
    mounts_from_entries(entries).unwrap();
}

#[test]
fn serialize_back_and_forth() {
    let mut entries = parse_entries();
    entries[4] = (s("/resource"), MountSource::Resource { resource: s("bla-bar.blah1234:1.0.0/bin/foo") });
    let mounts = MountTable::from_entries(entries).unwrap();
    let manifest = hello_manifest(mounts);

    let written = manifest.mounts.to_sources().unwrap();
    let version_text = manifest.version.to_string();
    let read = hello_manifest(MountTable::from_entries(written).unwrap());
    let read = Manifest { version: Version::parse(&version_text).unwrap(), ..read };

    assert_eq!(manifest, read);
}

#[test]
fn version() {
    let v1 = Version::parse("1.0.0").unwrap();
    let v2 = Version::parse("2.0.0").unwrap();
    let v3 = Version::parse("3.0.0").unwrap();
    assert!(v2 > v1);
    assert!(v2 < v3);
    let v1_1 = Version::parse("1.1.0").unwrap();
    assert!(v1_1 > v1);
    let v1_1_1 = Version::parse("1.1.1").unwrap();
    assert!(v1_1_1 > v1_1);
}

#[test]
fn tmpfs_sizes_exact() {
    assert_eq!(parse_tmpfs_size("0"), Ok(0));
    assert_eq!(parse_tmpfs_size("007k"), Ok(7 * 1024));
    assert_eq!(parse_tmpfs_size("18446744073709551615"), Ok(u64::MAX));
    assert_eq!(parse_tmpfs_size("18446744073709551616"), Err(TmpfsSizeError::TooLarge));
    assert_eq!(parse_tmpfs_size(""), Err(TmpfsSizeError::Malformed));
    assert_eq!(parse_tmpfs_size("k"), Err(TmpfsSizeError::Malformed));
    assert_eq!(parse_tmpfs_size("1kk"), Err(TmpfsSizeError::Malformed));
    assert_eq!(parse_tmpfs_size(" 1"), Err(TmpfsSizeError::Malformed));
    assert_eq!(parse_tmpfs_size("1\n"), Err(TmpfsSizeError::Malformed));
    // Arabic-Indic digits are in `\d`, but not digits of a `u64`.
    assert_eq!(parse_tmpfs_size("\u{661}\u{660}"), Err(TmpfsSizeError::InvalidDigit));
    assert_eq!(parse_tmpfs_size("1\u{660}k"), Err(TmpfsSizeError::InvalidDigit));
    // Scaling beyond a u64 is refused by the range check.
    assert!(!tmpfs_size_fits("18446744073709551615k"));
    assert!(tmpfs_size_fits("17179869183g"));
    assert_eq!(parse_tmpfs_size("17179869183g"), Ok(17179869183 * 1024 * 1024 * 1024));
    assert!(!tmpfs_size_fits("17179869184g"));
}

fn resource(text: &str) -> Result<Mount, MountError> {
    npk::mounts::resource_mount(s(text))
}

fn plain(major: u64, minor: u64, patch: u64) -> Version {
    Version { major, minor, patch, pre: vec![], build: vec![] }
}

#[test]
fn resources_as_the_pattern_finds_them() {
    assert_eq!(
        resource("a_b-c.d:10.20.30/x/y").unwrap(),
        Mount::Resource { name: s("a_b-c.d"), version: plain(10, 20, 30), dir: s("/x/y") }
    );
    // The search is not anchored: the first match counts, the rest is ignored.
    assert_eq!(
        resource("xx yy:1.2.3/a b").unwrap(),
        Mount::Resource { name: s("yy"), version: plain(1, 2, 3), dir: s("/a") }
    );
    // The patch number leaves at least one character to the dir.
    assert_eq!(
        resource("n:1.2.34").unwrap(),
        Mount::Resource { name: s("n"), version: plain(1, 2, 3), dir: s("4") }
    );
    assert_eq!(
        resource("n:1.2.3abc").unwrap(),
        Mount::Resource { name: s("n"), version: plain(1, 2, 3), dir: s("abc") }
    );
    // Names and dirs take Unicode word characters.
    assert_eq!(
        resource("émile:0.1.2/ü").unwrap(),
        Mount::Resource { name: s("émile"), version: plain(0, 1, 2), dir: s("/ü") }
    );
    assert!(matches!(resource("n:1.2.3"), Err(MountError::InvalidResource(_))));
    assert!(matches!(resource("n:1.2/x"), Err(MountError::InvalidResource(_))));
    assert!(matches!(resource(":1.2.3/x"), Err(MountError::InvalidResource(_))));
    assert!(matches!(resource("n:1.2.3-/x"), Err(MountError::InvalidResource(_))));
    // A leading zero is no semver number.
    assert!(matches!(resource("n:01.2.3/x"), Err(MountError::InvalidVersion(_))));
    assert!(matches!(resource("n:1.2.99999999999999999999/x"), Err(MountError::InvalidVersion(_))));
}

#[test]
fn mount_table_rules() {
    // Paths compare by components.
    let entries = vec![(s("/tmp"), MountSource::Tmpfs { tmpfs: 1 }), (s("/tmp/"), MountSource::Tmpfs { tmpfs: 2 })];
    assert!(matches!(mounts_from_entries(entries), Err(MountError::DuplicateMountpoint(t)) if t == "/tmp/"));
    let entries = vec![(s("/a//b/./c"), MountSource::Tmpfs { tmpfs: 1 }), (s("/a/b/c"), MountSource::Tmpfs { tmpfs: 2 })];
    assert!(matches!(mounts_from_entries(entries), Err(MountError::DuplicateMountpoint(_))));
    let entries = vec![(s("./a"), MountSource::Tmpfs { tmpfs: 1 }), (s("a"), MountSource::Tmpfs { tmpfs: 2 })];
    assert_eq!(mounts_from_entries(entries).unwrap().len(), 2);
    // One persist entry at most.
    let entries = vec![
        (s("/p"), MountSource::Persist(Persist::Persist)),
        (s("/q"), MountSource::Persist(Persist::Persist)),
    ];
    assert!(matches!(mounts_from_entries(entries), Err(MountError::MultiplePersist)));
    // Dev only at /dev.
    let entries = vec![(s("/dev/"), MountSource::Dev(Dev::Full))];
    assert!(matches!(mounts_from_entries(entries), Err(MountError::DevNotAllowed(t)) if t == "/dev/"));
    // The first refusal wins, and the mount is checked before the target.
    let entries = vec![(s("/x"), MountSource::Tmpfs { tmpfs: 1 }), (s("/x"), MountSource::Dev(Dev::Full))];
    assert!(matches!(mounts_from_entries(entries), Err(MountError::DevNotAllowed(_))));
}

#[test]
fn writing_mounts() {
    let mounts = vec![(s("/dev"), Mount::Persist)];
    assert!(matches!(mounts_to_sources(&mounts), Err(MountError::InvalidDevMount)));
    let mounts = vec![(s("/d"), Mount::Dev { kind: Dev::Full })];
    assert!(matches!(mounts_to_sources(&mounts), Err(MountError::DevNotAllowed(t)) if t == "/d"));
    let mounts = vec![(
        s("/r"),
        Mount::Resource { name: s("n"), version: Version::parse("1.2.3-rc.1+b7").unwrap(), dir: s("/d") },
    )];
    let written = mounts_to_sources(&mounts).unwrap();
    assert_eq!(written, vec![(s("/r"), MountSource::Resource { resource: s("n:1.2.3-rc.1+b7/d") })]);
}

#[test]
fn version_text_and_order() {
    assert_eq!(Version::parse("1.2.3-alpha.7+build.5").unwrap().to_string(), "1.2.3-alpha.7+build.5");
    assert_eq!(Version::default().to_string(), "0.0.0");
    assert_eq!(plain(18446744073709551615, 0, 10).to_string(), "18446744073709551615.0.10");
    assert!(Version::parse("1.0").is_err());
    assert!(Version::parse("1.0.01").is_err());
    // Build metadata is ignored by equality and order.
    assert_eq!(Version::parse("1.0.0+a").unwrap(), Version::parse("1.0.0+b").unwrap());
    // A pre-release precedes the release; numbers precede words.
    assert!(Version::parse("1.0.0-alpha").unwrap() < Version::parse("1.0.0").unwrap());
    assert!(Version::parse("1.0.0-1").unwrap() < Version::parse("1.0.0-a").unwrap());
    assert!(Version::parse("1.0.0-a").unwrap() < Version::parse("1.0.0-a.1").unwrap());
    assert!(Version::parse("1.0.0-b").unwrap() > Version::parse("1.0.0-a.9").unwrap());
    assert!(Version::parse("1.0.0-2").unwrap() < Version::parse("1.0.0-10").unwrap());
}

#[test]
fn manifest_rules() {
    let mut m = hello_manifest(MountTable::new());
    assert!(m.verify().is_ok());
    m.init = None;
    match Manifest::from_parse_result(Ok(m.clone())) {
        Err(ManifestError::Invalid(msg)) => assert_eq!(msg, "Arguments not allowed in resource container"),
        other => panic!("unexpected {:?}", other),
    }
    m.args = None;
    assert_eq!(Manifest::from_parse_result(Ok(m.clone())).unwrap(), m);
}

#[test]
fn long_identifier_chains_are_told_apart() {
    let chain = "a-".repeat(256);
    assert!(semver_would_panic(&format!("1.0.0-{}a", chain)));
    assert!(semver_would_panic(&format!("1.0.0+{}", "b-".repeat(256))));
    assert!(semver_would_panic(&format!(" \t1.2.3-x.y+z-{}-", chain)));
    assert!(semver_would_panic(&format!("1.0.0-{}<", chain)));
    // 256 identifiers joined by 255 hyphens are read.
    let longest = format!("1.0.0-{}a", "a-".repeat(255));
    assert!(!semver_would_panic(&longest));
    assert_eq!(Version::parse(&longest).unwrap().to_string(), longest);
    // Texts that semver refuses before it comes to the chain.
    for text in [
        chain.clone(),
        format!("x+{}", chain),
        format!("01.0.0-{}", chain),
        format!("1.0.0 -{}", chain),
        format!("1.0.0-a..{}", chain),
        format!("1.0.0-a+b+{}", chain),
        format!("1.0.0+a+{}", chain),
        format!("1.0.0-{}!", chain),
        format!("1.0.0-{}|x", chain),
    ] {
        assert!(!semver_would_panic(&text), "{}", text);
        assert!(Version::parse(&text).is_err(), "{}", text);
    }
    assert!(!semver_would_panic(&format!("1.0.0-{}", "a--".repeat(300))));
    assert!(!semver_would_panic(&format!("1.0.0-{}", "a-.".repeat(300))));
    assert!(!semver_would_panic("1.2.3-alpha-1+build-7"));
    assert_eq!(Version::parse("1.2.3-alpha-1").unwrap().to_string(), "1.2.3-alpha-1");
}

#[test]
fn key_values_keep_each_key_once() {
    let mut t = kv(&[("a", "1"), ("b", "2")]);
    t.insert(s("a"), s("3"));
    assert_eq!(t.len(), 2);
    assert_eq!(t.pairs(), &vec![(s("a"), s("3")), (s("b"), s("2"))]);
    assert_eq!(t, kv(&[("b", "2"), ("a", "3")]));
    assert_ne!(t, kv(&[("a", "3")]));
    assert_ne!(t, kv(&[("a", "1"), ("b", "2")]));
}

#[test]
fn tables_compare_as_maps() {
    let a = MountTable::from_entries(vec![
        (s("/a"), MountSource::Tmpfs { tmpfs: 1 }),
        (s("/b"), MountSource::Bind { host: s("/h"), flags: vec![MountFlag::Rw, MountFlag::Rw] }),
    ])
    .unwrap();
    let b = MountTable::from_entries(vec![
        (s("/b/"), MountSource::Bind { host: s("/h/"), flags: vec![MountFlag::Rw] }),
        (s("/a"), MountSource::Tmpfs { tmpfs: 1 }),
    ])
    .unwrap();
    assert_eq!(a, b);
    let c = MountTable::from_entries(vec![(s("/a"), MountSource::Tmpfs { tmpfs: 1 })]).unwrap();
    assert_ne!(a, c);
    assert_eq!(a.clone(), a);
    let mut d = MountTable::new();
    assert!(d.insert(s("/a"), MountSource::Tmpfs { tmpfs: 1 }).is_ok());
    assert!(matches!(d.insert(s("/a/"), MountSource::Persist(Persist::Persist)), Err(MountError::DuplicateMountpoint(_))));
    assert_eq!(d, c);
}

#[test]
fn versions_read_back_from_their_text() {
    assert!(Version::parse("a.b.c").is_err());
    assert!(Version::parse("1.0").is_err());
    assert!(Version::parse("").is_err());
    assert!(Version::parse("1.2.3.4").is_err());
    assert!(Version::parse("1.2.3x").is_err());
    for text in ["1.2.3-alpha-1.7+build.05", "0.0.0-0a.b-c-d.18446744073709551616", "4.5.6+x-y.7"] {
        let v = Version::parse(text).unwrap();
        assert_eq!(v.to_string(), text);
        let again = Version::parse(&v.to_string()).unwrap();
        assert_eq!(again.to_string(), v.to_string());
        assert_eq!(again, v);
    }
}
