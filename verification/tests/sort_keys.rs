use xls::entry::{Entry, Extras, Kind, Timestamp, XfsInfo};
use xls::sort::{sort_by_name, sort_entries, SortKey};

fn entry(name: &str) -> Entry {
    Entry {
        name: name.to_string(),
        kind: Kind::File,
        mode: 0o100644,
        nlink: 1,
        user: "alice".to_string(),
        group: "staff".to_string(),
        size: 0,
        blocks: 0,
        blksize: 4096,
        sparse: false,
        ino: 1,
        dev_major: 8,
        dev_minor: 1,
        rdev_major: 0,
        rdev_minor: 0,
        mtime: None,
        atime: None,
        ctime_secs: 0,
        birth: None,
        symlink: None,
        broken_symlink: false,
        executable: false,
        acl: false,
        extras: Extras { inode_gen: None, flags: Vec::new(), xattrs: Vec::new(), xfs: None },
    }
}

fn names(v: &[Entry]) -> Vec<String> {
    v.iter().map(|e| e.name.clone()).collect()
}

fn ts(secs: i64, nanos: u32) -> Option<Timestamp> {
    Some(Timestamp { secs, nanos })
}

#[test]
fn parse_accepts_names_and_aliases() {
    let cases: Vec<(&str, SortKey)> = vec![
        ("PERMS", SortKey::Perms),
        ("mode", SortKey::Perms),
        ("Permissions", SortKey::Perms),
        ("size", SortKey::Size),
        ("MTIME", SortKey::Mtime),
        ("modified", SortKey::Mtime),
        ("name", SortKey::Name),
        ("n", SortKey::Nlink),
        ("NLINK", SortKey::Nlink),
        ("links", SortKey::Nlink),
        ("user", SortKey::User),
        ("owner", SortKey::User),
        ("UID", SortKey::User),
        ("group", SortKey::Group),
        ("gid", SortKey::Group),
        ("blocks", SortKey::Blocks),
        ("alloc", SortKey::Blocks),
        ("s", SortKey::Sparse),
        ("sparse", SortKey::Sparse),
        ("ino", SortKey::Ino),
        ("inode", SortKey::Ino),
        ("ino:igen", SortKey::Ino),
        ("IGEN", SortKey::Ino),
        ("dev", SortKey::Dev),
        ("device", SortKey::Dev),
        ("atime", SortKey::Atime),
        ("accessed", SortKey::Atime),
        ("ctime", SortKey::Ctime),
        ("changed", SortKey::Ctime),
        ("birth", SortKey::Birth),
        ("btime", SortKey::Birth),
        ("created", SortKey::Birth),
        ("flags", SortKey::Flags),
        ("fl", SortKey::Flags),
        ("xattrs", SortKey::Xattrs),
        ("xa", SortKey::Xattrs),
        ("xattr", SortKey::Xattrs),
        ("xfs", SortKey::Xfs),
    ];
    for (s, k) in cases {
        assert_eq!(SortKey::parse(s), Ok(k), "{s}");
    }
}

#[test]
fn parse_trims_white_space_and_ignores_case() {
    assert_eq!(SortKey::parse("  MtImE \t"), Ok(SortKey::Mtime));
    assert_eq!(SortKey::parse("\u{3000}size\u{a0}"), Ok(SortKey::Size));
}

#[test]
fn parse_rejects_unknown_fields() {
    let expected = "unknown sort field 'COLOR' (try: PERMS, SIZE, MTIME, NAME, N, USER, GROUP, \
                    BLOCKS, S, INO:IGEN, DEV, ATIME, CTIME, BIRTH, FLAGS, XATTRS, XFS)";
    assert_eq!(SortKey::parse(" color "), Err(expected.to_string()));
    let empty = "unknown sort field '' (try: PERMS, SIZE, MTIME, NAME, N, USER, GROUP, \
                 BLOCKS, S, INO:IGEN, DEV, ATIME, CTIME, BIRTH, FLAGS, XATTRS, XFS)";
    assert_eq!(SortKey::parse("   "), Err(empty.to_string()));
    assert!(SortKey::parse("ÿ").is_err());
}

#[test]
fn names_are_offered_in_order_and_parse_back() {
    let names = SortKey::names();
    assert_eq!(
        names,
        &[
            "PERMS", "SIZE", "MTIME", "NAME", "N", "USER", "GROUP", "BLOCKS", "S", "INO:IGEN",
            "DEV", "ATIME", "CTIME", "BIRTH", "FLAGS", "XATTRS", "XFS",
        ]
    );
    for n in names {
        let k = SortKey::parse(n).unwrap();
        assert_eq!(SortKey::parse(&n.to_lowercase()), Ok(k));
    }
}

#[test]
fn min_detail_per_key() {
    for k in [SortKey::Perms, SortKey::Size, SortKey::Mtime, SortKey::Name] {
        assert_eq!(k.min_detail(), 0);
    }
    for k in [
        SortKey::Nlink,
        SortKey::User,
        SortKey::Group,
        SortKey::Blocks,
        SortKey::Sparse,
        SortKey::Ino,
        SortKey::Dev,
        SortKey::Atime,
        SortKey::Ctime,
        SortKey::Birth,
        SortKey::Flags,
        SortKey::Xattrs,
    ] {
        assert_eq!(k.min_detail(), 1);
    }
    assert_eq!(SortKey::Xfs.min_detail(), 2);
}

#[test]
fn sort_size_descending_ties_by_name() {
    let mut v = vec![entry("b"), entry("a"), entry("C"), entry("d")];
    v[0].size = 10;
    v[1].size = 10;
    v[2].size = 99;
    v[3].size = 1;
    sort_entries(&mut v, SortKey::Size);
    assert_eq!(names(&v), ["C", "a", "b", "d"]);
}

#[test]
fn sort_name_descending_case_insensitive() {
    let mut v = vec![entry("apple"), entry("Banana"), entry("cherry"), entry("banana")];
    sort_entries(&mut v, SortKey::Name);
    // "Banana" and "banana" compare equal on both the key and the tie-break: stable.
    assert_eq!(names(&v), ["cherry", "Banana", "banana", "apple"]);
}

#[test]
fn sort_by_name_ascending_and_stable() {
    let mut v = vec![entry("b"), entry("B"), entry("a"), entry("_z"), entry("Zed")];
    sort_by_name(&mut v);
    assert_eq!(names(&v), ["_z", "a", "b", "B", "Zed"]);
}

#[test]
fn sort_mtime_missing_is_oldest() {
    let mut v = vec![entry("none"), entry("old"), entry("new"), entry("new2")];
    v[1].mtime = ts(-5, 0);
    v[2].mtime = ts(100, 7);
    v[3].mtime = ts(100, 9);
    sort_entries(&mut v, SortKey::Mtime);
    assert_eq!(names(&v), ["new2", "new", "old", "none"]);
}

#[test]
fn sort_perms_by_mode_string_descending() {
    // "drwxr-xr-x" > "-rwxr-xr-x" > "-rw-------" character by character.
    let mut v = vec![entry("a"), entry("b"), entry("c")];
    v[0].mode = 0o100600;
    v[1].mode = 0o100755;
    v[2].mode = 0o040755;
    v[2].kind = Kind::Dir;
    sort_entries(&mut v, SortKey::Perms);
    assert_eq!(names(&v), ["c", "b", "a"]);

    // A directory sorts above a file whose numeric mode is larger.
    let mut v = vec![entry("file"), entry("dir")];
    v[1].mode = 0o040755;
    v[1].kind = Kind::Dir;
    sort_entries(&mut v, SortKey::Perms);
    assert_eq!(names(&v), ["dir", "file"]);
}

#[test]
fn sort_by_other_numeric_keys() {
    let mut v = vec![entry("a"), entry("b"), entry("c")];
    v[0].nlink = 2;
    v[1].nlink = 5;
    v[2].nlink = 3;
    sort_entries(&mut v, SortKey::Nlink);
    assert_eq!(names(&v), ["b", "c", "a"]);

    let mut v = vec![entry("a"), entry("b"), entry("c")];
    v[0].blocks = 8;
    v[0].blksize = 512;
    v[1].blocks = 8;
    v[1].blksize = 4096;
    v[2].blocks = 16;
    sort_entries(&mut v, SortKey::Blocks);
    assert_eq!(names(&v), ["c", "b", "a"]);

    let mut v = vec![entry("a"), entry("b")];
    v[0].sparse = true;
    sort_entries(&mut v, SortKey::Sparse);
    assert_eq!(names(&v), ["a", "b"]);

    let mut v = vec![entry("a"), entry("b"), entry("c")];
    v[0].ino = 5;
    v[0].extras.inode_gen = Some(1);
    v[1].ino = 5;
    v[2].ino = 5;
    v[2].extras.inode_gen = Some(2);
    sort_entries(&mut v, SortKey::Ino);
    assert_eq!(names(&v), ["c", "a", "b"]);

    let mut v = vec![entry("a"), entry("b"), entry("c")];
    v[1].dev_minor = 2;
    v[2].rdev_minor = 1;
    sort_entries(&mut v, SortKey::Dev);
    assert_eq!(names(&v), ["b", "c", "a"]);

    let mut v = vec![entry("a"), entry("b"), entry("c")];
    v[0].ctime_secs = -1;
    v[1].ctime_secs = 10;
    sort_entries(&mut v, SortKey::Ctime);
    assert_eq!(names(&v), ["b", "c", "a"]);

    let mut v = vec![entry("a"), entry("b")];
    v[0].atime = ts(1, 0);
    v[1].birth = ts(1, 0);
    sort_entries(&mut v, SortKey::Atime);
    assert_eq!(names(&v), ["a", "b"]);
    sort_entries(&mut v, SortKey::Birth);
    assert_eq!(names(&v), ["b", "a"]);
}

#[test]
fn sort_by_text_keys() {
    let mut v = vec![entry("a"), entry("b"), entry("c")];
    v[0].user = "bob".to_string();
    v[1].user = "Carol".to_string();
    v[2].user = "alice".to_string();
    sort_entries(&mut v, SortKey::User);
    assert_eq!(names(&v), ["b", "a", "c"]);

    let mut v = vec![entry("a"), entry("b")];
    v[0].group = "Wheel".to_string();
    v[1].group = "users".to_string();
    sort_entries(&mut v, SortKey::Group);
    assert_eq!(names(&v), ["a", "b"]);

    let mut v = vec![entry("a"), entry("b"), entry("c")];
    v[0].extras.flags = vec!["append".to_string()];
    v[1].extras.flags = vec!["Immutable".to_string()];
    sort_entries(&mut v, SortKey::Flags);
    assert_eq!(names(&v), ["b", "a", "c"]);

    let mut v = vec![entry("a"), entry("b"), entry("c")];
    v[0].extras.xattrs = vec!["user.z".to_string()];
    v[1].extras.xattrs = vec!["user.a".to_string(), "user.b".to_string()];
    v[2].extras.xattrs = vec!["user.y".to_string()];
    sort_entries(&mut v, SortKey::Xattrs);
    assert_eq!(names(&v), ["b", "a", "c"]);
}

fn xfs(nextents: u32, projid: u32, flags: &[&str]) -> Option<XfsInfo> {
    Some(XfsInfo {
        xflags: flags.iter().map(|s| s.to_string()).collect(),
        nextents,
        projid,
        extsize: 0,
        cowextsize: 0,
        dio_mem: None,
        dio_min: None,
        dio_max: None,
    })
}

#[test]
fn sort_by_xfs_info() {
    let mut v = vec![entry("a"), entry("b"), entry("c"), entry("d"), entry("e")];
    v[1].extras.xfs = xfs(3, 0, &[]);
    v[2].extras.xfs = xfs(3, 1, &[]);
    v[3].extras.xfs = xfs(3, 1, &["a"]);
    v[4].extras.xfs = xfs(3, 1, &["B"]);
    sort_entries(&mut v, SortKey::Xfs);
    // flags compare case-sensitively: "a" > "B"
    assert_eq!(names(&v), ["d", "e", "c", "b", "a"]);
}

#[test]
fn sorting_twice_changes_nothing() {
    let mut v = vec![entry("x"), entry("Y"), entry("y"), entry("w")];
    v[0].size = 3;
    v[1].size = 3;
    v[2].size = 3;
    sort_entries(&mut v, SortKey::Size);
    let once = names(&v);
    sort_entries(&mut v, SortKey::Size);
    assert_eq!(names(&v), once);
    assert_eq!(once, ["x", "Y", "y", "w"]);
}

#[test]
fn sort_empty_and_single() {
    let mut v: Vec<Entry> = Vec::new();
    sort_entries(&mut v, SortKey::Name);
    assert!(v.is_empty());
    let mut v = vec![entry("only")];
    sort_entries(&mut v, SortKey::Xfs);
    assert_eq!(names(&v), ["only"]);
}
