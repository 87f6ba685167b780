use xls::columns::{Column, Mode};
use xls::entry::{Entry, Extras, Kind, Timestamp, XfsInfo};
use xls::format::{
    color_for, write_entry, write_header, Widths, DIM, GREEN, HIDDEN_DIR, HIDDEN_EXEC,
    HIDDEN_FILE, HIDDEN_LINK, LIGHT_BLUE, ORANGE, RED, RESET, SOFT, WHITE,
};

fn entry(name: &str) -> Entry {
    Entry {
        name: name.to_string(),
        kind: Kind::File,
        mode: 0o100644,
        nlink: 1,
        user: "alice".to_string(),
        group: "staff".to_string(),
        size: 1536,
        blocks: 8,
        blksize: 4096,
        sparse: false,
        ino: 42,
        dev_major: 8,
        dev_minor: 1,
        rdev_major: 0,
        rdev_minor: 0,
        mtime: Some(Timestamp { secs: 951782400, nanos: 0 }),
        atime: None,
        ctime_secs: 0,
        birth: Some(Timestamp { secs: -1, nanos: 0 }),
        symlink: None,
        broken_symlink: false,
        executable: false,
        acl: false,
        extras: Extras { inode_gen: None, flags: Vec::new(), xattrs: Vec::new(), xfs: None },
    }
}

fn line(e: &Entry, cols: &[Column]) -> String {
    let w = Widths::measure(std::slice::from_ref(e), cols);
    let mut out = String::new();
    write_entry(&mut out, e, cols, &w);
    out
}

fn cell(e: &Entry, c: Column) -> String {
    let s = line(e, &[c]);
    s.strip_suffix('\n').unwrap().to_string()
}

#[test]
fn colors_by_kind_and_visibility() {
    let mut e = entry("a");
    assert_eq!(color_for(&e), WHITE);
    e.executable = true;
    assert_eq!(color_for(&e), GREEN);
    e.name = ".a".to_string();
    assert_eq!(color_for(&e), HIDDEN_EXEC);
    e.executable = false;
    assert_eq!(color_for(&e), HIDDEN_FILE);
    e.kind = Kind::Dir;
    assert_eq!(color_for(&e), HIDDEN_DIR);
    e.name = "d".to_string();
    assert_eq!(color_for(&e), LIGHT_BLUE);
    e.kind = Kind::Symlink;
    assert_eq!(color_for(&e), ORANGE);
    e.name = ".l".to_string();
    assert_eq!(color_for(&e), HIDDEN_LINK);
    e.kind = Kind::Socket;
    assert_eq!(color_for(&e), HIDDEN_LINK);
    e.name = "s".to_string();
    assert_eq!(color_for(&e), ORANGE);
    e.kind = Kind::Unknown;
    assert_eq!(color_for(&e), WHITE);
    e.broken_symlink = true;
    assert_eq!(color_for(&e), RED);
}

#[test]
fn mode_string_bits() {
    let mut e = entry("f");
    assert_eq!(e.mode_string(), "-rw-r--r--");
    e.kind = Kind::Dir;
    e.mode = 0o041777;
    assert_eq!(e.mode_string(), "drwxrwxrwt");
    e.kind = Kind::File;
    e.mode = 0o106644;
    assert_eq!(e.mode_string(), "-rwSr-Sr--");
    e.mode = 0o104755;
    e.acl = true;
    e.extras.xattrs = vec!["user.x".to_string()];
    assert_eq!(e.mode_string(), "-rwsr-xr-x+@");
    e.kind = Kind::Char;
    e.mode = 0o1000;
    e.acl = false;
    e.extras.xattrs.clear();
    assert_eq!(e.mode_string(), "c--------T");
}

#[test]
fn basic_line_and_header() {
    let e = entry("notes.txt");
    let cols = Mode::Basic.columns();
    let w = Widths::measure(std::slice::from_ref(&e), &cols);
    let mut out = String::new();
    write_header(&mut out, &cols, &w);
    let header = format!(
        "{LIGHT_BLUE}PERMS     {RESET} {LIGHT_BLUE}USER {RESET} {LIGHT_BLUE}GROUP{RESET} \
         {LIGHT_BLUE}SIZE{RESET} {LIGHT_BLUE}MTIME              {RESET} {LIGHT_BLUE}NAME{RESET}\n"
    );
    assert_eq!(out, header);

    let mut out = String::new();
    write_entry(&mut out, &e, &cols, &w);
    let perms = format!(
        "{WHITE}-{RESET}{WHITE}r{RESET}{RED}w{RESET}{DIM}-{RESET}{WHITE}r{RESET}{DIM}-{RESET}\
         {DIM}-{RESET}{WHITE}r{RESET}{DIM}-{RESET}{DIM}-{RESET}"
    );
    let expected = format!(
        "{perms} {LIGHT_BLUE}alice{RESET} {LIGHT_BLUE}staff{RESET} {SOFT}1.5K{RESET} \
         {DIM}29-02-2000 00:00:00{RESET} {WHITE}notes.txt{RESET}\n"
    );
    assert_eq!(out, expected);
}

#[test]
fn widths_cover_headers_and_cells() {
    let mut a = entry("a");
    let mut b = entry("b");
    a.user = "bo".to_string();
    b.user = "jürgen".to_string();
    a.size = 5;
    b.size = 123456789;
    b.nlink = 1234;
    let cols = [Column::User, Column::Size, Column::Nlink, Column::Name, Column::Sparse];
    let entries = vec![a, b];
    let w = Widths::measure(&entries, &cols);
    let mut out = String::new();
    write_header(&mut out, &cols, &w);
    // USER is 7 bytes wide ("jürgen" has 7 UTF-8 bytes, padded by characters), SIZE is 4
    // ("118M"), N right-aligned to 4, NAME and S unpadded.
    assert_eq!(
        out,
        format!(
            "{LIGHT_BLUE}USER   {RESET} {LIGHT_BLUE}SIZE{RESET} {LIGHT_BLUE}   N{RESET} \
             {LIGHT_BLUE}NAME{RESET} {LIGHT_BLUE}S{RESET}\n"
        )
    );
    let mut out = String::new();
    write_entry(&mut out, &entries[1], &cols, &w);
    assert_eq!(
        out,
        format!(
            "{LIGHT_BLUE}jürgen {RESET} {SOFT}118M{RESET} {WHITE}1234{RESET} {WHITE}b{RESET} \
             {DIM}-{RESET}\n"
        )
    );
}

#[test]
fn time_cells() {
    let mut e = entry("t");
    e.atime = Some(Timestamp { secs: 1735689599, nanos: 5 });
    assert_eq!(cell(&e, Column::Atime), format!("{DIM}31-12-2024 23:59:59{RESET}"));
    e.atime = Some(Timestamp { secs: 4107587696, nanos: 0 });
    assert_eq!(cell(&e, Column::Atime), format!("{DIM}01-03-2100 12:34:56{RESET}"));
    e.atime = Some(Timestamp { secs: 0, nanos: 0 });
    assert_eq!(cell(&e, Column::Atime), format!("{DIM}01-01-1970 00:00:00{RESET}"));
    e.atime = Some(Timestamp { secs: i64::MAX, nanos: 0 });
    assert_eq!(cell(&e, Column::Atime), format!("{DIM}04-12-292277026596 15:30:07{RESET}"));
    // missing, before the epoch
    assert_eq!(cell(&e, Column::Mtime), format!("{DIM}29-02-2000 00:00:00{RESET}"));
    e.mtime = None;
    assert_eq!(cell(&e, Column::Mtime), format!("{DIM}—                  {RESET}"));
    assert_eq!(cell(&e, Column::Birth), format!("{DIM}—                  {RESET}"));
    // ctime in seconds: zero and below show a dash
    assert_eq!(cell(&e, Column::Ctime), format!("{DIM}—                  {RESET}"));
    e.ctime_secs = 1;
    assert_eq!(cell(&e, Column::Ctime), format!("{DIM}01-01-1970 00:00:01{RESET}"));
    e.ctime_secs = 253402300799;
    assert_eq!(cell(&e, Column::Ctime), format!("{DIM}31-12-9999 23:59:59{RESET}"));
}

#[test]
fn numeric_and_id_cells() {
    let mut e = entry("x");
    e.extras.inode_gen = Some(7);
    assert_eq!(cell(&e, Column::Ino), format!("{DIM}42:7    {RESET}"));
    e.extras.inode_gen = None;
    assert_eq!(cell(&e, Column::Ino), format!("{DIM}42:-    {RESET}"));
    assert_eq!(cell(&e, Column::Dev), format!("{DIM}8:1{RESET}"));
    e.kind = Kind::Block;
    e.rdev_major = 259;
    e.rdev_minor = 3;
    assert_eq!(cell(&e, Column::Dev), format!("{DIM}8:1 rdev=259:3{RESET}"));
    assert_eq!(cell(&e, Column::Blocks), format!("{DIM}8b/4096{RESET}"));
    assert_eq!(cell(&e, Column::Nlink), format!("{WHITE}1{RESET}"));
    e.sparse = true;
    assert_eq!(cell(&e, Column::Sparse), format!("{DIM}S{RESET}"));
}

#[test]
fn flag_and_xattr_cells() {
    let mut e = entry("x");
    assert_eq!(cell(&e, Column::Flags), format!("{ORANGE}-    {RESET}"));
    e.extras.flags = vec!["append".to_string(), "noatime".to_string()];
    assert_eq!(cell(&e, Column::Flags), format!("{ORANGE}append,noatime{RESET}"));
    assert_eq!(cell(&e, Column::Xattrs), format!("{ORANGE}-     {RESET}"));
    e.extras.xattrs = vec!["user.a".to_string()];
    assert_eq!(cell(&e, Column::Xattrs), format!("{ORANGE}user.a{RESET}"));
}

#[test]
fn xfs_cells() {
    let mut e = entry("x");
    assert_eq!(cell(&e, Column::Xfs), format!("{ORANGE}-  {RESET}"));
    e.extras.xfs = Some(XfsInfo {
        xflags: Vec::new(),
        nextents: 3,
        projid: 0,
        extsize: 4096,
        cowextsize: 0,
        dio_mem: Some(512),
        dio_min: Some(512),
        dio_max: None,
    });
    assert_eq!(cell(&e, Column::Xfs), format!("{ORANGE}-,exts=3,proj=0,esz=4096,cow=0{RESET}"));
    if let Some(x) = e.extras.xfs.as_mut() {
        x.dio_max = Some(2147483647);
        x.xflags = vec!["prealloc".to_string(), "dax".to_string()];
    }
    assert_eq!(
        cell(&e, Column::Xfs),
        format!("{ORANGE}prealloc,dax,exts=3,proj=0,esz=4096,cow=0,dio=512/512/2147483647{RESET}")
    );
}

#[test]
fn name_cells() {
    let mut e = entry("link");
    e.kind = Kind::Symlink;
    e.symlink = Some("target".to_string());
    assert_eq!(
        cell(&e, Column::Name),
        format!("{ORANGE}link{RESET} {DIM}->{RESET} {ORANGE}target{RESET}")
    );
    e.broken_symlink = true;
    assert_eq!(
        cell(&e, Column::Name),
        format!("{RED}link{RESET} {DIM}->{RESET} {RED}target{RESET}")
    );
}

#[test]
fn perms_cell_pads_to_width() {
    let mut a = entry(".hidden");
    a.kind = Kind::Dir;
    a.mode = 0o042755;
    let b = {
        let mut b = entry("b");
        b.acl = true;
        b.extras.xattrs = vec!["k".to_string()];
        b
    };
    let entries = vec![a, b];
    let cols = [Column::Perms];
    let w = Widths::measure(&entries, &cols);
    let mut out = String::new();
    write_entry(&mut out, &entries[0], &cols, &w);
    let expected = format!(
        "{HIDDEN_DIR}d{RESET}{WHITE}r{RESET}{RED}w{RESET}{GREEN}x{RESET}{WHITE}r{RESET}{DIM}-{RESET}\
         {ORANGE}s{RESET}{WHITE}r{RESET}{DIM}-{RESET}{GREEN}x{RESET}  \n"
    );
    assert_eq!(out, expected);
    let mut out = String::new();
    write_entry(&mut out, &entries[1], &cols, &w);
    assert!(out.ends_with(&format!("{LIGHT_BLUE}+{RESET}{ORANGE}@{RESET}\n")));
}

#[test]
fn mode_columns_nest() {
    let basic = Mode::Basic.columns();
    let all = Mode::All.columns();
    let full = Mode::Full.columns();
    assert_eq!(
        basic,
        [Column::Perms, Column::User, Column::Group, Column::Size, Column::Mtime, Column::Name]
    );
    for c in &basic {
        assert!(all.contains(c));
    }
    for c in &all {
        assert!(full.contains(c));
    }
    assert!(full.contains(&Column::Xfs) && !all.contains(&Column::Xfs));
    assert_eq!(Mode::Basic.detail(), 0);
    assert_eq!(Mode::All.detail(), 1);
    assert_eq!(Mode::Full.detail(), 2);
    assert_eq!(Column::Ino.header(), "INO:IGEN");
}

#[test]
fn default_widths_are_zero() {
    let w = Widths::default();
    let e = entry("n");
    let mut out = String::new();
    write_entry(&mut out, &e, &[Column::User, Column::Sparse, Column::Mtime], &w);
    assert_eq!(
        out,
        format!("{LIGHT_BLUE}alice{RESET} {DIM}-{RESET} {DIM}29-02-2000 00:00:00{RESET}\n")
    );
}
