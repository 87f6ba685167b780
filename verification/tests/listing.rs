use xls::columns::{Column, Mode};
use xls::entry::{
    device_numbers, executable_flag, sparse_flag, Entry, Extras, Kind, Timestamp,
};
use xls::format::{write_header, Widths};
use xls::listing::render_listing;
use xls::sort::SortKey;

fn entry(name: &str, user: &str, size: u64) -> Entry {
    Entry {
        name: name.to_string(),
        kind: Kind::File,
        mode: 0o100644,
        nlink: 1,
        user: user.to_string(),
        group: "staff".to_string(),
        size,
        blocks: 8,
        blksize: 4096,
        sparse: false,
        ino: 42,
        dev_major: 8,
        dev_minor: 1,
        rdev_major: 0,
        rdev_minor: 0,
        mtime: Some(Timestamp { secs: 951782400, nanos: 0 }),
        atime: None,
        ctime_secs: 86399,
        birth: Some(Timestamp { secs: -1, nanos: 0 }),
        symlink: None,
        broken_symlink: false,
        executable: false,
        acl: false,
        extras: Extras { inode_gen: None, flags: Vec::new(), xattrs: Vec::new(), xfs: None },
    }
}

/// The text with its escape sequences (ESC up to and including `m`) removed.
fn strip(s: &str) -> String {
    let mut out = String::new();
    let mut esc = false;
    for ch in s.chars() {
        if esc {
            esc = ch != 'm';
        } else if ch == '\x1b' {
            esc = true;
        } else {
            out.push(ch);
        }
    }
    out
}

fn header(entries: &[Entry], cols: &[Column]) -> String {
    let w = Widths::measure(entries, cols);
    let mut out = String::new();
    write_header(&mut out, cols, &w);
    out
}

#[test]
fn render_listing_sorts_and_writes_header_then_rows() {
    let mut v = vec![entry("b", "bob", 10), entry("a", "al", 3000), entry("c", "carol", 7)];
    let cols = Mode::Basic.columns();
    let text = render_listing(&mut v, &cols, Some(SortKey::Size), true);
    let names: Vec<&str> = v.iter().map(|e| e.name.as_str()).collect();
    assert_eq!(names, ["a", "b", "c"]);
    let lines: Vec<String> = text.lines().map(strip).collect();
    assert_eq!(lines.len(), 4);
    assert!(lines[0].starts_with("PERMS"));
    assert!(lines[1].ends_with(" a"));
    assert!(lines[2].ends_with(" b"));
    assert!(lines[3].ends_with(" c"));

    let mut v = vec![entry("b", "bob", 10), entry("A", "al", 3000)];
    let text = render_listing(&mut v, &cols, None, false);
    let lines: Vec<String> = text.lines().map(strip).collect();
    assert_eq!(lines.len(), 2);
    assert!(lines[0].ends_with(" A"));
    assert!(lines[1].ends_with(" b"));
}

#[test]
fn rows_line_up_once_colors_are_removed() {
    let mut v = vec![
        entry("x", "al", 5),
        entry("longer-name", "bartholomew", 123456789),
        entry("é", "zoë", 1048576),
    ];
    v[1].sparse = true;
    v[1].nlink = 1234;
    v[2].mtime = None;
    let cols = Mode::All.columns();
    let text = render_listing(&mut v, &cols, Some(SortKey::Name), true);
    let mut widths = Vec::new();
    for (line, e) in text.lines().skip(1).zip(v.iter()) {
        let shown = strip(line);
        widths.push(shown.chars().count() - e.name.chars().count());
    }
    assert_eq!(widths.len(), 3);
    assert!(widths.iter().all(|&w| w == widths[0]), "rows differ: {widths:?}");
    let head = strip(text.lines().next().unwrap());
    assert_eq!(head.chars().count() - "NAME".len(), widths[0]);
}

#[test]
fn measured_widths_ignore_order_and_never_shrink() {
    let a = || entry("a", "al", 5);
    let b = || entry("b", "bartholomew", 123456789);
    let c = || entry("c", "cy", 1 << 40);
    let cols = Mode::Full.columns();
    let forward = header(&[a(), b(), c()], &cols);
    let backward = header(&[c(), a(), b()], &cols);
    assert_eq!(forward, backward);
    let fewer = header(&[a()], &cols);
    assert!(strip(&fewer).chars().count() <= strip(&forward).chars().count());
    assert!(strip(&forward).contains("USER       "));
}

#[test]
fn device_numbers_split_linux_ids() {
    assert_eq!(device_numbers(0x0801), (8, 1));
    assert_eq!(device_numbers(0), (0, 0));
    // major 0x12345, minor 0x6789a in the Linux encoding
    let dev: u64 = (0x12345u64 & 0xfff) << 8
        | (0x12345u64 & !0xfff) << 32
        | (0x6789au64 & 0xff)
        | (0x6789au64 & !0xff) << 12;
    assert_eq!(device_numbers(dev), (0x12345, 0x6789a));
}

#[test]
fn sparse_and_executable_flags() {
    assert!(sparse_flag(true, 0, 1));
    assert!(!sparse_flag(true, 2, 1024));
    assert!(sparse_flag(true, 1, 1024));
    assert!(!sparse_flag(false, 0, 1024));
    assert!(!sparse_flag(true, u64::MAX, u64::MAX));
    assert!(executable_flag(true, 0o100744));
    assert!(executable_flag(true, 0o100001));
    assert!(!executable_flag(true, 0o100644));
    assert!(!executable_flag(false, 0o40755));
}

#[test]
fn timestamps_from_offsets() {
    assert_eq!(Timestamp::from_offset(false, 5, 7), Some(Timestamp { secs: 5, nanos: 7 }));
    assert_eq!(Timestamp::from_offset(true, 5, 0), Some(Timestamp { secs: -5, nanos: 0 }));
    assert_eq!(
        Timestamp::from_offset(true, 5, 250_000_000),
        Some(Timestamp { secs: -6, nanos: 750_000_000 })
    );
    assert_eq!(Timestamp::from_offset(false, u64::MAX, 0), None);
    assert_eq!(
        Timestamp::from_offset(false, i64::MAX as u64, 0),
        Some(Timestamp { secs: i64::MAX, nanos: 0 })
    );
}

#[test]
fn dates_count_back_to_their_seconds() {
    // (seconds since the epoch, shown date); each date and time counts back to the seconds.
    let cases: [(i64, &str); 6] = [
        (0, "01-01-1970 00:00:00"),
        (86399, "01-01-1970 23:59:59"),
        (951868799, "29-02-2000 23:59:59"),
        (1709251199, "29-02-2024 23:59:59"),
        (2147483647, "19-01-2038 03:14:07"),
        (253402300799, "31-12-9999 23:59:59"),
    ];
    for (secs, shown) in cases {
        let mut v = vec![entry("f", "al", 1)];
        v[0].mtime = Some(Timestamp { secs, nanos: 0 });
        let text = render_listing(&mut v, &[Column::Mtime], None, false);
        assert_eq!(strip(&text), format!("{shown}\n"));
    }
}
