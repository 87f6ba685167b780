//! The metadata of one directory entry, as plain values.

use vstd::prelude::*;

use crate::text::push_char;

verus! {

/// What kind of file an entry is.
#[derive(Clone, Copy, Debug, PartialEq, Eq, Structural)]
pub enum Kind {
    File,
    Dir,
    Symlink,
    Fifo,
    Socket,
    Block,
    Char,
    Unknown,
}

/// A point in time: whole seconds since the Unix epoch (negative before it)
/// and the nanoseconds within that second (below one billion).
#[derive(Clone, Copy, Debug, PartialEq, Eq, Structural)]
pub struct Timestamp {
    pub secs: i64,
    pub nanos: u32,
}

/// XFS inode information.
pub struct XfsInfo {
    /// Names of the set XFS inode flags.
    pub xflags: Vec<String>,
    pub nextents: u32,
    pub projid: u32,
    pub extsize: u32,
    pub cowextsize: u32,
    pub dio_mem: Option<u32>,
    pub dio_min: Option<u32>,
    pub dio_max: Option<u32>,
}

/// Metadata beyond the basic stat fields.
pub struct Extras {
    pub inode_gen: Option<u32>,
    /// Names of the set inode flags.
    pub flags: Vec<String>,
    /// Names of the extended attributes.
    pub xattrs: Vec<String>,
    pub xfs: Option<XfsInfo>,
}

/// One listed entry.
pub struct Entry {
    pub name: String,
    pub kind: Kind,
    /// `st_mode`: file type and permission bits.
    pub mode: u32,
    pub nlink: u64,
    pub user: String,
    pub group: String,
    pub size: u64,
    /// Allocated blocks, in 512-byte units.
    pub blocks: u64,
    pub blksize: u64,
    pub sparse: bool,
    pub ino: u64,
    pub dev_major: u32,
    pub dev_minor: u32,
    pub rdev_major: u32,
    pub rdev_minor: u32,
    pub mtime: Option<Timestamp>,
    pub atime: Option<Timestamp>,
    /// Status-change time in seconds since the epoch.
    pub ctime_secs: i64,
    pub birth: Option<Timestamp>,
    /// The link target, for a symbolic link.
    pub symlink: Option<String>,
    pub broken_symlink: bool,
    pub executable: bool,
    /// Whether the entry carries an access control list.
    pub acl: bool,
    pub extras: Extras,
}


/// The type character of the mode string.
pub open spec fn type_char(k: Kind) -> char {
    match k {
        Kind::File => '-',
        Kind::Dir => 'd',
        Kind::Symlink => 'l',
        Kind::Fifo => 'p',
        Kind::Socket => 's',
        Kind::Block => 'b',
        Kind::Char => 'c',
        Kind::Unknown => '?',
    }
}

/// Whether `mode` has any of the bits of `mask`.
pub open spec fn has_bit(mode: u32, mask: u32) -> bool {
    mode & mask != 0
}

/// The execute position: `x`/`-`, or `lower`/`upper` when the special bit is set
/// with/without execute permission.
pub open spec fn exec_char(x: bool, special: bool, lower: char, upper: char) -> char {
    if special {
        if x {
            lower
        } else {
            upper
        }
    } else if x {
        'x'
    } else {
        '-'
    }
}

/// The classic mode string: type, then read/write/execute for user, group and
/// others (setuid/setgid as `s`/`S`, sticky as `t`/`T`), then `+` when the entry
/// has an ACL and `@` when it has extended attributes.
pub open spec fn mode_text(e: Entry) -> Seq<char> {
    let m = e.mode;
    seq![
        type_char(e.kind),
        if has_bit(m, 0o400) { 'r' } else { '-' },
        if has_bit(m, 0o200) { 'w' } else { '-' },
        exec_char(has_bit(m, 0o100), has_bit(m, 0o4000), 's', 'S'),
        if has_bit(m, 0o40) { 'r' } else { '-' },
        if has_bit(m, 0o20) { 'w' } else { '-' },
        exec_char(has_bit(m, 0o10), has_bit(m, 0o2000), 's', 'S'),
        if has_bit(m, 0o4) { 'r' } else { '-' },
        if has_bit(m, 0o2) { 'w' } else { '-' },
        exec_char(has_bit(m, 0o1), has_bit(m, 0o1000), 't', 'T'),
    ] + (if e.acl { seq!['+'] } else { seq![] }) + (if e.extras.xattrs@.len() > 0 {
        seq!['@']
    } else {
        seq![]
    })
}

fn flag_char(mode: u32, mask: u32, c: char) -> (r: char)
    ensures
        r == if has_bit(mode, mask) { c } else { '-' },
{
    if mode & mask != 0 {
        c
    } else {
        '-'
    }
}

fn exec_position(mode: u32, xmask: u32, smask: u32, lower: char, upper: char) -> (r: char)
    ensures
        r == exec_char(has_bit(mode, xmask), has_bit(mode, smask), lower, upper),
{
    let x = mode & xmask != 0;
    if mode & smask != 0 {
        if x {
            lower
        } else {
            upper
        }
    } else if x {
        'x'
    } else {
        '-'
    }
}

impl Entry {
    /// The classic mode string, e.g. `drwxr-xr-x`.
    #[verifier::rlimit(40)]
    pub fn mode_string(&self) -> (r: String)
        ensures
            r@ == mode_text(*self),
    {
        let m = self.mode;
        let t = match self.kind {
            Kind::File => '-',
            Kind::Dir => 'd',
            Kind::Symlink => 'l',
            Kind::Fifo => 'p',
            Kind::Socket => 's',
            Kind::Block => 'b',
            Kind::Char => 'c',
            Kind::Unknown => '?',
        };
        let mut s = String::new();
        push_char(&mut s, t);
        push_char(&mut s, flag_char(m, 0o400, 'r'));
        push_char(&mut s, flag_char(m, 0o200, 'w'));
        push_char(&mut s, exec_position(m, 0o100, 0o4000, 's', 'S'));
        push_char(&mut s, flag_char(m, 0o40, 'r'));
        push_char(&mut s, flag_char(m, 0o20, 'w'));
        push_char(&mut s, exec_position(m, 0o10, 0o2000, 's', 'S'));
        push_char(&mut s, flag_char(m, 0o4, 'r'));
        push_char(&mut s, flag_char(m, 0o2, 'w'));
        push_char(&mut s, exec_position(m, 0o1, 0o1000, 't', 'T'));
        if self.acl {
            push_char(&mut s, '+');
        }
        if self.extras.xattrs.len() > 0 {
            push_char(&mut s, '@');
        }
        assert(s@ =~= mode_text(*self));
        s
    }

    /// The XFS information, when it was collected.
    pub fn xfs(&self) -> (r: Option<&XfsInfo>)
        ensures
            r matches Some(x) ==> self.extras.xfs == Some(*x),
            r is None ==> self.extras.xfs is None,
    {
        match &self.extras.xfs {
            Some(x) => Some(x),
            None => None,
        }
    }
}

/// The major number of a Linux device id.
pub open spec fn dev_major(dev: u64) -> u64 {
    ((dev >> 32u64) & 0xffff_f000u64) | ((dev >> 8u64) & 0x0000_0fffu64)
}

/// The minor number of a Linux device id.
pub open spec fn dev_minor(dev: u64) -> u64 {
    ((dev >> 12u64) & 0xffff_ff00u64) | (dev & 0x0000_00ffu64)
}

/// The major and minor numbers of a Linux device id.
pub fn device_numbers(dev: u64) -> (r: (u32, u32))
    ensures
        r.0 == dev_major(dev),
        r.1 == dev_minor(dev),
{
    let major = ((dev >> 32u64) & 0xffff_f000u64) | ((dev >> 8u64) & 0x0000_0fffu64);
    let minor = ((dev >> 12u64) & 0xffff_ff00u64) | (dev & 0x0000_00ffu64);
    assert(major <= 0xffff_ffffu64) by (bit_vector)
        requires
            major == ((dev >> 32u64) & 0xffff_f000u64) | ((dev >> 8u64) & 0x0000_0fffu64),
    ;
    assert(minor <= 0xffff_ffffu64) by (bit_vector)
        requires
            minor == ((dev >> 12u64) & 0xffff_ff00u64) | (dev & 0x0000_00ffu64),
    ;
    (major as u32, minor as u32)
}

/// Whether a file is sparse: a regular file with fewer bytes allocated (in
/// 512-byte blocks) than its logical size.
pub fn sparse_flag(is_file: bool, blocks: u64, size: u64) -> (r: bool)
    ensures
        r == (is_file && blocks * 512 < size),
{
    if !is_file {
        return false;
    }
    match blocks.checked_mul(512) {
        Some(allocated) => allocated < size,
        None => false,
    }
}

/// Whether an entry is executable: a regular file with any execute bit set.
pub fn executable_flag(is_file: bool, mode: u32) -> (r: bool)
    ensures
        r == (is_file && has_bit(mode, 0o111)),
{
    is_file && mode & 0o111 != 0
}

impl Timestamp {
    /// The time `secs` seconds and `nanos` nanoseconds after the epoch (before it
    /// when `before`), as whole seconds rounded down and the nanoseconds past them;
    /// `None` when the seconds do not fit in an `i64`.
    pub fn from_offset(before: bool, secs: u64, nanos: u32) -> (r: Option<Timestamp>)
        requires
            nanos < 1_000_000_000,
        ensures
            r is Some <==> secs <= i64::MAX,
            r matches Some(t) ==> t.nanos < 1_000_000_000 && t.secs * 1_000_000_000 + t.nanos
                == if before {
                -(secs * 1_000_000_000 + nanos)
            } else {
                secs * 1_000_000_000 + nanos
            },
    {
        if secs > i64::MAX as u64 {
            return None;
        }
        let s = secs as i64;
        if !before {
            Some(Timestamp { secs: s, nanos })
        } else if nanos == 0 {
            Some(Timestamp { secs: -s, nanos: 0 })
        } else {
            Some(Timestamp { secs: -s - 1, nanos: 1_000_000_000 - nanos })
        }
    }
}

/// The mode string shows each permission bit in its own position: read and write
/// as `r`/`w` or `-`; an execute position shows `x` or `s`/`t` when the execute bit
/// is set, and `s`/`S` (or `t`/`T`) exactly when its setuid, setgid or sticky bit
/// is set. The first character tells the kind, and `+` (ACL) and `@` (extended
/// attributes) follow the nine permission characters.
pub proof fn lemma_mode_string_positions(e: Entry)
    ensures
        ({
            let s = mode_text(e);
            let m = e.mode;
            let extra: int = (if e.acl { 1int } else { 0int }) + (if e.extras.xattrs@.len() > 0 {
                1int
            } else {
                0int
            });
            &&& s.len() == 10 + extra
            &&& (s[0] == 'd') == (e.kind == Kind::Dir)
            &&& (s[0] == 'l') == (e.kind == Kind::Symlink)
            &&& (s[0] == '-') == (e.kind == Kind::File)
            &&& (s[1] == 'r') == (m & 0o400u32 != 0u32) && (s[1] == 'r' || s[1] == '-')
            &&& (s[2] == 'w') == (m & 0o200u32 != 0u32) && (s[2] == 'w' || s[2] == '-')
            &&& (s[4] == 'r') == (m & 0o40u32 != 0u32) && (s[4] == 'r' || s[4] == '-')
            &&& (s[5] == 'w') == (m & 0o20u32 != 0u32) && (s[5] == 'w' || s[5] == '-')
            &&& (s[7] == 'r') == (m & 0o4u32 != 0u32) && (s[7] == 'r' || s[7] == '-')
            &&& (s[8] == 'w') == (m & 0o2u32 != 0u32) && (s[8] == 'w' || s[8] == '-')
            &&& (s[3] == 'x' || s[3] == 's') == (m & 0o100u32 != 0u32)
            &&& (s[3] == 's' || s[3] == 'S') == (m & 0o4000u32 != 0u32)
            &&& (s[3] == 'x' || s[3] == 's' || s[3] == 'S' || s[3] == '-')
            &&& (s[6] == 'x' || s[6] == 's') == (m & 0o10u32 != 0u32)
            &&& (s[6] == 's' || s[6] == 'S') == (m & 0o2000u32 != 0u32)
            &&& (s[6] == 'x' || s[6] == 's' || s[6] == 'S' || s[6] == '-')
            &&& (s[9] == 'x' || s[9] == 't') == (m & 0o1u32 != 0u32)
            &&& (s[9] == 't' || s[9] == 'T') == (m & 0o1000u32 != 0u32)
            &&& (s[9] == 'x' || s[9] == 't' || s[9] == 'T' || s[9] == '-')
            &&& e.acl ==> s[10] == '+'
            &&& e.extras.xattrs@.len() > 0 ==> s[s.len() - 1] == '@'
        }),
{
}

} // verus!
