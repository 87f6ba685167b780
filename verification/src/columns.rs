//! The columns of the listing and the listing modes that choose them.

use vstd::prelude::*;

verus! {

/// One column of the listing.
#[derive(Clone, Copy, Debug, PartialEq, Eq, Structural)]
pub enum Column {
    Perms,
    Nlink,
    User,
    Group,
    Size,
    Blocks,
    Sparse,
    Ino,
    Dev,
    Mtime,
    Atime,
    Ctime,
    Birth,
    Flags,
    Xattrs,
    Xfs,
    Name,
}

/// The header label of a column.
pub open spec fn header_text(c: Column) -> Seq<char> {
    match c {
        Column::Perms => "PERMS"@,
        Column::Nlink => "N"@,
        Column::User => "USER"@,
        Column::Group => "GROUP"@,
        Column::Size => "SIZE"@,
        Column::Blocks => "BLOCKS"@,
        Column::Sparse => "S"@,
        Column::Ino => "INO:IGEN"@,
        Column::Dev => "DEV"@,
        Column::Mtime => "MTIME"@,
        Column::Atime => "ATIME"@,
        Column::Ctime => "CTIME"@,
        Column::Birth => "BIRTH"@,
        Column::Flags => "FLAGS"@,
        Column::Xattrs => "XATTRS"@,
        Column::Xfs => "XFS"@,
        Column::Name => "NAME"@,
    }
}

impl Column {
    /// The header label of this column.
    pub fn header(self) -> (r: &'static str)
        ensures
            r@ == header_text(self),
    {
        match self {
            Column::Perms => "PERMS",
            Column::Nlink => "N",
            Column::User => "USER",
            Column::Group => "GROUP",
            Column::Size => "SIZE",
            Column::Blocks => "BLOCKS",
            Column::Sparse => "S",
            Column::Ino => "INO:IGEN",
            Column::Dev => "DEV",
            Column::Mtime => "MTIME",
            Column::Atime => "ATIME",
            Column::Ctime => "CTIME",
            Column::Birth => "BIRTH",
            Column::Flags => "FLAGS",
            Column::Xattrs => "XATTRS",
            Column::Xfs => "XFS",
            Column::Name => "NAME",
        }
    }
}

/// How much the listing shows.
#[derive(Clone, Copy, Debug, PartialEq, Eq, Structural)]
pub enum Mode {
    /// Perms, user, group, size, mtime, name.
    Basic,
    /// All portable metadata.
    All,
    /// Everything in `All` plus XFS fields.
    Full,
}

/// The columns shown in a mode, left to right.
pub open spec fn mode_columns(m: Mode) -> Seq<Column> {
    match m {
        Mode::Basic => seq![
            Column::Perms,
            Column::User,
            Column::Group,
            Column::Size,
            Column::Mtime,
            Column::Name,
        ],
        Mode::All => seq![
            Column::Perms,
            Column::Nlink,
            Column::User,
            Column::Group,
            Column::Size,
            Column::Blocks,
            Column::Sparse,
            Column::Ino,
            Column::Dev,
            Column::Mtime,
            Column::Atime,
            Column::Ctime,
            Column::Birth,
            Column::Flags,
            Column::Xattrs,
            Column::Name,
        ],
        Mode::Full => seq![
            Column::Perms,
            Column::Nlink,
            Column::User,
            Column::Group,
            Column::Size,
            Column::Blocks,
            Column::Sparse,
            Column::Ino,
            Column::Dev,
            Column::Mtime,
            Column::Atime,
            Column::Ctime,
            Column::Birth,
            Column::Flags,
            Column::Xattrs,
            Column::Xfs,
            Column::Name,
        ],
    }
}

impl Mode {
    /// The columns shown in this mode, left to right.
    pub fn columns(self) -> (r: Vec<Column>)
        ensures
            r@ == mode_columns(self),
    {
        let mut v: Vec<Column> = Vec::new();
        v.push(Column::Perms);
        match self {
            Mode::Basic => {
                v.push(Column::User);
                v.push(Column::Group);
                v.push(Column::Size);
                v.push(Column::Mtime);
            },
            Mode::All | Mode::Full => {
                v.push(Column::Nlink);
                v.push(Column::User);
                v.push(Column::Group);
                v.push(Column::Size);
                v.push(Column::Blocks);
                v.push(Column::Sparse);
                v.push(Column::Ino);
                v.push(Column::Dev);
                v.push(Column::Mtime);
                v.push(Column::Atime);
                v.push(Column::Ctime);
                v.push(Column::Birth);
                v.push(Column::Flags);
                v.push(Column::Xattrs);
                if let Mode::Full = self {
                    v.push(Column::Xfs);
                }
            },
        }
        v.push(Column::Name);
        assert(v@ =~= mode_columns(self));
        v
    }

    /// The metadata detail a mode collects: 0 = basic stat, 1 = portable extras,
    /// 2 = + XFS.
    pub open spec fn detail_spec(self) -> u8 {
        match self {
            Mode::Basic => 0u8,
            Mode::All => 1u8,
            Mode::Full => 2u8,
        }
    }

    /// The metadata detail a mode collects: 0 = basic stat, 1 = portable extras,
    /// 2 = + XFS.
    pub fn detail(self) -> (r: u8)
        ensures
            r == self.detail_spec(),
    {
        match self {
            Mode::Basic => 0,
            Mode::All => 1,
            Mode::Full => 2,
        }
    }
}


/// Each mode shows every column of the smaller modes: `All` includes the basic
/// columns and `Full` includes all of `All`, plus the XFS column.
pub proof fn lemma_modes_nested(c: Column)
    ensures
        mode_columns(Mode::Basic).contains(c) ==> mode_columns(Mode::All).contains(c),
        mode_columns(Mode::All).contains(c) ==> mode_columns(Mode::Full).contains(c),
        mode_columns(Mode::Full).contains(c) == (mode_columns(Mode::All).contains(c) || c
            == Column::Xfs),
{
    let b = mode_columns(Mode::Basic);
    let a = mode_columns(Mode::All);
    let f = mode_columns(Mode::Full);
    if b.contains(c) {
        let i = choose|i: int| 0 <= i < b.len() && b[i] == c;
        if i == 0 {
            assert(a[0] == c);
        } else if i == 1 {
            assert(a[2] == c);
        } else if i == 2 {
            assert(a[3] == c);
        } else if i == 3 {
            assert(a[4] == c);
        } else if i == 4 {
            assert(a[9] == c);
        } else {
            assert(a[15] == c);
        }
    }
    if a.contains(c) {
        let i = choose|i: int| 0 <= i < a.len() && a[i] == c;
        if i < 15 {
            assert(f[i] == c);
        } else {
            assert(f[16] == c);
        }
    }
    if f.contains(c) {
        let i = choose|i: int| 0 <= i < f.len() && f[i] == c;
        if i < 15 {
            assert(a[i] == c);
        } else if i == 16 {
            assert(a[15] == c);
        }
    }
    if c == Column::Xfs {
        assert(f[15] == c);
    }
}

/// The header labels of a mode's columns, left to right.
pub open spec fn mode_labels(m: Mode) -> Seq<Seq<char>> {
    mode_columns(m).map_values(|c: Column| header_text(c))
}

/// The basic listing shows PERMS, USER, GROUP, SIZE, MTIME and NAME; `-a` shows
/// PERMS, N, USER, GROUP, SIZE, BLOCKS, S, INO:IGEN, DEV, MTIME, ATIME, CTIME,
/// BIRTH, FLAGS, XATTRS and NAME; `-f` shows the same with XFS before NAME.
pub proof fn lemma_mode_labels()
    ensures
        mode_labels(Mode::Basic) == seq!["PERMS"@, "USER"@, "GROUP"@, "SIZE"@, "MTIME"@, "NAME"@],
        mode_labels(Mode::All) == seq!["PERMS"@, "N"@, "USER"@, "GROUP"@, "SIZE"@, "BLOCKS"@, "S"@, "INO:IGEN"@, "DEV"@, "MTIME"@, "ATIME"@, "CTIME"@, "BIRTH"@, "FLAGS"@, "XATTRS"@, "NAME"@],
        mode_labels(Mode::Full) == seq!["PERMS"@, "N"@, "USER"@, "GROUP"@, "SIZE"@, "BLOCKS"@, "S"@, "INO:IGEN"@, "DEV"@, "MTIME"@, "ATIME"@, "CTIME"@, "BIRTH"@, "FLAGS"@, "XATTRS"@, "XFS"@, "NAME"@],
        mode_columns(Mode::Full) == mode_columns(Mode::All).drop_last() + seq![Column::Xfs, Column::Name],
{
    reveal_strlit("ATIME");
    reveal_strlit("BIRTH");
    reveal_strlit("BLOCKS");
    reveal_strlit("CTIME");
    reveal_strlit("DEV");
    reveal_strlit("FLAGS");
    reveal_strlit("GROUP");
    reveal_strlit("INO:IGEN");
    reveal_strlit("MTIME");
    reveal_strlit("N");
    reveal_strlit("NAME");
    reveal_strlit("PERMS");
    reveal_strlit("S");
    reveal_strlit("SIZE");
    reveal_strlit("USER");
    reveal_strlit("XATTRS");
    reveal_strlit("XFS");
    assert(mode_labels(Mode::Basic) =~= seq!["PERMS"@, "USER"@, "GROUP"@, "SIZE"@, "MTIME"@, "NAME"@]);
    assert(mode_labels(Mode::All) =~= seq!["PERMS"@, "N"@, "USER"@, "GROUP"@, "SIZE"@, "BLOCKS"@, "S"@, "INO:IGEN"@, "DEV"@, "MTIME"@, "ATIME"@, "CTIME"@, "BIRTH"@, "FLAGS"@, "XATTRS"@, "NAME"@]);
    assert(mode_labels(Mode::Full) =~= seq!["PERMS"@, "N"@, "USER"@, "GROUP"@, "SIZE"@, "BLOCKS"@, "S"@, "INO:IGEN"@, "DEV"@, "MTIME"@, "ATIME"@, "CTIME"@, "BIRTH"@, "FLAGS"@, "XATTRS"@, "XFS"@, "NAME"@]);
    assert(mode_columns(Mode::Full) =~= mode_columns(Mode::All).drop_last() + seq![Column::Xfs, Column::Name]);
}

} // verus!
