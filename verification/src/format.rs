//! Column-driven colored rendering.

use vstd::arithmetic::div_mod::{
    lemma_div_denominator, lemma_div_is_ordered, lemma_fundamental_div_mod,
    lemma_fundamental_div_mod_converse, lemma_mod_pos_bound,
};
use vstd::arithmetic::mul::lemma_mul_inequality;
use vstd::arithmetic::power2::{
    lemma2_to64, lemma2_to64_rest, lemma_pow2_adds, lemma_pow2_pos, lemma_pow2_strictly_increases,
    lemma_pow2_unfold, pow2,
};
use vstd::prelude::*;
use vstd::utf8::encode_utf8;

use crate::calendar::{
    civil_date, days_from_civil, days_in_month, lemma_civil_time_round_trip, lemma_days_to_civil,
};
use crate::columns::{header_text, Column};
use crate::entry::{mode_text, Entry, Kind, Timestamp};
use crate::text::{
    dec, dec_string, dec_zero_padded, join_comma, join_strings, join_with, pad_left, pad_right,
    push_char, push_dec, push_dec_zero_padded, push_pad_left, push_pad_right, push_repeat, repeat,
    shortfall, texts, is_escape_sequence, shown, shown_from, ends_in_escape, lemma_shown_concat,
    lemma_shown_plain, lemma_shown_wrapped, lemma_pad_plain, lemma_no_escape_concat,
    lemma_dec_zero_padded_plain, lemma_dec_plain,
};

verus! {

/// Terminal colors (ANSI escape sequences).
pub const WHITE: &'static str = "\x1b[97m";
pub const LIGHT_BLUE: &'static str = "\x1b[38;5;117m";
pub const GREEN: &'static str = "\x1b[92m";
pub const RED: &'static str = "\x1b[91m";
pub const ORANGE: &'static str = "\x1b[38;5;214m";
pub const DIM: &'static str = "\x1b[90m";
/// Slightly brighter than DIM — used for SIZE so it stays secondary to names.
pub const SOFT: &'static str = "\x1b[38;5;247m";
pub const HIDDEN_FILE: &'static str = "\x1b[38;5;87m";
pub const HIDDEN_DIR: &'static str = "\x1b[38;5;141m";
pub const HIDDEN_EXEC: &'static str = "\x1b[38;5;227m";
pub const HIDDEN_LINK: &'static str = "\x1b[38;5;213m";
pub const RESET: &'static str = "\x1b[0m";

/// Whether the entry's name starts with a dot.
pub open spec fn is_hidden(e: Entry) -> bool {
    e.name@.len() > 0 && e.name@[0] == '.'
}

/// The color of an entry's name.
pub open spec fn entry_color(e: Entry) -> Seq<char> {
    let hidden = is_hidden(e);
    if e.broken_symlink {
        RED@
    } else {
        match e.kind {
            Kind::Dir => if hidden { HIDDEN_DIR@ } else { LIGHT_BLUE@ },
            Kind::Symlink => if hidden { HIDDEN_LINK@ } else { ORANGE@ },
            Kind::File if e.executable => if hidden { HIDDEN_EXEC@ } else { GREEN@ },
            Kind::Fifo | Kind::Socket | Kind::Block | Kind::Char => if hidden {
                HIDDEN_LINK@
            } else {
                ORANGE@
            },
            _ => if hidden { HIDDEN_FILE@ } else { WHITE@ },
        }
    }
}

fn hidden_name(e: &Entry) -> (r: bool)
    ensures
        r == is_hidden(*e),
{
    let s = e.name.as_str();
    !s.is_empty() && s.get_char(0) == '.'
}

/// The color an entry's name is shown in.
pub fn color_for(e: &Entry) -> (r: &'static str)
    ensures
        r@ == entry_color(*e),
{
    if e.broken_symlink {
        return RED;
    }
    let hidden = hidden_name(e);
    match e.kind {
        Kind::Dir => if hidden { HIDDEN_DIR } else { LIGHT_BLUE },
        Kind::Symlink => if hidden { HIDDEN_LINK } else { ORANGE },
        Kind::File if e.executable => if hidden { HIDDEN_EXEC } else { GREEN },
        Kind::Fifo | Kind::Socket | Kind::Block | Kind::Char => if hidden {
            HIDDEN_LINK
        } else {
            ORANGE
        },
        Kind::File | Kind::Unknown => if hidden { HIDDEN_FILE } else { WHITE },
    }
}

/// The items joined by commas, or `-` when there are none.
pub open spec fn join_or_dash_text(items: Seq<Seq<char>>) -> Seq<char> {
    if items.len() == 0 {
        "-"@
    } else {
        join_comma(items)
    }
}

fn join_or_dash(items: &Vec<String>) -> (r: String)
    ensures
        r@ == join_or_dash_text(texts(items@)),
{
    if items.len() == 0 {
        let mut s = String::new();
        s.append("-");
        s
    } else {
        join_strings(items)
    }
}

/// The INO:IGEN cell: inode number, then the generation or `-`.
pub open spec fn ino_text(e: Entry) -> Seq<char> {
    dec(e.ino as nat) + ":"@ + match e.extras.inode_gen {
        Some(g) => dec(g as nat),
        None => "-"@,
    }
}

fn format_ino(e: &Entry) -> (r: String)
    ensures
        r@ == ino_text(*e),
{
    let mut s = String::new();
    push_dec(&mut s, e.ino as u128);
    s.append(":");
    match e.extras.inode_gen {
        Some(g) => push_dec(&mut s, g as u128),
        None => s.append("-"),
    }
    s
}

/// The DEV cell: `major:minor`, plus ` rdev=major:minor` for device nodes.
pub open spec fn dev_text(e: Entry) -> Seq<char> {
    dec(e.dev_major as nat) + ":"@ + dec(e.dev_minor as nat) + if e.kind == Kind::Block || e.kind
        == Kind::Char {
        " rdev="@ + dec(e.rdev_major as nat) + ":"@ + dec(e.rdev_minor as nat)
    } else {
        Seq::<char>::empty()
    }
}

fn format_dev(e: &Entry) -> (r: String)
    ensures
        r@ == dev_text(*e),
{
    let mut s = String::new();
    push_dec(&mut s, e.dev_major as u128);
    s.append(":");
    push_dec(&mut s, e.dev_minor as u128);
    match e.kind {
        Kind::Block | Kind::Char => {
            s.append(" rdev=");
            push_dec(&mut s, e.rdev_major as u128);
            s.append(":");
            push_dec(&mut s, e.rdev_minor as u128);
        },
        _ => {},
    }
    assert(s@ =~= dev_text(*e));
    s
}

/// The XFS cell: `-` without XFS information, else the flags (or `-`), extent
/// count, project id, extent-size hint and CoW hint, plus the direct-I/O
/// alignment/min/max when all three are known.
pub open spec fn xfs_text(e: Entry) -> Seq<char> {
    match e.extras.xfs {
        None => "-"@,
        Some(x) => join_or_dash_text(texts(x.xflags@)) + ",exts="@ + dec(x.nextents as nat)
            + ",proj="@ + dec(x.projid as nat) + ",esz="@ + dec(x.extsize as nat) + ",cow="@ + dec(
            x.cowextsize as nat,
        ) + match (x.dio_mem, x.dio_min, x.dio_max) {
            (Some(mem), Some(min), Some(max)) => ",dio="@ + dec(mem as nat) + "/"@ + dec(min as nat)
                + "/"@ + dec(max as nat),
            _ => Seq::<char>::empty(),
        },
    }
}

fn format_xfs(e: &Entry) -> (r: String)
    ensures
        r@ == xfs_text(*e),
{
    match e.xfs() {
        None => {
            let mut s = String::new();
            s.append("-");
            s
        },
        Some(x) => {
            let mut s = join_or_dash(&x.xflags);
            s.append(",exts=");
            push_dec(&mut s, x.nextents as u128);
            s.append(",proj=");
            push_dec(&mut s, x.projid as u128);
            s.append(",esz=");
            push_dec(&mut s, x.extsize as u128);
            s.append(",cow=");
            push_dec(&mut s, x.cowextsize as u128);
            if let (Some(mem), Some(min), Some(max)) = (x.dio_mem, x.dio_min, x.dio_max) {
                s.append(",dio=");
                push_dec(&mut s, mem as u128);
                s.append("/");
                push_dec(&mut s, min as u128);
                s.append("/");
                push_dec(&mut s, max as u128);
            }
            assert(s@ =~= xfs_text(*e));
            s
        },
    }
}

/// The name cell: the name in `color`, and for a symlink ` -> target`, the
/// target red when broken and orange otherwise.
pub open spec fn name_cell(e: Entry, color: Seq<char>) -> Seq<char> {
    color + e.name@ + RESET@ + match e.symlink {
        Some(t) => " "@ + DIM@ + "->"@ + RESET@ + " "@ + (if e.broken_symlink {
            RED@
        } else {
            ORANGE@
        }) + t@ + RESET@,
        None => Seq::<char>::empty(),
    }
}

fn write_name(out: &mut String, e: &Entry, color: &str)
    ensures
        final(out)@ == old(out)@ + name_cell(*e, color@),
{
    out.append(color);
    out.append(e.name.as_str());
    out.append(RESET);
    if let Some(target) = &e.symlink {
        let tc = if e.broken_symlink {
            RED
        } else {
            ORANGE
        };
        out.append(" ");
        out.append(DIM);
        out.append("->");
        out.append(RESET);
        out.append(" ");
        out.append(tc);
        out.append(target.as_str());
        out.append(RESET);
    }
    assert(out@ =~= old(out)@ + name_cell(*e, color@));
}


/// The color of the character `ch` at position `i` of a mode string: the type
/// character takes the entry's color, the rest are colored by what they mean.
pub open spec fn perm_char_color(i: int, ch: char, type_color: Seq<char>) -> Seq<char> {
    if i == 0 {
        type_color
    } else {
        match ch {
            'r' => WHITE@,
            'w' => RED@,
            'x' => GREEN@,
            's' | 'S' | 't' | 'T' => ORANGE@,
            '+' => LIGHT_BLUE@,
            '@' => ORANGE@,
            _ => DIM@,
        }
    }
}

/// Each character of `s` in its color, each followed by a reset.
pub open spec fn colored_perms(s: Seq<char>, type_color: Seq<char>) -> Seq<char>
    decreases s.len(),
{
    if s.len() == 0 {
        seq![]
    } else {
        colored_perms(s.drop_last(), type_color) + perm_char_color(s.len() - 1, s.last(), type_color)
            + seq![s.last()] + RESET@
    }
}

/// The PERMS cell: the colored mode string, padded with spaces to `width` characters.
pub open spec fn perms_cell(e: Entry, width: nat) -> Seq<char> {
    colored_perms(mode_text(e), entry_color(e)) + repeat(' ', shortfall(mode_text(e).len(), width))
}

fn perm_color(i: usize, ch: char, type_color: &'static str) -> (r: &'static str)
    ensures
        r@ == perm_char_color(i as int, ch, type_color@),
{
    if i == 0 {
        type_color
    } else {
        match ch {
            'r' => WHITE,
            'w' => RED,
            'x' => GREEN,
            's' | 'S' | 't' | 'T' => ORANGE,
            '+' => LIGHT_BLUE,
            '@' => ORANGE,
            _ => DIM,
        }
    }
}

fn write_perms(out: &mut String, e: &Entry, width: usize)
    ensures
        final(out)@ == old(out)@ + perms_cell(*e, width as nat),
{
    let plain = e.mode_string();
    let type_color = color_for(e);
    let ghost start = out@;
    let ghost m = plain@;
    let mut i: usize = 0;
    for ch in it: plain.as_str().chars()
        invariant
            it.seq() == m,
            m == mode_text(*e),
            type_color@ == entry_color(*e),
            i == it.index(),
            i <= m.len(),
            out@ == start + colored_perms(m.take(i as int), type_color@),
    {
        assert(ch == m[i as int]);
        let color = perm_color(i, ch, type_color);
        out.append(color);
        push_char(out, ch);
        out.append(RESET);
        assert(m.take(i + 1).drop_last() =~= m.take(i as int));
        assert(out@ =~= start + colored_perms(m.take(i + 1), type_color@));
        i = i + 1;
    }
    assert(m.take(i as int) =~= m);
    let k: usize = if i < width {
        width - i
    } else {
        0
    };
    push_repeat(out, ' ', k);
}


/// How many low bits of `n` fall outside a 53-bit significand.
pub open spec fn excess_bits(n: nat) -> nat
    decreases n,
{
    if n < 0x20_0000_0000_0000 {
        0
    } else {
        1 + excess_bits(n / 2)
    }
}

/// `n` converted to a double: rounded to 53 significant bits, to the nearest
/// value, ties to an even significand.
pub open spec fn as_double(n: nat) -> nat {
    let s = excess_bits(n);
    if s == 0 {
        n
    } else {
        let p = pow2(s);
        let q = n / p;
        let r = n % p;
        let h = p / 2;
        (if r > h || (r == h && q % 2 == 1) {
            q + 1
        } else {
            q
        }) * p
    }
}

/// `a / d` rounded to the nearest integer, ties to even.
pub open spec fn round_half_even(a: nat, d: nat) -> nat {
    let q = a / d;
    let r = a % d;
    if 2 * r > d || (2 * r == d && q % 2 == 1) {
        q + 1
    } else {
        q
    }
}

/// The unit a value is shown in: how many times it can be divided by 1024
/// while staying at least 1024, at most four times.
pub open spec fn size_unit(m: nat) -> nat {
    if m >= 0x100_0000_0000 {
        4
    } else if m >= 0x4000_0000 {
        3
    } else if m >= 0x10_0000 {
        2
    } else if m >= 0x400 {
        1
    } else {
        0
    }
}

/// 1024 to the power of `i`, for units up to four.
pub open spec fn unit_scale(i: nat) -> nat {
    if i == 4 {
        0x100_0000_0000
    } else if i == 3 {
        0x4000_0000
    } else if i == 2 {
        0x10_0000
    } else if i == 1 {
        0x400
    } else {
        1
    }
}

/// The letter of a unit.
pub open spec fn unit_letter(i: nat) -> Seq<char> {
    if i == 4 {
        "T"@
    } else if i == 3 {
        "G"@
    } else if i == 2 {
        "M"@
    } else if i == 1 {
        "K"@
    } else {
        "B"@
    }
}

/// A human-readable size: bytes below 1 KiB exactly, e.g. `512B`; otherwise the
/// size as a double divided by the unit, with no decimals from 10 up (`12K`) and
/// one decimal below (`1.5M`), rounded to nearest with ties to even.
pub open spec fn human_size_text(n: nat) -> Seq<char> {
    let m = as_double(n);
    let i = size_unit(m);
    if i == 0 {
        dec(n) + "B"@
    } else {
        let d = unit_scale(i);
        if m >= 10 * d {
            dec(round_half_even(m, d)) + unit_letter(i)
        } else {
            let t = round_half_even(m * 10, d);
            dec(t / 10) + "."@ + dec(t % 10) + unit_letter(i)
        }
    }
}

fn round_div(a: u128, d: u128) -> (r: u128)
    requires
        d > 0,
        d <= 0x1_0000_0000_0000_0000,
        a < 0x1_0000_0000_0000_0000_0000_0000_0000,
    ensures
        r == round_half_even(a as nat, d as nat),
{
    let q = a / d;
    let r = a % d;
    if 2 * r > d || (2 * r == d && q % 2 == 1) {
        q + 1
    } else {
        q
    }
}

/// `n` converted to a double, exactly.
fn double_of(n: u64) -> (m: u128)
    ensures
        m == as_double(n as nat),
        m <= 0x2_0000_0000_0000_0000,
{
    let mut x: u64 = n;
    let mut s: u32 = 0;
    let mut p: u128 = 1;
    proof {
        vstd::arithmetic::power2::lemma_pow2(0);
        vstd::arithmetic::power::lemma_pow0(2);
    }
    while x >= 0x20_0000_0000_0000
        invariant
            excess_bits(n as nat) == s + excess_bits(x as nat),
            p == pow2(s as nat),
            x == (n as nat) / (p as nat),
            1 <= p <= 0x1000,
            p >= s + 1,
        decreases x,
    {
        proof {
            lemma_pow2_unfold((s + 1) as nat);
            lemma_div_denominator(n as int, p as int, 2);
            assert(p * 0x20_0000_0000_0000 <= n) by (nonlinear_arith)
                requires
                    x == (n as nat) / (p as nat),
                    x >= 0x20_0000_0000_0000,
                    p >= 1,
            ;
        }
        x = x / 2;
        s = s + 1;
        p = p * 2;
    }
    if s == 0 {
        n as u128
    } else {
        let q = x as u128;
        let r = (n as u128) % p;
        let h = p / 2;
        let q2 = if r > h || (r == h && q % 2 == 1) {
            q + 1
        } else {
            q
        };
        assert(q2 * p <= 0x2_0000_0000_0000_0000) by (nonlinear_arith)
            requires
                q2 <= 0x20_0000_0000_0000,
                p <= 0x1000,
        ;
        q2 * p
    }
}


fn unit_str(i: u32) -> (r: &'static str)
    ensures
        r@ == unit_letter(i as nat),
{
    if i == 4 {
        "T"
    } else if i == 3 {
        "G"
    } else if i == 2 {
        "M"
    } else if i == 1 {
        "K"
    } else {
        "B"
    }
}

/// A human-readable size (B/K/M/G/T).
pub fn human_size(n: u64) -> (r: String)
    ensures
        r@ == human_size_text(n as nat),
{
    let m = double_of(n);
    let i: u32 = if m >= 0x100_0000_0000 {
        4
    } else if m >= 0x4000_0000 {
        3
    } else if m >= 0x10_0000 {
        2
    } else if m >= 0x400 {
        1
    } else {
        0
    };
    let d: u128 = if i == 4 {
        0x100_0000_0000
    } else if i == 3 {
        0x4000_0000
    } else if i == 2 {
        0x10_0000
    } else if i == 1 {
        0x400
    } else {
        1
    };
    let mut s = String::new();
    if i == 0 {
        push_dec(&mut s, n as u128);
        s.append("B");
    } else if m >= 10 * d {
        push_dec(&mut s, round_div(m, d));
        s.append(unit_str(i));
    } else {
        let t = round_div(m * 10, d);
        push_dec(&mut s, t / 10);
        s.append(".");
        push_dec(&mut s, t % 10);
        s.append(unit_str(i));
    }
    assert(s@ =~= human_size_text(n as nat));
    s
}


/// The UTC date and time `secs` seconds after the epoch, as
/// `DD-MM-YYYY HH:MM:SS`.
pub open spec fn date_text(secs: nat) -> Seq<char> {
    let (y, m, d) = civil_date(secs / 86400);
    let tod = secs % 86400;
    dec_zero_padded(d, 2) + "-"@ + dec_zero_padded(m, 2) + "-"@ + dec_zero_padded(y, 4) + " "@
        + dec_zero_padded(tod / 3600, 2) + ":"@ + dec_zero_padded((tod % 3600) / 60, 2) + ":"@
        + dec_zero_padded(tod % 60, 2)
}

/// The text for an optional time: its date and time, or `—` when it is missing
/// or before the epoch.
pub open spec fn time_text(t: Option<Timestamp>) -> Seq<char> {
    match t {
        Some(t) => if t.secs >= 0 {
            date_text(t.secs as nat)
        } else {
            "—"@
        },
        None => "—"@,
    }
}

/// The text for a time in seconds since the epoch: `—` unless it is after the epoch.
pub open spec fn epoch_text(secs: i64) -> Seq<char> {
    if secs <= 0 {
        "—"@
    } else {
        date_text(secs as nat)
    }
}


/// The UTC calendar date and time of `t`: year, month, day, hour, minute and
/// second, or `None` before the epoch.
fn system_parts(t: Timestamp) -> (r: Option<(u64, u64, u64, u64, u64, u64)>)
    ensures
        t.secs < 0 ==> r is None,
        t.secs >= 0 ==> ({
            let (y, m, d) = civil_date((t.secs as nat) / 86400);
            y <= u64::MAX && 1 <= m <= 12 && 1 <= d <= 31
        }),
        t.secs >= 0 ==> r == Some(
            {
                let secs = t.secs as nat;
                let (y, m, d) = civil_date(secs / 86400);
                let tod = secs % 86400;
                (y as u64, m as u64, d as u64, (tod / 3600) as u64, ((tod % 3600) / 60) as u64, (
                tod % 60) as u64)
            },
        ),
        r matches Some((y, m, d, h, mi, s)) ==> {
            &&& 1 <= m <= 12
            &&& 1 <= d <= days_in_month(y as nat, m as nat)
            &&& h < 24 && mi < 60 && s < 60
            &&& days_from_civil(y as nat, m as nat, d as nat) * 86400 + h * 3600 + mi * 60 + s
                == t.secs
        },
{
    if t.secs < 0 {
        return None;
    }
    let secs: u64 = t.secs as u64;
    let z = secs / 86400;
    let tod = secs % 86400;
    let h = tod / 3600;
    let mi = (tod % 3600) / 60;
    let s = tod % 60;

    let z: i64 = z as i64 + 719468;
    let era: i64 = if z >= 0 {
        z
    } else {
        z - 146096
    } / 146097;
    let doe: u64 = (z - era * 146097) as u64;
    let yoe: u64 = (doe - doe / 1460 + doe / 36524 - doe / 146096) / 365;
    let y: i64 = yoe as i64 + era * 400;
    let doy: u64 = doe - (365 * yoe + yoe / 4 - yoe / 100);
    let mp: u64 = (5 * doy + 2) / 153;
    let d: u64 = doy - (153 * mp + 2) / 5 + 1;
    let m: u64 = if mp < 10 {
        mp + 3
    } else {
        mp - 9
    };
    let y: i64 = if m <= 2 {
        y + 1
    } else {
        y
    };
    proof {
        lemma_days_to_civil(
            (secs / 86400) as int,
            era as int,
            doe as int,
            yoe as int,
            doy as int,
            mp as int,
            d as int,
            m as int,
            y as int,
        );
        lemma_civil_time_round_trip(secs as nat);
    }
    Some((y as u64, m, d, h, mi, s))
}


fn fmt_time_short(t: Option<Timestamp>) -> (r: String)
    ensures
        r@ == time_text(t),
{
    let parts = match t {
        Some(t) => system_parts(t),
        None => None,
    };
    let mut out = String::new();
    match parts {
        Some((y, mo, d, h, mi, s)) => {
            push_dec_zero_padded(&mut out, d as u128, 2);
            out.append("-");
            push_dec_zero_padded(&mut out, mo as u128, 2);
            out.append("-");
            push_dec_zero_padded(&mut out, y as u128, 4);
            out.append(" ");
            push_dec_zero_padded(&mut out, h as u128, 2);
            out.append(":");
            push_dec_zero_padded(&mut out, mi as u128, 2);
            out.append(":");
            push_dec_zero_padded(&mut out, s as u128, 2);
        },
        None => {
            out.append("—");
        },
    }
    assert(out@ =~= time_text(t));
    out
}

fn fmt_epoch_short(secs: i64) -> (r: String)
    ensures
        r@ == epoch_text(secs),
{
    if secs <= 0 {
        let mut out = String::new();
        out.append("—");
        return out;
    }
    fmt_time_short(Some(Timestamp { secs, nanos: 0 }))
}


/// The plain text of a measured column for an entry (what the width is measured on).
pub open spec fn plain_text(e: Entry, c: Column) -> Seq<char> {
    match c {
        Column::Perms => mode_text(e),
        Column::User => e.user@,
        Column::Group => e.group@,
        Column::Size => human_size_text(e.size as nat),
        Column::Nlink => dec(e.nlink as nat),
        Column::Blocks => dec(e.blocks as nat) + "b/"@ + dec(e.blksize as nat),
        Column::Ino => ino_text(e),
        Column::Dev => dev_text(e),
        Column::Flags => join_or_dash_text(texts(e.extras.flags@)),
        Column::Xattrs => join_or_dash_text(texts(e.extras.xattrs@)),
        Column::Xfs => xfs_text(e),
        _ => seq![],
    }
}

/// The length of a text in UTF-8 bytes.
pub open spec fn byte_len(s: Seq<char>) -> nat {
    encode_utf8(s).len()
}

/// The longest plain text of column `c` over `es`, in bytes.
pub open spec fn column_max(es: Seq<Entry>, c: Column) -> nat
    decreases es.len(),
{
    if es.len() == 0 {
        0
    } else {
        let rest = column_max(es.drop_last(), c);
        let here = byte_len(plain_text(es.last(), c));
        if here > rest {
            here
        } else {
            rest
        }
    }
}

/// Whether a column's width is measured from its header and cells.
pub open spec fn is_measured(c: Column) -> bool {
    match c {
        Column::Mtime | Column::Atime | Column::Ctime | Column::Birth | Column::Sparse
        | Column::Name => false,
        _ => true,
    }
}

/// The width of column `c`: for a measured column that is shown, the longest of
/// its header and its cells in bytes (0 when not shown); 19 for the time columns
/// (`DD-MM-YYYY HH:MM:SS`), 1 for the sparse flag and 0 for the name.
pub open spec fn measured_width(es: Seq<Entry>, cols: Seq<Column>, c: Column) -> nat {
    match c {
        Column::Mtime | Column::Atime | Column::Ctime | Column::Birth => 19,
        Column::Sparse => 1,
        Column::Name => 0,
        _ => if cols.contains(c) {
            let h = byte_len(header_text(c));
            let m = column_max(es, c);
            if h > m {
                h
            } else {
                m
            }
        } else {
            0
        },
    }
}

/// Column widths for one listing.
pub struct Widths {
    perms: usize,
    nlink: usize,
    user: usize,
    group: usize,
    size: usize,
    blocks: usize,
    ino: usize,
    dev: usize,
    time: usize,
    flags: usize,
    xattrs: usize,
    xfs: usize,
}

fn plain_cell(e: &Entry, c: Column) -> (r: String)
    ensures
        r@ == plain_text(*e, c),
{
    match c {
        Column::Perms => e.mode_string(),
        Column::User => e.user.clone(),
        Column::Group => e.group.clone(),
        Column::Size => human_size(e.size),
        Column::Nlink => dec_string(e.nlink as u128),
        Column::Blocks => {
            let mut s = String::new();
            push_dec(&mut s, e.blocks as u128);
            s.append("b/");
            push_dec(&mut s, e.blksize as u128);
            s
        },
        Column::Ino => format_ino(e),
        Column::Dev => format_dev(e),
        Column::Flags => join_or_dash(&e.extras.flags),
        Column::Xattrs => join_or_dash(&e.extras.xattrs),
        Column::Xfs => format_xfs(e),
        _ => String::new(),
    }
}

fn shows(cols: &[Column], c: Column) -> (r: bool)
    ensures
        r == cols@.contains(c),
{
    let n = cols.len();
    let mut i: usize = 0;
    while i < n
        invariant
            n == cols@.len(),
            i <= n,
            forall|k: int| 0 <= k < i ==> cols@[k] != c,
        decreases n - i,
    {
        if cols[i] == c {
            assert(cols@[i as int] == c);
            return true;
        }
        i = i + 1;
    }
    false
}

/// The measured width of a shown column.
fn column_width(entries: &[Entry], c: Column) -> (r: usize)
    ensures
        r == ({
            let h = byte_len(header_text(c));
            let m = column_max(entries@, c);
            if h > m {
                h
            } else {
                m
            }
        }),
{
    let mut w: usize = c.header().as_bytes().len();
    let n = entries.len();
    let mut i: usize = 0;
    let mut best: usize = 0;
    while i < n
        invariant
            n == entries@.len(),
            i <= n,
            best == column_max(entries@.take(i as int), c),
        decreases n - i,
    {
        let text = plain_cell(&entries[i], c);
        let len = text.as_str().as_bytes().len();
        assert(entries@.take(i + 1).drop_last() =~= entries@.take(i as int));
        assert(entries@.take(i + 1).last() == entries@[i as int]);
        assert(len == byte_len(plain_text(entries@[i as int], c)));
        if len > best {
            best = len;
        }
        i = i + 1;
    }
    assert(entries@.take(n as int) =~= entries@);
    if best > w {
        w = best;
    }
    w
}

/// The measured width of column `c`, or 0 when it is not shown.
fn width_if_shown(entries: &[Entry], cols: &[Column], c: Column) -> (r: usize)
    requires
        is_measured(c),
    ensures
        r == measured_width(entries@, cols@, c),
{
    if shows(cols, c) {
        column_width(entries, c)
    } else {
        0
    }
}

impl Default for Widths {
    /// All widths zero (the sparse flag is always one wide and the name unpadded).
    fn default() -> (w: Self)
        ensures
            forall|c: Column| #[trigger] w.width_of(c) == if c == Column::Sparse {
                1nat
            } else {
                0nat
            },
    {
        Widths {
            perms: 0,
            nlink: 0,
            user: 0,
            group: 0,
            size: 0,
            blocks: 0,
            ino: 0,
            dev: 0,
            time: 0,
            flags: 0,
            xattrs: 0,
            xfs: 0,
        }
    }
}

impl Widths {
    /// The width of column `c`, as `width_for` gives it.
    pub closed spec fn width_of(self, c: Column) -> nat {
        match c {
            Column::Perms => self.perms as nat,
            Column::User => self.user as nat,
            Column::Group => self.group as nat,
            Column::Size => self.size as nat,
            Column::Nlink => self.nlink as nat,
            Column::Blocks => self.blocks as nat,
            Column::Ino => self.ino as nat,
            Column::Dev => self.dev as nat,
            Column::Flags => self.flags as nat,
            Column::Xattrs => self.xattrs as nat,
            Column::Xfs => self.xfs as nat,
            Column::Mtime | Column::Atime | Column::Ctime | Column::Birth => self.time as nat,
            Column::Sparse => 1,
            Column::Name => 0,
        }
    }

    /// Measures the widths of `cols` over `entries`.
    pub fn measure(entries: &[Entry], cols: &[Column]) -> (w: Self)
        ensures
            forall|c: Column| #[trigger] w.width_of(c) == measured_width(entries@, cols@, c),
    {
        let w = Widths {
            perms: width_if_shown(entries, cols, Column::Perms),
            nlink: width_if_shown(entries, cols, Column::Nlink),
            user: width_if_shown(entries, cols, Column::User),
            group: width_if_shown(entries, cols, Column::Group),
            size: width_if_shown(entries, cols, Column::Size),
            blocks: width_if_shown(entries, cols, Column::Blocks),
            ino: width_if_shown(entries, cols, Column::Ino),
            dev: width_if_shown(entries, cols, Column::Dev),
            time: 19,
            flags: width_if_shown(entries, cols, Column::Flags),
            xattrs: width_if_shown(entries, cols, Column::Xattrs),
            xfs: width_if_shown(entries, cols, Column::Xfs),
        };
        assert forall|c: Column| #[trigger] w.width_of(c) == measured_width(entries@, cols@, c) by {
            match c {
                Column::Perms => {},
                Column::Nlink => {},
                Column::User => {},
                Column::Group => {},
                Column::Size => {},
                Column::Blocks => {},
                Column::Ino => {},
                Column::Dev => {},
                Column::Flags => {},
                Column::Xattrs => {},
                Column::Xfs => {},
                _ => {},
            }
        }
        w
    }

    fn width_for(&self, c: Column) -> (r: usize)
        ensures
            r == self.width_of(c),
    {
        match c {
            Column::Perms => self.perms,
            Column::User => self.user,
            Column::Group => self.group,
            Column::Size => self.size,
            Column::Nlink => self.nlink,
            Column::Blocks => self.blocks,
            Column::Ino => self.ino,
            Column::Dev => self.dev,
            Column::Flags => self.flags,
            Column::Xattrs => self.xattrs,
            Column::Xfs => self.xfs,
            Column::Mtime | Column::Atime | Column::Ctime | Column::Birth => self.time,
            Column::Sparse => 1,
            Column::Name => 0,
        }
    }
}


/// The rendered cell of column `c` for entry `e`, with widths `w`.
pub open spec fn cell_text(e: Entry, c: Column, w: Widths) -> Seq<char> {
    let width = w.width_of(c);
    match c {
        Column::Mtime => padded_cell(DIM@, time_text(e.mtime), width, false),
        Column::Atime => padded_cell(DIM@, time_text(e.atime), width, false),
        Column::Ctime => padded_cell(DIM@, epoch_text(e.ctime_secs), width, false),
        Column::Birth => padded_cell(DIM@, time_text(e.birth), width, false),
        Column::Perms => perms_cell(e, width),
        Column::User => padded_cell(LIGHT_BLUE@, e.user@, width, false),
        Column::Group => padded_cell(LIGHT_BLUE@, e.group@, width, false),
        Column::Size => padded_cell(SOFT@, human_size_text(e.size as nat), width, true),
        Column::Name => name_cell(e, entry_color(e)),
        Column::Nlink => padded_cell(WHITE@, dec(e.nlink as nat), width, true),
        Column::Blocks => padded_cell(DIM@, plain_text(e, Column::Blocks), width, false),
        Column::Sparse => DIM@ + (if e.sparse {
            "S"@
        } else {
            "-"@
        }) + RESET@,
        Column::Ino => padded_cell(DIM@, ino_text(e), width, false),
        Column::Dev => padded_cell(DIM@, dev_text(e), width, false),
        Column::Flags => padded_cell(ORANGE@, join_or_dash_text(texts(e.extras.flags@)), width, false),
        Column::Xattrs => padded_cell(
            ORANGE@,
            join_or_dash_text(texts(e.extras.xattrs@)),
            width,
            false,
        ),
        Column::Xfs => padded_cell(ORANGE@, xfs_text(e), width, false),
    }
}

/// A listing line: the cells of `cols`, separated by single spaces, then a newline.
pub open spec fn entry_line(e: Entry, cols: Seq<Column>, w: Widths) -> Seq<char> {
    join_with(cols.map_values(|c: Column| cell_text(e, c, w)), " "@) + "\n"@
}

/// A header cell: the label in light blue, right-aligned for SIZE and N,
/// left-aligned otherwise, unpadded when the width is 0.
pub open spec fn header_cell(c: Column, w: Widths) -> Seq<char> {
    let label = header_text(c);
    let width = w.width_of(c);
    if width == 0 {
        LIGHT_BLUE@ + label + RESET@
    } else {
        padded_cell(LIGHT_BLUE@, label, width, c == Column::Size || c == Column::Nlink)
    }
}

/// The header line: the header cells of `cols`, separated by single spaces,
/// then a newline.
pub open spec fn header_line(cols: Seq<Column>, w: Widths) -> Seq<char> {
    join_with(cols.map_values(|c: Column| header_cell(c, w)), " "@) + "\n"@
}

/// `v` in `color`, padded to `width` characters (on the left when `right`).
pub open spec fn padded_cell(color: Seq<char>, v: Seq<char>, width: nat, right: bool) -> Seq<char> {
    color + (if right {
        pad_left(v, width)
    } else {
        pad_right(v, width)
    }) + RESET@
}

fn write_padded(out: &mut String, color: &str, v: &str, width: usize, right: bool)
    ensures
        final(out)@ == old(out)@ + padded_cell(color@, v@, width as nat, right),
{
    out.append(color);
    if right {
        push_pad_left(out, v, width);
    } else {
        push_pad_right(out, v, width);
    }
    out.append(RESET);
    assert(out@ =~= old(out)@ + padded_cell(color@, v@, width as nat, right));
}

fn write_sparse(out: &mut String, e: &Entry)
    ensures
        final(out)@ == old(out)@ + (DIM@ + (if e.sparse {
            "S"@
        } else {
            "-"@
        }) + RESET@),
{
    let s = if e.sparse {
        "S"
    } else {
        "-"
    };
    out.append(DIM);
    out.append(s);
    out.append(RESET);
    assert(out@ =~= old(out)@ + (DIM@ + s@ + RESET@));
}

fn write_column(out: &mut String, e: &Entry, c: Column, w: &Widths)
    ensures
        final(out)@ == old(out)@ + cell_text(*e, c, *w),
{
    let width = w.width_for(c);
    match c {
        Column::Mtime => write_padded(out, DIM, fmt_time_short(e.mtime).as_str(), width, false),
        Column::Atime => write_padded(out, DIM, fmt_time_short(e.atime).as_str(), width, false),
        Column::Ctime => write_padded(out, DIM, fmt_epoch_short(e.ctime_secs).as_str(), width, false),
        Column::Birth => write_padded(out, DIM, fmt_time_short(e.birth).as_str(), width, false),
        Column::Perms => write_perms(out, e, width),
        Column::User => write_padded(out, LIGHT_BLUE, e.user.as_str(), width, false),
        Column::Group => write_padded(out, LIGHT_BLUE, e.group.as_str(), width, false),
        Column::Size => write_padded(out, SOFT, human_size(e.size).as_str(), width, true),
        Column::Name => write_name(out, e, color_for(e)),
        Column::Nlink => write_padded(out, WHITE, dec_string(e.nlink as u128).as_str(), width, true),
        Column::Blocks => write_padded(out, DIM, plain_cell(e, c).as_str(), width, false),
        Column::Sparse => write_sparse(out, e),
        Column::Ino => write_padded(out, DIM, format_ino(e).as_str(), width, false),
        Column::Dev => write_padded(out, DIM, format_dev(e).as_str(), width, false),
        Column::Flags => write_padded(out, ORANGE, join_or_dash(&e.extras.flags).as_str(), width, false),
        Column::Xattrs => write_padded(out, ORANGE, join_or_dash(&e.extras.xattrs).as_str(), width, false),
        Column::Xfs => write_padded(out, ORANGE, format_xfs(e).as_str(), width, false),
    }
}

/// Appends the listing line of `e`: its cells for `cols`, separated by spaces, and a newline.
pub fn write_entry(out: &mut String, e: &Entry, cols: &[Column], w: &Widths)
    ensures
        final(out)@ == old(out)@ + entry_line(*e, cols@, *w),
{
    let ghost start = out@;
    let ghost cells = cols@.map_values(|c: Column| cell_text(*e, c, *w));
    let n = cols.len();
    let mut i: usize = 0;
    while i < n
        invariant
            n == cols@.len(),
            cells == cols@.map_values(|c: Column| cell_text(*e, c, *w)),
            i <= n,
            out@ == start + join_with(cells.take(i as int), " "@),
        decreases n - i,
    {
        assert(cells.take(i + 1).drop_last() =~= cells.take(i as int));
        if i > 0 {
            out.append(" ");
        } else {
            assert(cells.take(0) =~= Seq::<Seq<char>>::empty());
        }
        write_column(out, e, cols[i], w);
        i = i + 1;
    }
    assert(cells.take(n as int) =~= cells);
    out.append("\n");
}

fn write_header_cell(out: &mut String, c: Column, w: &Widths)
    ensures
        final(out)@ == old(out)@ + header_cell(c, *w),
{
    let label = c.header();
    let width = w.width_for(c);
    if width == 0 {
        out.append(LIGHT_BLUE);
        out.append(label);
        out.append(RESET);
        assert(out@ =~= old(out)@ + header_cell(c, *w));
    } else {
        let right = match c {
            Column::Size | Column::Nlink => true,
            _ => false,
        };
        write_padded(out, LIGHT_BLUE, label, width, right);
    }
}

/// Appends the header line for `cols`.
pub fn write_header(out: &mut String, cols: &[Column], w: &Widths)
    ensures
        final(out)@ == old(out)@ + header_line(cols@, *w),
{
    let ghost start = out@;
    let ghost cells = cols@.map_values(|c: Column| header_cell(c, *w));
    let n = cols.len();
    let mut i: usize = 0;
    while i < n
        invariant
            n == cols@.len(),
            cells == cols@.map_values(|c: Column| header_cell(c, *w)),
            i <= n,
            out@ == start + join_with(cells.take(i as int), " "@),
        decreases n - i,
    {
        assert(cells.take(i + 1).drop_last() =~= cells.take(i as int));
        if i > 0 {
            out.append(" ");
        } else {
            assert(cells.take(0) =~= Seq::<Seq<char>>::empty());
        }
        write_header_cell(out, cols[i], w);
        i = i + 1;
    }
    assert(cells.take(n as int) =~= cells);
    out.append("\n");
}


proof fn lemma_column_max_bounds(es: Seq<Entry>, c: Column, k: int)
    requires
        0 <= k < es.len(),
    ensures
        byte_len(plain_text(es[k], c)) <= column_max(es, c),
    decreases es.len(),
{
    if k < es.len() - 1 {
        lemma_column_max_bounds(es.drop_last(), c, k);
        assert(es.drop_last()[k] == es[k]);
    }
}

/// A shown, measured column is at least as wide (in bytes) as its header and as
/// every entry's text in it, so that the column lines up.
pub proof fn lemma_widths_fit(es: Seq<Entry>, cols: Seq<Column>, c: Column, k: int)
    requires
        cols.contains(c),
        is_measured(c),
        0 <= k < es.len(),
    ensures
        byte_len(header_text(c)) <= measured_width(es, cols, c),
        byte_len(plain_text(es[k], c)) <= measured_width(es, cols, c),
{
    lemma_column_max_bounds(es, c, k);
}


proof fn lemma_column_max_attained(es: Seq<Entry>, c: Column)
    requires
        es.len() > 0,
    ensures
        exists|k: int| 0 <= k < es.len() && byte_len(plain_text(#[trigger] es[k], c)) == column_max(es, c),
    decreases es.len(),
{
    let last = es.len() - 1;
    assert(es.last() == es[last]);
    if es.len() > 1 && byte_len(plain_text(es.last(), c)) <= column_max(es.drop_last(), c) {
        let init = es.drop_last();
        lemma_column_max_attained(init, c);
        let k = choose|k: int| 0 <= k < init.len() && byte_len(plain_text(#[trigger] init[k], c)) == column_max(init, c);
        assert(init[k] == es[k]);
    } else {
        assert(es.drop_last().len() == 0 ==> column_max(es.drop_last(), c) == 0);
    }
}

proof fn lemma_column_max_covered(es: Seq<Entry>, es2: Seq<Entry>, c: Column)
    requires
        forall|x: Entry| es2.contains(x) ==> es.contains(x),
    ensures
        column_max(es2, c) <= column_max(es, c),
{
    if es2.len() > 0 {
        lemma_column_max_attained(es2, c);
        let k2 = choose|k: int| 0 <= k < es2.len() && byte_len(plain_text(#[trigger] es2[k], c)) == column_max(es2, c);
        assert(es2.contains(es2[k2]));
        let k = choose|k: int| 0 <= k < es.len() && es[k] == es2[k2];
        lemma_column_max_bounds(es, c, k);
    }
}

/// Whatever the widths, the sparse flag is one character wide, the name is not
/// padded, and the four time columns share one width.
pub proof fn lemma_fixed_widths(w: Widths)
    ensures
        w.width_of(Column::Sparse) == 1,
        w.width_of(Column::Name) == 0,
        w.width_of(Column::Mtime) == w.width_of(Column::Atime),
        w.width_of(Column::Atime) == w.width_of(Column::Ctime),
        w.width_of(Column::Ctime) == w.width_of(Column::Birth),
{
}

/// The measured widths depend only on which entries are listed, not on their order.
pub proof fn lemma_measure_order_free(es: Seq<Entry>, es2: Seq<Entry>, cols: Seq<Column>, c: Column)
    requires
        es2.to_multiset() == es.to_multiset(),
    ensures
        measured_width(es2, cols, c) == measured_width(es, cols, c),
{
    es.to_multiset_ensures();
    es2.to_multiset_ensures();
    assert forall|x: Entry| es2.contains(x) <==> es.contains(x) by {
        assert(es2.contains(x) <==> es2.to_multiset().count(x) > 0);
        assert(es.contains(x) <==> es.to_multiset().count(x) > 0);
    }
    lemma_column_max_covered(es, es2, c);
    lemma_column_max_covered(es2, es, c);
}

/// Listing more entries never makes a column narrower.
pub proof fn lemma_measure_grows(es: Seq<Entry>, more: Seq<Entry>, cols: Seq<Column>, c: Column)
    ensures
        measured_width(es + more, cols, c) >= measured_width(es, cols, c),
{
    assert forall|x: Entry| es.contains(x) implies (es + more).contains(x) by {
        let k = choose|k: int| 0 <= k < es.len() && es[k] == x;
        assert((es + more)[k] == x);
    }
    lemma_column_max_covered(es + more, es, c);
}

/// Sizes below 1 KiB are shown exactly, in bytes, and every size ends in the letter
/// of its unit: B, K, M, G or T.
pub proof fn lemma_human_size_units(n: nat)
    ensures
        n < 1024 ==> human_size_text(n) == dec(n) + "B"@,
        human_size_text(n).len() > 0,
        ({
            let u = human_size_text(n).last();
            u == 'B' || u == 'K' || u == 'M' || u == 'G' || u == 'T'
        }),
{
    reveal_strlit("B");
    reveal_strlit("K");
    reveal_strlit("M");
    reveal_strlit("G");
    reveal_strlit("T");
    let i = size_unit(as_double(n));
    assert(unit_letter(i).len() == 1);
    let t = human_size_text(n);
    assert(t.last() == unit_letter(i)[0]);
}


/// Ten to the power `k`.
pub open spec fn ten_to(k: nat) -> nat
    decreases k,
{
    if k == 0 {
        1
    } else {
        10 * ten_to((k - 1) as nat)
    }
}

proof fn lemma_dec_short(n: nat, k: nat)
    requires
        k >= 1,
        n < ten_to(k),
    ensures
        dec(n).len() <= k,
    decreases k,
{
    if n >= 10 {
        assert(k >= 2) by {
            if k == 1 {
                assert(ten_to(1) == 10 * ten_to(0));
            }
        }
        assert(n / 10 < ten_to((k - 1) as nat)) by {
            assert(ten_to(k) == 10 * ten_to((k - 1) as nat));
        }
        lemma_dec_short(n / 10, (k - 1) as nat);
    }
}

proof fn lemma_zero_padded_len(n: nat, w: nat)
    requires
        w >= 1,
        n < ten_to(w),
    ensures
        dec_zero_padded(n, w).len() == w,
{
    lemma_dec_short(n, w);
}

/// For years up to 9999 a date is shown in exactly 19 characters
/// (`DD-MM-YYYY HH:MM:SS`), the width of the time columns.
pub proof fn lemma_date_text_width(secs: nat)
    requires
        civil_date(secs / 86400).0 <= 9999,
    ensures
        date_text(secs).len() == 19,
{
    let z = (secs / 86400) as int;
    let era = (z + 719468) / 146097;
    let doe = (z + 719468) - era * 146097;
    let yoe = (doe - doe / 1460 + doe / 36524 - doe / 146096) / 365;
    let doy = doe - (365 * yoe + yoe / 4 - yoe / 100);
    let mp = (5 * doy + 2) / 153;
    let d = doy - (153 * mp + 2) / 5 + 1;
    let m = if mp < 10 {
        mp + 3
    } else {
        mp - 9
    };
    let y = yoe + era * 400 + if m <= 2 {
        1int
    } else {
        0int
    };
    lemma_days_to_civil(z, era, doe, yoe, doy, mp, d, m, y);
    reveal_with_fuel(ten_to, 5);
    let tod = secs % 86400;
    lemma_zero_padded_len(d as nat, 2);
    lemma_zero_padded_len(m as nat, 2);
    lemma_zero_padded_len(y as nat, 4);
    lemma_zero_padded_len(tod / 3600, 2);
    lemma_zero_padded_len((tod % 3600) / 60, 2);
    lemma_zero_padded_len(tod % 60, 2);
    reveal_strlit("-");
    reveal_strlit(" ");
    reveal_strlit(":");
}

/// Every color of the listing, and the reset, is a single escape sequence.
pub proof fn lemma_colors_are_escapes()
    ensures
        is_escape_sequence(WHITE@),
        is_escape_sequence(LIGHT_BLUE@),
        is_escape_sequence(GREEN@),
        is_escape_sequence(RED@),
        is_escape_sequence(ORANGE@),
        is_escape_sequence(DIM@),
        is_escape_sequence(SOFT@),
        is_escape_sequence(HIDDEN_FILE@),
        is_escape_sequence(HIDDEN_DIR@),
        is_escape_sequence(HIDDEN_EXEC@),
        is_escape_sequence(HIDDEN_LINK@),
        is_escape_sequence(RESET@),
{
    reveal_strlit("\x1b[97m");
    reveal_strlit("\x1b[38;5;117m");
    reveal_strlit("\x1b[92m");
    reveal_strlit("\x1b[91m");
    reveal_strlit("\x1b[38;5;214m");
    reveal_strlit("\x1b[90m");
    reveal_strlit("\x1b[38;5;247m");
    reveal_strlit("\x1b[38;5;87m");
    reveal_strlit("\x1b[38;5;141m");
    reveal_strlit("\x1b[38;5;227m");
    reveal_strlit("\x1b[38;5;213m");
    reveal_strlit("\x1b[0m");
}

/// An entry's name color is a single escape sequence.
proof fn lemma_entry_color_escape(e: Entry)
    ensures
        is_escape_sequence(entry_color(e)),
{
    lemma_colors_are_escapes();
}

/// A mode string colored character by character shows as the mode string.
proof fn lemma_colored_perms_shown(s: Seq<char>, tc: Seq<char>)
    requires
        !s.contains('\x1b'),
        is_escape_sequence(tc),
    ensures
        shown_from(colored_perms(s, tc), false) == s,
        !ends_in_escape(colored_perms(s, tc), false),
    decreases s.len(),
{
    if s.len() > 0 {
        lemma_colors_are_escapes();
        let init = s.drop_last();
        assert(!init.contains('\x1b')) by {
            if init.contains('\x1b') {
                let k = choose|k: int| 0 <= k < init.len() && init[k] == '\x1b';
                assert(s[k] == '\x1b');
            }
        }
        lemma_colored_perms_shown(init, tc);
        let col = perm_char_color(s.len() - 1, s.last(), tc);
        assert(is_escape_sequence(col));
        let v = seq![s.last()];
        assert(s.last() == s[s.len() - 1]);
        assert(!v.contains('\x1b')) by {
            if v.contains('\x1b') {
                assert(v[0] == '\x1b');
            }
        }
        lemma_shown_wrapped(col, v, RESET@);
        let p = colored_perms(init, tc);
        assert(colored_perms(s, tc) =~= p + (col + v + RESET@));
        lemma_shown_concat(p, col + v + RESET@, false);
        assert(init + v =~= s);
    }
}

/// The length of a text in UTF-8 bytes is at least its number of characters.
proof fn lemma_byte_len_covers(s: Seq<char>)
    ensures
        s.len() <= byte_len(s),
    decreases s.len(),
{
    if s.len() > 0 {
        lemma_byte_len_covers(s.drop_first());
        assert(encode_utf8(s) == vstd::utf8::encode_scalar(s[0] as u32) + encode_utf8(s.drop_first()));
    }
}

/// Whether an optional time is shown with a four-digit year (or not as a date at all).
pub open spec fn time_fits(t: Option<Timestamp>) -> bool {
    match t {
        Some(t) => t.secs < 0 || civil_date((t.secs as nat) / 86400).0 <= 9999,
        None => true,
    }
}

/// Whether the date that column `c` shows for `e`, if it shows one, has a four-digit year.
pub open spec fn shown_time_fits(e: Entry, c: Column) -> bool {
    match c {
        Column::Mtime => time_fits(e.mtime),
        Column::Atime => time_fits(e.atime),
        Column::Birth => time_fits(e.birth),
        Column::Ctime => time_fits(Some(Timestamp { secs: e.ctime_secs, nanos: 0 })),
        _ => true,
    }
}

proof fn lemma_date_text_plain(secs: nat)
    ensures
        !date_text(secs).contains('\x1b'),
{
    let (y, m, d) = civil_date(secs / 86400);
    let tod = secs % 86400;
    reveal_strlit("-");
    reveal_strlit(" ");
    reveal_strlit(":");
    let a = dec_zero_padded(d, 2);
    let b = dec_zero_padded(m, 2);
    let c = dec_zero_padded(y, 4);
    let h = dec_zero_padded(tod / 3600, 2);
    let mi = dec_zero_padded((tod % 3600) / 60, 2);
    let sc = dec_zero_padded(tod % 60, 2);
    lemma_dec_zero_padded_plain(d, 2);
    lemma_dec_zero_padded_plain(m, 2);
    lemma_dec_zero_padded_plain(y, 4);
    lemma_dec_zero_padded_plain(tod / 3600, 2);
    lemma_dec_zero_padded_plain((tod % 3600) / 60, 2);
    lemma_dec_zero_padded_plain(tod % 60, 2);
    let dash = "-"@;
    let sp = " "@;
    let colon = ":"@;
    assert(!dash.contains('\x1b')) by {
        if dash.contains('\x1b') {
            assert(dash[0] == '\x1b');
        }
    }
    assert(!sp.contains('\x1b')) by {
        if sp.contains('\x1b') {
            assert(sp[0] == '\x1b');
        }
    }
    assert(!colon.contains('\x1b')) by {
        if colon.contains('\x1b') {
            assert(colon[0] == '\x1b');
        }
    }
    lemma_no_escape_concat(a, dash);
    lemma_no_escape_concat(a + dash, b);
    lemma_no_escape_concat(a + dash + b, dash);
    lemma_no_escape_concat(a + dash + b + dash, c);
    lemma_no_escape_concat(a + dash + b + dash + c, sp);
    lemma_no_escape_concat(a + dash + b + dash + c + sp, h);
    lemma_no_escape_concat(a + dash + b + dash + c + sp + h, colon);
    lemma_no_escape_concat(a + dash + b + dash + c + sp + h + colon, mi);
    lemma_no_escape_concat(a + dash + b + dash + c + sp + h + colon + mi, colon);
    lemma_no_escape_concat(a + dash + b + dash + c + sp + h + colon + mi + colon, sc);
}

proof fn lemma_time_cell_text(t: Option<Timestamp>)
    requires
        time_fits(t),
    ensures
        !time_text(t).contains('\x1b'),
        time_text(t).len() <= 19,
{
    reveal_strlit("—");
    let dash = "—"@;
    assert(!dash.contains('\x1b')) by {
        if dash.contains('\x1b') {
            assert(dash[0] == '\x1b');
        }
    }
    if let Some(t) = t {
        if t.secs >= 0 {
            lemma_date_text_plain(t.secs as nat);
            lemma_date_text_width(t.secs as nat);
        }
    }
}

/// Once its escape sequences are removed, a padded cell is its text padded to
/// the width.
proof fn lemma_padded_cell_shown(color: Seq<char>, v: Seq<char>, width: nat, right: bool)
    requires
        is_escape_sequence(color),
        !v.contains('\x1b'),
        v.len() <= width,
    ensures
        shown(padded_cell(color, v, width, right)).len() == width,
{
    lemma_colors_are_escapes();
    lemma_pad_plain(v, width);
    let p = if right {
        pad_left(v, width)
    } else {
        pad_right(v, width)
    };
    lemma_shown_wrapped(color, p, RESET@);
}

/// In a listing measured over `es`, each cell of a listed entry but its name shows,
/// once its escape sequences are removed, exactly as many characters as its column
/// is wide, so the columns line up from row to row. This needs the names the
/// column shows as they are (owners, flags, attributes) to hold no ESC character,
/// and a date shown in it to have a four-digit year.
pub proof fn lemma_cells_line_up(es: Seq<Entry>, cols: Seq<Column>, w: Widths, e: Entry, c: Column)
    requires
        forall|x: Column| #[trigger] w.width_of(x) == measured_width(es, cols, x),
        es.contains(e),
        cols.contains(c),
        c != Column::Name,
        shows_free_text(c) ==> !plain_text(e, c).contains('\x1b'),
        shown_time_fits(e, c),
    ensures
        shown(cell_text(e, c, w)).len() == w.width_of(c),
{
    lemma_colors_are_escapes();
    if !shows_free_text(c) {
        lemma_computed_text_plain(e, c);
    }
    let width = w.width_of(c);
    assert(width == measured_width(es, cols, c));
    let k = choose|k: int| 0 <= k < es.len() && es[k] == e;
    let v = plain_text(e, c);
    if is_measured(c) {
        lemma_widths_fit(es, cols, c, k);
        lemma_byte_len_covers(v);
        assert(v.len() <= width);
    }
    match c {
        Column::Perms => {
            let tc = entry_color(e);
            lemma_entry_color_escape(e);
            lemma_colored_perms_shown(v, tc);
            let r = repeat(' ', shortfall(v.len(), width));
            assert(!r.contains('\x1b'));
            lemma_shown_plain(r);
            lemma_shown_concat(colored_perms(v, tc), r, false);
        },
        Column::Sparse => {
            reveal_strlit("S");
            reveal_strlit("-");
            let f = if e.sparse {
                "S"@
            } else {
                "-"@
            };
            assert(!f.contains('\x1b')) by {
                if f.contains('\x1b') {
                    assert(f[0] == '\x1b');
                }
            }
            lemma_shown_wrapped(DIM@, f, RESET@);
        },
        Column::Mtime => lemma_time_cell_text(e.mtime),
        Column::Atime => lemma_time_cell_text(e.atime),
        Column::Birth => lemma_time_cell_text(e.birth),
        Column::Ctime => {
            lemma_time_cell_text(Some(Timestamp { secs: e.ctime_secs, nanos: 0 }));
            assert(epoch_text(e.ctime_secs).len() <= 19 && !epoch_text(e.ctime_secs).contains('\x1b')) by {
                reveal_strlit("—");
            }
        },
        _ => {},
    }
    match c {
        Column::Mtime => lemma_padded_cell_shown(DIM@, time_text(e.mtime), width, false),
        Column::Atime => lemma_padded_cell_shown(DIM@, time_text(e.atime), width, false),
        Column::Birth => lemma_padded_cell_shown(DIM@, time_text(e.birth), width, false),
        Column::Ctime => lemma_padded_cell_shown(DIM@, epoch_text(e.ctime_secs), width, false),
        Column::User => lemma_padded_cell_shown(LIGHT_BLUE@, v, width, false),
        Column::Group => lemma_padded_cell_shown(LIGHT_BLUE@, v, width, false),
        Column::Size => lemma_padded_cell_shown(SOFT@, v, width, true),
        Column::Nlink => lemma_padded_cell_shown(WHITE@, v, width, true),
        Column::Blocks => lemma_padded_cell_shown(DIM@, v, width, false),
        Column::Ino => lemma_padded_cell_shown(DIM@, v, width, false),
        Column::Dev => lemma_padded_cell_shown(DIM@, v, width, false),
        Column::Flags => lemma_padded_cell_shown(ORANGE@, v, width, false),
        Column::Xattrs => lemma_padded_cell_shown(ORANGE@, v, width, false),
        Column::Xfs => lemma_padded_cell_shown(ORANGE@, v, width, false),
        _ => {},
    }
}

/// The size a human-readable size stands for, in tenths of a byte: its number,
/// with its decimal when it shows one, times its unit.
pub open spec fn human_size_tenths(n: nat) -> nat {
    let m = as_double(n);
    let i = size_unit(m);
    if i == 0 {
        10 * n
    } else {
        let d = unit_scale(i);
        if m >= 10 * d {
            10 * round_half_even(m, d) * d
        } else {
            round_half_even(m * 10, d) * d
        }
    }
}

proof fn lemma_round_monotone(a: nat, b: nat, d: nat)
    requires
        a <= b,
        d > 0,
    ensures
        round_half_even(a, d) <= round_half_even(b, d),
        a / d <= round_half_even(a, d) <= a / d + 1,
{
    lemma_div_is_ordered(a as int, b as int, d as int);
    lemma_fundamental_div_mod(a as int, d as int);
    lemma_fundamental_div_mod(b as int, d as int);
    lemma_mod_pos_bound(a as int, d as int);
    lemma_mod_pos_bound(b as int, d as int);
    if a / d == b / d {
        assert(a % d <= b % d);
    }
}

proof fn lemma_round_exact(k: nat, d: nat)
    requires
        d > 0,
    ensures
        round_half_even(k * d, d) == k,
{
    lemma_fundamental_div_mod_converse((k * d) as int, d as int, k as int, 0);
}

proof fn lemma_excess_bits_bounds(n: nat)
    ensures
        excess_bits(n) == 0 ==> n < pow2(53),
        excess_bits(n) > 0 ==> pow2(52 + excess_bits(n)) <= n < pow2(53 + excess_bits(n)),
    decreases n,
{
    lemma2_to64_rest();
    if n >= 0x20_0000_0000_0000 {
        let s = excess_bits(n);
        lemma_excess_bits_bounds(n / 2);
        lemma_pow2_unfold(52 + s);
        lemma_pow2_unfold(53 + s);
    }
}

proof fn lemma_excess_bits_monotone(a: nat, b: nat)
    requires
        a <= b,
    ensures
        excess_bits(a) <= excess_bits(b),
    decreases b,
{
    if a >= 0x20_0000_0000_0000 {
        lemma_excess_bits_monotone(a / 2, b / 2);
    }
}

proof fn lemma_as_double_rounds(n: nat)
    ensures
        as_double(n) == round_half_even(n, pow2(excess_bits(n))) * pow2(excess_bits(n)),
{
    let s = excess_bits(n);
    lemma2_to64();
    if s == 0 {
        lemma_round_exact(n, 1);
    } else {
        lemma_pow2_unfold(s);
        let p = pow2(s);
        let r = n % p;
        lemma_fundamental_div_mod_converse(p as int, 2, pow2((s - 1) as nat) as int, 0);
        let h = p / 2;
        assert(h * 2 == p);
        assert((r > h) <==> (2 * r > p)) by (nonlinear_arith)
            requires
                h * 2 == p,
        ;
        assert((r == h) <==> (2 * r == p)) by (nonlinear_arith)
            requires
                h * 2 == p,
        ;
        assert(as_double(n) == (if r > h || (r == h && (n / p) % 2 == 1) {
            n / p + 1
        } else {
            n / p
        }) * p);
    }
}

proof fn lemma_as_double_lower(n: nat)
    ensures
        excess_bits(n) > 0 ==> as_double(n) >= pow2(52 + excess_bits(n)),
        as_double(n) < pow2(53) ==> as_double(n) == n,
{
    let s = excess_bits(n);
    if s > 0 {
        lemma_excess_bits_bounds(n);
        lemma_as_double_rounds(n);
        lemma_pow2_adds(52, s);
        let p = pow2(s);
        let low = pow2(52);
        lemma_pow2_pos(s);
        lemma_round_monotone(n, n, p);
        lemma_fundamental_div_mod(n as int, p as int);
        lemma_mod_pos_bound(n as int, p as int);
        assert(n / p >= low) by (nonlinear_arith)
            requires
                n == p * (n / p) + n % p,
                n % p < p,
                n >= low * p,
                p > 0,
        ;
        lemma_mul_inequality(low as int, round_half_even(n, p) as int, p as int);
        if s > 1 {
            lemma_pow2_strictly_increases(53, 52 + s);
        }
    }
}

proof fn lemma_as_double_monotone(a: nat, b: nat)
    requires
        a <= b,
    ensures
        as_double(a) <= as_double(b),
{
    let s1 = excess_bits(a);
    let s2 = excess_bits(b);
    lemma_excess_bits_monotone(a, b);
    lemma_as_double_rounds(a);
    lemma_as_double_rounds(b);
    let p1 = pow2(s1);
    let p2 = pow2(s2);
    lemma_pow2_pos(s1);
    lemma_pow2_pos(s2);
    lemma_round_monotone(a, b, p1);
    lemma_round_monotone(b, b, p2);
    if s1 == s2 {
        lemma_mul_inequality(round_half_even(a, p1) as int, round_half_even(b, p1) as int, p1 as int);
    } else {
        lemma_excess_bits_bounds(a);
        lemma_excess_bits_bounds(b);
        lemma2_to64_rest();
        lemma_pow2_adds(53, s1);
        lemma_pow2_adds(52, s2);
        let top = pow2(53);
        let low = pow2(52);
        // `a` rounds to at most 2^(53 + s1).
        lemma_fundamental_div_mod(a as int, p1 as int);
        lemma_mod_pos_bound(a as int, p1 as int);
        assert(a / p1 < top) by (nonlinear_arith)
            requires
                a == p1 * (a / p1) + a % p1,
                a % p1 >= 0,
                a < top * p1,
                p1 > 0,
        ;
        lemma_mul_inequality(round_half_even(a, p1) as int, top as int, p1 as int);
        // `b` rounds to at least 2^(52 + s2).
        lemma_fundamental_div_mod(b as int, p2 as int);
        lemma_mod_pos_bound(b as int, p2 as int);
        assert(b / p2 >= low) by (nonlinear_arith)
            requires
                b == p2 * (b / p2) + b % p2,
                b % p2 < p2,
                b >= low * p2,
                p2 > 0,
        ;
        lemma_mul_inequality(low as int, round_half_even(b, p2) as int, p2 as int);
        if 53 + s1 < 52 + s2 {
            lemma_pow2_strictly_increases(53 + s1, 52 + s2);
        }
    }
}

/// A larger size never reads as a smaller one: the value a human-readable size
/// stands for grows with the size.
pub proof fn lemma_human_size_monotone(n1: nat, n2: nat)
    requires
        n1 <= n2,
    ensures
        human_size_tenths(n1) <= human_size_tenths(n2),
{
    lemma_as_double_monotone(n1, n2);
    let m1 = as_double(n1);
    let m2 = as_double(n2);
    let i1 = size_unit(m1);
    let i2 = size_unit(m2);
    lemma2_to64_rest();
    lemma_as_double_lower(n1);
    lemma_as_double_lower(n2);
    let d1 = unit_scale(i1);
    let d2 = unit_scale(i2);
    if i1 == i2 {
        if i1 > 0 {
            lemma_round_monotone(m1, m2, d1);
            lemma_round_monotone(m1 * 10, m2 * 10, d1);
            if m1 < 10 * d1 && m2 >= 10 * d1 {
                lemma_round_monotone(m1 * 10, 100 * d1, d1);
                lemma_round_exact(100, d1);
                lemma_round_monotone(10 * d1, m2, d1);
                lemma_round_exact(10, d1);
            }
            let r1 = if m1 >= 10 * d1 {
                10 * round_half_even(m1, d1)
            } else {
                round_half_even(m1 * 10, d1)
            };
            let r2 = if m2 >= 10 * d1 {
                10 * round_half_even(m2, d1)
            } else {
                round_half_even(m2 * 10, d1)
            };
            assert(r1 <= r2);
            lemma_mul_inequality(r1 as int, r2 as int, d1 as int);
        }
    } else {
        // Below the next unit the value is at most ten of that unit in tenths,
        // and from a unit on it is at least one of it.
        let next = 1024 * d1;
        assert(next <= d2);
        let v1 = human_size_tenths(n1);
        let v2 = human_size_tenths(n2);
        if i1 > 0 {
            if m1 >= 10 * d1 {
                lemma_round_monotone(m1, next, d1);
                lemma_round_exact(1024, d1);
                let r = round_half_even(m1, d1);
                assert(v1 == 10 * r * d1);
                assert(10 * r * d1 <= 10 * next) by (nonlinear_arith)
                    requires
                        r <= 1024,
                        next == 1024 * d1,
                        d1 > 0,
                ;
            } else {
                lemma_round_monotone(m1 * 10, 100 * d1, d1);
                lemma_round_exact(100, d1);
                let r = round_half_even(m1 * 10, d1);
                assert(v1 == r * d1);
                assert(r * d1 <= 10 * next) by (nonlinear_arith)
                    requires
                        r <= 100,
                        next == 1024 * d1,
                        d1 > 0,
                ;
            }
        }
        assert(v1 <= 10 * next);
        if m2 >= 10 * d2 {
            lemma_round_monotone(10 * d2, m2, d2);
            lemma_round_exact(10, d2);
            let r = round_half_even(m2, d2);
            assert(v2 == 10 * r * d2);
            assert(10 * r * d2 >= 10 * d2) by (nonlinear_arith)
                requires
                    r >= 10,
                    d2 > 0,
            ;
        } else {
            lemma_round_monotone(10 * d2, m2 * 10, d2);
            lemma_round_exact(10, d2);
            let r = round_half_even(m2 * 10, d2);
            assert(v2 == r * d2);
            assert(r * d2 >= 10 * d2) by (nonlinear_arith)
                requires
                    r >= 10,
                    d2 > 0,
            ;
        }
        assert(v2 >= 10 * d2);
    }
}

proof fn lemma_header_text_plain(c: Column)
    ensures
        !header_text(c).contains('\x1b'),
        header_text(c).len() <= 8,
{
    reveal_strlit("PERMS");
    reveal_strlit("N");
    reveal_strlit("USER");
    reveal_strlit("GROUP");
    reveal_strlit("SIZE");
    reveal_strlit("BLOCKS");
    reveal_strlit("S");
    reveal_strlit("INO:IGEN");
    reveal_strlit("DEV");
    reveal_strlit("MTIME");
    reveal_strlit("ATIME");
    reveal_strlit("CTIME");
    reveal_strlit("BIRTH");
    reveal_strlit("FLAGS");
    reveal_strlit("XATTRS");
    reveal_strlit("XFS");
    reveal_strlit("NAME");
    let t = header_text(c);
    assert forall|i: int| 0 <= i < t.len() implies t[i] != '\x1b' by {
        match c {
            Column::Perms => {},
            Column::Nlink => {},
            Column::User => {},
            Column::Group => {},
            Column::Size => {},
            Column::Blocks => {},
            Column::Sparse => {},
            Column::Ino => {},
            Column::Dev => {},
            Column::Mtime => {},
            Column::Atime => {},
            Column::Ctime => {},
            Column::Birth => {},
            Column::Flags => {},
            Column::Xattrs => {},
            Column::Xfs => {},
            Column::Name => {},
        }
    }
}

/// In a listing measured over `es`, each header cell but the name's shows, once
/// its escape sequences are removed, exactly as many characters as its column is
/// wide, so the header lines up with the rows.
pub proof fn lemma_header_lines_up(es: Seq<Entry>, cols: Seq<Column>, w: Widths, c: Column)
    requires
        forall|x: Column| #[trigger] w.width_of(x) == measured_width(es, cols, x),
        cols.contains(c),
        c != Column::Name,
    ensures
        shown(header_cell(c, w)).len() == w.width_of(c),
{
    lemma_colors_are_escapes();
    lemma_header_text_plain(c);
    let t = header_text(c);
    let width = w.width_of(c);
    assert(width == measured_width(es, cols, c));
    if is_measured(c) {
        lemma_byte_len_covers(t);
    }
    reveal_strlit("S");
    assert(t.len() <= width);
    lemma_padded_cell_shown(LIGHT_BLUE@, t, width, c == Column::Size || c == Column::Nlink);
}

/// Whether column `c` shows text taken as it is from the entry: owner names, and
/// the names of flags and extended attributes.
pub open spec fn shows_free_text(c: Column) -> bool {
    match c {
        Column::User | Column::Group | Column::Flags | Column::Xattrs | Column::Xfs => true,
        _ => false,
    }
}

proof fn lemma_literals_plain()
    ensures
        !":"@.contains('\x1b'),
        !"-"@.contains('\x1b'),
        !"."@.contains('\x1b'),
        !"b/"@.contains('\x1b'),
        !" rdev="@.contains('\x1b'),
        forall|i: nat| !(#[trigger] unit_letter(i)).contains('\x1b'),
{
    reveal_strlit(":");
    reveal_strlit("-");
    reveal_strlit(".");
    reveal_strlit("b/");
    reveal_strlit(" rdev=");
    reveal_strlit("B");
    reveal_strlit("K");
    reveal_strlit("M");
    reveal_strlit("G");
    reveal_strlit("T");
    assert forall|k: int| 0 <= k < " rdev="@.len() implies " rdev="@[k] != '\x1b' by {}
    assert forall|k: int| 0 <= k < "b/"@.len() implies "b/"@[k] != '\x1b' by {}
    assert forall|i: nat| !(#[trigger] unit_letter(i)).contains('\x1b') by {
        let u = unit_letter(i);
        assert forall|k: int| 0 <= k < u.len() implies u[k] != '\x1b' by {}
    }
}

proof fn lemma_size_text_plain(n: nat)
    ensures
        !human_size_text(n).contains('\x1b'),
{
    lemma_literals_plain();
    let m = as_double(n);
    let i = size_unit(m);
    reveal_strlit("B");
    if i == 0 {
        lemma_dec_plain(n);
        assert(!"B"@.contains('\x1b')) by {
            if "B"@.contains('\x1b') {
                assert("B"@[0] == '\x1b');
            }
        }
        lemma_no_escape_concat(dec(n), "B"@);
    } else {
        let d = unit_scale(i);
        let u = unit_letter(i);
        assert(!u.contains('\x1b'));
        if m >= 10 * d {
            lemma_dec_plain(round_half_even(m, d));
            lemma_no_escape_concat(dec(round_half_even(m, d)), u);
        } else {
            let r = round_half_even(m * 10, d);
            lemma_dec_plain(r / 10);
            lemma_dec_plain(r % 10);
            lemma_no_escape_concat(dec(r / 10), "."@);
            lemma_no_escape_concat(dec(r / 10) + "."@, dec(r % 10));
            lemma_no_escape_concat(dec(r / 10) + "."@ + dec(r % 10), u);
        }
    }
}

/// The text the library computes for a column (numbers, sizes, the mode string)
/// holds no ESC.
#[verifier::spinoff_prover]
proof fn lemma_computed_text_plain(e: Entry, c: Column)
    requires
        !shows_free_text(c),
    ensures
        !plain_text(e, c).contains('\x1b'),
{
    lemma_literals_plain();
    let t = plain_text(e, c);
    match c {
        Column::Perms => {
            assert forall|k: int| 0 <= k < t.len() implies t[k] != '\x1b' by {}
        },
        Column::Size => lemma_size_text_plain(e.size as nat),
        Column::Nlink => lemma_dec_plain(e.nlink as nat),
        Column::Blocks => {
            lemma_dec_plain(e.blocks as nat);
            lemma_dec_plain(e.blksize as nat);
            lemma_no_escape_concat(dec(e.blocks as nat), "b/"@);
            lemma_no_escape_concat(dec(e.blocks as nat) + "b/"@, dec(e.blksize as nat));
        },
        Column::Ino => {
            lemma_dec_plain(e.ino as nat);
            lemma_no_escape_concat(dec(e.ino as nat), ":"@);
            let g = match e.extras.inode_gen {
                Some(g) => dec(g as nat),
                None => "-"@,
            };
            if let Some(x) = e.extras.inode_gen {
                lemma_dec_plain(x as nat);
            }
            lemma_no_escape_concat(dec(e.ino as nat) + ":"@, g);
        },
        Column::Dev => {
            let a = dec(e.dev_major as nat);
            let b = dec(e.dev_minor as nat);
            lemma_dec_plain(e.dev_major as nat);
            lemma_dec_plain(e.dev_minor as nat);
            lemma_no_escape_concat(a, ":"@);
            lemma_no_escape_concat(a + ":"@, b);
            let rc = dec(e.rdev_major as nat);
            let rn = dec(e.rdev_minor as nat);
            lemma_dec_plain(e.rdev_major as nat);
            lemma_dec_plain(e.rdev_minor as nat);
            lemma_no_escape_concat(" rdev="@, rc);
            lemma_no_escape_concat(" rdev="@ + rc, ":"@);
            lemma_no_escape_concat(" rdev="@ + rc + ":"@, rn);
            let tail = if e.kind == Kind::Block || e.kind == Kind::Char {
                " rdev="@ + rc + ":"@ + rn
            } else {
                Seq::<char>::empty()
            };
            lemma_no_escape_concat(a + ":"@ + b, tail);
        },
        _ => {},
    }
}

/// Names are colored by what the entry is: a broken symlink red; a symlink or a
/// special file (FIFO, socket, block or character device) orange; a directory
/// light blue; an executable file green; any other file white. A name starting
/// with `.` takes the hidden shade instead: pink for symlinks and special files,
/// violet for directories, yellow for executables and cyan for other files.
pub proof fn lemma_name_colors(e: Entry)
    ensures
        ({
            let hidden = e.name@.len() > 0 && e.name@[0] == '.';
            let c = entry_color(e);
            &&& e.broken_symlink ==> c == RED@
            &&& !e.broken_symlink && (e.kind == Kind::Symlink || e.kind == Kind::Fifo || e.kind
                == Kind::Socket || e.kind == Kind::Block || e.kind == Kind::Char) ==> c == if hidden {
                HIDDEN_LINK@
            } else {
                ORANGE@
            }
            &&& !e.broken_symlink && e.kind == Kind::Dir ==> c == if hidden {
                HIDDEN_DIR@
            } else {
                LIGHT_BLUE@
            }
            &&& !e.broken_symlink && e.kind == Kind::File && e.executable ==> c == if hidden {
                HIDDEN_EXEC@
            } else {
                GREEN@
            }
            &&& !e.broken_symlink && ((e.kind == Kind::File && !e.executable) || e.kind
                == Kind::Unknown) ==> c == if hidden {
                HIDDEN_FILE@
            } else {
                WHITE@
            }
        }),
{
}

/// The XFS cell shows `-` without XFS information; otherwise the flag names (or
/// `-`), then the extent count after `exts=`, the project id after `proj=`, the
/// extent-size hint after `esz=` and the CoW extent-size hint after `cow=`, and
/// the direct-I/O memory alignment, minimum and maximum after `dio=` when all
/// three are known.
pub proof fn lemma_xfs_cell_fields(e: Entry)
    ensures
        e.extras.xfs is None ==> xfs_text(e) == "-"@,
        e.extras.xfs matches Some(x) ==> xfs_text(e) == join_or_dash_text(texts(x.xflags@))
            + ",exts="@ + dec(x.nextents as nat) + ",proj="@ + dec(x.projid as nat) + ",esz="@
            + dec(x.extsize as nat) + ",cow="@ + dec(x.cowextsize as nat) + if x.dio_mem is Some
            && x.dio_min is Some && x.dio_max is Some {
            ",dio="@ + dec(x.dio_mem.unwrap() as nat) + "/"@ + dec(x.dio_min.unwrap() as nat)
                + "/"@ + dec(x.dio_max.unwrap() as nat)
        } else {
            Seq::<char>::empty()
        },
{
}

/// What each cell of an entry's line holds: its color, then the column's text for
/// the entry padded with spaces to the column width (numbers and sizes on the left,
/// other text on the right), then the reset. The name is unpadded, in the entry's
/// color, followed by ` -> target` for a symlink.
pub proof fn lemma_cell_contents(e: Entry, w: Widths)
    ensures
        cell_text(e, Column::User, w) == LIGHT_BLUE@ + pad_right(e.user@, w.width_of(Column::User))
            + RESET@,
        cell_text(e, Column::Group, w) == LIGHT_BLUE@ + pad_right(
            e.group@,
            w.width_of(Column::Group),
        ) + RESET@,
        cell_text(e, Column::Size, w) == SOFT@ + pad_left(
            human_size_text(e.size as nat),
            w.width_of(Column::Size),
        ) + RESET@,
        cell_text(e, Column::Nlink, w) == WHITE@ + pad_left(
            dec(e.nlink as nat),
            w.width_of(Column::Nlink),
        ) + RESET@,
        cell_text(e, Column::Blocks, w) == DIM@ + pad_right(
            dec(e.blocks as nat) + "b/"@ + dec(e.blksize as nat),
            w.width_of(Column::Blocks),
        ) + RESET@,
        cell_text(e, Column::Ino, w) == DIM@ + pad_right(
            dec(e.ino as nat) + ":"@ + match e.extras.inode_gen {
                Some(g) => dec(g as nat),
                None => "-"@,
            },
            w.width_of(Column::Ino),
        ) + RESET@,
        cell_text(e, Column::Dev, w) == DIM@ + pad_right(
            dec(e.dev_major as nat) + ":"@ + dec(e.dev_minor as nat) + if e.kind == Kind::Block
                || e.kind == Kind::Char {
                " rdev="@ + dec(e.rdev_major as nat) + ":"@ + dec(e.rdev_minor as nat)
            } else {
                Seq::<char>::empty()
            },
            w.width_of(Column::Dev),
        ) + RESET@,
        cell_text(e, Column::Mtime, w) == DIM@ + pad_right(
            time_text(e.mtime),
            w.width_of(Column::Mtime),
        ) + RESET@,
        cell_text(e, Column::Atime, w) == DIM@ + pad_right(
            time_text(e.atime),
            w.width_of(Column::Atime),
        ) + RESET@,
        cell_text(e, Column::Birth, w) == DIM@ + pad_right(
            time_text(e.birth),
            w.width_of(Column::Birth),
        ) + RESET@,
        cell_text(e, Column::Ctime, w) == DIM@ + pad_right(
            epoch_text(e.ctime_secs),
            w.width_of(Column::Ctime),
        ) + RESET@,
        cell_text(e, Column::Sparse, w) == DIM@ + (if e.sparse {
            "S"@
        } else {
            "-"@
        }) + RESET@,
        cell_text(e, Column::Flags, w) == ORANGE@ + pad_right(
            join_or_dash_text(texts(e.extras.flags@)),
            w.width_of(Column::Flags),
        ) + RESET@,
        cell_text(e, Column::Xattrs, w) == ORANGE@ + pad_right(
            join_or_dash_text(texts(e.extras.xattrs@)),
            w.width_of(Column::Xattrs),
        ) + RESET@,
        cell_text(e, Column::Xfs, w) == ORANGE@ + pad_right(xfs_text(e), w.width_of(Column::Xfs))
            + RESET@,
        cell_text(e, Column::Name, w) == entry_color(e) + e.name@ + RESET@ + match e.symlink {
            Some(t) => " "@ + DIM@ + "->"@ + RESET@ + " "@ + (if e.broken_symlink {
                RED@
            } else {
                ORANGE@
            }) + t@ + RESET@,
            None => Seq::<char>::empty(),
        },
{
}

/// A date is shown day first: two-digit day, month, four-digit year, then the time
/// of day as hours, minutes and seconds, all zero-padded.
pub proof fn lemma_date_text_layout(secs: nat)
    ensures
        ({
            let (y, m, d) = civil_date(secs / 86400);
            let tod = secs % 86400;
            date_text(secs) == dec_zero_padded(d, 2) + "-"@ + dec_zero_padded(m, 2) + "-"@
                + dec_zero_padded(y, 4) + " "@ + dec_zero_padded(tod / 3600, 2) + ":"@
                + dec_zero_padded((tod % 3600) / 60, 2) + ":"@ + dec_zero_padded(tod % 60, 2)
        }),
{
}

/// A human-readable size reads as its value: below 1 KiB the exact byte count and
/// `B`; otherwise the value in tenths of a byte, divided by its unit, shown whole
/// from ten units up and with one decimal below. The unit is `K`, `M`, `G` or `T`
/// as the size (as a double) reaches 1024, 1024², 1024³ or 1024⁴.
pub proof fn lemma_human_size_reads_as(n: nat)
    ensures
        ({
            let m = as_double(n);
            let t = human_size_text(n);
            let v = human_size_tenths(n);
            let i = size_unit(m);
            let d = unit_scale(i);
            &&& m < 1024 ==> t == dec(n) + "B"@
            &&& m >= 1024 && m >= 10 * d ==> t == dec(v / (10 * d)) + seq![t.last()]
            &&& m >= 1024 && m < 10 * d ==> t == dec(v / d / 10) + "."@ + dec((v / d) % 10)
                + seq![t.last()]
            &&& (t.last() == 'B') == (m < 0x400)
            &&& (t.last() == 'K') == (0x400 <= m < 0x10_0000)
            &&& (t.last() == 'M') == (0x10_0000 <= m < 0x4000_0000)
            &&& (t.last() == 'G') == (0x4000_0000 <= m < 0x100_0000_0000)
            &&& (t.last() == 'T') == (0x100_0000_0000 <= m)
        }),
{
    reveal_strlit("B");
    reveal_strlit("K");
    reveal_strlit("M");
    reveal_strlit("G");
    reveal_strlit("T");
    let m = as_double(n);
    let t = human_size_text(n);
    let v = human_size_tenths(n);
    let i = size_unit(m);
    let d = unit_scale(i);
    lemma2_to64_rest();
    lemma_as_double_lower(n);
    if i > 0 {
        assert(unit_letter(i).len() == 1);
        assert(t.last() == unit_letter(i)[0]);
        assert(unit_letter(i) =~= seq![t.last()]);
        if m >= 10 * d {
            let r = round_half_even(m, d);
            assert(v == 10 * r * d);
            assert(v == r * (10 * d)) by (nonlinear_arith)
                requires
                    v == 10 * r * d,
            ;
            lemma_fundamental_div_mod_converse(v as int, (10 * d) as int, r as int, 0);
        } else {
            let r = round_half_even(m * 10, d);
            assert(v == r * d);
            lemma_fundamental_div_mod_converse(v as int, d as int, r as int, 0);
        }
    } else {
        assert(t.last() == 'B');
    }
}

} // verus!
