//! Character-level helpers: building strings, joining lists, case folding.

use vstd::prelude::*;

verus! {

/// Appends one character to a string.
/// Trusted: calls `String::push`, which std documents as appending the character
/// to the end of the string.
#[verifier::external_body]
pub(crate) fn push_char(s: &mut String, c: char)
    ensures
        final(s)@ == old(s)@.push(c),
{
    s.push(c);
}

/// The code of a character after ASCII lower-casing (other characters are kept).
pub open spec fn lower_code(c: char) -> int {
    let u = (c as u32) as int;
    if 65 <= u <= 90 {
        u + 32
    } else {
        u
    }
}

/// The character codes of `s`, ASCII letters lower-cased.
pub open spec fn lower_codes(s: Seq<char>) -> Seq<int> {
    s.map_values(|c: char| lower_code(c))
}

/// The character codes of `s`.
pub open spec fn char_codes(s: Seq<char>) -> Seq<int> {
    s.map_values(|c: char| (c as u32) as int)
}

/// The texts of a list of strings.
pub open spec fn texts(v: Seq<String>) -> Seq<Seq<char>> {
    v.map_values(|s: String| s@)
}

/// The items joined, with `sep` between consecutive items.
pub open spec fn join_with(items: Seq<Seq<char>>, sep: Seq<char>) -> Seq<char>
    decreases items.len(),
{
    if items.len() == 0 {
        seq![]
    } else if items.len() == 1 {
        items[0]
    } else {
        join_with(items.drop_last(), sep) + sep + items.last()
    }
}

/// The items joined by commas.
pub open spec fn join_comma(items: Seq<Seq<char>>) -> Seq<char> {
    join_with(items, seq![','])
}

/// Appends the strings of `items`, separated by `sep`, to `out`.
pub fn push_joined(out: &mut String, items: &Vec<String>, sep: &str)
    ensures
        final(out)@ == old(out)@ + join_with(texts(items@), sep@),
{
    let ghost start = out@;
    let ghost all = texts(items@);
    let n = items.len();
    let mut i: usize = 0;
    while i < n
        invariant
            n == items@.len(),
            all == texts(items@),
            0 <= i <= n,
            out@ == start + join_with(all.take(i as int), sep@),
        decreases n - i,
    {
        assert(all.take(i + 1).drop_last() =~= all.take(i as int));
        if i > 0 {
            out.append(sep);
        } else {
            assert(all.take(0) =~= Seq::<Seq<char>>::empty());
        }
        out.append(items[i].as_str());
        i = i + 1;
    }
    assert(all.take(n as int) =~= all);
}

/// The strings of `items` joined by commas.
pub fn join_strings(items: &Vec<String>) -> (r: String)
    ensures
        r@ == join_comma(texts(items@)),
{
    let mut r = String::new();
    push_joined(&mut r, items, ",");
    proof {
        reveal_strlit(",");
        assert(","@ =~= seq![',']);
    }
    r
}

/// The lower-cased character codes of `s`.
pub fn lower_codes_of(s: &str) -> (r: Vec<i128>)
    ensures
        r@.len() == s@.len(),
        forall|i: int| 0 <= i < s@.len() ==> r@[i] as int == lower_code(#[trigger] s@[i]),
{
    let mut r: Vec<i128> = Vec::new();
    for c in it: s.chars()
        invariant
            r@.len() == it.index(),
            it.seq() == s@,
            forall|i: int| 0 <= i < r@.len() ==> r@[i] as int == lower_code(s@[i]),
    {
        assert(c == s@[r@.len() as int]);
        let u: u32 = c as u32;
        let v: u32 = if 65 <= u && u <= 90 {
            u + 32
        } else {
            u
        };
        r.push(v as i128);
    }
    r
}

/// The character codes of `s`.
pub fn char_codes_of(s: &str) -> (r: Vec<i128>)
    ensures
        r@.len() == s@.len(),
        forall|i: int| 0 <= i < s@.len() ==> r@[i] as int == (#[trigger] s@[i] as u32) as int,
{
    let mut r: Vec<i128> = Vec::new();
    for c in it: s.chars()
        invariant
            r@.len() == it.index(),
            it.seq() == s@,
            forall|i: int| 0 <= i < r@.len() ==> r@[i] as int == (s@[i] as u32) as int,
    {
        assert(c == s@[r@.len() as int]);
        let u: u32 = c as u32;
        r.push(u as i128);
    }
    r
}


/// Whether `c` has the Unicode `White_Space` property.
pub open spec fn is_white_space(c: char) -> bool {
    let u = (c as u32) as int;
    ||| 0x09 <= u <= 0x0D
    ||| u == 0x20
    ||| u == 0x85
    ||| u == 0xA0
    ||| u == 0x1680
    ||| 0x2000 <= u <= 0x200A
    ||| u == 0x2028
    ||| u == 0x2029
    ||| u == 0x202F
    ||| u == 0x205F
    ||| u == 0x3000
}

fn white_space(c: char) -> (r: bool)
    ensures
        r == is_white_space(c),
{
    let u: u32 = c as u32;
    (0x09 <= u && u <= 0x0D) || u == 0x20 || u == 0x85 || u == 0xA0 || u == 0x1680 || (0x2000 <= u
        && u <= 0x200A) || u == 0x2028 || u == 0x2029 || u == 0x202F || u == 0x205F || u == 0x3000
}

/// `s` without its leading white space.
pub open spec fn trim_start(s: Seq<char>) -> Seq<char>
    decreases s.len(),
{
    if s.len() > 0 && is_white_space(s[0]) {
        trim_start(s.drop_first())
    } else {
        s
    }
}

/// `s` without its trailing white space.
pub open spec fn trim_end(s: Seq<char>) -> Seq<char>
    decreases s.len(),
{
    if s.len() > 0 && is_white_space(s.last()) {
        trim_end(s.drop_last())
    } else {
        s
    }
}

/// `s` without leading and trailing white space.
pub open spec fn trim(s: Seq<char>) -> Seq<char> {
    trim_end(trim_start(s))
}

/// The character after ASCII upper-casing (other characters are kept).
pub open spec fn upper_char(c: char) -> char {
    let u = (c as u32) as int;
    if 97 <= u <= 122 {
        ((u - 32) as u8) as char
    } else {
        c
    }
}

/// `s` with its ASCII letters upper-cased.
pub open spec fn upper(s: Seq<char>) -> Seq<char> {
    s.map_values(|c: char| upper_char(c))
}

proof fn lemma_trim_start_skip(s: Seq<char>, k: int)
    requires
        0 <= k <= s.len(),
        forall|i: int| 0 <= i < k ==> is_white_space(#[trigger] s[i]),
        k == s.len() || !is_white_space(s[k]),
    ensures
        trim_start(s) == s.skip(k),
    decreases k,
{
    if k == 0 {
        assert(s.skip(0) =~= s);
    } else {
        assert(s.drop_first().skip(k - 1) =~= s.skip(k));
        assert forall|i: int| 0 <= i < k - 1 implies is_white_space(#[trigger] s.drop_first()[i]) by {
            assert(s.drop_first()[i] == s[i + 1]);
        }
        lemma_trim_start_skip(s.drop_first(), k - 1);
    }
}

proof fn lemma_trim_end_take(s: Seq<char>, k: int)
    requires
        0 <= k <= s.len(),
        forall|i: int| k <= i < s.len() ==> is_white_space(#[trigger] s[i]),
        k == 0 || !is_white_space(s[k - 1]),
    ensures
        trim_end(s) == s.take(k),
    decreases s.len() - k,
{
    if k == s.len() {
        assert(s.take(k) =~= s);
    } else {
        assert(s.drop_last().take(k) =~= s.take(k));
        lemma_trim_end_take(s.drop_last(), k);
    }
}

/// The characters of `s`, trimmed and upper-cased.
pub fn trimmed_upper(s: &str) -> (r: Vec<char>)
    ensures
        r@ == upper(trim(s@)),
{
    let mut all: Vec<char> = Vec::new();
    for c in it: s.chars()
        invariant
            all@ == it.seq().take(it.index()),
            it.seq() == s@,
    {
        assert(it.seq().take(it.index()).push(c) =~= it.seq().take(it.index() + 1));
        all.push(c);
    }
    assert(all@ =~= s@);
    let n = all.len();
    let mut lo: usize = 0;
    while lo < n && white_space(all[lo])
        invariant
            n == all@.len(),
            lo <= n,
            forall|i: int| 0 <= i < lo ==> is_white_space(#[trigger] all@[i]),
        decreases n - lo,
    {
        lo = lo + 1;
    }
    proof {
        lemma_trim_start_skip(all@, lo as int);
    }
    let mut hi: usize = n;
    while hi > lo && white_space(all[hi - 1])
        invariant
            n == all@.len(),
            lo <= hi <= n,
            forall|i: int| hi <= i < n ==> is_white_space(#[trigger] all@[i]),
        decreases hi,
    {
        hi = hi - 1;
    }
    let ghost rest = all@.skip(lo as int);
    proof {
        assert forall|i: int| hi - lo <= i < rest.len() implies is_white_space(#[trigger] rest[i]) by {
            assert(rest[i] == all@[i + lo]);
        }
        if hi > lo {
            assert(rest[hi - lo - 1] == all@[hi - 1]);
        }
        lemma_trim_end_take(rest, hi - lo);
    }
    let mut r: Vec<char> = Vec::new();
    let mut i: usize = lo;
    while i < hi
        invariant
            n == all@.len(),
            lo <= i <= hi <= n,
            rest == all@.skip(lo as int),
            r@ == upper(rest.take(i - lo)),
        decreases hi - i,
    {
        let c = all[i];
        let u: u32 = c as u32;
        let d: char = if 97 <= u && u <= 122 {
            ((u - 32) as u8) as char
        } else {
            c
        };
        assert(rest[i - lo] == c);
        assert(upper(rest.take(i - lo + 1)) =~= upper(rest.take(i - lo)).push(d));
        r.push(d);
        i = i + 1;
    }
    r
}

/// Whether the characters in `v` spell `lit`.
pub fn chars_equal(v: &Vec<char>, lit: &str) -> (r: bool)
    ensures
        r == (v@ == lit@),
{
    let mut i: usize = 0;
    assert(v@.take(0) =~= lit@.take(0));
    for c in it: lit.chars()
        invariant
            it.seq() == lit@,
            i == it.index(),
            i <= v@.len(),
            v@.take(i as int) == lit@.take(i as int),
    {
        assert(c == lit@[i as int]);
        if i >= v.len() {
            assert(v@.len() < lit@.len());
            return false;
        }
        if v[i] != c {
            assert(v@[i as int] != lit@[i as int]);
            return false;
        }
        assert(v@.take(i + 1) =~= v@.take(i as int).push(c));
        assert(lit@.take(i + 1) =~= lit@.take(i as int).push(c));
        i = i + 1;
    }
    assert(lit@.take(i as int) =~= lit@);
    if i == v.len() {
        assert(v@.take(i as int) =~= v@);
        true
    } else {
        assert(v@.len() != lit@.len());
        false
    }
}

/// Appends the characters of `v` to `out`.
pub fn push_chars(out: &mut String, v: &Vec<char>)
    ensures
        final(out)@ == old(out)@ + v@,
{
    let ghost start = out@;
    let n = v.len();
    let mut i: usize = 0;
    while i < n
        invariant
            n == v@.len(),
            i <= n,
            out@ == start + v@.take(i as int),
        decreases n - i,
    {
        assert(v@.take(i + 1) =~= v@.take(i as int).push(v@[i as int]));
        push_char(out, v[i]);
        i = i + 1;
    }
    assert(v@.take(n as int) =~= v@);
}


/// The decimal digit for `d` (below ten).
pub open spec fn digit(d: nat) -> char {
    ((d + 48) as u8) as char
}

/// The decimal representation of `n`, without leading zeros.
pub open spec fn dec(n: nat) -> Seq<char>
    decreases n,
{
    if n < 10 {
        seq![digit(n)]
    } else {
        dec(n / 10).push(digit(n % 10))
    }
}

/// `k` copies of `c`.
pub open spec fn repeat(c: char, k: nat) -> Seq<char> {
    Seq::new(k, |i: int| c)
}

/// How far `len` falls short of `width`.
pub open spec fn shortfall(len: nat, width: nat) -> nat {
    if len < width {
        (width - len) as nat
    } else {
        0
    }
}

/// `s` padded with spaces on the right to `width` characters.
pub open spec fn pad_right(s: Seq<char>, width: nat) -> Seq<char> {
    s + repeat(' ', shortfall(s.len(), width))
}

/// `s` padded with spaces on the left to `width` characters.
pub open spec fn pad_left(s: Seq<char>, width: nat) -> Seq<char> {
    repeat(' ', shortfall(s.len(), width)) + s
}

/// The decimal representation of `n`, padded with zeros on the left to `width` digits.
pub open spec fn dec_zero_padded(n: nat, width: nat) -> Seq<char> {
    repeat('0', shortfall(dec(n).len(), width)) + dec(n)
}

/// Appends the decimal representation of `n`.
pub fn push_dec(out: &mut String, n: u128)
    ensures
        final(out)@ == old(out)@ + dec(n as nat),
    decreases n,
{
    if n >= 10 {
        push_dec(out, n / 10);
    }
    let d: u8 = (n % 10) as u8;
    let c: char = (d + 48) as char;
    push_char(out, c);
    proof {
        if n >= 10 {
            assert(dec(n as nat) == dec((n / 10) as nat).push(digit((n % 10) as nat)));
        }
        assert(c == digit((n % 10) as nat));
    }
}

/// Appends `k` copies of `c`.
pub fn push_repeat(out: &mut String, c: char, k: usize)
    ensures
        final(out)@ == old(out)@ + repeat(c, k as nat),
{
    let ghost start = out@;
    let mut i: usize = 0;
    while i < k
        invariant
            i <= k,
            out@ == start + repeat(c, i as nat),
        decreases k - i,
    {
        assert(repeat(c, (i + 1) as nat) =~= repeat(c, i as nat).push(c));
        push_char(out, c);
        i = i + 1;
    }
}

/// Appends `s`, padded with spaces on the right to `width` characters.
pub fn push_pad_right(out: &mut String, s: &str, width: usize)
    ensures
        final(out)@ == old(out)@ + pad_right(s@, width as nat),
{
    let len = s.unicode_len();
    out.append(s);
    let k: usize = if len < width {
        width - len
    } else {
        0
    };
    push_repeat(out, ' ', k);
    assert(out@ =~= old(out)@ + pad_right(s@, width as nat));
}

/// Appends `s`, padded with spaces on the left to `width` characters.
pub fn push_pad_left(out: &mut String, s: &str, width: usize)
    ensures
        final(out)@ == old(out)@ + pad_left(s@, width as nat),
{
    let len = s.unicode_len();
    let k: usize = if len < width {
        width - len
    } else {
        0
    };
    push_repeat(out, ' ', k);
    out.append(s);
    assert(out@ =~= old(out)@ + pad_left(s@, width as nat));
}

/// The decimal representation of `n`.
pub fn dec_string(n: u128) -> (r: String)
    ensures
        r@ == dec(n as nat),
{
    let mut r = String::new();
    push_dec(&mut r, n);
    assert(r@ =~= dec(n as nat));
    r
}

/// Appends the decimal representation of `n`, zero-padded to `width` digits.
pub fn push_dec_zero_padded(out: &mut String, n: u128, width: usize)
    ensures
        final(out)@ == old(out)@ + dec_zero_padded(n as nat, width as nat),
{
    let d = dec_string(n);
    let len = d.as_str().unicode_len();
    let k: usize = if len < width {
        width - len
    } else {
        0
    };
    push_repeat(out, '0', k);
    out.append(d.as_str());
    assert(out@ =~= old(out)@ + dec_zero_padded(n as nat, width as nat));
}


/// The characters of `s`.
pub fn chars_of(s: &str) -> (r: Vec<char>)
    ensures
        r@ == s@,
{
    let mut all: Vec<char> = Vec::new();
    for c in it: s.chars()
        invariant
            all@ == it.seq().take(it.index()),
            it.seq() == s@,
    {
        assert(it.seq().take(it.index()).push(c) =~= it.seq().take(it.index() + 1));
        all.push(c);
    }
    assert(all@ =~= s@);
    all
}

/// Whether `v` starts with the characters of `lit`.
pub fn has_prefix(v: &Vec<char>, lit: &str) -> (r: bool)
    ensures
        r == (lit@.len() <= v@.len() && v@.take(lit@.len() as int) == lit@),
{
    let p = chars_of(lit);
    if p.len() > v.len() {
        return false;
    }
    let n = p.len();
    let mut i: usize = 0;
    while i < n
        invariant
            n == p@.len(),
            n <= v@.len(),
            p@ == lit@,
            i <= n,
            v@.take(i as int) == p@.take(i as int),
        decreases n - i,
    {
        if v[i] != p[i] {
            assert(v@.take(n as int)[i as int] != p@[i as int]);
            return false;
        }
        assert(v@.take(i + 1) =~= v@.take(i as int).push(v@[i as int]));
        assert(p@.take(i + 1) =~= p@.take(i as int).push(p@[i as int]));
        i = i + 1;
    }
    assert(p@.take(n as int) =~= p@);
    true
}

/// A string holding the characters of `v` from position `from` on.
pub fn string_from(v: &Vec<char>, from: usize) -> (r: String)
    requires
        from <= v@.len(),
    ensures
        r@ == v@.skip(from as int),
{
    let mut r = String::new();
    let n = v.len();
    let mut i: usize = from;
    while i < n
        invariant
            n == v@.len(),
            from <= i <= n,
            r@ == v@.subrange(from as int, i as int),
        decreases n - i,
    {
        assert(v@.subrange(from as int, i + 1) =~= v@.subrange(from as int, i as int).push(v@[i as int]));
        push_char(&mut r, v[i]);
        i = i + 1;
    }
    assert(v@.subrange(from as int, n as int) =~= v@.skip(from as int));
    r
}


/// The character after ASCII lower-casing (other characters are kept).
pub open spec fn lower_char(c: char) -> char {
    let u = (c as u32) as int;
    if 65 <= u <= 90 {
        ((u + 32) as u8) as char
    } else {
        c
    }
}

/// `s` with its ASCII letters lower-cased.
pub open spec fn lower(s: Seq<char>) -> Seq<char> {
    s.map_values(|c: char| lower_char(c))
}

proof fn lemma_trim_start_map(s: Seq<char>, f: spec_fn(char) -> char)
    requires
        forall|c: char| #[trigger] is_white_space(f(c)) == is_white_space(c),
    ensures
        trim_start(s.map_values(f)) == trim_start(s).map_values(f),
    decreases s.len(),
{
    if s.len() > 0 && is_white_space(s[0]) {
        assert(s.map_values(f).drop_first() =~= s.drop_first().map_values(f));
        assert(is_white_space(s.map_values(f)[0]));
        lemma_trim_start_map(s.drop_first(), f);
    } else if s.len() > 0 {
        assert(!is_white_space(s.map_values(f)[0]));
    }
}

proof fn lemma_trim_end_map(s: Seq<char>, f: spec_fn(char) -> char)
    requires
        forall|c: char| #[trigger] is_white_space(f(c)) == is_white_space(c),
    ensures
        trim_end(s.map_values(f)) == trim_end(s).map_values(f),
    decreases s.len(),
{
    if s.len() > 0 && is_white_space(s.last()) {
        assert(s.map_values(f).drop_last() =~= s.drop_last().map_values(f));
        assert(is_white_space(s.map_values(f).last()));
        lemma_trim_end_map(s.drop_last(), f);
    } else if s.len() > 0 {
        assert(!is_white_space(s.map_values(f).last()));
    }
}

/// Trimming does not depend on the case of ASCII letters: upper-casing after
/// trimming gives the same text for `s`, its lower-cased and its upper-cased form.
pub proof fn lemma_trim_upper_ignores_case(s: Seq<char>)
    ensures
        upper(trim(lower(s))) == upper(trim(s)),
        upper(trim(upper(s))) == upper(trim(s)),
{
    let fl = |c: char| lower_char(c);
    let fu = |c: char| upper_char(c);
    assert forall|c: char| #[trigger] is_white_space(fl(c)) == is_white_space(c) by {}
    assert forall|c: char| #[trigger] is_white_space(fu(c)) == is_white_space(c) by {}
    assert(lower(s) =~= s.map_values(fl));
    assert(upper(s) =~= s.map_values(fu));
    lemma_trim_start_map(s, fl);
    lemma_trim_start_map(s, fu);
    lemma_trim_end_map(trim_start(s), fl);
    lemma_trim_end_map(trim_start(s), fu);
    let t = trim(s);
    assert(upper(t.map_values(fl)) =~= upper(t)) by {
        assert forall|i: int| 0 <= i < t.len() implies #[trigger] upper_char(lower_char(t[i])) == upper_char(t[i]) by {
            let u = (t[i] as u32) as int;
            if 65 <= u <= 90 {
                let b = (u + 32) as u8;
                assert(b as int == u + 32);
                assert((b as char) as u32 == b as u32);
            }
        }
    }
    assert(upper(t.map_values(fu)) =~= upper(t)) by {
        assert forall|i: int| 0 <= i < t.len() implies #[trigger] upper_char(upper_char(t[i])) == upper_char(t[i]) by {
            let u = (t[i] as u32) as int;
            if 97 <= u <= 122 {
                let b = (u - 32) as u8;
                assert(b as int == u - 32);
                assert((b as char) as u32 == b as u32);
            }
        }
    }
}

/// The characters of `s` that a terminal shows, reading from outside an escape
/// sequence (`esc` false) or from inside one. An escape sequence runs from ESC up to
/// and including the next `m`.
pub open spec fn shown_from(s: Seq<char>, esc: bool) -> Seq<char>
    decreases s.len(),
{
    if s.len() == 0 {
        seq![]
    } else if esc {
        shown_from(s.drop_first(), s[0] != 'm')
    } else if s[0] == '\x1b' {
        shown_from(s.drop_first(), true)
    } else {
        seq![s[0]] + shown_from(s.drop_first(), false)
    }
}

/// Whether reading `s` from state `esc` ends inside an escape sequence.
pub open spec fn ends_in_escape(s: Seq<char>, esc: bool) -> bool
    decreases s.len(),
{
    if s.len() == 0 {
        esc
    } else if esc {
        ends_in_escape(s.drop_first(), s[0] != 'm')
    } else {
        ends_in_escape(s.drop_first(), s[0] == '\x1b')
    }
}

/// The characters of `s` that a terminal shows: `s` without its escape sequences.
pub open spec fn shown(s: Seq<char>) -> Seq<char> {
    shown_from(s, false)
}

/// A single escape sequence: ESC, then characters other than `m`, then `m`.
pub open spec fn is_escape_sequence(s: Seq<char>) -> bool {
    &&& s.len() >= 2
    &&& s[0] == '\x1b'
    &&& s[s.len() - 1] == 'm'
    &&& forall|i: int| 1 <= i < s.len() - 1 ==> s[i] != 'm'
}

/// Reading `a + b` is reading `a`, then `b` from where `a` left off.
pub proof fn lemma_shown_concat(a: Seq<char>, b: Seq<char>, esc: bool)
    ensures
        shown_from(a + b, esc) == shown_from(a, esc) + shown_from(b, ends_in_escape(a, esc)),
        ends_in_escape(a + b, esc) == ends_in_escape(b, ends_in_escape(a, esc)),
    decreases a.len(),
{
    if a.len() == 0 {
        assert(a + b =~= b);
    } else {
        assert((a + b).drop_first() =~= a.drop_first() + b);
        assert((a + b)[0] == a[0]);
        let next = if esc {
            a[0] != 'm'
        } else {
            a[0] == '\x1b'
        };
        lemma_shown_concat(a.drop_first(), b, next);
        if !esc && a[0] != '\x1b' {
            assert(seq![a[0]] + (shown_from(a.drop_first(), false) + shown_from(
                b,
                ends_in_escape(a.drop_first(), false),
            )) =~= (seq![a[0]] + shown_from(a.drop_first(), false)) + shown_from(
                b,
                ends_in_escape(a.drop_first(), false),
            ));
        }
    }
}

/// Text without an ESC character is shown as it is.
pub proof fn lemma_shown_plain(s: Seq<char>)
    requires
        !s.contains('\x1b'),
    ensures
        shown_from(s, false) == s,
        !ends_in_escape(s, false),
    decreases s.len(),
{
    if s.len() > 0 {
        assert(s[0] != '\x1b');
        assert(!s.drop_first().contains('\x1b')) by {
            if s.drop_first().contains('\x1b') {
                let k = choose|k: int| 0 <= k < s.drop_first().len() && s.drop_first()[k] == '\x1b';
                assert(s[k + 1] == '\x1b');
            }
        }
        lemma_shown_plain(s.drop_first());
        assert(seq![s[0]] + s.drop_first() =~= s);
    }
}

proof fn lemma_escape_tail(t: Seq<char>)
    requires
        t.len() >= 1,
        t[t.len() - 1] == 'm',
        forall|i: int| 0 <= i < t.len() - 1 ==> t[i] != 'm',
    ensures
        shown_from(t, true) == Seq::<char>::empty(),
        !ends_in_escape(t, true),
    decreases t.len(),
{
    if t.len() > 1 {
        assert(t[0] != 'm');
        let r = t.drop_first();
        assert forall|i: int| 0 <= i < r.len() - 1 implies r[i] != 'm' by {
            assert(r[i] == t[i + 1]);
        }
        lemma_escape_tail(r);
    } else {
        let r = t.drop_first();
        assert(r.len() == 0);
        assert(shown_from(r, false) == Seq::<char>::empty());
        assert(!ends_in_escape(r, false));
    }
}

/// An escape sequence shows nothing and ends outside any escape sequence.
pub proof fn lemma_shown_escape(s: Seq<char>)
    requires
        is_escape_sequence(s),
    ensures
        shown_from(s, false) == Seq::<char>::empty(),
        !ends_in_escape(s, false),
{
    let t = s.drop_first();
    assert forall|i: int| 0 <= i < t.len() - 1 implies t[i] != 'm' by {
        assert(t[i] == s[i + 1]);
    }
    assert(t[t.len() - 1] == s[s.len() - 1]);
    lemma_escape_tail(t);
}

/// `v` between two escape sequences is shown as `v` when it holds no ESC.
pub proof fn lemma_shown_wrapped(open: Seq<char>, v: Seq<char>, close: Seq<char>)
    requires
        is_escape_sequence(open),
        is_escape_sequence(close),
        !v.contains('\x1b'),
    ensures
        shown_from(open + v + close, false) == v,
        !ends_in_escape(open + v + close, false),
{
    lemma_shown_escape(open);
    lemma_shown_escape(close);
    lemma_shown_plain(v);
    lemma_shown_concat(open, v, false);
    lemma_shown_concat(open + v, close, false);
    assert(Seq::<char>::empty() + v =~= v);
    assert(v + Seq::<char>::empty() =~= v);
}

/// Padding text without ESC adds no ESC.
pub proof fn lemma_pad_plain(s: Seq<char>, width: nat)
    requires
        !s.contains('\x1b'),
    ensures
        !pad_right(s, width).contains('\x1b'),
        !pad_left(s, width).contains('\x1b'),
        pad_right(s, width).len() == if s.len() < width { width } else { s.len() },
        pad_left(s, width).len() == if s.len() < width { width } else { s.len() },
{
    let k = shortfall(s.len(), width);
    let r = pad_right(s, width);
    let l = pad_left(s, width);
    assert forall|i: int| 0 <= i < r.len() implies r[i] != '\x1b' by {
        if i < s.len() {
            assert(s[i] == r[i]);
        }
    }
    assert forall|i: int| 0 <= i < l.len() implies l[i] != '\x1b' by {
        if i >= k {
            assert(s[i - k] == l[i]);
        }
    }
}

/// Two texts without ESC joined hold no ESC.
pub proof fn lemma_no_escape_concat(a: Seq<char>, b: Seq<char>)
    requires
        !a.contains('\x1b'),
        !b.contains('\x1b'),
    ensures
        !(a + b).contains('\x1b'),
{
    assert forall|i: int| 0 <= i < (a + b).len() implies (a + b)[i] != '\x1b' by {
        if i < a.len() {
            assert((a + b)[i] == a[i]);
        } else {
            assert((a + b)[i] == b[i - a.len()]);
        }
    }
}

/// Decimal digits hold no ESC.
pub proof fn lemma_dec_plain(n: nat)
    ensures
        !dec(n).contains('\x1b'),
    decreases n,
{
    if n >= 10 {
        lemma_dec_plain(n / 10);
        let d = digit(n % 10);
        assert(d != '\x1b');
        assert(dec(n) =~= dec(n / 10) + seq![d]);
        lemma_no_escape_concat(dec(n / 10), seq![d]);
    } else {
        assert(digit(n) != '\x1b');
    }
}

/// Zero-padded decimal digits hold no ESC.
pub proof fn lemma_dec_zero_padded_plain(n: nat, width: nat)
    ensures
        !dec_zero_padded(n, width).contains('\x1b'),
{
    lemma_dec_plain(n);
    let z = repeat('0', shortfall(dec(n).len(), width));
    assert(!z.contains('\x1b'));
    lemma_no_escape_concat(z, dec(n));
}

} // verus!
