//! Descending sort by listing header field.

use vstd::prelude::*;
use vstd::set_lib::{lemma_int_range, lemma_subset_equality, set_int_range};

use crate::columns::{header_text, Column};
use crate::entry::{mode_text, Entry, Timestamp, XfsInfo};
use crate::order::{
    compare_fields, compare_ints, desc_then_asc, fields, ints, lemma_desc_then_asc_flip,
    lemma_desc_then_asc_trans, lex_fields, lex_ints, Order,
};
use crate::text::{
    char_codes, char_codes_of, chars_equal, join_comma, join_strings, join_with, lower_codes,
    lemma_trim_upper_ignores_case, lower, lower_codes_of, push_chars, texts, trim, trim_end,
    trim_start, trimmed_upper, upper,
};

verus! {

/// A column / header we can sort on.
#[derive(Clone, Copy, Debug, PartialEq, Eq, Structural)]
pub enum SortKey {
    Perms,
    Size,
    Mtime,
    Name,
    Nlink,
    User,
    Group,
    Blocks,
    Sparse,
    Ino,
    Dev,
    Atime,
    Ctime,
    Birth,
    Flags,
    Xattrs,
    Xfs,
}

/// A single integer field.
pub open spec fn num(x: int) -> Seq<int> {
    seq![x]
}

/// An optional time: a missing time counts as the oldest.
pub open spec fn time_fields(t: Option<Timestamp>) -> Seq<Seq<int>> {
    match t {
        None => seq![num(0)],
        Some(t) => seq![num(1), num(t.secs as int), num(t.nanos as int)],
    }
}

/// An optional number: a missing number comes before any present one.
pub open spec fn opt_fields(v: Option<u32>) -> Seq<Seq<int>> {
    match v {
        None => seq![num(0)],
        Some(g) => seq![num(1), num(g as int)],
    }
}

/// XFS information: missing comes first, then by extent count, project id,
/// extent-size hint, CoW extent-size hint and the joined flag names (case-sensitive).
pub open spec fn xfs_fields(x: Option<XfsInfo>) -> Seq<Seq<int>> {
    match x {
        None => seq![num(0)],
        Some(x) => seq![
            num(1),
            num(x.nextents as int),
            num(x.projid as int),
            num(x.extsize as int),
            num(x.cowextsize as int),
            char_codes(join_comma(texts(x.xflags@))),
        ],
    }
}

/// The fields that order entries for `key`, compared lexicographically. A text
/// field is its character codes, so texts compare as their UTF-8 bytes do; text
/// fields ignore ASCII case except the mode string (PERMS) and the XFS flag names.
pub open spec fn sort_fields(e: Entry, key: SortKey) -> Seq<Seq<int>> {
    match key {
        SortKey::Perms => seq![char_codes(mode_text(e))],
        SortKey::Size => seq![num(e.size as int)],
        SortKey::Mtime => time_fields(e.mtime),
        SortKey::Name => seq![lower_codes(e.name@)],
        SortKey::Nlink => seq![num(e.nlink as int)],
        SortKey::User => seq![lower_codes(e.user@)],
        SortKey::Group => seq![lower_codes(e.group@)],
        SortKey::Blocks => seq![num(e.blocks as int), num(e.blksize as int)],
        SortKey::Sparse => seq![num(if e.sparse { 1 } else { 0 })],
        SortKey::Ino => seq![num(e.ino as int)] + opt_fields(e.extras.inode_gen),
        SortKey::Dev => seq![
            num(e.dev_major as int),
            num(e.dev_minor as int),
            num(e.rdev_major as int),
            num(e.rdev_minor as int),
        ],
        SortKey::Atime => time_fields(e.atime),
        SortKey::Ctime => seq![num(e.ctime_secs as int)],
        SortKey::Birth => time_fields(e.birth),
        SortKey::Flags => seq![lower_codes(join_comma(texts(e.extras.flags@)))],
        SortKey::Xattrs => seq![
            num(e.extras.xattrs@.len() as int),
            lower_codes(join_comma(texts(e.extras.xattrs@))),
        ],
        SortKey::Xfs => xfs_fields(e.extras.xfs),
    }
}

/// The sort fields for an optional key; with no key there are none.
pub open spec fn key_fields(e: Entry, key: Option<SortKey>) -> Seq<Seq<int>> {
    match key {
        Some(k) => sort_fields(e, k),
        None => seq![],
    }
}

/// The case-insensitive name, which breaks ties.
pub open spec fn name_key(e: Entry) -> Seq<int> {
    lower_codes(e.name@)
}

/// The listing order: by the key's fields descending, ties by name ascending
/// (case-insensitive).
pub open spec fn entry_order(a: Entry, b: Entry, key: Option<SortKey>) -> Order {
    desc_then_asc(key_fields(a, key), name_key(a), key_fields(b, key), name_key(b))
}

/// `p` lists each index below `n` exactly once.
pub open spec fn is_permutation(p: Seq<int>, n: nat) -> bool {
    &&& p.len() == n
    &&& forall|i: int| 0 <= i < n ==> 0 <= #[trigger] p[i] < n
    &&& forall|i: int, j: int| 0 <= i < j < n ==> p[i] != p[j]
}

/// `after` is `before` rearranged by `p` (`after[i] == before[p[i]]`), in listing
/// order, with entries that compare equal kept in the relative order they had before.
pub open spec fn stable_sorted_by(
    before: Seq<Entry>,
    after: Seq<Entry>,
    key: Option<SortKey>,
    p: Seq<int>,
) -> bool {
    &&& is_permutation(p, before.len())
    &&& after.len() == before.len()
    &&& forall|i: int| 0 <= i < after.len() ==> #[trigger] after[i] == before[p[i]]
    &&& forall|i: int, j: int|
        0 <= i < j < after.len() ==> entry_order(#[trigger] after[i], #[trigger] after[j], key)
            != Order::Greater
    &&& forall|i: int, j: int|
        0 <= i < j < after.len() && entry_order(#[trigger] after[i], #[trigger] after[j], key)
            == Order::Equal ==> p[i] < p[j]
}

/// `after` is the stable sort of `before` in listing order.
pub open spec fn is_stable_sort(before: Seq<Entry>, after: Seq<Entry>, key: Option<SortKey>) -> bool {
    exists|p: Seq<int>| stable_sorted_by(before, after, key, p)
}

/// The precomputed comparison data of one entry.
struct Row {
    fields: Vec<Vec<i128>>,
    name: Vec<i128>,
}

impl Row {
    spec fn order(self, other: Row) -> Order {
        desc_then_asc(fields(self.fields@), ints(self.name@), fields(other.fields@), ints(other.name@))
    }

    spec fn describes(self, e: Entry, key: Option<SortKey>) -> bool {
        &&& fields(self.fields@) == key_fields(e, key)
        &&& ints(self.name@) == name_key(e)
    }
}

fn one(x: i128) -> (r: Vec<i128>)
    ensures
        ints(r@) == num(x as int),
{
    let mut r = Vec::new();
    r.push(x);
    assert(ints(r@) =~= num(x as int));
    r
}

fn lowered(s: &str) -> (r: Vec<i128>)
    ensures
        ints(r@) == lower_codes(s@),
{
    let r = lower_codes_of(s);
    assert(ints(r@) =~= lower_codes(s@));
    r
}

fn coded(s: &str) -> (r: Vec<i128>)
    ensures
        ints(r@) == char_codes(s@),
{
    let r = char_codes_of(s);
    assert(ints(r@) =~= char_codes(s@));
    r
}

fn push_time(f: &mut Vec<Vec<i128>>, t: &Option<Timestamp>)
    ensures
        fields(final(f)@) == fields(old(f)@) + time_fields(*t),
{
    match t {
        None => {
            f.push(one(0));
        },
        Some(t) => {
            f.push(one(1));
            f.push(one(t.secs as i128));
            f.push(one(t.nanos as i128));
        },
    }
    assert(fields(f@) =~= fields(old(f)@) + time_fields(*t));
}

fn push_opt(f: &mut Vec<Vec<i128>>, v: Option<u32>)
    ensures
        fields(final(f)@) == fields(old(f)@) + opt_fields(v),
{
    match v {
        None => {
            f.push(one(0));
        },
        Some(g) => {
            f.push(one(1));
            f.push(one(g as i128));
        },
    }
    assert(fields(f@) =~= fields(old(f)@) + opt_fields(v));
}

fn push_xfs(f: &mut Vec<Vec<i128>>, x: &Option<XfsInfo>)
    ensures
        fields(final(f)@) == fields(old(f)@) + xfs_fields(*x),
{
    match x {
        None => {
            f.push(one(0));
        },
        Some(x) => {
            f.push(one(1));
            f.push(one(x.nextents as i128));
            f.push(one(x.projid as i128));
            f.push(one(x.extsize as i128));
            f.push(one(x.cowextsize as i128));
            let joined = join_strings(&x.xflags);
            f.push(coded(joined.as_str()));
        },
    }
    assert(fields(f@) =~= fields(old(f)@) + xfs_fields(*x));
}

/// The sort fields of `e` for `key`.
fn fields_of(e: &Entry, key: SortKey) -> (r: Vec<Vec<i128>>)
    ensures
        fields(r@) == sort_fields(*e, key),
{
    let mut f: Vec<Vec<i128>> = Vec::new();
    match key {
        SortKey::Perms => {
            let m = e.mode_string();
            f.push(coded(m.as_str()));
        },
        SortKey::Size => f.push(one(e.size as i128)),
        SortKey::Mtime => push_time(&mut f, &e.mtime),
        SortKey::Name => f.push(lowered(e.name.as_str())),
        SortKey::Nlink => f.push(one(e.nlink as i128)),
        SortKey::User => f.push(lowered(e.user.as_str())),
        SortKey::Group => f.push(lowered(e.group.as_str())),
        SortKey::Blocks => {
            f.push(one(e.blocks as i128));
            f.push(one(e.blksize as i128));
        },
        SortKey::Sparse => f.push(one(if e.sparse { 1 } else { 0 })),
        SortKey::Ino => {
            f.push(one(e.ino as i128));
            push_opt(&mut f, e.extras.inode_gen);
        },
        SortKey::Dev => {
            f.push(one(e.dev_major as i128));
            f.push(one(e.dev_minor as i128));
            f.push(one(e.rdev_major as i128));
            f.push(one(e.rdev_minor as i128));
        },
        SortKey::Atime => push_time(&mut f, &e.atime),
        SortKey::Ctime => f.push(one(e.ctime_secs as i128)),
        SortKey::Birth => push_time(&mut f, &e.birth),
        SortKey::Flags => {
            let joined = join_strings(&e.extras.flags);
            f.push(lowered(joined.as_str()));
        },
        SortKey::Xattrs => {
            f.push(one(e.extras.xattrs.len() as i128));
            let joined = join_strings(&e.extras.xattrs);
            f.push(lowered(joined.as_str()));
        },
        SortKey::Xfs => push_xfs(&mut f, &e.extras.xfs),
    }
    assert(fields(f@) =~= sort_fields(*e, key));
    f
}

fn row_of(e: &Entry, key: Option<SortKey>) -> (r: Row)
    ensures
        r.describes(*e, key),
{
    let f = match key {
        Some(k) => fields_of(e, k),
        None => {
            let v: Vec<Vec<i128>> = Vec::new();
            assert(fields(v@) =~= key_fields(*e, key));
            v
        },
    };
    Row { fields: f, name: lowered(e.name.as_str()) }
}

fn compare_rows(a: &Row, b: &Row) -> (r: Order)
    ensures
        r == a.order(*b),
{
    match compare_fields(&b.fields, &a.fields) {
        Order::Equal => compare_ints(&a.name, &b.name),
        o => o,
    }
}

proof fn lemma_row_flip(a: Row, b: Row)
    ensures
        a.order(b) == b.order(a).flip(),
{
    lemma_desc_then_asc_flip(fields(a.fields@), ints(a.name@), fields(b.fields@), ints(b.name@));
}

proof fn lemma_row_trans(a: Row, b: Row, c: Row)
    requires
        a.order(b) != Order::Greater,
        b.order(c) != Order::Greater,
    ensures
        a.order(c) != Order::Greater,
{
    lemma_desc_then_asc_trans(
        fields(a.fields@),
        ints(a.name@),
        fields(b.fields@),
        ints(b.name@),
        fields(c.fields@),
        ints(c.name@),
    );
}

spec fn as_ints(v: Seq<usize>) -> Seq<int> {
    v.map_values(|x: usize| x as int)
}

/// The listing order of the rows, as a stable permutation of their indices.
fn sorted_order(rows: &Vec<Row>) -> (order: Vec<usize>)
    ensures
        is_permutation(as_ints(order@), rows@.len()),
        forall|i: int, j: int|
            #![trigger order@[i], order@[j]]
            0 <= i < j < order@.len() ==> rows@[order@[i] as int].order(rows@[order@[j] as int])
                != Order::Greater,
        forall|i: int, j: int|
            #![trigger order@[i], order@[j]]
            0 <= i < j < order@.len() && rows@[order@[i] as int].order(rows@[order@[j] as int])
                == Order::Equal ==> order@[i] < order@[j],
{
    let n = rows.len();
    let mut order: Vec<usize> = Vec::new();
    let mut i: usize = 0;
    while i < n
        invariant
            n == rows@.len(),
            0 <= i <= n,
            order@.len() == i,
            forall|k: int| 0 <= k < i ==> #[trigger] order@[k] < i,
            forall|a: int, b: int| 0 <= a < b < i ==> order@[a] != order@[b],
            forall|a: int, b: int|
                #![trigger order@[a], order@[b]]
                0 <= a < b < i ==> rows@[order@[a] as int].order(rows@[order@[b] as int])
                    != Order::Greater,
            forall|a: int, b: int|
                #![trigger order@[a], order@[b]]
                0 <= a < b < i && rows@[order@[a] as int].order(rows@[order@[b] as int])
                    == Order::Equal ==> order@[a] < order@[b],
        decreases n - i,
    {
        let ghost x = rows@[i as int];
        // Find the first place whose row comes after row `i`.
        let mut lo: usize = 0;
        let mut hi: usize = i;
        while lo < hi
            invariant
                n == rows@.len(),
                i < n,
                x == rows@[i as int],
                0 <= lo <= hi <= i,
                order@.len() == i,
                forall|k: int| 0 <= k < i ==> #[trigger] order@[k] < i,
                forall|a: int, b: int|
                    #![trigger order@[a], order@[b]]
                    0 <= a < b < i ==> rows@[order@[a] as int].order(rows@[order@[b] as int])
                        != Order::Greater,
                forall|k: int|
                    0 <= k < lo ==> rows@[#[trigger] order@[k] as int].order(x) != Order::Greater,
                forall|k: int|
                    hi <= k < i ==> rows@[#[trigger] order@[k] as int].order(x) == Order::Greater,
            decreases hi - lo,
        {
            let mid = lo + (hi - lo) / 2;
            let o = compare_rows(&rows[order[mid]], &rows[i]);
            let ghost m = rows@[order@[mid as int] as int];
            match o {
                Order::Greater => {
                    assert forall|k: int| mid <= k < i implies rows@[#[trigger] order@[k] as int].order(
                        x,
                    ) == Order::Greater by {
                        if k < hi && k != mid {
                            let y = rows@[order@[k] as int];
                            assert(m.order(y) != Order::Greater);
                            lemma_row_flip(y, x);
                            lemma_row_flip(m, x);
                            if y.order(x) != Order::Greater {
                                lemma_row_trans(m, y, x);
                            }
                        }
                    }
                    hi = mid;
                },
                _ => {
                    assert forall|k: int| 0 <= k <= mid implies rows@[#[trigger] order@[k] as int].order(
                        x,
                    ) != Order::Greater by {
                        if k >= lo && k != mid {
                            let y = rows@[order@[k] as int];
                            assert(y.order(m) != Order::Greater);
                            lemma_row_trans(y, m, x);
                        }
                    }
                    lo = mid + 1;
                },
            }
        }
        let ghost before = order@;
        order.insert(lo, i);
        proof {
            assert forall|k: int| 0 <= k < i + 1 implies #[trigger] order@[k] < i + 1 by {
                if k < lo {
                    assert(order@[k] == before[k]);
                } else if k > lo {
                    assert(order@[k] == before[k - 1]);
                }
            }
            assert forall|a: int, b: int|
                #![trigger order@[a], order@[b]]
                0 <= a < b < i + 1 implies rows@[order@[a] as int].order(rows@[order@[b] as int])
                != Order::Greater && (rows@[order@[a] as int].order(rows@[order@[b] as int])
                == Order::Equal ==> order@[a] < order@[b]) && order@[a] != order@[b] by {
                let oa = if a < lo {
                    a
                } else {
                    a - 1
                };
                let ob = if b < lo {
                    b
                } else {
                    b - 1
                };
                if a == lo {
                    assert(order@[a] == i);
                    assert(order@[b] == before[ob]);
                    assert(rows@[before[ob] as int].order(x) == Order::Greater);
                    lemma_row_flip(rows@[before[ob] as int], x);
                } else if b == lo {
                    assert(order@[b] == i);
                    assert(order@[a] == before[oa]);
                    assert(rows@[before[oa] as int].order(x) != Order::Greater);
                } else {
                    assert(order@[a] == before[oa]);
                    assert(order@[b] == before[ob]);
                    assert(oa < ob);
                }
            }
        }
        i = i + 1;
    }
    proof {
        assert forall|k: int| 0 <= k < n implies 0 <= #[trigger] as_ints(order@)[k] < n by {
            assert(order@[k] < n);
        }
        assert forall|a: int, b: int| 0 <= a < b < n implies as_ints(order@)[a] != as_ints(
            order@,
        )[b] by {
            assert(order@[a] != order@[b]);
        }
    }
    order
}

/// Exchanges two elements of a slice.
fn swap_in<T>(s: &mut [T], i: usize, j: usize)
    requires
        i < j < old(s)@.len(),
    ensures
        final(s)@ == old(s)@.update(i as int, old(s)@[j as int]).update(j as int, old(s)@[i as int]),
{
    let (left, right) = s.split_at_mut(j);
    let (_, mid) = left.split_at_mut(i);
    let a = mid.first_mut().unwrap();
    let b = right.first_mut().unwrap();
    core::mem::swap(a, b);
}


/// Rearranges `entries` so that position `k` holds what position `order[k]` held.
fn apply_order(entries: &mut [Entry], order: &Vec<usize>)
    requires
        is_permutation(as_ints(order@), old(entries)@.len()),
    ensures
        final(entries)@.len() == old(entries)@.len(),
        forall|k: int|
            0 <= k < old(entries)@.len() ==> #[trigger] final(entries)@[k] == old(entries)@[order@[k] as int],
{
    let ghost start = entries@;
    let n = entries.len();
    // at[k]: the starting position of what position k now holds; loc: the inverse.
    let mut at: Vec<usize> = Vec::new();
    let mut loc: Vec<usize> = Vec::new();
    let mut k: usize = 0;
    while k < n
        invariant
            k <= n,
            at@.len() == k,
            loc@.len() == k,
            forall|m: int| 0 <= m < k ==> #[trigger] at@[m] == m,
            forall|m: int| 0 <= m < k ==> #[trigger] loc@[m] == m,
        decreases n - k,
    {
        at.push(k);
        loc.push(k);
        k = k + 1;
    }
    let mut pos: usize = 0;
    while pos < n
        invariant
            n == entries@.len(),
            n == start.len(),
            is_permutation(as_ints(order@), n as nat),
            at@.len() == n,
            loc@.len() == n,
            0 <= pos <= n,
            forall|m: int| 0 <= m < n ==> #[trigger] at@[m] < n,
            forall|m: int| 0 <= m < n ==> #[trigger] loc@[m] < n,
            forall|m: int| 0 <= m < n ==> #[trigger] loc@[at@[m] as int] == m,
            forall|m: int| 0 <= m < n ==> #[trigger] at@[loc@[m] as int] == m,
            forall|m: int| 0 <= m < n ==> #[trigger] entries@[m] == start[at@[m] as int],
            forall|m: int| 0 <= m < pos ==> #[trigger] at@[m] == order@[m],
        decreases n - pos,
    {
        let t = order[pos];
        assert(as_ints(order@)[pos as int] == t);
        let p = loc[t];
        if p != pos {
            assert(p > pos) by {
                if p < pos {
                    assert(at@[p as int] == order@[p as int]);
                    assert(as_ints(order@)[p as int] == as_ints(order@)[pos as int]);
                }
            }
            let o = at[pos];
            let ghost at0 = at@;
            let ghost loc0 = loc@;
            let ghost e0 = entries@;
            assert(at0[p as int] == t);
            assert(loc0[o as int] == pos);
            swap_in(entries, pos, p);
            at.set(pos, t);
            at.set(p, o);
            loc.set(t, pos);
            loc.set(o, p);
            assert forall|m: int| 0 <= m < n implies #[trigger] loc@[at@[m] as int] == m by {
                if m != pos && m != p {
                    assert(at@[m] == at0[m]);
                    assert(loc0[at0[m] as int] == m);
                    assert(at0[m] != t);
                    assert(at0[m] != o);
                }
            }
            assert forall|m: int| 0 <= m < n implies #[trigger] at@[loc@[m] as int] == m by {
                if m != t as int && m != o as int {
                    assert(loc@[m] == loc0[m]);
                    assert(at0[loc0[m] as int] == m);
                    assert(loc0[m] != pos);
                    assert(loc0[m] != p);
                }
            }
            assert forall|m: int| 0 <= m < n implies #[trigger] entries@[m] == start[at@[m] as int] by {
                if m != pos && m != p {
                    assert(entries@[m] == e0[m]);
                }
            }
        }
        pos = pos + 1;
    }
}

/// Sorts `entries` stably in listing order for `key`.
fn stable_sort(entries: &mut [Entry], key: Option<SortKey>)
    ensures
        is_stable_sort(old(entries)@, final(entries)@, key),
{
    let ghost start = entries@;
    let n = entries.len();
    let mut rows: Vec<Row> = Vec::new();
    let mut i: usize = 0;
    while i < n
        invariant
            n == entries@.len(),
            entries@ == start,
            i <= n,
            rows@.len() == i,
            forall|k: int| 0 <= k < i ==> #[trigger] rows@[k].describes(start[k], key),
        decreases n - i,
    {
        rows.push(row_of(&entries[i], key));
        i = i + 1;
    }
    let order = sorted_order(&rows);
    apply_order(entries, &order);
    proof {
        let p = as_ints(order@);
        let after = entries@;
        assert forall|a: int, b: int| 0 <= a < b < after.len() implies entry_order(
            #[trigger] after[a],
            #[trigger] after[b],
            key,
        ) != Order::Greater && (entry_order(after[a], after[b], key) == Order::Equal ==> p[a]
            < p[b]) by {
            assert(p[a] == order@[a] as int);
            assert(p[b] == order@[b] as int);
            assert(after[a] == start[order@[a] as int]);
            assert(after[b] == start[order@[b] as int]);
            assert(rows@[order@[a] as int].describes(start[order@[a] as int], key));
            assert(rows@[order@[b] as int].describes(start[order@[b] as int], key));
        }
        assert(stable_sorted_by(start, after, key, p));
    }
}

/// The header-style names, in the order they are offered.
pub open spec fn key_names() -> Seq<Seq<char>> {
    seq![
        "PERMS"@,
        "SIZE"@,
        "MTIME"@,
        "NAME"@,
        "N"@,
        "USER"@,
        "GROUP"@,
        "BLOCKS"@,
        "S"@,
        "INO:IGEN"@,
        "DEV"@,
        "ATIME"@,
        "CTIME"@,
        "BIRTH"@,
        "FLAGS"@,
        "XATTRS"@,
        "XFS"@,
    ]
}

/// The key a (trimmed, upper-cased) header name or alias stands for.
pub open spec fn key_for_name(u: Seq<char>) -> Option<SortKey> {
    if u == "PERMS"@ || u == "MODE"@ || u == "PERMISSIONS"@ {
        Some(SortKey::Perms)
    } else if u == "SIZE"@ {
        Some(SortKey::Size)
    } else if u == "MTIME"@ || u == "MODIFIED"@ {
        Some(SortKey::Mtime)
    } else if u == "NAME"@ {
        Some(SortKey::Name)
    } else if u == "N"@ || u == "NLINK"@ || u == "LINKS"@ {
        Some(SortKey::Nlink)
    } else if u == "USER"@ || u == "OWNER"@ || u == "UID"@ {
        Some(SortKey::User)
    } else if u == "GROUP"@ || u == "GID"@ {
        Some(SortKey::Group)
    } else if u == "BLOCKS"@ || u == "ALLOC"@ {
        Some(SortKey::Blocks)
    } else if u == "S"@ || u == "SPARSE"@ {
        Some(SortKey::Sparse)
    } else if u == "INO"@ || u == "INODE"@ || u == "INO:IGEN"@ || u == "IGEN"@ {
        Some(SortKey::Ino)
    } else if u == "DEV"@ || u == "DEVICE"@ {
        Some(SortKey::Dev)
    } else if u == "ATIME"@ || u == "ACCESSED"@ {
        Some(SortKey::Atime)
    } else if u == "CTIME"@ || u == "CHANGED"@ {
        Some(SortKey::Ctime)
    } else if u == "BIRTH"@ || u == "BTIME"@ || u == "CREATED"@ {
        Some(SortKey::Birth)
    } else if u == "FLAGS"@ || u == "FL"@ {
        Some(SortKey::Flags)
    } else if u == "XATTRS"@ || u == "XA"@ || u == "XATTR"@ {
        Some(SortKey::Xattrs)
    } else if u == "XFS"@ {
        Some(SortKey::Xfs)
    } else {
        None
    }
}

/// The names offered to the user, separated by ", ".
pub open spec fn names_list() -> Seq<char> {
    join_with(key_names(), ", "@)
}

/// The error for a field name `u` that names no key.
pub open spec fn unknown_field_message(u: Seq<char>) -> Seq<char> {
    "unknown sort field '"@ + u + "' (try: "@ + names_list() + ")"@
}

/// The header name `s` stands for, after trimming white space and upper-casing.
pub open spec fn parsed_key(s: Seq<char>) -> Option<SortKey> {
    key_for_name(upper(trim(s)))
}

/// Appends the offered names, separated by ", ".
fn push_names(out: &mut String)
    ensures
        final(out)@ == old(out)@ + names_list(),
{
    let ghost start = out@;
    let names = SortKey::names();
    let n = names.len();
    let ghost all = key_names();
    let mut i: usize = 0;
    while i < n
        invariant
            n == names@.len(),
            n == all.len(),
            all == key_names(),
            forall|k: int| 0 <= k < names@.len() ==> (#[trigger] names@[k])@ == all[k],
            i <= n,
            out@ == start + join_with(all.take(i as int), ", "@),
        decreases n - i,
    {
        assert(all.take(i + 1).drop_last() =~= all.take(i as int));
        if i > 0 {
            out.append(", ");
        } else {
            assert(all.take(0) =~= Seq::<Seq<char>>::empty());
        }
        out.append(names[i]);
        i = i + 1;
    }
    assert(all.take(n as int) =~= all);
}

impl SortKey {
    /// Parse a header name (case-insensitive). Accepts common aliases.
    pub fn parse(s: &str) -> (r: Result<SortKey, String>)
        ensures
            match parsed_key(s@) {
                Some(k) => r == Ok::<SortKey, String>(k),
                None => r matches Err(m) && m@ == unknown_field_message(upper(trim(s@))),
            },
    {
        let u = trimmed_upper(s);
        if chars_equal(&u, "PERMS") || chars_equal(&u, "MODE") || chars_equal(&u, "PERMISSIONS") {
            Ok(SortKey::Perms)
        } else if chars_equal(&u, "SIZE") {
            Ok(SortKey::Size)
        } else if chars_equal(&u, "MTIME") || chars_equal(&u, "MODIFIED") {
            Ok(SortKey::Mtime)
        } else if chars_equal(&u, "NAME") {
            Ok(SortKey::Name)
        } else if chars_equal(&u, "N") || chars_equal(&u, "NLINK") || chars_equal(&u, "LINKS") {
            Ok(SortKey::Nlink)
        } else if chars_equal(&u, "USER") || chars_equal(&u, "OWNER") || chars_equal(&u, "UID") {
            Ok(SortKey::User)
        } else if chars_equal(&u, "GROUP") || chars_equal(&u, "GID") {
            Ok(SortKey::Group)
        } else if chars_equal(&u, "BLOCKS") || chars_equal(&u, "ALLOC") {
            Ok(SortKey::Blocks)
        } else if chars_equal(&u, "S") || chars_equal(&u, "SPARSE") {
            Ok(SortKey::Sparse)
        } else if chars_equal(&u, "INO") || chars_equal(&u, "INODE") || chars_equal(&u, "INO:IGEN")
            || chars_equal(&u, "IGEN") {
            Ok(SortKey::Ino)
        } else if chars_equal(&u, "DEV") || chars_equal(&u, "DEVICE") {
            Ok(SortKey::Dev)
        } else if chars_equal(&u, "ATIME") || chars_equal(&u, "ACCESSED") {
            Ok(SortKey::Atime)
        } else if chars_equal(&u, "CTIME") || chars_equal(&u, "CHANGED") {
            Ok(SortKey::Ctime)
        } else if chars_equal(&u, "BIRTH") || chars_equal(&u, "BTIME") || chars_equal(&u, "CREATED") {
            Ok(SortKey::Birth)
        } else if chars_equal(&u, "FLAGS") || chars_equal(&u, "FL") {
            Ok(SortKey::Flags)
        } else if chars_equal(&u, "XATTRS") || chars_equal(&u, "XA") || chars_equal(&u, "XATTR") {
            Ok(SortKey::Xattrs)
        } else if chars_equal(&u, "XFS") {
            Ok(SortKey::Xfs)
        } else {
            let mut m = String::new();
            m.append("unknown sort field '");
            push_chars(&mut m, &u);
            m.append("' (try: ");
            push_names(&mut m);
            m.append(")");
            Err(m)
        }
    }

    /// Header-style names for help / error messages.
    pub fn names() -> (r: &'static [&'static str])
        ensures
            r@.len() == key_names().len(),
            forall|i: int| 0 <= i < r@.len() ==> (#[trigger] r@[i])@ == key_names()[i],
    {
        &[
            "PERMS", "SIZE", "MTIME", "NAME", "N", "USER", "GROUP", "BLOCKS", "S", "INO:IGEN",
            "DEV", "ATIME", "CTIME", "BIRTH", "FLAGS", "XATTRS", "XFS",
        ]
    }

    /// Minimum collection detail needed to sort meaningfully.
    /// 0 = basic stat, 1 = portable extras, 2 = + XFS.
    pub open spec fn min_detail_spec(self) -> u8 {
        match self {
            SortKey::Perms | SortKey::Size | SortKey::Mtime | SortKey::Name => 0u8,
            SortKey::Xfs => 2u8,
            _ => 1u8,
        }
    }

    /// Minimum collection detail needed to sort meaningfully.
    /// 0 = basic stat, 1 = portable extras, 2 = + XFS.
    pub fn min_detail(self) -> (r: u8)
        ensures
            r == self.min_detail_spec(),
    {
        match self {
            SortKey::Perms | SortKey::Size | SortKey::Mtime | SortKey::Name => 0,
            SortKey::Xfs => 2,
            _ => 1,
        }
    }
}

/// Sort `entries` by `key` in **descending** order.
/// Ties break on name ascending (case-insensitive).
pub fn sort_entries(entries: &mut [Entry], key: SortKey)
    ensures
        is_stable_sort(old(entries)@, final(entries)@, Some(key)),
{
    stable_sort(entries, Some(key));
}

/// Sort `entries` by name ascending (case-insensitive); names that differ only in
/// case keep the order they had.
pub fn sort_by_name(entries: &mut [Entry])
    ensures
        is_stable_sort(old(entries)@, final(entries)@, None),
{
    stable_sort(entries, None);
}


/// Exchanging two entries flips how they compare in listing order.
pub proof fn lemma_entry_order_flip(a: Entry, b: Entry, key: Option<SortKey>)
    ensures
        entry_order(a, b, key) == entry_order(b, a, key).flip(),
{
    lemma_desc_then_asc_flip(key_fields(a, key), name_key(a), key_fields(b, key), name_key(b));
}

/// Listing order is transitive.
pub proof fn lemma_entry_order_trans(a: Entry, b: Entry, c: Entry, key: Option<SortKey>)
    requires
        entry_order(a, b, key) != Order::Greater,
        entry_order(b, c, key) != Order::Greater,
    ensures
        entry_order(a, c, key) != Order::Greater,
{
    lemma_desc_then_asc_trans(
        key_fields(a, key),
        name_key(a),
        key_fields(b, key),
        name_key(b),
        key_fields(c, key),
        name_key(c),
    );
}

/// A sorted listing runs from the largest key fields to the smallest, and entries
/// with equal key fields run from A to Z by name, ignoring case.
pub proof fn lemma_sorted_descending(before: Seq<Entry>, after: Seq<Entry>, key: SortKey)
    requires
        is_stable_sort(before, after, Some(key)),
    ensures
        forall|i: int, j: int|
            0 <= i < j < after.len() ==> lex_fields(
                sort_fields(#[trigger] after[j], key),
                sort_fields(#[trigger] after[i], key),
            ) != Order::Greater,
        forall|i: int, j: int|
            0 <= i < j < after.len() && lex_fields(
                sort_fields(#[trigger] after[j], key),
                sort_fields(#[trigger] after[i], key),
            ) == Order::Equal ==> lex_ints(name_key(after[i]), name_key(after[j]))
                != Order::Greater,
{
    let p = choose|p: Seq<int>| stable_sorted_by(before, after, Some(key), p);
    assert forall|i: int, j: int| 0 <= i < j < after.len() implies lex_fields(
        sort_fields(#[trigger] after[j], key),
        sort_fields(#[trigger] after[i], key),
    ) != Order::Greater by {
        assert(entry_order(after[i], after[j], Some(key)) != Order::Greater);
    }
    assert forall|i: int, j: int|
        0 <= i < j < after.len() && lex_fields(
            sort_fields(#[trigger] after[j], key),
            sort_fields(#[trigger] after[i], key),
        ) == Order::Equal implies lex_ints(name_key(after[i]), name_key(after[j]))
        != Order::Greater by {
        assert(entry_order(after[i], after[j], Some(key)) != Order::Greater);
    }
}


/// The keys in the order their names are offered.
pub open spec fn all_keys() -> Seq<SortKey> {
    seq![
        SortKey::Perms,
        SortKey::Size,
        SortKey::Mtime,
        SortKey::Name,
        SortKey::Nlink,
        SortKey::User,
        SortKey::Group,
        SortKey::Blocks,
        SortKey::Sparse,
        SortKey::Ino,
        SortKey::Dev,
        SortKey::Atime,
        SortKey::Ctime,
        SortKey::Birth,
        SortKey::Flags,
        SortKey::Xattrs,
        SortKey::Xfs,
    ]
}

proof fn lemma_plain_name(u: Seq<char>)
    requires
        forall|i: int| 0 <= i < u.len() ==> 65 <= (#[trigger] u[i] as u32) <= 90 || u[i] == ':',
        u.len() > 0,
    ensures
        upper(trim(u)) == u,
{
    assert(trim_start(u) == u);
    assert(trim_end(u) == u);
    assert(upper(u) =~= u);
}

/// Every offered name parses back to its key, the `i`-th name to the `i`-th key.
pub proof fn lemma_names_parse()
    ensures
        key_names().len() == all_keys().len(),
        forall|i: int| 0 <= i < key_names().len() ==> parsed_key(#[trigger] key_names()[i]) == Some(all_keys()[i]),
{
    reveal_strlit("PERMS");
    reveal_strlit("MODE");
    reveal_strlit("PERMISSIONS");
    reveal_strlit("SIZE");
    reveal_strlit("MTIME");
    reveal_strlit("MODIFIED");
    reveal_strlit("NAME");
    reveal_strlit("N");
    reveal_strlit("NLINK");
    reveal_strlit("LINKS");
    reveal_strlit("USER");
    reveal_strlit("OWNER");
    reveal_strlit("UID");
    reveal_strlit("GROUP");
    reveal_strlit("GID");
    reveal_strlit("BLOCKS");
    reveal_strlit("ALLOC");
    reveal_strlit("S");
    reveal_strlit("SPARSE");
    reveal_strlit("INO");
    reveal_strlit("INODE");
    reveal_strlit("INO:IGEN");
    reveal_strlit("IGEN");
    reveal_strlit("DEV");
    reveal_strlit("DEVICE");
    reveal_strlit("ATIME");
    reveal_strlit("ACCESSED");
    reveal_strlit("CTIME");
    reveal_strlit("CHANGED");
    reveal_strlit("BIRTH");
    reveal_strlit("BTIME");
    reveal_strlit("CREATED");
    reveal_strlit("FLAGS");
    reveal_strlit("FL");
    reveal_strlit("XATTRS");
    reveal_strlit("XA");
    reveal_strlit("XATTR");
    reveal_strlit("XFS");
    lemma_plain_name("PERMS"@);
    lemma_plain_name("SIZE"@);
    lemma_plain_name("MTIME"@);
    lemma_plain_name("NAME"@);
    lemma_plain_name("N"@);
    lemma_plain_name("USER"@);
    lemma_plain_name("GROUP"@);
    lemma_plain_name("BLOCKS"@);
    lemma_plain_name("S"@);
    lemma_plain_name("INO:IGEN"@);
    lemma_plain_name("DEV"@);
    lemma_plain_name("ATIME"@);
    lemma_plain_name("CTIME"@);
    lemma_plain_name("BIRTH"@);
    lemma_plain_name("FLAGS"@);
    lemma_plain_name("XATTRS"@);
    lemma_plain_name("XFS"@);
    assert forall|i: int| 0 <= i < key_names().len() implies parsed_key(#[trigger] key_names()[i]) == Some(all_keys()[i]) by {
        if i == 0 { assert(parsed_key("PERMS"@) == Some(all_keys()[0])); }
        if i == 1 { assert(parsed_key("SIZE"@) == Some(all_keys()[1])); }
        if i == 2 { assert(parsed_key("MTIME"@) == Some(all_keys()[2])); }
        if i == 3 { assert(parsed_key("NAME"@) == Some(all_keys()[3])); }
        if i == 4 { assert(parsed_key("N"@) == Some(all_keys()[4])); }
        if i == 5 { assert(parsed_key("USER"@) == Some(all_keys()[5])); }
        if i == 6 { assert(parsed_key("GROUP"@) == Some(all_keys()[6])); }
        if i == 7 { assert(parsed_key("BLOCKS"@) == Some(all_keys()[7])); }
        if i == 8 { assert(parsed_key("S"@) == Some(all_keys()[8])); }
        if i == 9 { assert(parsed_key("INO:IGEN"@) == Some(all_keys()[9])); }
        if i == 10 { assert(parsed_key("DEV"@) == Some(all_keys()[10])); }
        if i == 11 { assert(parsed_key("ATIME"@) == Some(all_keys()[11])); }
        if i == 12 { assert(parsed_key("CTIME"@) == Some(all_keys()[12])); }
        if i == 13 { assert(parsed_key("BIRTH"@) == Some(all_keys()[13])); }
        if i == 14 { assert(parsed_key("FLAGS"@) == Some(all_keys()[14])); }
        if i == 15 { assert(parsed_key("XATTRS"@) == Some(all_keys()[15])); }
        if i == 16 { assert(parsed_key("XFS"@) == Some(all_keys()[16])); }
    }
}


/// Header names are case-insensitive: a name, its lower-cased and its upper-cased
/// forms name the same key, and an unknown name is reported the same way.
pub proof fn lemma_parse_ignores_case(s: Seq<char>)
    ensures
        parsed_key(lower(s)) == parsed_key(s),
        parsed_key(upper(s)) == parsed_key(s),
        upper(trim(lower(s))) == upper(trim(s)),
        upper(trim(upper(s))) == upper(trim(s)),
{
    lemma_trim_upper_ignores_case(s);
}


/// A permutation of the indices below `n` lists every one of them.
proof fn lemma_permutation_onto(p: Seq<int>, n: nat, k: int)
    requires
        is_permutation(p, n),
        0 <= k < n,
    ensures
        exists|i: int| 0 <= i < n && p[i] == k,
{
    assert(p.no_duplicates()) by {
        assert forall|i: int, j: int| 0 <= i < p.len() && 0 <= j < p.len() && i != j implies p[i]
            != p[j] by {
            if i > j {
                assert(p[j] != p[i]);
            }
        }
    }
    p.unique_seq_to_set();
    lemma_int_range(0, n as int);
    assert(p.to_set().subset_of(set_int_range(0, n as int))) by {
        assert forall|x: int| p.to_set().contains(x) implies set_int_range(0, n as int).contains(x) by {
            let i = choose|i: int| 0 <= i < p.len() && p[i] == x;
            assert(0 <= p[i] < n);
        }
    }
    p.lemma_cardinality_of_set();
    lemma_subset_equality(p.to_set(), set_int_range(0, n as int));
    assert(set_int_range(0, n as int).contains(k));
    assert(p.to_set().contains(k));
    assert(p.contains(k));
}

proof fn lemma_orders_agree(
    before: Seq<Entry>,
    a1: Seq<Entry>,
    a2: Seq<Entry>,
    key: Option<SortKey>,
    p1: Seq<int>,
    p2: Seq<int>,
    m: int,
)
    requires
        stable_sorted_by(before, a1, key, p1),
        stable_sorted_by(before, a2, key, p2),
        0 <= m <= before.len(),
    ensures
        forall|i: int| 0 <= i < m ==> p1[i] == p2[i],
    decreases m,
{
    if m > 0 {
        lemma_orders_agree(before, a1, a2, key, p1, p2, m - 1);
        let n = before.len();
        let i = m - 1;
        assert(0 <= p1[i] < n && 0 <= p2[i] < n);
        lemma_permutation_onto(p1, n, p2[i]);
        lemma_permutation_onto(p2, n, p1[i]);
        let i1 = choose|j: int| 0 <= j < n && p1[j] == p2[i];
        let i2 = choose|j: int| 0 <= j < n && p2[j] == p1[i];
        if p1[i] != p2[i] {
            if i1 < i {
                assert(p1[i1] == p2[i1]);
                assert(p2[i1] != p2[i]);
            }
            if i2 < i {
                assert(p2[i2] == p1[i2]);
                assert(p1[i2] != p1[i]);
            }
            assert(i1 > i && i2 > i);
            let b1 = before[p1[i]];
            let b2 = before[p2[i]];
            assert(a1[i] == b1 && a1[i1] == b2);
            assert(a2[i] == b2 && a2[i2] == b1);
            assert(entry_order(a1[i], a1[i1], key) != Order::Greater);
            assert(entry_order(a2[i], a2[i2], key) != Order::Greater);
            lemma_entry_order_flip(b1, b2, key);
            assert(entry_order(b1, b2, key) == Order::Equal);
            assert(p1[i] < p1[i1]);
            assert(p2[i] < p2[i2]);
        }
    }
}

/// The stable sort of a listing is unique: any two stable sorts of the same
/// entries in the same order are equal. So `sort_entries` and `sort_by_name` have
/// exactly one possible result.
pub proof fn lemma_stable_sort_unique(
    before: Seq<Entry>,
    a1: Seq<Entry>,
    a2: Seq<Entry>,
    key: Option<SortKey>,
)
    requires
        is_stable_sort(before, a1, key),
        is_stable_sort(before, a2, key),
    ensures
        a1 == a2,
{
    let p1 = choose|p: Seq<int>| stable_sorted_by(before, a1, key, p);
    let p2 = choose|p: Seq<int>| stable_sorted_by(before, a2, key, p);
    lemma_orders_agree(before, a1, a2, key, p1, p2, before.len() as int);
    assert forall|i: int| 0 <= i < a1.len() implies a1[i] == a2[i] by {
        assert(a1[i] == before[p1[i]]);
        assert(a2[i] == before[p2[i]]);
    }
    assert(a1 =~= a2);
}


/// Sorting a sorted listing again by the same key leaves it unchanged.
pub proof fn lemma_sort_idempotent(
    before: Seq<Entry>,
    after: Seq<Entry>,
    again: Seq<Entry>,
    key: Option<SortKey>,
)
    requires
        is_stable_sort(before, after, key),
        is_stable_sort(after, again, key),
    ensures
        again == after,
{
    let id = Seq::new(after.len(), |i: int| i);
    assert(stable_sorted_by(after, after, key, id));
    lemma_stable_sort_unique(after, after, again, key);
}

/// A point in time as nanoseconds since the epoch.
pub open spec fn instant(t: Timestamp) -> int {
    t.secs * 1_000_000_000 + t.nanos
}

/// Whether time `a` is later than time `b`; a missing time is earlier than any
/// present one.
pub open spec fn later_time(a: Option<Timestamp>, b: Option<Timestamp>) -> bool {
    match (a, b) {
        (Some(x), Some(y)) => instant(x) > instant(y),
        (Some(_), None) => true,
        _ => false,
    }
}

/// The time an entry is sorted by under a time key (CTIME is whole seconds).
pub open spec fn key_time(e: Entry, key: SortKey) -> Option<Timestamp> {
    match key {
        SortKey::Mtime => e.mtime,
        SortKey::Atime => e.atime,
        SortKey::Birth => e.birth,
        _ => Some(Timestamp { secs: e.ctime_secs, nanos: 0 }),
    }
}

/// Whether a key sorts by a time.
pub open spec fn is_time_key(key: SortKey) -> bool {
    key == SortKey::Mtime || key == SortKey::Atime || key == SortKey::Birth || key == SortKey::Ctime
}

/// Whether a time's nanoseconds lie within its second.
pub open spec fn valid_time(t: Option<Timestamp>) -> bool {
    t matches Some(x) ==> x.nanos < 1_000_000_000
}

proof fn lemma_later_time_first(a: Entry, b: Entry, key: SortKey)
    requires
        is_time_key(key),
        valid_time(key_time(a, key)),
        valid_time(key_time(b, key)),
        later_time(key_time(a, key), key_time(b, key)),
    ensures
        entry_order(a, b, Some(key)) == Order::Less,
{
    reveal_with_fuel(lex_fields, 4);
    reveal_with_fuel(lex_ints, 3);
    let fa = key_fields(a, Some(key));
    let fb = key_fields(b, Some(key));
    if key == SortKey::Ctime {
        assert(b.ctime_secs < a.ctime_secs);
        assert(lex_ints(fb[0], fa[0]) == Order::Less);
        assert(lex_fields(fb, fa) == Order::Less);
    } else {
        let ta = key_time(a, key);
        let tb = key_time(b, key);
        assert(fa == time_fields(ta));
        assert(fb == time_fields(tb));
        match tb {
            None => {
                assert(lex_ints(fb[0], fa[0]) == Order::Less);
            },
            Some(y) => {
                let x = ta.unwrap();
                assert(lex_ints(fb[0], fa[0]) == Order::Equal);
                assert(fb.drop_first() =~= seq![num(y.secs as int), num(y.nanos as int)]);
                assert(fa.drop_first() =~= seq![num(x.secs as int), num(x.nanos as int)]);
                if y.secs == x.secs {
                    assert(y.nanos < x.nanos);
                    assert(fb.drop_first().drop_first() =~= seq![num(y.nanos as int)]);
                    assert(fa.drop_first().drop_first() =~= seq![num(x.nanos as int)]);
                } else {
                    assert(y.secs < x.secs);
                }
            },
        }
        assert(lex_fields(fb, fa) == Order::Less);
    }
}

/// Sorting by a time (MTIME, ATIME, CTIME, BIRTH) lists later times first: no
/// entry comes after one whose time is earlier than its own.
pub proof fn lemma_time_sort_newest_first(before: Seq<Entry>, after: Seq<Entry>, key: SortKey)
    requires
        is_stable_sort(before, after, Some(key)),
        is_time_key(key),
        forall|k: int| 0 <= k < before.len() ==> valid_time(#[trigger] key_time(before[k], key)),
    ensures
        forall|i: int, j: int|
            0 <= i < j < after.len() ==> !later_time(
                key_time(#[trigger] after[j], key),
                key_time(#[trigger] after[i], key),
            ),
{
    let p = choose|p: Seq<int>| stable_sorted_by(before, after, Some(key), p);
    assert forall|i: int, j: int| 0 <= i < j < after.len() implies !later_time(
        key_time(#[trigger] after[j], key),
        key_time(#[trigger] after[i], key),
    ) by {
        assert(after[i] == before[p[i]]);
        assert(after[j] == before[p[j]]);
        assert(valid_time(key_time(before[p[i]], key)));
        assert(valid_time(key_time(before[p[j]], key)));
        if later_time(key_time(after[j], key), key_time(after[i], key)) {
            lemma_later_time_first(after[j], after[i], key);
            lemma_entry_order_flip(after[i], after[j], Some(key));
            assert(entry_order(after[i], after[j], Some(key)) != Order::Greater);
        }
    }
}

/// The number a numeric key sorts by first: the size, the link count, the inode
/// number, the allocated blocks, the device major number, the sparse flag (1 when
/// sparse) or the number of extended attributes.
pub open spec fn key_number(e: Entry, key: SortKey) -> int {
    match key {
        SortKey::Size => e.size as int,
        SortKey::Nlink => e.nlink as int,
        SortKey::Ino => e.ino as int,
        SortKey::Blocks => e.blocks as int,
        SortKey::Dev => e.dev_major as int,
        SortKey::Sparse => if e.sparse { 1 } else { 0 },
        _ => e.extras.xattrs@.len() as int,
    }
}

/// Whether a key sorts by a number first.
pub open spec fn is_numeric_key(key: SortKey) -> bool {
    key == SortKey::Size || key == SortKey::Nlink || key == SortKey::Ino || key == SortKey::Blocks
        || key == SortKey::Dev || key == SortKey::Sparse || key == SortKey::Xattrs
}

proof fn lemma_larger_number_first(a: Entry, b: Entry, key: SortKey)
    requires
        is_numeric_key(key),
        key_number(a, key) > key_number(b, key),
    ensures
        entry_order(a, b, Some(key)) == Order::Less,
{
    reveal_with_fuel(lex_fields, 2);
    reveal_with_fuel(lex_ints, 2);
    let fa = key_fields(a, Some(key));
    let fb = key_fields(b, Some(key));
    assert(fa[0] == num(key_number(a, key)));
    assert(fb[0] == num(key_number(b, key)));
    assert(lex_ints(fb[0], fa[0]) == Order::Less);
}

/// Sorting by a numeric key (SIZE, N, INO:IGEN, BLOCKS, DEV, S, XATTRS) lists larger
/// numbers first: no entry comes after one with a smaller number.
pub proof fn lemma_numeric_sort_largest_first(before: Seq<Entry>, after: Seq<Entry>, key: SortKey)
    requires
        is_stable_sort(before, after, Some(key)),
        is_numeric_key(key),
    ensures
        forall|i: int, j: int|
            0 <= i < j < after.len() ==> key_number(#[trigger] after[i], key) >= key_number(
                #[trigger] after[j],
                key,
            ),
{
    let p = choose|p: Seq<int>| stable_sorted_by(before, after, Some(key), p);
    assert forall|i: int, j: int| 0 <= i < j < after.len() implies key_number(
        #[trigger] after[i],
        key,
    ) >= key_number(#[trigger] after[j], key) by {
        if key_number(after[j], key) > key_number(after[i], key) {
            lemma_larger_number_first(after[j], after[i], key);
            lemma_entry_order_flip(after[i], after[j], Some(key));
            assert(entry_order(after[i], after[j], Some(key)) != Order::Greater);
        }
    }
}

/// The text a text key sorts by, as character codes: the name, user or group with
/// ASCII letters folded to lower case, or the mode string as it is.
pub open spec fn key_text(e: Entry, key: SortKey) -> Seq<int> {
    match key {
        SortKey::Name => lower_codes(e.name@),
        SortKey::User => lower_codes(e.user@),
        SortKey::Group => lower_codes(e.group@),
        _ => char_codes(mode_text(e)),
    }
}

/// Whether a key sorts by a text.
pub open spec fn is_text_key(key: SortKey) -> bool {
    key == SortKey::Name || key == SortKey::User || key == SortKey::Group || key == SortKey::Perms
}

/// Sorting by a text key (NAME, USER, GROUP, PERMS) lists texts from Z to A:
/// no entry comes after one whose text is smaller, character code by character
/// code.
pub proof fn lemma_text_sort_descending(before: Seq<Entry>, after: Seq<Entry>, key: SortKey)
    requires
        is_stable_sort(before, after, Some(key)),
        is_text_key(key),
    ensures
        forall|i: int, j: int|
            0 <= i < j < after.len() ==> lex_ints(
                key_text(#[trigger] after[j], key),
                key_text(#[trigger] after[i], key),
            ) != Order::Greater,
{
    lemma_sorted_descending(before, after, key);
    assert forall|i: int, j: int| 0 <= i < j < after.len() implies lex_ints(
        key_text(#[trigger] after[j], key),
        key_text(#[trigger] after[i], key),
    ) != Order::Greater by {
        let fa = sort_fields(after[i], key);
        let fb = sort_fields(after[j], key);
        assert(fa == seq![key_text(after[i], key)]);
        assert(fb == seq![key_text(after[j], key)]);
        reveal_with_fuel(lex_fields, 2);
        assert(lex_fields(fb, fa) != Order::Greater);
    }
}

/// The key that sorts by what column `c` shows.
pub open spec fn column_key(c: Column) -> SortKey {
    match c {
        Column::Perms => SortKey::Perms,
        Column::Nlink => SortKey::Nlink,
        Column::User => SortKey::User,
        Column::Group => SortKey::Group,
        Column::Size => SortKey::Size,
        Column::Blocks => SortKey::Blocks,
        Column::Sparse => SortKey::Sparse,
        Column::Ino => SortKey::Ino,
        Column::Dev => SortKey::Dev,
        Column::Mtime => SortKey::Mtime,
        Column::Atime => SortKey::Atime,
        Column::Ctime => SortKey::Ctime,
        Column::Birth => SortKey::Birth,
        Column::Flags => SortKey::Flags,
        Column::Xattrs => SortKey::Xattrs,
        Column::Xfs => SortKey::Xfs,
        Column::Name => SortKey::Name,
    }
}

/// Every column's header label, given to `--sort`, sorts by that column.
pub proof fn lemma_header_labels_parse(c: Column)
    ensures
        parsed_key(header_text(c)) == Some(column_key(c)),
{
    reveal_strlit("MODE");
    reveal_strlit("PERMISSIONS");
    reveal_strlit("MODIFIED");
    reveal_strlit("NLINK");
    reveal_strlit("LINKS");
    reveal_strlit("OWNER");
    reveal_strlit("UID");
    reveal_strlit("GID");
    reveal_strlit("ALLOC");
    reveal_strlit("SPARSE");
    reveal_strlit("INO");
    reveal_strlit("INODE");
    reveal_strlit("IGEN");
    reveal_strlit("DEVICE");
    reveal_strlit("ACCESSED");
    reveal_strlit("CHANGED");
    reveal_strlit("BTIME");
    reveal_strlit("CREATED");
    reveal_strlit("FL");
    reveal_strlit("XA");
    reveal_strlit("XATTR");
    reveal_strlit("PERMS");
    reveal_strlit("N");
    reveal_strlit("USER");
    reveal_strlit("GROUP");
    reveal_strlit("SIZE");
    reveal_strlit("BLOCKS");
    reveal_strlit("S");
    reveal_strlit("INO:IGEN");
    reveal_strlit("DEV");
    reveal_strlit("MTIME");
    reveal_strlit("ATIME");
    reveal_strlit("CTIME");
    reveal_strlit("BIRTH");
    reveal_strlit("FLAGS");
    reveal_strlit("XATTRS");
    reveal_strlit("XFS");
    reveal_strlit("NAME");
    lemma_plain_name("PERMS"@);
    lemma_plain_name("N"@);
    lemma_plain_name("USER"@);
    lemma_plain_name("GROUP"@);
    lemma_plain_name("SIZE"@);
    lemma_plain_name("BLOCKS"@);
    lemma_plain_name("S"@);
    lemma_plain_name("INO:IGEN"@);
    lemma_plain_name("DEV"@);
    lemma_plain_name("MTIME"@);
    lemma_plain_name("ATIME"@);
    lemma_plain_name("CTIME"@);
    lemma_plain_name("BIRTH"@);
    lemma_plain_name("FLAGS"@);
    lemma_plain_name("XATTRS"@);
    lemma_plain_name("XFS"@);
    lemma_plain_name("NAME"@);
    match c {
        Column::Perms => { assert(parsed_key("PERMS"@) == Some(SortKey::Perms)); },
        Column::Nlink => { assert(parsed_key("N"@) == Some(SortKey::Nlink)); },
        Column::User => { assert(parsed_key("USER"@) == Some(SortKey::User)); },
        Column::Group => { assert(parsed_key("GROUP"@) == Some(SortKey::Group)); },
        Column::Size => { assert(parsed_key("SIZE"@) == Some(SortKey::Size)); },
        Column::Blocks => { assert(parsed_key("BLOCKS"@) == Some(SortKey::Blocks)); },
        Column::Sparse => { assert(parsed_key("S"@) == Some(SortKey::Sparse)); },
        Column::Ino => { assert(parsed_key("INO:IGEN"@) == Some(SortKey::Ino)); },
        Column::Dev => { assert(parsed_key("DEV"@) == Some(SortKey::Dev)); },
        Column::Mtime => { assert(parsed_key("MTIME"@) == Some(SortKey::Mtime)); },
        Column::Atime => { assert(parsed_key("ATIME"@) == Some(SortKey::Atime)); },
        Column::Ctime => { assert(parsed_key("CTIME"@) == Some(SortKey::Ctime)); },
        Column::Birth => { assert(parsed_key("BIRTH"@) == Some(SortKey::Birth)); },
        Column::Flags => { assert(parsed_key("FLAGS"@) == Some(SortKey::Flags)); },
        Column::Xattrs => { assert(parsed_key("XATTRS"@) == Some(SortKey::Xattrs)); },
        Column::Xfs => { assert(parsed_key("XFS"@) == Some(SortKey::Xfs)); },
        Column::Name => { assert(parsed_key("NAME"@) == Some(SortKey::Name)); },
    }
}

} // verus!
