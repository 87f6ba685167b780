//! A whole listing: sorted entries under an optional header.

use vstd::prelude::*;

use crate::columns::Column;
use crate::entry::Entry;
use crate::format::{entry_line, header_line, measured_width, write_entry, write_header, Widths};
use crate::sort::{is_stable_sort, sort_by_name, sort_entries, SortKey};

verus! {

/// The lines of `es`, one per entry, in order.
pub open spec fn rows_text(es: Seq<Entry>, cols: Seq<Column>, w: Widths) -> Seq<char>
    decreases es.len(),
{
    if es.len() == 0 {
        seq![]
    } else {
        rows_text(es.drop_last(), cols, w) + entry_line(es.last(), cols, w)
    }
}

/// The listing of `es` in `cols` with widths `w`: the header line when `headers`,
/// then one line per entry.
pub open spec fn listing_text(es: Seq<Entry>, cols: Seq<Column>, w: Widths, headers: bool) -> Seq<
    char,
> {
    (if headers {
        header_line(cols, w)
    } else {
        seq![]
    }) + rows_text(es, cols, w)
}

/// Sorts `entries` by `sort` (by name when there is none) and renders them in
/// `cols`, every column measured over all the entries.
pub fn render_listing(entries: &mut [Entry], cols: &[Column], sort: Option<SortKey>, headers: bool) -> (r:
    String)
    ensures
        is_stable_sort(old(entries)@, final(entries)@, sort),
        exists|w: Widths|
            #![trigger listing_text(final(entries)@, cols@, w, headers)]
            (forall|c: Column| #[trigger] w.width_of(c) == measured_width(final(entries)@, cols@, c))
                && r@ == listing_text(final(entries)@, cols@, w, headers),
{
    match sort {
        Some(key) => sort_entries(entries, key),
        None => sort_by_name(entries),
    }
    let w = Widths::measure(entries, cols);
    let mut out = String::new();
    if headers {
        write_header(&mut out, cols, &w);
    }
    let ghost start = out@;
    assert(start =~= (if headers {
        header_line(cols@, w)
    } else {
        seq![]
    }));
    let n = entries.len();
    let mut i: usize = 0;
    while i < n
        invariant
            n == entries@.len(),
            i <= n,
            out@ == start + rows_text(entries@.take(i as int), cols@, w),
        decreases n - i,
    {
        write_entry(&mut out, &entries[i], cols, &w);
        assert(entries@.take(i + 1).drop_last() =~= entries@.take(i as int));
        assert(entries@.take(i + 1).last() == entries@[i as int]);
        assert(out@ =~= start + rows_text(entries@.take(i + 1), cols@, w));
        i = i + 1;
    }
    assert(entries@.take(n as int) =~= entries@);
    assert(out@ == listing_text(entries@, cols@, w, headers));
    out
}

} // verus!
