//! What it is for the rows to be in order: which entry comes before which,
//! what a stable sorting of a listing is, and what follows from it.

use crate::entry::{Entry, EntryView, Timestamp};
use crate::order::{bytes_before, is_before, lemma_bytes_transitive, lemma_bytes_trichotomy};
use crate::query::{SortDirection, SortField};
use vstd::prelude::*;
use vstd::utf8::*;

verus! {

/// Whether `a` comes strictly before `b` in ascending order. Names go byte
/// by byte, times from earlier to later. By size every directory comes
/// before every file, whatever their sizes; two directories, or two files,
/// go by their number of bytes.
pub open spec fn precedes(a: EntryView, b: EntryView, field: SortField) -> bool {
    match field {
        SortField::Name => bytes_before(encode_utf8(a.filename), encode_utf8(b.filename)),
        SortField::Modified => a.modified_at.instant() < b.modified_at.instant(),
        SortField::Size => if a.is_directory != b.is_directory {
            a.is_directory
        } else {
            a.size_bytes < b.size_bytes
        },
    }
}

/// Neither comes before the other.
pub open spec fn ties(a: EntryView, b: EntryView, field: SortField) -> bool {
    !precedes(a, b, field) && !precedes(b, a, field)
}

/// The entries that tie with `e`.
pub open spec fn tied_with(e: EntryView, field: SortField) -> spec_fn(EntryView) -> bool {
    |x: EntryView| ties(x, e, field)
}

/// No entry comes before one that stands earlier in the sequence.
pub open spec fn ascending(rows: Seq<EntryView>, field: SortField) -> bool {
    forall|i: int, j: int|
        0 <= i < j < rows.len() ==> !precedes(#[trigger] rows[j], #[trigger] rows[i], field)
}

/// `sorted` holds the entries of `listed` in ascending order, and entries
/// that tie stand in the order in which they were listed.
pub open spec fn stable_sorting(
    sorted: Seq<EntryView>,
    listed: Seq<EntryView>,
    field: SortField,
) -> bool {
    &&& sorted.len() == listed.len()
    &&& ascending(sorted, field)
    &&& forall|e: EntryView| #[trigger]
        sorted.filter(tied_with(e, field)) == listed.filter(tied_with(e, field))
}

/// The rows as they read in ascending order: as they are, or from the last
/// to the first where the direction is descending.
pub open spec fn in_ascending_order(rows: Seq<EntryView>, direction: SortDirection) -> Seq<
    EntryView,
> {
    match direction {
        SortDirection::Asc => rows,
        SortDirection::Desc => rows.reverse(),
    }
}

/// `precedes` is a strict weak order: nothing comes before itself, no two
/// entries come before each other, and whatever comes before `c` comes
/// before `b` too unless `b` comes before `c`.
pub proof fn lemma_precedes_is_order(a: EntryView, b: EntryView, c: EntryView, field: SortField)
    ensures
        !precedes(a, a, field),
        precedes(a, b, field) ==> !precedes(b, a, field),
        precedes(a, c, field) ==> precedes(a, b, field) || precedes(b, c, field),
{
    if field == SortField::Name {
        let x = encode_utf8(a.filename);
        let y = encode_utf8(b.filename);
        let z = encode_utf8(c.filename);
        lemma_bytes_trichotomy(x, x);
        lemma_bytes_trichotomy(x, y);
        if bytes_before(x, z) && !bytes_before(x, y) && y != x {
            lemma_bytes_transitive(y, x, z);
        }
    }
}

/// To tie is transitive.
pub proof fn lemma_ties_transitive(a: EntryView, b: EntryView, c: EntryView, field: SortField)
    requires
        ties(a, b, field),
        ties(b, c, field),
    ensures
        ties(a, c, field),
{
    lemma_precedes_is_order(a, b, c, field);
    lemma_precedes_is_order(c, b, a, field);
}

/// Whether the first point in time is earlier than the second.
pub fn is_earlier(a: &Timestamp, b: &Timestamp) -> (r: bool)
    ensures
        r == (a.instant() < b.instant()),
{
    let x: i128 = (a.secs as i128) * 1_000_000_000 + (a.nanos as i128);
    let y: i128 = (b.secs as i128) * 1_000_000_000 + (b.nanos as i128);
    x < y
}

/// Whether `a` comes strictly before `b` in ascending order by `field`.
pub fn comes_before(a: &Entry, b: &Entry, field: SortField) -> (r: bool)
    ensures
        r == precedes(a@, b@, field),
{
    match field {
        SortField::Name => is_before(a.filename.as_str().as_bytes(), b.filename.as_str().as_bytes()),
        SortField::Modified => is_earlier(&a.modified_at, &b.modified_at),
        SortField::Size => {
            if a.is_directory != b.is_directory {
                a.is_directory
            } else {
                a.size_bytes < b.size_bytes
            }
        },
    }
}

/// A sequence of which no item meets `pred` has an empty filter.
pub proof fn lemma_filter_none(rows: Seq<EntryView>, pred: spec_fn(EntryView) -> bool)
    requires
        forall|i: int| 0 <= i < rows.len() ==> !pred(#[trigger] rows[i]),
    ensures
        rows.filter(pred) == Seq::<EntryView>::empty(),
    decreases rows.len(),
{
    reveal(Seq::filter);
    if rows.len() > 0 {
        lemma_filter_none(rows.drop_last(), pred);
    }
}

/// The filter of a single item.
pub proof fn lemma_filter_one(x: EntryView, pred: spec_fn(EntryView) -> bool)
    ensures
        seq![x].filter(pred) == if pred(x) {
            seq![x]
        } else {
            Seq::<EntryView>::empty()
        },
{
    reveal(Seq::filter);
    assert(seq![x].drop_last() == Seq::<EntryView>::empty());
    assert(Seq::<EntryView>::empty().filter(pred) == Seq::<EntryView>::empty());
}

/// The filter of a sequence from the filter of all but its last item.
proof fn lemma_filter_last(rows: Seq<EntryView>, pred: spec_fn(EntryView) -> bool)
    requires
        rows.len() > 0,
    ensures
        rows.filter(pred) == if pred(rows.last()) {
            rows.drop_last().filter(pred).push(rows.last())
        } else {
            rows.drop_last().filter(pred)
        },
{
    reveal(Seq::filter);
}

/// Whatever a filter keeps stands in the sequence.
proof fn lemma_filter_member(rows: Seq<EntryView>, pred: spec_fn(EntryView) -> bool, i: int) -> (j:
    int)
    requires
        0 <= i < rows.filter(pred).len(),
    ensures
        0 <= j < rows.len(),
        rows[j] == rows.filter(pred)[i],
    decreases rows.len(),
{
    reveal(Seq::filter);
    if pred(rows.last()) && i == rows.filter(pred).len() - 1 {
        rows.len() - 1
    } else {
        lemma_filter_member(rows.drop_last(), pred, i)
    }
}

/// Two ascending sequences in which the entries of every rank stand in
/// the same order are the same sequence.
proof fn lemma_same_rows(a: Seq<EntryView>, b: Seq<EntryView>, field: SortField)
    requires
        a.len() == b.len(),
        ascending(a, field),
        ascending(b, field),
        forall|e: EntryView| #[trigger]
            a.filter(tied_with(e, field)) == b.filter(tied_with(e, field)),
    ensures
        a == b,
    decreases a.len(),
{
    if a.len() > 0 {
        let x = a.last();
        let y = b.last();
        let like_x = tied_with(x, field);
        let like_y = tied_with(y, field);
        let front_a = a.drop_last();
        let front_b = b.drop_last();
        lemma_precedes_is_order(x, x, x, field);
        lemma_precedes_is_order(y, y, y, field);
        lemma_filter_last(a, like_x);
        lemma_filter_last(b, like_y);
        assert(a.filter(like_x) == b.filter(like_x));
        assert(a.filter(like_y) == b.filter(like_y));
        let in_b = lemma_filter_member(b, like_x, a.filter(like_x).len() - 1);
        let in_a = lemma_filter_member(a, like_y, b.filter(like_y).len() - 1);
        assert(b[in_b] == x);
        assert(a[in_a] == y);
        assert(ties(y, x, field));
        lemma_filter_last(b, like_x);
        assert(a.filter(like_x).last() == b.filter(like_x).last());
        assert(x == y);
        assert forall|e: EntryView| #[trigger]
            front_a.filter(tied_with(e, field)) == front_b.filter(tied_with(e, field)) by {
            let like_e = tied_with(e, field);
            lemma_filter_last(a, like_e);
            lemma_filter_last(b, like_e);
            assert(a.filter(like_e) == b.filter(like_e));
            if like_e(x) {
                assert(front_a.filter(like_e) == a.filter(like_e).drop_last());
                assert(front_b.filter(like_e) == b.filter(like_e).drop_last());
            }
        }
        assert forall|i: int, j: int| 0 <= i < j < front_a.len() implies !precedes(
            #[trigger] front_a[j],
            #[trigger] front_a[i],
            field,
        ) by {
            assert(front_a[i] == a[i] && front_a[j] == a[j]);
        }
        assert forall|i: int, j: int| 0 <= i < j < front_b.len() implies !precedes(
            #[trigger] front_b[j],
            #[trigger] front_b[i],
            field,
        ) by {
            assert(front_b[i] == b[i] && front_b[j] == b[j]);
        }
        lemma_same_rows(front_a, front_b, field);
        assert(a == front_a.push(x));
        assert(b == front_b.push(y));
    } else {
        assert(a =~= b);
    }
}

/// An entry stands as often in a sequence as among the entries of the
/// sequence that tie with it.
proof fn lemma_count_in_filter(rows: Seq<EntryView>, e: EntryView, field: SortField)
    ensures
        rows.to_multiset().count(e) == rows.filter(tied_with(e, field)).to_multiset().count(e),
    decreases rows.len(),
{
    broadcast use vstd::multiset::group_multiset_axioms;

    let like_e = tied_with(e, field);
    if rows.len() == 0 {
        reveal(Seq::filter);
    } else {
        let front = rows.drop_last();
        let last = rows.last();
        lemma_count_in_filter(front, e, field);
        lemma_filter_last(rows, like_e);
        lemma_precedes_is_order(e, e, e, field);
        assert(rows == front.push(last));
        vstd::seq_lib::to_multiset_build(front, last);
        if like_e(last) {
            vstd::seq_lib::to_multiset_build(front.filter(like_e), last);
        }
    }
}

/// A stable sorting holds the entries that were listed, each as often as
/// it was listed.
pub proof fn lemma_sorting_keeps_entries(
    sorted: Seq<EntryView>,
    listed: Seq<EntryView>,
    field: SortField,
)
    requires
        stable_sorting(sorted, listed, field),
    ensures
        sorted.to_multiset() == listed.to_multiset(),
{
    assert forall|e: EntryView| sorted.to_multiset().count(e) == listed.to_multiset().count(
        e,
    ) by {
        lemma_count_in_filter(sorted, e, field);
        lemma_count_in_filter(listed, e, field);
        assert(sorted.filter(tied_with(e, field)) == listed.filter(tied_with(e, field)));
    }
    assert(sorted.to_multiset() =~= listed.to_multiset());
}

/// Every entry of a stable sorting was listed.
pub proof fn lemma_sorted_entry_was_listed(
    sorted: Seq<EntryView>,
    listed: Seq<EntryView>,
    field: SortField,
    i: int,
) -> (j: int)
    requires
        stable_sorting(sorted, listed, field),
        0 <= i < sorted.len(),
    ensures
        0 <= j < listed.len(),
        listed[j] == sorted[i],
{
    let like = tied_with(sorted[i], field);
    lemma_precedes_is_order(sorted[i], sorted[i], sorted[i], field);
    sorted.lemma_filter_contains(like, i);
    let k = choose|k: int| 0 <= k < sorted.filter(like).len() && sorted.filter(like)[k] == sorted[i];
    assert(sorted.filter(like) == listed.filter(like));
    lemma_filter_member(listed, like, k)
}

/// A listing has one stable sorting only.
pub proof fn lemma_stable_sorting_unique(
    a: Seq<EntryView>,
    b: Seq<EntryView>,
    listed: Seq<EntryView>,
    field: SortField,
)
    requires
        stable_sorting(a, listed, field),
        stable_sorting(b, listed, field),
    ensures
        a == b,
{
    assert forall|e: EntryView| #[trigger]
        a.filter(tied_with(e, field)) == b.filter(tied_with(e, field)) by {
        assert(a.filter(tied_with(e, field)) == listed.filter(tied_with(e, field)));
        assert(b.filter(tied_with(e, field)) == listed.filter(tied_with(e, field)));
    }
    lemma_same_rows(a, b, field);
}

/// What `sort` returns for the descending direction is what it returns
/// for the ascending direction, read from the last row to the first.
pub proof fn lemma_descending_is_reverse(
    up: Seq<EntryView>,
    down: Seq<EntryView>,
    listed: Seq<EntryView>,
    field: SortField,
)
    requires
        stable_sorting(in_ascending_order(up, SortDirection::Asc), listed, field),
        stable_sorting(in_ascending_order(down, SortDirection::Desc), listed, field),
    ensures
        down == up.reverse(),
{
    lemma_stable_sorting_unique(up, down.reverse(), listed, field);
    assert(down.reverse().reverse() == down);
}

/// In ascending order by size every directory stands before every file,
/// whatever their sizes.
pub proof fn lemma_directories_first(
    sorted: Seq<EntryView>,
    listed: Seq<EntryView>,
    directory: int,
    file: int,
)
    requires
        stable_sorting(sorted, listed, SortField::Size),
        0 <= directory < sorted.len(),
        0 <= file < sorted.len(),
        sorted[directory].is_directory,
        !sorted[file].is_directory,
    ensures
        directory < file,
{
    if file < directory {
        assert(precedes(sorted[directory], sorted[file], SortField::Size));
    }
}

} // verus!
