//! The sorting of a listing: a merge sort, stable, with the whole sequence
//! reversed for the descending direction.

use crate::entry::{Entry, EntryView};
use crate::query::{SortDirection, SortField, SortSpec};
use crate::ranking::{
    ascending, comes_before, in_ascending_order, lemma_filter_none, lemma_filter_one,
    lemma_precedes_is_order, lemma_ties_transitive, precedes, stable_sorting, tied_with, ties,
};
use vstd::prelude::*;

verus! {

/// Where a merge of two ascending runs stands: `merged` holds what was taken
/// from the ends of `left` and `right`, the first `i` and `j` entries of
/// which are still to be merged.
spec fn merge_state(
    merged: Seq<EntryView>,
    left: Seq<EntryView>,
    right: Seq<EntryView>,
    i: int,
    j: int,
    field: SortField,
) -> bool {
    &&& 0 <= i <= left.len()
    &&& 0 <= j <= right.len()
    &&& ascending(left, field)
    &&& ascending(right, field)
    &&& merged.len() == (left.len() - i) + (right.len() - j)
    &&& ascending(merged, field)
    &&& forall|e: EntryView| #[trigger]
        merged.filter(tied_with(e, field)) == left.skip(i).filter(tied_with(e, field))
            + right.skip(j).filter(tied_with(e, field))
    &&& forall|a: int, k: int|
        0 <= a < i && 0 <= k < merged.len() ==> !precedes(
            #[trigger] merged[k],
            #[trigger] left[a],
            field,
        )
    &&& forall|b: int, k: int|
        0 <= b < j && 0 <= k < merged.len() ==> !precedes(
            #[trigger] merged[k],
            #[trigger] right[b],
            field,
        )
    &&& forall|a: int, b: int|
        i <= a < left.len() && 0 <= b < j ==> precedes(#[trigger] right[b], #[trigger] left[a], field)
}

/// Before anything is taken the merge is empty.
proof fn lemma_merge_start(left: Seq<EntryView>, right: Seq<EntryView>, field: SortField)
    requires
        ascending(left, field),
        ascending(right, field),
    ensures
        merge_state(Seq::empty(), left, right, left.len() as int, right.len() as int, field),
{
    let merged = Seq::<EntryView>::empty();
    assert forall|e: EntryView| #[trigger]
        merged.filter(tied_with(e, field)) == left.skip(left.len() as int).filter(
            tied_with(e, field),
        ) + right.skip(right.len() as int).filter(tied_with(e, field)) by {
        let pred = tied_with(e, field);
        lemma_filter_none(merged, pred);
        lemma_filter_none(left.skip(left.len() as int), pred);
        lemma_filter_none(right.skip(right.len() as int), pred);
    }
}

/// The last entry of the left run is taken where it comes strictly after
/// the last of the right run, or where the right run is used up.
proof fn lemma_take_left(
    merged: Seq<EntryView>,
    left: Seq<EntryView>,
    right: Seq<EntryView>,
    i: int,
    j: int,
    field: SortField,
)
    requires
        merge_state(merged, left, right, i, j, field),
        i > 0,
        j == 0 || precedes(right[j - 1], left[i - 1], field),
    ensures
        merge_state(seq![left[i - 1]] + merged, left, right, i - 1, j, field),
{
    let x = left[i - 1];
    let grown = seq![x] + merged;
    assert forall|p: int, q: int| 0 <= p < q < grown.len() implies !precedes(
        #[trigger] grown[q],
        #[trigger] grown[p],
        field,
    ) by {
        assert(grown[q] == merged[q - 1]);
        if p > 0 {
            assert(grown[p] == merged[p - 1]);
        }
    }
    assert forall|e: EntryView| #[trigger]
        grown.filter(tied_with(e, field)) == left.skip(i - 1).filter(tied_with(e, field))
            + right.skip(j).filter(tied_with(e, field)) by {
        let pred = tied_with(e, field);
        assert(left.skip(i - 1) == seq![x] + left.skip(i));
        Seq::filter_distributes_over_add(seq![x], merged, pred);
        Seq::filter_distributes_over_add(seq![x], left.skip(i), pred);
        assert(merged.filter(pred) == left.skip(i).filter(pred) + right.skip(j).filter(pred));
    }
    assert forall|a: int, k: int| 0 <= a < i - 1 && 0 <= k < grown.len() implies !precedes(
        #[trigger] grown[k],
        #[trigger] left[a],
        field,
    ) by {
        if k > 0 {
            assert(grown[k] == merged[k - 1]);
        }
    }
    assert forall|b: int, k: int| 0 <= b < j && 0 <= k < grown.len() implies !precedes(
        #[trigger] grown[k],
        #[trigger] right[b],
        field,
    ) by {
        if k > 0 {
            assert(grown[k] == merged[k - 1]);
        } else {
            lemma_precedes_is_order(right[j - 1], right[b], x, field);
            lemma_precedes_is_order(x, right[b], right[b], field);
            lemma_precedes_is_order(right[b], right[b], right[b], field);
        }
    }
    assert forall|a: int, b: int| i - 1 <= a < left.len() && 0 <= b < j implies precedes(
        #[trigger] right[b],
        #[trigger] left[a],
        field,
    ) by {
        if a == i - 1 {
            lemma_precedes_is_order(right[j - 1], right[b], x, field);
        }
    }
}

/// The last entry of the right run is taken where the last of the left run
/// does not come strictly after it, or where the left run is used up.
proof fn lemma_take_right(
    merged: Seq<EntryView>,
    left: Seq<EntryView>,
    right: Seq<EntryView>,
    i: int,
    j: int,
    field: SortField,
)
    requires
        merge_state(merged, left, right, i, j, field),
        j > 0,
        i == 0 || !precedes(right[j - 1], left[i - 1], field),
    ensures
        merge_state(seq![right[j - 1]] + merged, left, right, i, j - 1, field),
{
    let x = right[j - 1];
    let grown = seq![x] + merged;
    assert forall|p: int, q: int| 0 <= p < q < grown.len() implies !precedes(
        #[trigger] grown[q],
        #[trigger] grown[p],
        field,
    ) by {
        assert(grown[q] == merged[q - 1]);
        if p > 0 {
            assert(grown[p] == merged[p - 1]);
        }
    }
    assert forall|e: EntryView| #[trigger]
        grown.filter(tied_with(e, field)) == left.skip(i).filter(tied_with(e, field))
            + right.skip(j - 1).filter(tied_with(e, field)) by {
        let pred = tied_with(e, field);
        let taken = left.skip(i);
        assert(right.skip(j - 1) == seq![x] + right.skip(j));
        Seq::filter_distributes_over_add(seq![x], merged, pred);
        Seq::filter_distributes_over_add(seq![x], right.skip(j), pred);
        lemma_filter_one(x, pred);
        assert(merged.filter(pred) == taken.filter(pred) + right.skip(j).filter(pred));
        if pred(x) {
            assert forall|a: int| 0 <= a < taken.len() implies !pred(#[trigger] taken[a]) by {
                assert(taken[a] == left[i + a]);
                assert(precedes(right[j - 1], left[i + a], field));
                if ties(taken[a], e, field) {
                    lemma_ties_transitive(x, e, taken[a], field);
                }
            }
            lemma_filter_none(taken, pred);
        }
    }
    assert forall|a: int, k: int| 0 <= a < i && 0 <= k < grown.len() implies !precedes(
        #[trigger] grown[k],
        #[trigger] left[a],
        field,
    ) by {
        if k > 0 {
            assert(grown[k] == merged[k - 1]);
        } else {
            lemma_precedes_is_order(x, left[i - 1], left[a], field);
            lemma_precedes_is_order(left[a], left[a], left[a], field);
        }
    }
    assert forall|b: int, k: int| 0 <= b < j - 1 && 0 <= k < grown.len() implies !precedes(
        #[trigger] grown[k],
        #[trigger] right[b],
        field,
    ) by {
        if k > 0 {
            assert(grown[k] == merged[k - 1]);
        }
    }
}

/// Whether `merged` is the two ascending runs merged: ascending, with the
/// entries of every rank in the order of the left run and then of the
/// right.
spec fn is_merge(
    merged: Seq<EntryView>,
    left: Seq<EntryView>,
    right: Seq<EntryView>,
    field: SortField,
) -> bool {
    &&& merged.len() == left.len() + right.len()
    &&& ascending(merged, field)
    &&& forall|e: EntryView| #[trigger]
        merged.filter(tied_with(e, field)) == left.filter(tied_with(e, field)) + right.filter(
            tied_with(e, field),
        )
}

/// Merges two ascending runs. Where entries tie, those of the left run
/// come first.
fn merge(left: Vec<Entry>, right: Vec<Entry>, field: SortField) -> (merged: Vec<Entry>)
    requires
        ascending(left.deep_view(), field),
        ascending(right.deep_view(), field),
    ensures
        is_merge(merged.deep_view(), left.deep_view(), right.deep_view(), field),
{
    let ghost l = left.deep_view();
    let ghost r = right.deep_view();
    let mut left = left;
    let mut right = right;
    let mut stack: Vec<Entry> = Vec::new();
    let ghost mut taken: Seq<EntryView> = Seq::empty();
    proof {
        lemma_merge_start(l, r, field);
        assert(l.take(l.len() as int) == l);
        assert(r.take(r.len() as int) == r);
    }
    while left.len() > 0 || right.len() > 0
        invariant
            left.len() <= l.len(),
            right.len() <= r.len(),
            left.deep_view() == l.take(left.len() as int),
            right.deep_view() == r.take(right.len() as int),
            merge_state(taken, l, r, left.len() as int, right.len() as int, field),
            stack.len() == taken.len(),
            forall|k: int|
                0 <= k < stack.len() ==> (#[trigger] stack[k])@ == taken[taken.len() - 1 - k],
        decreases left.len() + right.len(),
    {
        let i = left.len();
        let j = right.len();
        let from_left = if j == 0 {
            true
        } else if i == 0 {
            false
        } else {
            assert(left.deep_view()[i - 1] == l[i - 1]);
            assert(right.deep_view()[j - 1] == r[j - 1]);
            comes_before(&right[j - 1], &left[i - 1], field)
        };
        let ghost before = taken;
        if from_left {
            proof {
                lemma_take_left(taken, l, r, i as int, j as int, field);
            }
            let ghost rest = left.deep_view();
            let entry = left.pop().unwrap();
            assert(entry@ == rest[i - 1]);
            assert(left.deep_view() == l.take(i - 1));
            proof {
                taken = seq![entry@] + taken;
            }
            stack.push(entry);
        } else {
            proof {
                lemma_take_right(taken, l, r, i as int, j as int, field);
            }
            let ghost rest = right.deep_view();
            let entry = right.pop().unwrap();
            assert(entry@ == rest[j - 1]);
            assert(right.deep_view() == r.take(j - 1));
            proof {
                taken = seq![entry@] + taken;
            }
            stack.push(entry);
        }
        assert forall|k: int| 0 <= k < stack.len() implies (#[trigger] stack[k])@ == taken[taken.len()
            - 1 - k] by {
            if k < before.len() {
                assert(taken[taken.len() - 1 - k] == before[before.len() - 1 - k]);
            }
        }
    }
    proof {
        assert(l.skip(0) == l);
        assert(r.skip(0) == r);
    }
    let mut merged: Vec<Entry> = Vec::new();
    while stack.len() > 0
        invariant
            merged.len() + stack.len() == taken.len(),
            forall|k: int|
                0 <= k < stack.len() ==> (#[trigger] stack[k])@ == taken[taken.len() - 1 - k],
            forall|k: int| 0 <= k < merged.len() ==> (#[trigger] merged[k])@ == taken[k],
        decreases stack.len(),
    {
        let entry = stack.pop().unwrap();
        merged.push(entry);
    }
    assert(merged.deep_view() == taken);
    merged
}

/// Orders the entries ascending by halving, ordering the halves and merging
/// them.
fn merge_sort(entries: Vec<Entry>, field: SortField) -> (sorted: Vec<Entry>)
    ensures
        stable_sorting(sorted.deep_view(), entries.deep_view(), field),
    decreases entries.len(),
{
    let n = entries.len();
    if n <= 1 {
        return entries;
    }
    let ghost listed = entries.deep_view();
    let mut first = entries;
    let second = first.split_off(n / 2);
    let ghost listed_first = first.deep_view();
    let ghost listed_second = second.deep_view();
    assert(listed == listed_first + listed_second);
    let left = merge_sort(first, field);
    let right = merge_sort(second, field);
    let sorted = merge(left, right, field);
    proof {
        assert forall|e: EntryView| #[trigger]
            sorted.deep_view().filter(tied_with(e, field)) == listed.filter(
                tied_with(e, field),
            ) by {
            let pred = tied_with(e, field);
            Seq::filter_distributes_over_add(listed_first, listed_second, pred);
            assert(left.deep_view().filter(pred) == listed_first.filter(pred));
            assert(right.deep_view().filter(pred) == listed_second.filter(pred));
        }
    }
    sorted
}

/// Orders the entries by the column of `spec`. Entries that tie keep the
/// order in which they were listed; for the descending direction the whole
/// ascending sequence is read from its end.
pub fn sort(entries: Vec<Entry>, spec: SortSpec) -> (sorted: Vec<Entry>)
    ensures
        stable_sorting(
            in_ascending_order(sorted.deep_view(), spec.direction),
            entries.deep_view(),
            spec.field,
        ),
{
    let mut rows = merge_sort(entries, spec.field);
    match spec.direction {
        SortDirection::Asc => rows,
        SortDirection::Desc => {
            let ghost ascending_rows = rows.deep_view();
            let mut reversed: Vec<Entry> = Vec::new();
            while rows.len() > 0
                invariant
                    rows.len() <= ascending_rows.len(),
                    rows.deep_view() == ascending_rows.take(rows.len() as int),
                    reversed.len() == ascending_rows.len() - rows.len(),
                    forall|j: int|
                        0 <= j < reversed.len() ==> (#[trigger] reversed[j])@ == ascending_rows[
                            ascending_rows.len() - 1 - j],
                decreases rows.len(),
            {
                let ghost before = rows.deep_view();
                let row = rows.pop().unwrap();
                assert(row@ == before[rows.len() as int]);
                reversed.push(row);
                assert(rows.deep_view() == ascending_rows.take(rows.len() as int));
            }
            assert(reversed.deep_view().reverse() == ascending_rows);
            reversed
        },
    }
}

} // verus!
