//! Output rows in ascending order of their slots.
//!
//! Rows of one chunk may be finished in any order; before they are written
//! they are put in order of slot, and rows of the same slot keep the order in
//! which they were given.
use crate::record::{OutputFileEntry, OutputRow};
use vstd::prelude::*;

verus! {

/// The rows that records stand for.
pub open spec fn rows_of(entries: Seq<OutputFileEntry>) -> Seq<OutputRow> {
    entries.map_values(|e: OutputFileEntry| e@)
}

/// Whether the slots never decrease along the rows.
pub open spec fn ascending_by_slot(rows: Seq<OutputRow>) -> bool {
    forall|i: int, j: int| 0 <= i <= j < rows.len() ==> rows[i].slot <= rows[j].slot
}

/// The rows with a slot of at most `slot`, in their given order.
pub open spec fn rows_up_to(rows: Seq<OutputRow>, slot: u64) -> Seq<OutputRow> {
    rows.filter(|r: OutputRow| r.slot <= slot)
}

/// The rows with a slot above `slot`, in their given order.
pub open spec fn rows_above(rows: Seq<OutputRow>, slot: u64) -> Seq<OutputRow> {
    rows.filter(|r: OutputRow| r.slot > slot)
}

/// The rows of slot `slot`, in their given order.
pub open spec fn rows_at(rows: Seq<OutputRow>, slot: u64) -> Seq<OutputRow> {
    rows.filter(|r: OutputRow| r.slot == slot)
}

/// `row` put among ordered rows: behind every row whose slot is not larger,
/// before every row whose slot is larger.
pub open spec fn placed_by_slot(rows: Seq<OutputRow>, row: OutputRow) -> Seq<OutputRow> {
    rows_up_to(rows, row.slot).push(row) + rows_above(rows, row.slot)
}

/// The rows in ascending order of slot, rows of equal slot in their given
/// order: each row in turn is put among those before it.
pub open spec fn sorted_by_slot(rows: Seq<OutputRow>) -> Seq<OutputRow>
    decreases rows.len(),
{
    if rows.len() == 0 {
        rows
    } else {
        placed_by_slot(sorted_by_slot(rows.drop_last()), rows.last())
    }
}

/// Whether `at` parts `rows` into those with a slot of at most `slot`, which
/// come first, and those with a larger slot.
pub open spec fn parts_at(rows: Seq<OutputRow>, slot: u64, at: int) -> bool {
    &&& 0 <= at <= rows.len()
    &&& forall|k: int| 0 <= k < at ==> (#[trigger] rows[k]).slot <= slot
    &&& forall|k: int| at <= k < rows.len() ==> (#[trigger] rows[k]).slot > slot
}

/// A filter keeps a prefix where exactly the rows of that prefix pass it.
proof fn lemma_filter_keeps_prefix(rows: Seq<OutputRow>, pred: spec_fn(OutputRow) -> bool, at: int)
    requires
        0 <= at <= rows.len(),
        forall|k: int| 0 <= k < at ==> pred(#[trigger] rows[k]),
        forall|k: int| at <= k < rows.len() ==> !pred(#[trigger] rows[k]),
    ensures
        rows.filter(pred) == rows.take(at),
    decreases rows.len(),
{
    reveal(Seq::filter);
    if rows.len() > 0 {
        let rest = rows.drop_last();
        if at == rows.len() {
            lemma_filter_keeps_prefix(rest, pred, at - 1);
            assert(rest.take(at - 1) =~= rest);
            assert(rest.push(rows.last()) =~= rows.take(at));
        } else {
            lemma_filter_keeps_prefix(rest, pred, at);
            assert(rest.take(at) =~= rows.take(at));
        }
    } else {
        assert(rows.take(at) =~= rows);
    }
}

/// A filter keeps a suffix where exactly the rows of that suffix pass it.
proof fn lemma_filter_keeps_suffix(rows: Seq<OutputRow>, pred: spec_fn(OutputRow) -> bool, at: int)
    requires
        0 <= at <= rows.len(),
        forall|k: int| 0 <= k < at ==> !pred(#[trigger] rows[k]),
        forall|k: int| at <= k < rows.len() ==> pred(#[trigger] rows[k]),
    ensures
        rows.filter(pred) == rows.skip(at),
    decreases rows.len(),
{
    reveal(Seq::filter);
    if rows.len() > 0 {
        let rest = rows.drop_last();
        if at == rows.len() {
            lemma_filter_keeps_suffix(rest, pred, at - 1);
            assert(rest.skip(at - 1) =~= rows.skip(at));
        } else {
            lemma_filter_keeps_suffix(rest, pred, at);
            assert(rest.skip(at).push(rows.last()) =~= rows.skip(at));
        }
    } else {
        assert(rows.skip(at) =~= rows);
    }
}

/// Putting a row among rows that are parted at `at` for its slot inserts it
/// at `at`.
pub proof fn lemma_placed_is_inserted(rows: Seq<OutputRow>, row: OutputRow, at: int)
    requires
        parts_at(rows, row.slot, at),
    ensures
        placed_by_slot(rows, row) == rows.insert(at, row),
{
    lemma_filter_keeps_prefix(rows, |r: OutputRow| r.slot <= row.slot, at);
    lemma_filter_keeps_suffix(rows, |r: OutputRow| r.slot > row.slot, at);
    assert(rows.take(at).push(row) + rows.skip(at) =~= rows.insert(at, row));
}

/// Ordered rows are parted somewhere for every slot.
pub proof fn lemma_ascending_parts(rows: Seq<OutputRow>, slot: u64) -> (at: int)
    requires
        ascending_by_slot(rows),
    ensures
        parts_at(rows, slot, at),
    decreases rows.len(),
{
    if rows.len() == 0 {
        0
    } else {
        let rest = rows.drop_last();
        assert(ascending_by_slot(rest)) by {
            assert forall|i: int, j: int| 0 <= i <= j < rest.len() implies rest[i].slot
                <= rest[j].slot by {
                assert(rows[i].slot <= rows[j].slot);
            }
        }
        let before = lemma_ascending_parts(rest, slot);
        if rows.last().slot <= slot {
            assert forall|k: int| 0 <= k < rows.len() implies (#[trigger] rows[k]).slot <= slot by {
                assert(rows[k].slot <= rows[rows.len() - 1].slot);
            }
            rows.len() as int
        } else {
            assert forall|k: int| before <= k < rows.len() implies (#[trigger] rows[k]).slot
                > slot by {
                if k < rest.len() {
                    assert(rest[k].slot > slot);
                }
            }
            assert forall|k: int| 0 <= k < before implies (#[trigger] rows[k]).slot <= slot by {
                assert(rest[k].slot <= slot);
            }
            before
        }
    }
}

/// A row inserted where ordered rows are parted for its slot leaves them
/// ordered.
proof fn lemma_insert_keeps_ascending(rows: Seq<OutputRow>, row: OutputRow, at: int)
    requires
        ascending_by_slot(rows),
        parts_at(rows, row.slot, at),
    ensures
        ascending_by_slot(rows.insert(at, row)),
{
    let out = rows.insert(at, row);
    assert forall|i: int, j: int| 0 <= i <= j < out.len() implies out[i].slot <= out[j].slot by {
        if i < at {
            assert(out[i] == rows[i]);
        } else if i > at {
            assert(out[i] == rows[i - 1]);
        }
        if j < at {
            assert(out[j] == rows[j]);
        } else if j > at {
            assert(out[j] == rows[j - 1]);
        }
    }
}

/// Sorting gives rows in ascending order of slot.
pub proof fn lemma_sorted_is_ascending(rows: Seq<OutputRow>)
    ensures
        ascending_by_slot(sorted_by_slot(rows)),
        sorted_by_slot(rows).len() == rows.len(),
    decreases rows.len(),
{
    if rows.len() > 0 {
        let before = sorted_by_slot(rows.drop_last());
        lemma_sorted_is_ascending(rows.drop_last());
        let at = lemma_ascending_parts(before, rows.last().slot);
        lemma_placed_is_inserted(before, rows.last(), at);
        lemma_insert_keeps_ascending(before, rows.last(), at);
    }
}

/// Sorting neither adds nor loses a row: every row occurs as often after as
/// before.
pub proof fn lemma_sorted_is_permutation(rows: Seq<OutputRow>)
    ensures
        sorted_by_slot(rows).to_multiset() == rows.to_multiset(),
    decreases rows.len(),
{
    broadcast use vstd::seq_lib::group_to_multiset_ensures;

    if rows.len() > 0 {
        let rest = rows.drop_last();
        let before = sorted_by_slot(rest);
        lemma_sorted_is_ascending(rest);
        lemma_sorted_is_permutation(rest);
        let at = lemma_ascending_parts(before, rows.last().slot);
        lemma_placed_is_inserted(before, rows.last(), at);
        let head = before.take(at);
        let tail = before.skip(at);
        assert(before =~= head + tail);
        assert(before.insert(at, rows.last()) =~= head.push(rows.last()) + tail);
        vstd::seq_lib::lemma_multiset_commutative(head, tail);
        vstd::seq_lib::lemma_multiset_commutative(head.push(rows.last()), tail);
        assert(rows =~= rest.push(rows.last()));
        assert(sorted_by_slot(rows).to_multiset() =~= rows.to_multiset());
    }
}

/// Sorting is stable: the rows of any one slot come out in the order in which
/// they went in.
pub proof fn lemma_sorted_is_stable(rows: Seq<OutputRow>, slot: u64)
    ensures
        rows_at(sorted_by_slot(rows), slot) == rows_at(rows, slot),
    decreases rows.len(),
{
    reveal(Seq::filter);
    if rows.len() > 0 {
        let rest = rows.drop_last();
        let row = rows.last();
        let before = sorted_by_slot(rest);
        lemma_sorted_is_ascending(rest);
        lemma_sorted_is_stable(rest, slot);
        let at = lemma_ascending_parts(before, row.slot);
        lemma_placed_is_inserted(before, row, at);
        let pred = |r: OutputRow| r.slot == slot;
        let head = before.take(at);
        let tail = before.skip(at);
        assert(before =~= head + tail);
        assert(before.insert(at, row) =~= head.push(row) + tail);
        Seq::filter_distributes_over_add(head, tail, pred);
        Seq::filter_distributes_over_add(head.push(row), tail, pred);
        assert(head.push(row).drop_last() =~= head);
        if row.slot == slot {
            lemma_filter_keeps_prefix(tail, pred, 0);
            assert(tail.take(0) =~= Seq::<OutputRow>::empty());
            assert(head.filter(pred).push(row) + tail.filter(pred) =~= (head.filter(pred)
                + tail.filter(pred)).push(row));
        }
    }
}

/// Puts records in ascending order of slot. Records of the same slot keep
/// their order.
pub fn sort_by_slot(entries: &mut Vec<OutputFileEntry>)
    ensures
        rows_of(final(entries)@) == sorted_by_slot(rows_of(old(entries)@)),
        ascending_by_slot(rows_of(final(entries)@)),
        final(entries)@.to_multiset() == old(entries)@.to_multiset(),
{
    let ghost given = entries@;
    let mut i: usize = 0;
    proof {
        assert(rows_of(entries@.take(0)) =~= sorted_by_slot(rows_of(given.take(0))));
    }
    while i < entries.len()
        invariant
            i <= entries@.len(),
            entries@.len() == given.len(),
            rows_of(entries@.take(i as int)) == sorted_by_slot(rows_of(given.take(i as int))),
            entries@.skip(i as int) == given.skip(i as int),
            entries@.to_multiset() == given.to_multiset(),
        decreases entries@.len() - i,
    {
        let slot = entries[i].slot;
        let ghost before = entries@;
        let ghost ordered = rows_of(before.take(i as int));
        proof {
            lemma_sorted_is_ascending(rows_of(given.take(i as int)));
        }
        let mut at: usize = 0;
        while at < i && entries[at].slot <= slot
            invariant
                at <= i <= entries@.len(),
                entries@ == before,
                ordered == rows_of(before.take(i as int)),
                forall|k: int| 0 <= k < at ==> (#[trigger] ordered[k]).slot <= slot,
            decreases i - at,
        {
            at = at + 1;
        }
        let entry = entries.remove(i);
        entries.insert(at, entry);
        proof {
            broadcast use vstd::seq_lib::group_to_multiset_ensures;

            let row = entry@;
            assert(entry == given[i as int]) by {
                assert(before.skip(i as int)[0] == given.skip(i as int)[0]);
            }
            assert(parts_at(ordered, slot, at as int)) by {
                assert forall|k: int| at <= k < ordered.len() implies (#[trigger] ordered[k]).slot
                    > slot by {
                    assert(ordered[at as int].slot <= ordered[k].slot);
                }
            }
            lemma_placed_is_inserted(ordered, row, at as int);
            assert(entries@.take(i + 1) =~= before.take(i as int).insert(at as int, entry));
            assert(rows_of(before.take(i as int).insert(at as int, entry)) =~= ordered.insert(
                at as int,
                row,
            ));
            assert(given.take(i + 1).drop_last() =~= given.take(i as int));
            assert(rows_of(given.take(i + 1)).drop_last() =~= rows_of(given.take(i as int)));
            let rest_now = entries@.skip(i + 1);
            let rest_given = given.skip(i + 1);
            assert(rest_now =~= rest_given) by {
                assert forall|k: int| 0 <= k < rest_given.len() implies #[trigger] rest_now[k]
                    == rest_given[k] by {
                    assert(before.skip(i as int)[k + 1] == given.skip(i as int)[k + 1]);
                }
            }
            assert(before.remove(i as int).insert(at as int, entry).to_multiset()
                =~= before.to_multiset()) by {
                let removed = before.remove(i as int);
                let head = removed.take(at as int);
                let tail = removed.skip(at as int);
                assert(removed =~= head + tail);
                assert(removed.insert(at as int, entry) =~= head.push(entry) + tail);
                vstd::seq_lib::lemma_multiset_commutative(head, tail);
                vstd::seq_lib::lemma_multiset_commutative(head.push(entry), tail);
            }
        }
        i = i + 1;
    }
    proof {
        assert(entries@.take(entries@.len() as int) =~= entries@);
        assert(given.take(given.len() as int) =~= given);
        lemma_sorted_is_ascending(rows_of(given));
    }
}

} // verus!
