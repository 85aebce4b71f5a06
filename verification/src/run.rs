//! A whole batch run as one value, and what holds of it.
//!
//! The rows that a run leaves are the rows it found, followed by the rows of
//! its chunks in the order of the chunks. What the node answers is not known
//! beforehand, so every statement here is made for all possible answers.
use crate::payment::BlockProposerPaymentData;
use crate::pipeline::{
    chunk_len, chunk_rows, outcome_rows, processed_slots, work_queue, BatchPipeline,
};
use crate::record::{BoostRelayDataEntry, OutputFileEntry, OutputRow};
use crate::sorting::{
    ascending_by_slot, lemma_sorted_is_ascending, lemma_sorted_is_permutation, rows_of,
    sorted_by_slot,
};
use vstd::prelude::*;

verus! {

/// The rows of each chunk of a run, chunk by chunk. `outcomes[i]` is what the
/// node answered for `queue[i]`.
pub open spec fn chunk_groups(
    queue: Seq<BoostRelayDataEntry>,
    outcomes: Seq<Option<BlockProposerPaymentData>>,
    chunk_size: nat,
) -> Seq<Seq<OutputRow>>
    decreases queue.len(),
{
    if queue.len() == 0 || chunk_size == 0 {
        Seq::empty()
    } else {
        let n = chunk_len(queue.len(), chunk_size) as int;
        seq![chunk_rows(queue.take(n), outcomes.take(n))] + chunk_groups(
            queue.skip(n),
            outcomes.skip(n),
            chunk_size,
        )
    }
}

/// The rows that a run appends: those of its chunks, one chunk after the
/// other.
pub open spec fn run_rows(
    queue: Seq<BoostRelayDataEntry>,
    outcomes: Seq<Option<BlockProposerPaymentData>>,
    chunk_size: nat,
) -> Seq<OutputRow> {
    chunk_groups(queue, outcomes, chunk_size).flatten()
}

/// The rows that a run leaves: those it found, then those it appends for the
/// entries whose slot had no row.
pub open spec fn run_output(
    existing: Seq<OutputRow>,
    inputs: Seq<BoostRelayDataEntry>,
    outcomes: Seq<Option<BlockProposerPaymentData>>,
    chunk_size: nat,
) -> Seq<OutputRow> {
    existing + run_rows(work_queue(inputs, processed_slots(existing)), outcomes, chunk_size)
}

/// The slots of the entries that the node answered for.
pub open spec fn answered_slots(
    items: Seq<BoostRelayDataEntry>,
    outcomes: Seq<Option<BlockProposerPaymentData>>,
) -> Set<u64> {
    Set::new(
        |slot: u64|
            exists|i: int|
                0 <= i < items.len() && i < outcomes.len() && outcomes[i] is Some && (
                #[trigger] items[i]).slot == slot,
    )
}

/// The number of rows that the chunks before chunk `k` append.
pub open spec fn rows_before(groups: Seq<Seq<OutputRow>>, k: int) -> nat {
    groups.take(k).flatten().len()
}

/// A slot that has a row is never queued, wherever its entry stands in the
/// input; every other entry is queued, and the queue holds nothing else.
pub proof fn lemma_processed_slots_are_skipped(
    inputs: Seq<BoostRelayDataEntry>,
    existing: Seq<OutputRow>,
)
    ensures
        ({
            let processed = processed_slots(existing);
            let queue = work_queue(inputs, processed);
            &&& forall|k: int|
                0 <= k < queue.len() ==> !processed.contains((#[trigger] queue[k]).slot)
            &&& forall|i: int|
                0 <= i < inputs.len() && processed.contains((#[trigger] inputs[i]).slot)
                    ==> !queue.contains(inputs[i])
            &&& forall|i: int|
                0 <= i < inputs.len() && !processed.contains((#[trigger] inputs[i]).slot)
                    ==> queue.contains(inputs[i])
            &&& forall|k: int| 0 <= k < queue.len() ==> inputs.contains(#[trigger] queue[k])
        }),
{
    let processed = processed_slots(existing);
    let queue = work_queue(inputs, processed);
    let pending = |e: BoostRelayDataEntry| !processed.contains(e.slot);
    assert forall|k: int| 0 <= k < queue.len() implies !processed.contains(
        (#[trigger] queue[k]).slot,
    ) && inputs.contains(queue[k]) by {
        inputs.lemma_filter_pred(pending, k);
        assert(queue.contains(queue[k]));
        inputs.lemma_filter_contains_rev(pending, queue[k]);
    }
    assert forall|i: int|
        0 <= i < inputs.len() && processed.contains((#[trigger] inputs[i]).slot)
            implies !queue.contains(inputs[i]) by {
        if queue.contains(inputs[i]) {
            let k = choose|k: int| 0 <= k < queue.len() && queue[k] == inputs[i];
            assert(!processed.contains(queue[k].slot));
        }
    }
    assert forall|i: int|
        0 <= i < inputs.len() && !processed.contains((#[trigger] inputs[i]).slot)
            implies queue.contains(inputs[i]) by {
        inputs.lemma_filter_contains(pending, i);
    }
}

/// The slots of rows put one after the other are the slots of both.
pub proof fn lemma_slots_of_concat(first: Seq<OutputRow>, second: Seq<OutputRow>)
    ensures
        processed_slots(first + second) == processed_slots(first).union(processed_slots(second)),
{
    let both = first + second;
    assert forall|s: u64| processed_slots(both).contains(s) implies processed_slots(first).union(
        processed_slots(second),
    ).contains(s) by {
        let k = choose|k: int| 0 <= k < both.len() && (#[trigger] both[k]).slot == s;
        if k < first.len() {
            assert(first[k].slot == s);
        } else {
            assert(second[k - first.len()].slot == s);
        }
    }
    assert forall|s: u64|
        processed_slots(first).union(processed_slots(second)).contains(
            s,
        ) implies processed_slots(both).contains(s) by {
        if processed_slots(first).contains(s) {
            let k = choose|k: int| 0 <= k < first.len() && (#[trigger] first[k]).slot == s;
            assert(both[k].slot == s);
        } else {
            let k = choose|k: int| 0 <= k < second.len() && (#[trigger] second[k]).slot == s;
            assert(both[k + first.len()].slot == s);
        }
    }
    assert(processed_slots(both) =~= processed_slots(first).union(processed_slots(second)));
}

/// Sorting rows leaves their slots what they are.
pub proof fn lemma_slots_of_sorted(rows: Seq<OutputRow>)
    ensures
        processed_slots(sorted_by_slot(rows)) == processed_slots(rows),
{
    broadcast use vstd::seq_lib::group_to_multiset_ensures;

    let sorted = sorted_by_slot(rows);
    lemma_sorted_is_permutation(rows);
    assert forall|s: u64| processed_slots(sorted).contains(s) implies processed_slots(
        rows,
    ).contains(s) by {
        let k = choose|k: int| 0 <= k < sorted.len() && (#[trigger] sorted[k]).slot == s;
        assert(sorted.contains(sorted[k]));
        assert(rows.to_multiset().count(sorted[k]) > 0);
        assert(rows.contains(sorted[k]));
        let j = choose|j: int| 0 <= j < rows.len() && rows[j] == sorted[k];
        assert(rows[j].slot == s);
    }
    assert forall|s: u64| processed_slots(rows).contains(s) implies processed_slots(
        sorted,
    ).contains(s) by {
        let k = choose|k: int| 0 <= k < rows.len() && (#[trigger] rows[k]).slot == s;
        assert(rows.contains(rows[k]));
        assert(sorted.to_multiset().count(rows[k]) > 0);
        assert(sorted.contains(rows[k]));
        let j = choose|j: int| 0 <= j < sorted.len() && sorted[j] == rows[k];
        assert(sorted[j].slot == s);
    }
    assert(processed_slots(sorted) =~= processed_slots(rows));
}

/// The rows of a chunk have the slots of its answered entries.
pub proof fn lemma_slots_of_outcome_rows(
    items: Seq<BoostRelayDataEntry>,
    outcomes: Seq<Option<BlockProposerPaymentData>>,
)
    ensures
        processed_slots(outcome_rows(items, outcomes)) == answered_slots(items, outcomes),
    decreases items.len(),
{
    let rows = outcome_rows(items, outcomes);
    if items.len() == 0 {
        assert(processed_slots(rows) =~= answered_slots(items, outcomes));
    } else {
        let rest = items.drop_last();
        let last = items.len() - 1;
        let rest_rows = outcome_rows(rest, outcomes);
        lemma_slots_of_outcome_rows(rest, outcomes);
        let answered = last < outcomes.len() && outcomes[last] is Some;
        assert forall|s: u64| processed_slots(rows).contains(s) implies answered_slots(
            items,
            outcomes,
        ).contains(s) by {
            let k = choose|k: int| 0 <= k < rows.len() && (#[trigger] rows[k]).slot == s;
            if k < rest_rows.len() {
                assert(rest_rows[k].slot == s);
                assert(answered_slots(rest, outcomes).contains(s));
                let i = choose|i: int|
                    0 <= i < rest.len() && i < outcomes.len() && outcomes[i] is Some && (
                    #[trigger] rest[i]).slot == s;
                assert(items[i].slot == s);
            } else {
                assert(items[last].slot == s);
            }
        }
        assert forall|s: u64| answered_slots(items, outcomes).contains(s) implies processed_slots(
            rows,
        ).contains(s) by {
            let i = choose|i: int|
                0 <= i < items.len() && i < outcomes.len() && outcomes[i] is Some && (
                #[trigger] items[i]).slot == s;
            if i < last {
                assert(rest[i].slot == s);
                assert(processed_slots(rest_rows).contains(s));
                let k = choose|k: int|
                    0 <= k < rest_rows.len() && (#[trigger] rest_rows[k]).slot == s;
                assert(rows[k].slot == s);
            } else {
                assert(rows[rows.len() - 1].slot == s);
            }
        }
        assert(processed_slots(rows) =~= answered_slots(items, outcomes));
    }
}

/// The rows of a chunk depend on the outcomes of its own entries only.
pub proof fn lemma_outcome_rows_of_own(
    items: Seq<BoostRelayDataEntry>,
    outcomes: Seq<Option<BlockProposerPaymentData>>,
    n: int,
)
    requires
        items.len() <= n <= outcomes.len(),
    ensures
        outcome_rows(items, outcomes.take(n)) == outcome_rows(items, outcomes),
    decreases items.len(),
{
    if items.len() > 0 {
        lemma_outcome_rows_of_own(items.drop_last(), outcomes, n);
    }
}

/// Works off every chunk that is still due, with answers that are known
/// beforehand: `outcomes[i]` is what the node answered for the entry `i`
/// places behind those already done. Returns the rows of all those chunks,
/// chunk after chunk, which is what a caller gathers who asks for each
/// chunk in turn and closes it with the answers for its entries.
pub fn finish(pipeline: &mut BatchPipeline, outcomes: &[Option<BlockProposerPaymentData>]) -> (rows:
    Vec<OutputFileEntry>)
    requires
        outcomes@.len() == old(pipeline).queue().len() - old(pipeline).done(),
    ensures
        rows_of(rows@) == run_rows(
            old(pipeline).queue().skip(old(pipeline).done() as int),
            outcomes@,
            old(pipeline).chunk_size() as nat,
        ),
        final(pipeline).done() == old(pipeline).queue().len(),
        final(pipeline).queue() == old(pipeline).queue(),
        final(pipeline).replayed() == old(pipeline).replayed(),
        final(pipeline).chunk_size() == old(pipeline).chunk_size(),
{
    let ghost queue = pipeline.queue();
    let ghost start = pipeline.done();
    let ghost size = pipeline.chunk_size() as nat;
    let ghost replayed = pipeline.replayed();
    let limit = pipeline.chunk_size();
    let mut rows: Vec<OutputFileEntry> = Vec::new();
    let mut offset: usize = 0;
    let mut left = pipeline.remaining();
    proof {
        assert(outcomes@.skip(0) =~= outcomes@);
        assert(rows_of(rows@) + run_rows(queue.skip(start as int), outcomes@, size) =~= run_rows(
            queue.skip(start as int),
            outcomes@,
            size,
        ));
    }
    while left > 0
        invariant
            size > 0,
            pipeline.queue() == queue,
            pipeline.chunk_size() as nat == size,
            pipeline.replayed() == replayed,
            start <= pipeline.done() <= queue.len(),
            left == queue.len() - pipeline.done(),
            offset == pipeline.done() - start,
            outcomes@.len() == queue.len() - start,
            rows_of(rows@) + run_rows(
                queue.skip(pipeline.done() as int),
                outcomes@.skip(offset as int),
                size,
            ) == run_rows(queue.skip(start as int), outcomes@, size),
        decreases left,
    {
        let ghost done = pipeline.done();
        let ghost pending = queue.skip(done as int);
        let ghost answers = outcomes@.skip(offset as int);
        let ghost n = chunk_len(pending.len(), size) as int;
        let ghost gathered = rows_of(rows@);
        let mut appended = pipeline.complete_chunk(&outcomes[offset..outcomes.len()]);
        proof {
            assert(outcomes@.subrange(offset as int, outcomes@.len() as int) =~= answers);
            assert(queue.subrange(done as int, done + n) =~= pending.take(n));
            lemma_outcome_rows_of_own(pending.take(n), answers, n);
            lemma_run_rows_unfold(pending, answers, size);
            assert(pending.skip(n) =~= queue.skip(done + n));
            assert(answers.skip(n) =~= outcomes@.skip(offset + n));
            assert(rows_of(rows@ + appended@) =~= gathered + rows_of(appended@));
            assert(gathered + rows_of(appended@) + run_rows(
                pending.skip(n),
                answers.skip(n),
                size,
            ) =~= gathered + (rows_of(appended@) + run_rows(
                pending.skip(n),
                answers.skip(n),
                size,
            )));
        }
        rows.append(&mut appended);
        let now = pipeline.remaining();
        offset = offset + (left - now);
        left = now;
    }
    proof {
        assert(queue.skip(queue.len() as int) =~= Seq::<BoostRelayDataEntry>::empty());
        assert(run_rows(
            queue.skip(pipeline.done() as int),
            outcomes@.skip(offset as int),
            size,
        ) =~= Seq::<OutputRow>::empty());
        assert(rows_of(rows@) + Seq::<OutputRow>::empty() =~= rows_of(rows@));
    }
    rows
}

/// The answered slots of a queue are those of its first entries together
/// with those of the rest.
proof fn lemma_answered_slots_split(
    queue: Seq<BoostRelayDataEntry>,
    outcomes: Seq<Option<BlockProposerPaymentData>>,
    n: int,
)
    requires
        0 <= n <= queue.len(),
        outcomes.len() == queue.len(),
    ensures
        answered_slots(queue, outcomes) == answered_slots(queue.take(n), outcomes.take(n)).union(
            answered_slots(queue.skip(n), outcomes.skip(n)),
        ),
{
    let head = answered_slots(queue.take(n), outcomes.take(n));
    let tail = answered_slots(queue.skip(n), outcomes.skip(n));
    assert forall|s: u64| answered_slots(queue, outcomes).contains(s) implies head.union(
        tail,
    ).contains(s) by {
        let i = choose|i: int|
            0 <= i < queue.len() && i < outcomes.len() && outcomes[i] is Some && (
            #[trigger] queue[i]).slot == s;
        if i < n {
            assert(queue.take(n)[i].slot == s);
            assert(outcomes.take(n)[i] is Some);
        } else {
            assert(queue.skip(n)[i - n].slot == s);
            assert(outcomes.skip(n)[i - n] is Some);
        }
    }
    assert forall|s: u64| head.union(tail).contains(s) implies answered_slots(
        queue,
        outcomes,
    ).contains(s) by {
        if head.contains(s) {
            let i = choose|i: int|
                0 <= i < queue.take(n).len() && i < outcomes.take(n).len() && outcomes.take(
                    n,
                )[i] is Some && (#[trigger] queue.take(n)[i]).slot == s;
            assert(queue[i].slot == s);
        } else {
            let i = choose|i: int|
                0 <= i < queue.skip(n).len() && i < outcomes.skip(n).len() && outcomes.skip(
                    n,
                )[i] is Some && (#[trigger] queue.skip(n)[i]).slot == s;
            assert(queue[i + n].slot == s);
        }
    }
    assert(answered_slots(queue, outcomes) =~= head.union(tail));
}

/// A run's rows split into those of its first chunk and those of the rest.
pub proof fn lemma_run_rows_unfold(
    queue: Seq<BoostRelayDataEntry>,
    outcomes: Seq<Option<BlockProposerPaymentData>>,
    chunk_size: nat,
)
    requires
        chunk_size > 0,
        queue.len() > 0,
    ensures
        ({
            let n = chunk_len(queue.len(), chunk_size) as int;
            run_rows(queue, outcomes, chunk_size) == chunk_rows(queue.take(n), outcomes.take(n))
                + run_rows(queue.skip(n), outcomes.skip(n), chunk_size)
        }),
{
    let n = chunk_len(queue.len(), chunk_size) as int;
    let first = seq![chunk_rows(queue.take(n), outcomes.take(n))];
    let rest = chunk_groups(queue.skip(n), outcomes.skip(n), chunk_size);
    vstd::seq_lib::lemma_flatten_concat(first, rest);
    first.lemma_flatten_one_element();
}

/// The rows that a run appends have the slots of the entries that the node
/// answered for.
pub proof fn lemma_slots_of_run_rows(
    queue: Seq<BoostRelayDataEntry>,
    outcomes: Seq<Option<BlockProposerPaymentData>>,
    chunk_size: nat,
)
    requires
        chunk_size > 0,
        outcomes.len() == queue.len(),
    ensures
        processed_slots(run_rows(queue, outcomes, chunk_size)) == answered_slots(queue, outcomes),
    decreases queue.len(),
{
    if queue.len() == 0 {
        assert(processed_slots(run_rows(queue, outcomes, chunk_size)) =~= answered_slots(
            queue,
            outcomes,
        ));
    } else {
        let n = chunk_len(queue.len(), chunk_size) as int;
        let head = chunk_rows(queue.take(n), outcomes.take(n));
        let tail = run_rows(queue.skip(n), outcomes.skip(n), chunk_size);
        lemma_run_rows_unfold(queue, outcomes, chunk_size);
        lemma_slots_of_concat(head, tail);
        lemma_slots_of_sorted(outcome_rows(queue.take(n), outcomes.take(n)));
        lemma_slots_of_outcome_rows(queue.take(n), outcomes.take(n));
        lemma_slots_of_run_rows(queue.skip(n), outcomes.skip(n), chunk_size);
        lemma_answered_slots_split(queue, outcomes, n);
    }
}

/// Skipping the slots of two sets is skipping those of the first and then
/// those of the second.
proof fn lemma_work_queue_twice(inputs: Seq<BoostRelayDataEntry>, first: Set<u64>, second: Set<u64>)
    ensures
        work_queue(inputs, first.union(second)) == work_queue(work_queue(inputs, first), second),
    decreases inputs.len(),
{
    reveal(Seq::filter);
    if inputs.len() > 0 {
        let rest = inputs.drop_last();
        let last = inputs.last();
        lemma_work_queue_twice(rest, first, second);
        if !first.contains(last.slot) {
            assert(work_queue(rest, first).push(last).drop_last() =~= work_queue(rest, first));
        }
    }
}

/// Nothing is queued where every slot is skipped.
proof fn lemma_work_queue_empty(inputs: Seq<BoostRelayDataEntry>, processed: Set<u64>)
    requires
        forall|i: int| 0 <= i < inputs.len() ==> processed.contains((#[trigger] inputs[i]).slot),
    ensures
        work_queue(inputs, processed) == Seq::<BoostRelayDataEntry>::empty(),
    decreases inputs.len(),
{
    reveal(Seq::filter);
    if inputs.len() > 0 {
        let rest = inputs.drop_last();
        assert forall|i: int| 0 <= i < rest.len() implies processed.contains(
            (#[trigger] rest[i]).slot,
        ) by {
            assert(inputs[i].slot == rest[i].slot);
        }
        lemma_work_queue_empty(rest, processed);
        assert(processed.contains(inputs[inputs.len() - 1].slot));
    }
}

/// A run that follows another on the same input, with the rows of the first
/// kept, writes those rows back unchanged and first, and queues exactly the
/// entries that the first run queued and whose slot the node did not answer
/// for. No entry whose slot has a row is asked about again.
pub proof fn lemma_rerun_resumes(
    existing: Seq<OutputRow>,
    inputs: Seq<BoostRelayDataEntry>,
    outcomes: Seq<Option<BlockProposerPaymentData>>,
    chunk_size: nat,
    later_outcomes: Seq<Option<BlockProposerPaymentData>>,
    later_chunk_size: nat,
)
    requires
        chunk_size > 0,
        outcomes.len() == work_queue(inputs, processed_slots(existing)).len(),
    ensures
        ({
            let queue = work_queue(inputs, processed_slots(existing));
            let first = run_output(existing, inputs, outcomes, chunk_size);
            let again = work_queue(inputs, processed_slots(first));
            let second = run_output(first, inputs, later_outcomes, later_chunk_size);
            &&& again == work_queue(queue, answered_slots(queue, outcomes))
            &&& forall|k: int|
                0 <= k < again.len() ==> !processed_slots(first).contains((#[trigger] again[k]).slot)
            &&& first.len() <= second.len()
            &&& second.subrange(0, first.len() as int) == first
        }),
{
    let queue = work_queue(inputs, processed_slots(existing));
    let first = run_output(existing, inputs, outcomes, chunk_size);
    let second = run_output(first, inputs, later_outcomes, later_chunk_size);
    lemma_slots_of_concat(existing, run_rows(queue, outcomes, chunk_size));
    lemma_slots_of_run_rows(queue, outcomes, chunk_size);
    lemma_work_queue_twice(inputs, processed_slots(existing), answered_slots(queue, outcomes));
    lemma_processed_slots_are_skipped(inputs, first);
    assert(second.subrange(0, first.len() as int) =~= first);
}

/// Running twice is running once: where the node answered for every entry
/// of a run, a second run on the same input with the rows kept queues
/// nothing, so it asks the node nothing, and it leaves the same rows.
pub proof fn lemma_rerun_is_idempotent(
    existing: Seq<OutputRow>,
    inputs: Seq<BoostRelayDataEntry>,
    outcomes: Seq<Option<BlockProposerPaymentData>>,
    chunk_size: nat,
    later_outcomes: Seq<Option<BlockProposerPaymentData>>,
    later_chunk_size: nat,
)
    requires
        chunk_size > 0,
        outcomes.len() == work_queue(inputs, processed_slots(existing)).len(),
        forall|i: int| 0 <= i < outcomes.len() ==> (#[trigger] outcomes[i]) is Some,
    ensures
        ({
            let first = run_output(existing, inputs, outcomes, chunk_size);
            &&& work_queue(inputs, processed_slots(first)) == Seq::<BoostRelayDataEntry>::empty()
            &&& run_output(first, inputs, later_outcomes, later_chunk_size) == first
        }),
{
    let queue = work_queue(inputs, processed_slots(existing));
    let first = run_output(existing, inputs, outcomes, chunk_size);
    lemma_rerun_resumes(existing, inputs, outcomes, chunk_size, later_outcomes, later_chunk_size);
    assert forall|i: int| 0 <= i < queue.len() implies answered_slots(queue, outcomes).contains(
        (#[trigger] queue[i]).slot,
    ) by {
        assert(outcomes[i] is Some);
    }
    lemma_work_queue_empty(queue, answered_slots(queue, outcomes));
    let again = work_queue(inputs, processed_slots(first));
    assert(chunk_groups(again, later_outcomes, later_chunk_size) =~= Seq::<Seq<OutputRow>>::empty());
    assert(run_output(first, inputs, later_outcomes, later_chunk_size) =~= first);
}

/// The rows of every chunk are in ascending order of slot, and the rows of a
/// run are the rows of its chunks in the order of the chunks: those of chunk
/// `k` stand together, behind all rows of the chunks before it and before
/// all rows of the chunks after it.
pub proof fn lemma_chunk_barrier(
    queue: Seq<BoostRelayDataEntry>,
    outcomes: Seq<Option<BlockProposerPaymentData>>,
    chunk_size: nat,
    k: int,
)
    requires
        outcomes.len() == queue.len(),
        0 <= k < chunk_groups(queue, outcomes, chunk_size).len(),
    ensures
        ({
            let groups = chunk_groups(queue, outcomes, chunk_size);
            let rows = run_rows(queue, outcomes, chunk_size);
            &&& ascending_by_slot(groups[k])
            &&& rows_before(groups, k + 1) == rows_before(groups, k) + groups[k].len()
            &&& rows_before(groups, k + 1) <= rows.len()
            &&& rows.subrange(rows_before(groups, k) as int, rows_before(groups, k + 1) as int)
                == groups[k]
        }),
{
    let groups = chunk_groups(queue, outcomes, chunk_size);
    let rows = run_rows(queue, outcomes, chunk_size);
    lemma_group_is_chunk(queue, outcomes, chunk_size, k);
    let before = groups.take(k);
    let through = groups.take(k + 1);
    let after = groups.skip(k + 1);
    assert(through =~= before.push(groups[k]));
    before.lemma_flatten_push(groups[k]);
    assert(groups =~= through + after);
    vstd::seq_lib::lemma_flatten_concat(through, after);
    assert(rows.subrange(rows_before(groups, k) as int, rows_before(groups, k + 1) as int)
        =~= groups[k]);
}

/// The first entry of chunk `k` of a queue, counted from the head of the
/// queue.
pub open spec fn chunk_start(chunk_size: nat, k: int) -> int {
    k * chunk_size
}

/// Chunk `k` of a run holds the rows of the queue's entries from
/// `k * chunk_size` on, `chunk_size` of them or as many as are left, in
/// ascending order of slot.
pub proof fn lemma_group_is_chunk(
    queue: Seq<BoostRelayDataEntry>,
    outcomes: Seq<Option<BlockProposerPaymentData>>,
    chunk_size: nat,
    k: int,
)
    requires
        outcomes.len() == queue.len(),
        0 <= k < chunk_groups(queue, outcomes, chunk_size).len(),
    ensures
        ({
            let from = chunk_start(chunk_size, k);
            let to = from + chunk_len((queue.len() - from) as nat, chunk_size);
            &&& chunk_size > 0
            &&& 0 <= from < to <= queue.len()
            &&& chunk_groups(queue, outcomes, chunk_size)[k] == chunk_rows(
                queue.subrange(from, to),
                outcomes.subrange(from, to),
            )
            &&& ascending_by_slot(chunk_groups(queue, outcomes, chunk_size)[k])
        }),
    decreases k,
{
    let n = chunk_len(queue.len(), chunk_size) as int;
    let rest = chunk_groups(queue.skip(n), outcomes.skip(n), chunk_size);
    let first = seq![chunk_rows(queue.take(n), outcomes.take(n))];
    if k == 0 {
        assert(queue.subrange(0, n) =~= queue.take(n));
        assert(outcomes.subrange(0, n) =~= outcomes.take(n));
        assert(chunk_start(chunk_size, k) == 0) by (nonlinear_arith)
            requires
                k == 0,
                chunk_start(chunk_size, k) == k * chunk_size,
        ;
        lemma_sorted_is_ascending(outcome_rows(queue.take(n), outcomes.take(n)));
    } else {
        assert((first + rest)[k] == rest[k - 1]);
        lemma_group_is_chunk(queue.skip(n), outcomes.skip(n), chunk_size, k - 1);
        let from = chunk_start(chunk_size, k - 1);
        let to = from + chunk_len((queue.skip(n).len() - from) as nat, chunk_size);
        assert(n == chunk_size);
        assert(chunk_start(chunk_size, k) == from + n) by (nonlinear_arith)
            requires
                from == (k - 1) * chunk_size,
                n == chunk_size,
                chunk_start(chunk_size, k) == k * chunk_size,
        ;
        assert(queue.skip(n).subrange(from, to) =~= queue.subrange(from + n, to + n));
        assert(outcomes.skip(n).subrange(from, to) =~= outcomes.subrange(from + n, to + n));
    }
}

} // verus!
