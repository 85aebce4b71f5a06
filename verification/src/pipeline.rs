//! A resumable batch run over many slots.
//!
//! A run starts from the rows that earlier runs left and the entries it is
//! asked to process. Entries whose slot already has a row are skipped. The
//! rest is worked off in chunks of a fixed size, in input order: the caller
//! asks the node about every entry of a chunk, hands back what it learned,
//! and is given the rows to append for that chunk. An entry for which the
//! node gave no answer gets no row and is taken up again by the next run.
use crate::payment::BlockProposerPaymentData;
use crate::record::{output_row, process_input_entry, BoostRelayDataEntry, OutputFileEntry, OutputRow};
use crate::sorting::{rows_of, sort_by_slot, sorted_by_slot};
use std::collections::HashSet;
use vstd::prelude::*;

verus! {

/// The slots that have a row.
pub open spec fn processed_slots(rows: Seq<OutputRow>) -> Set<u64> {
    Set::new(|slot: u64| exists|i: int| 0 <= i < rows.len() && (#[trigger] rows[i]).slot == slot)
}

/// The entries that still need work: those whose slot is not among
/// `processed`, in input order.
pub open spec fn work_queue(inputs: Seq<BoostRelayDataEntry>, processed: Set<u64>) -> Seq<
    BoostRelayDataEntry,
> {
    inputs.filter(|e: BoostRelayDataEntry| !processed.contains(e.slot))
}

/// The size of the next chunk when `pending` entries are left.
pub open spec fn chunk_len(pending: nat, chunk_size: nat) -> nat {
    if pending < chunk_size {
        pending
    } else {
        chunk_size
    }
}

/// The rows of the entries that the node answered for, in the order of the
/// entries. `outcomes[i]` is what was learned for `items[i]`; an entry
/// without an outcome, or with an empty one, gets no row.
pub open spec fn outcome_rows(
    items: Seq<BoostRelayDataEntry>,
    outcomes: Seq<Option<BlockProposerPaymentData>>,
) -> Seq<OutputRow>
    decreases items.len(),
{
    if items.len() == 0 {
        Seq::empty()
    } else {
        let rest = outcome_rows(items.drop_last(), outcomes);
        let last = items.len() - 1;
        if last < outcomes.len() && outcomes[last] is Some {
            rest.push(output_row(items.last(), outcomes[last]->0))
        } else {
            rest
        }
    }
}

/// The rows that one chunk appends: the rows of its answered entries, in
/// ascending order of slot.
pub open spec fn chunk_rows(
    items: Seq<BoostRelayDataEntry>,
    outcomes: Seq<Option<BlockProposerPaymentData>>,
) -> Seq<OutputRow> {
    sorted_by_slot(outcome_rows(items, outcomes))
}

/// Gathers the slots of the rows that earlier runs left.
pub fn load_processed_slots(existing: &[OutputFileEntry]) -> (slots: HashSet<u64>)
    ensures
        slots@ == processed_slots(rows_of(existing@)),
{
    broadcast use vstd::std_specs::hash::group_hash_axioms;

    let mut slots: HashSet<u64> = HashSet::new();
    let mut i: usize = 0;
    while i < existing.len()
        invariant
            i <= existing@.len(),
            slots@ == processed_slots(rows_of(existing@.take(i as int))),
        decreases existing@.len() - i,
    {
        let slot = existing[i].slot;
        slots.insert(slot);
        proof {
            let before = rows_of(existing@.take(i as int));
            let now = rows_of(existing@.take(i + 1));
            assert(now[i as int].slot == slot);
            assert forall|s: u64| processed_slots(now).contains(s) implies processed_slots(
                before,
            ).insert(slot).contains(s) by {
                let k = choose|k: int| 0 <= k < now.len() && (#[trigger] now[k]).slot == s;
                if k < i {
                    assert(before[k].slot == s);
                }
            }
            assert forall|s: u64| processed_slots(before).contains(s) implies processed_slots(
                now,
            ).contains(s) by {
                let k = choose|k: int| 0 <= k < before.len() && (#[trigger] before[k]).slot == s;
                assert(now[k].slot == s);
            }
            assert(processed_slots(now) =~= processed_slots(before).insert(slot));
        }
        i = i + 1;
    }
    proof {
        assert(existing@.take(existing@.len() as int) =~= existing@);
    }
    slots
}

/// Drops the entries whose slot is among `processed`; the rest stays in
/// input order.
pub fn pending_entries(inputs: &[BoostRelayDataEntry], processed: &HashSet<u64>) -> (queue: Vec<
    BoostRelayDataEntry,
>)
    ensures
        queue@ == work_queue(inputs@, processed@),
        forall|i: int| 0 <= i < queue@.len() ==> !processed@.contains((#[trigger] queue@[i]).slot),
{
    broadcast use vstd::std_specs::hash::group_hash_axioms;

    let mut queue: Vec<BoostRelayDataEntry> = Vec::new();
    let mut i: usize = 0;
    while i < inputs.len()
        invariant
            i <= inputs@.len(),
            queue@ == work_queue(inputs@.take(i as int), processed@),
            forall|k: int| 0 <= k < queue@.len() ==> !processed@.contains((#[trigger] queue@[k]).slot),
        decreases inputs@.len() - i,
    {
        let entry = inputs[i];
        proof {
            reveal(Seq::filter);
            assert(inputs@.take(i + 1).drop_last() =~= inputs@.take(i as int));
        }
        if !processed.contains(&entry.slot) {
            queue.push(entry);
        }
        i = i + 1;
    }
    proof {
        assert(inputs@.take(inputs@.len() as int) =~= inputs@);
    }
    queue
}

/// The state of a batch run: the rows found at the start, the entries that
/// need work, and how many of them are done.
pub struct BatchPipeline {
    existing: Vec<OutputFileEntry>,
    queue: Vec<BoostRelayDataEntry>,
    chunk_size: usize,
    done: usize,
}

impl BatchPipeline {
    #[verifier::type_invariant]
    spec fn valid(self) -> bool {
        self.chunk_size > 0 && self.done <= self.queue@.len()
    }

    /// The rows that earlier runs left, which this run writes back first.
    pub closed spec fn replayed(self) -> Seq<OutputRow> {
        rows_of(self.existing@)
    }

    /// The entries that this run works on, in input order.
    pub closed spec fn queue(self) -> Seq<BoostRelayDataEntry> {
        self.queue@
    }

    /// The number of entries that are worked on at a time.
    pub closed spec fn spec_chunk_size(&self) -> usize {
        self.chunk_size
    }

    /// The number of entries that are worked on at a time; never zero.
    #[verifier::when_used_as_spec(spec_chunk_size)]
    pub fn chunk_size(&self) -> (n: usize)
        ensures
            n == self.spec_chunk_size(),
            n > 0,
    {
        proof {
            use_type_invariant(self);
        }
        self.chunk_size
    }

    /// The number of entries whose chunks are completed.
    pub closed spec fn done(self) -> nat {
        self.done as nat
    }

    /// The entries of the chunk that is due, none where the run is over.
    pub open spec fn due(self) -> Seq<BoostRelayDataEntry> {
        self.queue().subrange(
            self.done() as int,
            self.done() as int + chunk_len(
                (self.queue().len() - self.done()) as nat,
                self.chunk_size() as nat,
            ),
        )
    }

    /// Starts a run: notes the slots that have a row and queues the entries
    /// of all other slots.
    pub fn new(
        existing: Vec<OutputFileEntry>,
        inputs: &[BoostRelayDataEntry],
        chunk_size: usize,
    ) -> (run: BatchPipeline)
        requires
            chunk_size > 0,
        ensures
            run.replayed() == rows_of(existing@),
            run.queue() == work_queue(inputs@, processed_slots(rows_of(existing@))),
            run.chunk_size() == chunk_size,
            run.done() == 0,
    {
        let processed = load_processed_slots(existing.as_slice());
        let queue = pending_entries(inputs, &processed);
        BatchPipeline { existing, queue, chunk_size, done: 0 }
    }

    /// The rows to write before the first chunk: those that earlier runs
    /// left, unchanged and in their order.
    pub fn replay_rows(&self) -> (rows: &Vec<OutputFileEntry>)
        ensures
            rows_of(rows@) == self.replayed(),
    {
        &self.existing
    }

    /// The number of entries that still wait for their chunk.
    pub fn remaining(&self) -> (n: usize)
        ensures
            n == self.queue().len() - self.done(),
    {
        proof {
            use_type_invariant(self);
        }
        self.queue.len() - self.done
    }

    /// The entries to ask the node about next, in input order; nothing once
    /// every entry has had its chunk.
    pub fn next_chunk(&self) -> (items: Option<Vec<BoostRelayDataEntry>>)
        ensures
            items is None <==> self.done() == self.queue().len(),
            items matches Some(list) ==> list@ == self.due(),
    {
        proof {
            use_type_invariant(self);
        }
        let pending = self.queue.len() - self.done;
        if pending == 0 {
            return None;
        }
        let count = if pending < self.chunk_size {
            pending
        } else {
            self.chunk_size
        };
        let mut items: Vec<BoostRelayDataEntry> = Vec::new();
        let mut i: usize = 0;
        while i < count
            invariant
                i <= count,
                self.done + count <= self.queue@.len() <= usize::MAX,
                items@ == self.queue@.subrange(self.done as int, self.done + i),
            decreases count - i,
        {
            items.push(self.queue[self.done + i]);
            proof {
                assert(self.queue@.subrange(self.done as int, self.done + i).push(
                    self.queue@[self.done + i],
                ) =~= self.queue@.subrange(self.done as int, self.done + i + 1));
            }
            i = i + 1;
        }
        Some(items)
    }

    /// Closes the chunk that is due. `outcomes[i]` is what was learned for
    /// the chunk's entry `i`, nothing where the node gave no answer. Returns
    /// the rows to append: one for each answered entry, in ascending order of
    /// slot.
    pub fn complete_chunk(&mut self, outcomes: &[Option<BlockProposerPaymentData>]) -> (rows: Vec<
        OutputFileEntry,
    >)
        ensures
            rows_of(rows@) == chunk_rows(old(self).due(), outcomes@),
            final(self).done() == old(self).done() + old(self).due().len(),
            final(self).queue() == old(self).queue(),
            final(self).replayed() == old(self).replayed(),
            final(self).chunk_size() == old(self).chunk_size(),
    {
        proof {
            use_type_invariant(&*self);
        }
        let pending = self.queue.len() - self.done;
        let count = if pending < self.chunk_size {
            pending
        } else {
            self.chunk_size
        };
        let ghost items = self.queue@.subrange(self.done as int, self.done + count);
        let mut rows: Vec<OutputFileEntry> = Vec::new();
        let mut i: usize = 0;
        while i < count
            invariant
                i <= count,
                self.done + count <= self.queue@.len() <= usize::MAX,
                items == self.queue@.subrange(self.done as int, self.done + count),
                rows_of(rows@) == outcome_rows(items.take(i as int), outcomes@),
            decreases count - i,
        {
            proof {
                assert(items.take(i + 1).drop_last() =~= items.take(i as int));
            }
            if i < outcomes.len() {
                match &outcomes[i] {
                    Some(data) => {
                        let entry = process_input_entry(&self.queue[self.done + i], data);
                        proof {
                            assert(rows_of(rows@.push(entry)) =~= rows_of(rows@).push(entry@));
                        }
                        rows.push(entry);
                    },
                    None => {},
                }
            }
            i = i + 1;
        }
        proof {
            assert(items.take(count as int) =~= items);
        }
        sort_by_slot(&mut rows);
        self.done = self.done + count;
        rows
    }
}

} // verus!
