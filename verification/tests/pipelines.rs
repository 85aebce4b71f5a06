use proposer_payment::amount::U256;
use proposer_payment::payment::{BlockProposerPaymentData, ProposerPayment};
use proposer_payment::pipeline::{load_processed_slots, pending_entries, BatchPipeline};
use proposer_payment::primitives::Address;
use proposer_payment::record::{BoostRelayDataEntry, OutputFileEntry};
use proposer_payment::run::finish;
use proposer_payment::sorting::sort_by_slot;
use std::collections::HashSet;

fn addr(tag: u8) -> Address {
    Address { bytes: [tag; 20] }
}

fn wei(low: u64) -> U256 {
    U256 { limbs: [low, 0, 0, 0] }
}

fn input(slot: u64) -> BoostRelayDataEntry {
    BoostRelayDataEntry {
        slot,
        proposer_fee_recipient: addr(0xaa),
        value: wei(slot * 10),
        block_number: slot + 1_000_000,
    }
}

fn row(slot: u64, mark: &str) -> OutputFileEntry {
    OutputFileEntry {
        slot,
        block_number: slot + 1_000_000,
        bid_value: wei(slot * 10),
        balance_diff: wei(1),
        payment_type: String::from(mark),
        withdrawals: 0,
        transfers: 0,
        transfers_in: 0,
        transfers_out: 0,
    }
}

fn answer(entry: &BoostRelayDataEntry) -> Option<BlockProposerPaymentData> {
    Some(BlockProposerPaymentData {
        block_number: entry.block_number,
        fee_recipient: entry.proposer_fee_recipient,
        bid_value: entry.value,
        fee_recipient_transfers: Vec::new(),
        fee_recipient_withdrawals: Vec::new(),
        payment: ProposerPayment::Unknown,
        balance_diff: wei(1),
    })
}

fn slots(rows: &[OutputFileEntry]) -> Vec<u64> {
    rows.iter().map(|r| r.slot).collect()
}

fn queued(entries: &[BoostRelayDataEntry]) -> Vec<u64> {
    entries.iter().map(|e| e.slot).collect()
}

/// Runs a whole batch; `answers` says for which slots the node answers.
fn run(
    existing: Vec<OutputFileEntry>,
    inputs: &[BoostRelayDataEntry],
    chunk_size: usize,
    answers: &dyn Fn(u64) -> bool,
) -> (Vec<OutputFileEntry>, Vec<u64>) {
    let mut pipeline = BatchPipeline::new(existing, inputs, chunk_size);
    let mut written: Vec<OutputFileEntry> = pipeline.replay_rows().clone();
    let mut asked = Vec::new();
    while let Some(chunk) = pipeline.next_chunk() {
        assert!(!chunk.is_empty());
        assert!(chunk.len() <= chunk_size);
        let mut outcomes = Vec::new();
        for entry in &chunk {
            asked.push(entry.slot);
            outcomes.push(if answers(entry.slot) { answer(entry) } else { None });
        }
        written.extend(pipeline.complete_chunk(&outcomes));
    }
    assert_eq!(pipeline.remaining(), 0);
    (written, asked)
}

#[test]
fn loads_the_slots_of_existing_rows() {
    let existing = vec![row(5, "a"), row(3, "b"), row(5, "c")];
    let expected: HashSet<u64> = [3u64, 5].into_iter().collect();
    assert_eq!(load_processed_slots(&existing), expected);
    assert!(load_processed_slots(&[]).is_empty());
}

#[test]
fn the_work_queue_skips_the_processed_slot() {
    let inputs = vec![input(100), input(101), input(102)];
    let processed = load_processed_slots(&[row(101, "coinbase")]);
    let queue = pending_entries(&inputs, &processed);
    assert_eq!(queue, vec![input(100), input(102)]);
}

#[test]
fn processed_slots_are_skipped_wherever_they_stand() {
    let existing = vec![row(3, "x"), row(1, "x")];
    let processed = load_processed_slots(&existing);
    let orders: [[u64; 4]; 4] = [[1, 2, 3, 4], [4, 3, 2, 1], [2, 1, 4, 3], [3, 1, 1, 2]];
    for order in orders {
        let inputs: Vec<BoostRelayDataEntry> = order.iter().map(|s| input(*s)).collect();
        let queue = pending_entries(&inputs, &processed);
        let expected: Vec<u64> = order.iter().copied().filter(|s| *s != 1 && *s != 3).collect();
        assert_eq!(queued(&queue), expected);
    }
}

#[test]
fn nothing_processed_queues_everything() {
    let inputs = vec![input(9), input(8), input(9)];
    let queue = pending_entries(&inputs, &HashSet::new());
    assert_eq!(queue, inputs);
}

#[test]
fn sorts_rows_by_slot() {
    let mut rows = vec![row(30, "a"), row(10, "b"), row(20, "c")];
    sort_by_slot(&mut rows);
    assert_eq!(rows, vec![row(10, "b"), row(20, "c"), row(30, "a")]);
    let mut none: Vec<OutputFileEntry> = Vec::new();
    sort_by_slot(&mut none);
    assert!(none.is_empty());
    let mut one = vec![row(1, "z")];
    sort_by_slot(&mut one);
    assert_eq!(one, vec![row(1, "z")]);
}

#[test]
fn sorting_keeps_the_order_of_equal_slots() {
    let mut rows = vec![
        row(2, "first"),
        row(1, "first"),
        row(2, "second"),
        row(1, "second"),
        row(2, "third"),
        row(0, "only"),
    ];
    sort_by_slot(&mut rows);
    assert_eq!(
        rows,
        vec![
            row(0, "only"),
            row(1, "first"),
            row(1, "second"),
            row(2, "first"),
            row(2, "second"),
            row(2, "third"),
        ]
    );
}

#[test]
fn sorting_agrees_with_a_stable_sort() {
    let mut state: u64 = 12345;
    for len in 0..40usize {
        let mut rows = Vec::new();
        for i in 0..len {
            state = state.wrapping_mul(6364136223846793005).wrapping_add(1442695040888963407);
            rows.push(row((state >> 33) % 7, &format!("{}", i)));
        }
        let mut expected = rows.clone();
        expected.sort_by_key(|r| r.slot);
        sort_by_slot(&mut rows);
        assert_eq!(rows, expected);
    }
}

#[test]
fn a_new_run_starts_with_the_old_rows() {
    let existing = vec![row(7, "coinbase"), row(3, "unknown"), row(7, "again")];
    let pipeline = BatchPipeline::new(existing.clone(), &[input(3), input(4)], 2);
    assert_eq!(pipeline.replay_rows(), &existing);
    assert_eq!(pipeline.remaining(), 1);
}

#[test]
fn chunks_have_the_given_size() {
    let inputs: Vec<BoostRelayDataEntry> = (1..=5).map(input).collect();
    let mut pipeline = BatchPipeline::new(Vec::new(), &inputs, 2);
    assert_eq!(pipeline.remaining(), 5);
    assert_eq!(pipeline.next_chunk(), Some(vec![input(1), input(2)]));
    assert_eq!(pipeline.next_chunk(), Some(vec![input(1), input(2)]));
    pipeline.complete_chunk(&[None, None]);
    assert_eq!(pipeline.remaining(), 3);
    assert_eq!(pipeline.next_chunk(), Some(vec![input(3), input(4)]));
    pipeline.complete_chunk(&[None, None]);
    assert_eq!(pipeline.next_chunk(), Some(vec![input(5)]));
    pipeline.complete_chunk(&[None]);
    assert_eq!(pipeline.remaining(), 0);
    assert_eq!(pipeline.next_chunk(), None);
    assert!(pipeline.complete_chunk(&[]).is_empty());
    assert_eq!(pipeline.next_chunk(), None);
}

#[test]
fn an_empty_queue_has_no_chunk() {
    let pipeline = BatchPipeline::new(vec![row(1, "x")], &[input(1)], 10);
    assert_eq!(pipeline.remaining(), 0);
    assert_eq!(pipeline.next_chunk(), None);
}

#[test]
fn a_chunk_larger_than_the_queue_takes_everything() {
    let inputs = vec![input(2), input(1)];
    let pipeline = BatchPipeline::new(Vec::new(), &inputs, 10);
    assert_eq!(pipeline.next_chunk(), Some(inputs));
}

#[test]
fn a_failed_item_is_left_out_of_its_chunk() {
    let inputs = vec![input(12), input(11), input(10)];
    let mut pipeline = BatchPipeline::new(Vec::new(), &inputs, 3);
    let chunk = pipeline.next_chunk().unwrap();
    assert_eq!(chunk.len(), 3);
    let outcomes = vec![answer(&chunk[0]), None, answer(&chunk[2])];
    let rows = pipeline.complete_chunk(&outcomes);
    assert_eq!(slots(&rows), vec![10, 12]);
    assert_eq!(rows[0].bid_value, wei(100));
    assert_eq!(rows[1].bid_value, wei(120));
    assert_eq!(rows[0].payment_type, "unknown");
    assert_eq!(pipeline.next_chunk(), None);
}

#[test]
fn a_missing_outcome_counts_as_failed() {
    let inputs = vec![input(3), input(2), input(1)];
    let mut pipeline = BatchPipeline::new(Vec::new(), &inputs, 3);
    let rows = pipeline.complete_chunk(&[answer(&input(3))]);
    assert_eq!(slots(&rows), vec![3]);
    assert_eq!(pipeline.remaining(), 0);
}

#[test]
fn outcomes_beyond_the_chunk_are_ignored() {
    let inputs = vec![input(3), input(2), input(1)];
    let mut pipeline = BatchPipeline::new(Vec::new(), &inputs, 2);
    let rows = pipeline.complete_chunk(&[answer(&input(3)), answer(&input(2)), answer(&input(1))]);
    assert_eq!(slots(&rows), vec![2, 3]);
    assert_eq!(pipeline.next_chunk(), Some(vec![input(1)]));
}

#[test]
fn rows_take_their_slot_from_the_queue() {
    let inputs = vec![input(5)];
    let mut pipeline = BatchPipeline::new(Vec::new(), &inputs, 1);
    let rows = pipeline.complete_chunk(&[answer(&input(77))]);
    assert_eq!(slots(&rows), vec![5]);
    assert_eq!(rows[0].block_number, 1_000_077);
}

#[test]
fn rows_are_ordered_within_chunks_and_chunks_stay_in_order() {
    let inputs: Vec<BoostRelayDataEntry> = [9u64, 7, 8, 3, 1, 2, 6, 5].iter().map(|s| input(*s)).collect();
    let (written, asked) = run(Vec::new(), &inputs, 3, &|_| true);
    assert_eq!(asked, vec![9, 7, 8, 3, 1, 2, 6, 5]);
    assert_eq!(slots(&written), vec![7, 8, 9, 1, 2, 3, 5, 6]);
}

#[test]
fn old_rows_come_first_and_unchanged() {
    let existing = vec![row(8, "coinbase"), row(2, "last_tx_direct")];
    let inputs: Vec<BoostRelayDataEntry> = [9u64, 8, 7, 2, 1].iter().map(|s| input(*s)).collect();
    let (written, asked) = run(existing.clone(), &inputs, 2, &|_| true);
    assert_eq!(asked, vec![9, 7, 1]);
    assert_eq!(&written[..2], &existing[..]);
    assert_eq!(slots(&written), vec![8, 2, 7, 9, 1]);
}

#[test]
fn a_second_run_changes_nothing_and_asks_nothing() {
    let inputs: Vec<BoostRelayDataEntry> = [4u64, 2, 9, 1, 7].iter().map(|s| input(*s)).collect();
    let (first, asked) = run(vec![row(9, "coinbase")], &inputs, 2, &|_| true);
    assert_eq!(asked, vec![4, 2, 1, 7]);
    let (second, asked_again) = run(first.clone(), &inputs, 3, &|_| true);
    assert!(asked_again.is_empty());
    assert_eq!(second, first);
}

#[test]
fn a_second_run_takes_up_what_failed() {
    let inputs: Vec<BoostRelayDataEntry> = [4u64, 2, 9, 1, 7].iter().map(|s| input(*s)).collect();
    let (first, _) = run(Vec::new(), &inputs, 2, &|slot| slot != 2 && slot != 7);
    assert_eq!(slots(&first), vec![4, 1, 9]);
    let (second, asked_again) = run(first.clone(), &inputs, 2, &|_| true);
    assert_eq!(asked_again, vec![2, 7]);
    assert_eq!(&second[..first.len()], &first[..]);
    assert_eq!(slots(&second), vec![4, 1, 9, 2, 7]);
    let (third, asked_third) = run(second.clone(), &inputs, 2, &|_| true);
    assert!(asked_third.is_empty());
    assert_eq!(third, second);
}

#[test]
fn a_chunk_where_everything_fails_appends_nothing() {
    let inputs = vec![input(1), input(2)];
    let (written, asked) = run(vec![row(5, "x")], &inputs, 2, &|_| false);
    assert_eq!(asked, vec![1, 2]);
    assert_eq!(written, vec![row(5, "x")]);
}

#[test]
fn finishing_with_known_answers_is_closing_chunk_after_chunk() {
    let inputs: Vec<BoostRelayDataEntry> = [9u64, 7, 8, 3, 1, 2, 6, 5].iter().map(|s| input(*s)).collect();
    for chunk_size in 1..10usize {
        let (stepwise, _) = run(vec![row(8, "old")], &inputs, chunk_size, &|slot| slot % 3 != 0);
        let mut pipeline = BatchPipeline::new(vec![row(8, "old")], &inputs, chunk_size);
        assert_eq!(pipeline.chunk_size(), chunk_size);
        let queue: Vec<BoostRelayDataEntry> =
            inputs.iter().copied().filter(|e| e.slot != 8).collect();
        let outcomes: Vec<Option<BlockProposerPaymentData>> = queue
            .iter()
            .map(|e| if e.slot % 3 != 0 { answer(e) } else { None })
            .collect();
        let mut at_once = pipeline.replay_rows().clone();
        at_once.extend(finish(&mut pipeline, &outcomes));
        assert_eq!(pipeline.remaining(), 0);
        assert_eq!(at_once, stepwise);
    }
}

#[test]
fn finishing_a_run_that_is_under_way_takes_the_rest() {
    let inputs: Vec<BoostRelayDataEntry> = [5u64, 4, 3, 2, 1].iter().map(|s| input(*s)).collect();
    let mut pipeline = BatchPipeline::new(Vec::new(), &inputs, 2);
    let first = pipeline.complete_chunk(&[answer(&input(5)), answer(&input(4))]);
    assert_eq!(slots(&first), vec![4, 5]);
    let rest = finish(
        &mut pipeline,
        &[answer(&input(3)), None, answer(&input(1))],
    );
    assert_eq!(slots(&rest), vec![3, 1]);
    assert_eq!(pipeline.next_chunk(), None);
    assert!(finish(&mut pipeline, &[]).is_empty());
}
