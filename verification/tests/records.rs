use proposer_payment::amount::U256;
use proposer_payment::payment::{
    assemble_payment_data, Block, BlockProposerPaymentData, ProposerPayment, Transaction,
    Withdrawal,
};
use proposer_payment::primitives::{Address, TxHash};
use proposer_payment::record::{
    count_received, count_sent, process_input_entry, BoostRelayDataEntry, OutputFileEntry,
};
use proposer_payment::transfers::{Action, Call, CallType, Trace, TransferData};

const RECIPIENT: u8 = 0xaa;
const BUILDER: u8 = 0xbb;

fn addr(tag: u8) -> Address {
    Address { bytes: [tag; 20] }
}

fn hash(tag: u8) -> TxHash {
    TxHash { bytes: [tag; 32] }
}

fn wei(low: u64) -> U256 {
    U256 { limbs: [low, 0, 0, 0] }
}

fn transfer(from: u8, to: u8, value: u64, tx: u8) -> TransferData {
    TransferData {
        block_number: 17,
        tx_hash: hash(tx),
        from: addr(from),
        to: addr(to),
        value: wei(value),
    }
}

fn withdrawal(index: u64, to: u8, amount: u64) -> Withdrawal {
    Withdrawal {
        index,
        validator_index: index + 1000,
        address: addr(to),
        amount: wei(amount),
    }
}

fn input(slot: u64) -> BoostRelayDataEntry {
    BoostRelayDataEntry {
        slot,
        proposer_fee_recipient: addr(RECIPIENT),
        value: wei(100),
        block_number: 17,
    }
}

fn data(
    payment: ProposerPayment,
    transfers: Vec<TransferData>,
    withdrawals: Vec<Withdrawal>,
) -> BlockProposerPaymentData {
    BlockProposerPaymentData {
        block_number: 17,
        fee_recipient: addr(RECIPIENT),
        bid_value: wei(100),
        fee_recipient_transfers: transfers,
        fee_recipient_withdrawals: withdrawals,
        payment,
        balance_diff: wei(42),
    }
}

fn direct() -> ProposerPayment {
    ProposerPayment::LastTxDirect {
        from: addr(BUILDER),
        to: addr(RECIPIENT),
        value: wei(5),
    }
}

#[test]
fn counts_incoming_and_outgoing_transfers() {
    let transfers = vec![
        transfer(BUILDER, RECIPIENT, 1, 1),
        transfer(RECIPIENT, BUILDER, 2, 1),
        transfer(RECIPIENT, RECIPIENT, 3, 1),
        transfer(BUILDER, BUILDER, 4, 1),
        transfer(BUILDER, RECIPIENT, 5, 2),
    ];
    assert_eq!(count_received(&transfers, &addr(RECIPIENT)), 3);
    assert_eq!(count_sent(&transfers, &addr(RECIPIENT)), 2);
    assert_eq!(count_received(&[], &addr(RECIPIENT)), 0);
    assert_eq!(count_sent(&[], &addr(RECIPIENT)), 0);
}

#[test]
fn a_coinbase_record_counts_the_withdrawals() {
    let found = data(
        ProposerPayment::Coinbase(addr(RECIPIENT)),
        vec![transfer(BUILDER, RECIPIENT, 1, 1), transfer(RECIPIENT, BUILDER, 2, 1)],
        vec![withdrawal(1, RECIPIENT, 10), withdrawal(3, RECIPIENT, 30)],
    );
    let entry = process_input_entry(&input(100), &found);
    assert_eq!(
        entry,
        OutputFileEntry {
            slot: 100,
            block_number: 17,
            bid_value: wei(100),
            balance_diff: wei(42),
            payment_type: String::from("coinbase"),
            withdrawals: 2,
            transfers: 2,
            transfers_in: 1,
            transfers_out: 1,
        }
    );
}

#[test]
fn a_direct_payment_is_not_counted_twice() {
    let traces = vec![Trace {
        action: Action::Call(Call {
            from: addr(BUILDER),
            to: addr(RECIPIENT),
            value: wei(5),
            call_type: CallType::Call,
        }),
        error: None,
        block_number: 17,
        transaction_hash: Some(hash(2)),
    }];
    let block = Block {
        author: Some(addr(BUILDER)),
        transactions: vec![Transaction {
            hash: hash(2),
            from: addr(BUILDER),
            to: Some(addr(RECIPIENT)),
            value: wei(5),
        }],
        withdrawals: None,
    };
    let found = assemble_payment_data(
        17,
        addr(RECIPIENT),
        wei(100),
        &traces,
        Some(block),
        wei(10),
        wei(15),
    )
    .unwrap();
    assert_eq!(found.fee_recipient_transfers.len(), 1);
    let entry = process_input_entry(&input(100), &found);
    assert_eq!(
        entry,
        OutputFileEntry {
            slot: 100,
            block_number: 17,
            bid_value: wei(100),
            balance_diff: wei(5),
            payment_type: String::from("last_tx_direct"),
            withdrawals: 0,
            transfers: 0,
            transfers_in: 0,
            transfers_out: 0,
        }
    );
}

#[test]
fn a_last_tx_payment_leaves_one_transfer_out() {
    let transfers = vec![
        transfer(BUILDER, RECIPIENT, 1, 1),
        transfer(RECIPIENT, BUILDER, 2, 1),
        transfer(BUILDER, RECIPIENT, 5, 2),
    ];
    let entry = process_input_entry(&input(7), &data(direct(), transfers.clone(), Vec::new()));
    assert_eq!(entry.transfers, 2);
    assert_eq!(entry.transfers_in, 1);
    assert_eq!(entry.transfers_out, 1);
    let contract = ProposerPayment::LastTxContract {
        from: addr(BUILDER),
        contract: addr(0xcc),
        value: wei(5),
    };
    let entry = process_input_entry(&input(7), &data(contract, transfers, Vec::new()));
    assert_eq!(entry.payment_type, "last_tx_contract");
    assert_eq!(entry.transfers, 2);
    assert_eq!(entry.transfers_in, 1);
    assert_eq!(entry.transfers_out, 1);
}

#[test]
fn other_payments_leave_no_transfer_out() {
    let transfers = vec![
        transfer(BUILDER, RECIPIENT, 1, 1),
        transfer(RECIPIENT, BUILDER, 2, 1),
        transfer(BUILDER, RECIPIENT, 5, 2),
    ];
    let entry = process_input_entry(
        &input(7),
        &data(ProposerPayment::Unknown, transfers, Vec::new()),
    );
    assert_eq!(entry.payment_type, "unknown");
    assert_eq!(entry.transfers, 3);
    assert_eq!(entry.transfers_in, 2);
    assert_eq!(entry.transfers_out, 1);
}

#[test]
fn counts_do_not_fall_below_zero() {
    let entry = process_input_entry(&input(7), &data(direct(), Vec::new(), Vec::new()));
    assert_eq!(entry.transfers, 0);
    assert_eq!(entry.transfers_in, 0);
    assert_eq!(entry.transfers_out, 0);
}

#[test]
fn only_outgoing_transfers_keep_the_incoming_count_at_zero() {
    let transfers = vec![transfer(RECIPIENT, BUILDER, 2, 1), transfer(RECIPIENT, BUILDER, 3, 1)];
    let entry = process_input_entry(&input(7), &data(direct(), transfers, Vec::new()));
    assert_eq!(entry.transfers, 1);
    assert_eq!(entry.transfers_in, 0);
    assert_eq!(entry.transfers_out, 2);
}

#[test]
fn the_record_takes_slot_from_the_input_and_the_rest_from_the_block() {
    let mut found = data(ProposerPayment::Unknown, Vec::new(), Vec::new());
    found.block_number = 99;
    found.bid_value = wei(1234);
    found.balance_diff = U256 { limbs: [1, 2, 3, 4] };
    let entry = process_input_entry(&input(555), &found);
    assert_eq!(entry.slot, 555);
    assert_eq!(entry.block_number, 99);
    assert_eq!(entry.bid_value, wei(1234));
    assert_eq!(entry.balance_diff, U256 { limbs: [1, 2, 3, 4] });
}
