//! The records that a batch run reads and writes, one per slot.
use crate::amount::U256;
use crate::payment::BlockProposerPaymentData;
use crate::primitives::Address;
use crate::transfers::TransferData;
use vstd::prelude::*;

verus! {

/// What a relay promised for one slot.
#[derive(Debug, Clone, Copy, PartialEq, Eq)]
pub struct BoostRelayDataEntry {
    pub slot: u64,
    pub proposer_fee_recipient: Address,
    /// The bid that the builder promised to the proposer.
    pub value: U256,
    pub block_number: u64,
}

/// What was found on chain for one slot.
#[derive(Debug, Clone, PartialEq, Eq)]
pub struct OutputFileEntry {
    pub slot: u64,
    pub block_number: u64,
    pub bid_value: U256,
    pub balance_diff: U256,
    pub payment_type: String,
    pub withdrawals: usize,
    pub transfers: usize,
    pub transfers_in: usize,
    pub transfers_out: usize,
}

/// An output record as a mathematical value.
pub struct OutputRow {
    pub slot: u64,
    pub block_number: u64,
    pub bid_value: U256,
    pub balance_diff: U256,
    pub payment_type: Seq<char>,
    pub withdrawals: nat,
    pub transfers: nat,
    pub transfers_in: nat,
    pub transfers_out: nat,
}

impl View for OutputFileEntry {
    type V = OutputRow;

    open spec fn view(&self) -> OutputRow {
        OutputRow {
            slot: self.slot,
            block_number: self.block_number,
            bid_value: self.bid_value,
            balance_diff: self.balance_diff,
            payment_type: self.payment_type@,
            withdrawals: self.withdrawals as nat,
            transfers: self.transfers as nat,
            transfers_in: self.transfers_in as nat,
            transfers_out: self.transfers_out as nat,
        }
    }
}

/// The transfers that pay `recipient`.
pub open spec fn received_by(transfers: Seq<TransferData>, recipient: Address) -> Seq<
    TransferData,
> {
    transfers.filter(|t: TransferData| t.to == recipient)
}

/// The transfers that `recipient` sent.
pub open spec fn sent_by(transfers: Seq<TransferData>, recipient: Address) -> Seq<TransferData> {
    transfers.filter(|t: TransferData| t.from == recipient)
}

/// `count` without the one transfer that was the payment itself, where there
/// is one to leave out.
pub open spec fn without_payment(count: nat, paid_by_last_tx: bool) -> nat {
    if paid_by_last_tx && count > 0 {
        (count - 1) as nat
    } else {
        count
    }
}

/// The output record of a slot, given what was found of its block. A payment
/// made by the last transaction is itself a transfer to the recipient; it is
/// told by the payment type and left out of the count of all transfers and of
/// the count of incoming ones. The count of outgoing transfers is never
/// changed.
pub open spec fn output_row(input: BoostRelayDataEntry, data: BlockProposerPaymentData) -> OutputRow {
    OutputRow {
        slot: input.slot,
        block_number: data.block_number,
        bid_value: data.bid_value,
        balance_diff: data.balance_diff,
        payment_type: data.payment.label(),
        withdrawals: data.fee_recipient_withdrawals@.len(),
        transfers: without_payment(data.fee_recipient_transfers@.len(), data.payment.is_last_tx()),
        transfers_in: without_payment(
            received_by(data.fee_recipient_transfers@, data.fee_recipient).len(),
            data.payment.is_last_tx(),
        ),
        transfers_out: sent_by(data.fee_recipient_transfers@, data.fee_recipient).len(),
    }
}

/// Counts the transfers that pay `recipient`.
pub fn count_received(transfers: &[TransferData], recipient: &Address) -> (n: usize)
    ensures
        n == received_by(transfers@, *recipient).len(),
{
    let mut n: usize = 0;
    let mut i: usize = 0;
    while i < transfers.len()
        invariant
            i <= transfers@.len(),
            n == received_by(transfers@.take(i as int), *recipient).len(),
            n <= i,
        decreases transfers@.len() - i,
    {
        proof {
            reveal(Seq::filter);
            assert(transfers@.take(i + 1).drop_last() =~= transfers@.take(i as int));
        }
        if transfers[i].to == *recipient {
            n = n + 1;
        }
        i = i + 1;
    }
    proof {
        assert(transfers@.take(transfers@.len() as int) =~= transfers@);
    }
    n
}

/// Counts the transfers that `recipient` sent.
pub fn count_sent(transfers: &[TransferData], recipient: &Address) -> (n: usize)
    ensures
        n == sent_by(transfers@, *recipient).len(),
{
    let mut n: usize = 0;
    let mut i: usize = 0;
    while i < transfers.len()
        invariant
            i <= transfers@.len(),
            n == sent_by(transfers@.take(i as int), *recipient).len(),
            n <= i,
        decreases transfers@.len() - i,
    {
        proof {
            reveal(Seq::filter);
            assert(transfers@.take(i + 1).drop_last() =~= transfers@.take(i as int));
        }
        if transfers[i].from == *recipient {
            n = n + 1;
        }
        i = i + 1;
    }
    proof {
        assert(transfers@.take(transfers@.len() as int) =~= transfers@);
    }
    n
}

/// Turns what was found of a slot's block into the slot's output record.
pub fn process_input_entry(input: &BoostRelayDataEntry, data: &BlockProposerPaymentData) -> (entry:
    OutputFileEntry)
    ensures
        entry@ == output_row(*input, *data),
{
    let paid_by_last_tx = data.payment.is_last_tx();
    let all = data.fee_recipient_transfers.len();
    let received = count_received(data.fee_recipient_transfers.as_slice(), &data.fee_recipient);
    let sent = count_sent(data.fee_recipient_transfers.as_slice(), &data.fee_recipient);
    OutputFileEntry {
        slot: input.slot,
        block_number: data.block_number,
        bid_value: data.bid_value,
        balance_diff: data.balance_diff,
        payment_type: data.payment.payment_type(),
        withdrawals: data.fee_recipient_withdrawals.len(),
        transfers: if paid_by_last_tx && all > 0 {
            all - 1
        } else {
            all
        },
        transfers_in: if paid_by_last_tx && received > 0 {
            received - 1
        } else {
            received
        },
        transfers_out: sent,
    }
}

} // verus!
