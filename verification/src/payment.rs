//! How the builder of one block paid its proposer.
//!
//! The mechanism is decided from the block's fee-receiving account, its last
//! transaction and the transfers that touch the proposer's fee recipient. The
//! decision looks at one block only and keeps nothing between blocks.
use crate::amount::U256;
use crate::primitives::{Address, TxHash};
use crate::transfers::{
    extract_transfers, extracted_transfers, filter_transfers, transfers_touching, Trace,
    TransferData,
};
use vstd::prelude::*;

verus! {

/// What the decision reads of a transaction.
#[derive(Debug, Clone, Copy, PartialEq, Eq)]
pub struct Transaction {
    pub hash: TxHash,
    pub from: Address,
    /// The destination; a transaction that creates a contract has none.
    pub to: Option<Address>,
    pub value: U256,
}

/// A protocol-level credit to a validator's account.
#[derive(Debug, Clone, Copy, PartialEq, Eq)]
pub struct Withdrawal {
    pub index: u64,
    pub validator_index: u64,
    pub address: Address,
    pub amount: U256,
}

/// What the decision reads of a block with its transaction bodies.
#[derive(Debug, Clone, PartialEq, Eq)]
pub struct Block {
    /// The account credited with the block's fees, where the node names one.
    pub author: Option<Address>,
    pub transactions: Vec<Transaction>,
    /// The block's withdrawals; blocks from before withdrawals carry none.
    pub withdrawals: Option<Vec<Withdrawal>>,
}

/// The mechanism that carried the proposer's payment.
#[derive(Debug, Clone, Copy, PartialEq, Eq)]
pub enum ProposerPayment {
    /// The last transaction of the block was sent to the fee recipient.
    LastTxDirect { from: Address, to: Address, value: U256 },
    /// The last transaction went elsewhere, and the last transfer that
    /// touches the fee recipient happened inside it and pays the recipient.
    LastTxContract { from: Address, contract: Address, value: U256 },
    /// The block's fees went to the fee recipient itself.
    Coinbase(Address),
    /// None of the above.
    Unknown,
}

impl ProposerPayment {
    /// Whether the payment was made by the last transaction of the block.
    pub open spec fn spec_is_last_tx(&self) -> bool {
        self is LastTxDirect || self is LastTxContract
    }

    /// Whether the payment was made by the last transaction of the block.
    #[verifier::when_used_as_spec(spec_is_last_tx)]
    pub fn is_last_tx(&self) -> (r: bool)
        ensures
            r == self.spec_is_last_tx(),
    {
        match self {
            ProposerPayment::LastTxDirect { .. } => true,
            ProposerPayment::LastTxContract { .. } => true,
            _ => false,
        }
    }

    /// The name under which the mechanism is recorded.
    pub open spec fn label(self) -> Seq<char> {
        match self {
            ProposerPayment::LastTxDirect { .. } => "last_tx_direct"@,
            ProposerPayment::LastTxContract { .. } => "last_tx_contract"@,
            ProposerPayment::Coinbase(_) => "coinbase"@,
            ProposerPayment::Unknown => "unknown"@,
        }
    }

    /// The name under which the mechanism is recorded.
    pub fn payment_type(&self) -> (name: String)
        ensures
            name@ == self.label(),
    {
        match self {
            ProposerPayment::LastTxDirect { .. } => "last_tx_direct".to_owned(),
            ProposerPayment::LastTxContract { .. } => "last_tx_contract".to_owned(),
            ProposerPayment::Coinbase(_) => "coinbase".to_owned(),
            ProposerPayment::Unknown => "unknown".to_owned(),
        }
    }
}

/// The destination of a transaction, with the zero address standing for a
/// missing one.
pub open spec fn destination_or_zero(tx: Transaction) -> Address {
    match tx.to {
        Some(to) => to,
        None => Address::spec_zero(),
    }
}

/// The payment mechanism of a block. The first rule that applies decides:
/// the fees went to the recipient; the last transaction was sent to the
/// recipient; the last of the recipient's transfers happened in the last
/// transaction and pays the recipient; otherwise the mechanism is unknown.
/// `transfers` are the transfers that touch the recipient, in block order.
pub open spec fn classified(
    coinbase: Address,
    last_tx: Option<Transaction>,
    transfers: Seq<TransferData>,
    recipient: Address,
) -> ProposerPayment {
    if coinbase == recipient {
        ProposerPayment::Coinbase(coinbase)
    } else {
        match last_tx {
            None => ProposerPayment::Unknown,
            Some(tx) => if tx.to == Some(recipient) {
                ProposerPayment::LastTxDirect { from: tx.from, to: recipient, value: tx.value }
            } else if transfers.len() > 0 && transfers.last().tx_hash == tx.hash
                && transfers.last().to == recipient {
                ProposerPayment::LastTxContract {
                    from: tx.from,
                    contract: destination_or_zero(tx),
                    value: transfers.last().value,
                }
            } else {
                ProposerPayment::Unknown
            },
        }
    }
}

/// Every block has exactly one payment mechanism, and the rules are tried in
/// their order: each mechanism is reported exactly where its rule applies and
/// no earlier rule does.
pub proof fn lemma_classification_total(
    coinbase: Address,
    last_tx: Option<Transaction>,
    transfers: Seq<TransferData>,
    recipient: Address,
)
    ensures
        ({
            let p = classified(coinbase, last_tx, transfers, recipient);
            let direct = last_tx matches Some(tx) && tx.to == Some(recipient);
            let inside = last_tx matches Some(tx) && transfers.len() > 0 && transfers.last().tx_hash
                == tx.hash && transfers.last().to == recipient;
            &&& (if p is Coinbase { 1int } else { 0 }) + (if p is LastTxDirect { 1int } else { 0 })
                + (if p is LastTxContract { 1int } else { 0 }) + (if p is Unknown { 1int } else { 0 })
                == 1
            &&& p is Coinbase <==> coinbase == recipient
            &&& p is LastTxDirect <==> coinbase != recipient && direct
            &&& p is LastTxContract <==> coinbase != recipient && !direct && inside
            &&& p is Unknown <==> coinbase != recipient && !direct && !inside
        }),
{
}

/// Where the block's fees went to the recipient, that is the mechanism,
/// whatever the transactions and transfers are.
pub proof fn lemma_coinbase_takes_precedence(
    coinbase: Address,
    last_tx: Option<Transaction>,
    transfers: Seq<TransferData>,
    recipient: Address,
)
    requires
        coinbase == recipient,
    ensures
        classified(coinbase, last_tx, transfers, recipient) == ProposerPayment::Coinbase(coinbase),
{
}

/// Decides the payment mechanism of a block from its fee-receiving account,
/// its last transaction if it has any, and the transfers that touch the fee
/// recipient.
pub fn classify_payment(
    coinbase: Address,
    last_tx: Option<Transaction>,
    transfers: &[TransferData],
    fee_recipient: Address,
) -> (payment: ProposerPayment)
    ensures
        payment == classified(coinbase, last_tx, transfers@, fee_recipient),
        coinbase == fee_recipient ==> payment == ProposerPayment::Coinbase(coinbase),
{
    if coinbase == fee_recipient {
        return ProposerPayment::Coinbase(coinbase);
    }
    match last_tx {
        None => ProposerPayment::Unknown,
        Some(tx) => {
            let direct = match tx.to {
                Some(to) => to == fee_recipient,
                None => false,
            };
            if direct {
                ProposerPayment::LastTxDirect { from: tx.from, to: fee_recipient, value: tx.value }
            } else if transfers.len() > 0 {
                let last_transfer = transfers[transfers.len() - 1];
                if last_transfer.tx_hash == tx.hash && last_transfer.to == fee_recipient {
                    let contract = match tx.to {
                        Some(to) => to,
                        None => Address::zero(),
                    };
                    ProposerPayment::LastTxContract {
                        from: tx.from,
                        contract,
                        value: last_transfer.value,
                    }
                } else {
                    ProposerPayment::Unknown
                }
            } else {
                ProposerPayment::Unknown
            }
        },
    }
}

/// The withdrawals that credit `recipient`, in their given order.
pub open spec fn withdrawals_to(withdrawals: Seq<Withdrawal>, recipient: Address) -> Seq<
    Withdrawal,
> {
    withdrawals.filter(|w: Withdrawal| w.address == recipient)
}

/// Keeps the withdrawals that credit `recipient`, in order.
pub fn filter_withdrawals(withdrawals: Vec<Withdrawal>, recipient: &Address) -> (kept: Vec<
    Withdrawal,
>)
    ensures
        kept@ == withdrawals_to(withdrawals@, *recipient),
{
    let mut kept: Vec<Withdrawal> = Vec::new();
    let mut i: usize = 0;
    while i < withdrawals.len()
        invariant
            i <= withdrawals@.len(),
            kept@ == withdrawals_to(withdrawals@.take(i as int), *recipient),
        decreases withdrawals@.len() - i,
    {
        let w = withdrawals[i];
        proof {
            reveal(Seq::filter);
            assert(withdrawals@.take(i + 1).drop_last() =~= withdrawals@.take(i as int));
        }
        if w.address == *recipient {
            kept.push(w);
        }
        i = i + 1;
    }
    proof {
        assert(withdrawals@.take(withdrawals@.len() as int) =~= withdrawals@);
    }
    kept
}

/// By how much a balance grew from `before` to `after`; zero where it did
/// not grow.
pub open spec fn balance_growth(before: nat, after: nat) -> nat {
    if after >= before {
        (after - before) as nat
    } else {
        0
    }
}

/// The two blocks at which the recipient's balance is asked for: the block
/// before the one under study, and that block itself.
pub fn balance_blocks(block_number: u64) -> (blocks: (u64, u64))
    requires
        block_number > 0,
    ensures
        blocks.0 == block_number - 1,
        blocks.1 == block_number,
{
    (block_number - 1, block_number)
}

/// Everything that is known of the proposer's payment in one block.
#[derive(Debug, Clone, PartialEq, Eq)]
pub struct BlockProposerPaymentData {
    pub block_number: u64,
    pub fee_recipient: Address,
    pub bid_value: U256,
    /// The transfers of the whole block that the recipient sent or received.
    pub fee_recipient_transfers: Vec<TransferData>,
    /// The withdrawals of the block that credit the recipient.
    pub fee_recipient_withdrawals: Vec<Withdrawal>,
    pub payment: ProposerPayment,
    /// The growth of the recipient's balance over the block, never negative.
    pub balance_diff: U256,
}

/// Why no payment data could be assembled for a block.
#[derive(Debug, Clone, Copy, PartialEq, Eq, Structural)]
pub enum PaymentError {
    /// The node knows no block of that number.
    BlockNotFound,
}

impl PaymentError {
    /// The fault in words.
    pub open spec fn text(self) -> Seq<char> {
        match self {
            PaymentError::BlockNotFound => "block not found"@,
        }
    }

    /// The fault in words.
    pub fn message(&self) -> (words: String)
        ensures
            words@ == self.text(),
    {
        match self {
            PaymentError::BlockNotFound => "block not found".to_owned(),
        }
    }
}

/// The fee-receiving account of a block, the zero address where the block
/// names none.
pub open spec fn coinbase_of(block: Block) -> Address {
    match block.author {
        Some(author) => author,
        None => Address::spec_zero(),
    }
}

/// The last transaction of a block, if it has any.
pub open spec fn last_transaction(block: Block) -> Option<Transaction> {
    if block.transactions@.len() > 0 {
        Some(block.transactions@.last())
    } else {
        None
    }
}

/// The withdrawals of a block, none where the block carries no list.
pub open spec fn withdrawals_of(block: Block) -> Seq<Withdrawal> {
    match block.withdrawals {
        Some(list) => list@,
        None => Seq::empty(),
    }
}

/// Whether `data` is what a block's traces, the block itself and the
/// recipient's balances before and after it say of the proposer's payment.
pub open spec fn is_payment_data_of(
    data: BlockProposerPaymentData,
    block_number: u64,
    fee_recipient: Address,
    bid_value: U256,
    traces: Seq<Trace>,
    block: Block,
    balance_before: nat,
    balance_after: nat,
) -> bool {
    &&& data.block_number == block_number
    &&& data.fee_recipient == fee_recipient
    &&& data.bid_value == bid_value
    &&& data.fee_recipient_transfers@ == transfers_touching(
        extracted_transfers(traces),
        fee_recipient,
    )
    &&& data.fee_recipient_withdrawals@ == withdrawals_to(withdrawals_of(block), fee_recipient)
    &&& data.payment == classified(
        coinbase_of(block),
        last_transaction(block),
        data.fee_recipient_transfers@,
        fee_recipient,
    )
    &&& data.balance_diff@ == balance_growth(balance_before, balance_after)
}

/// Puts together the payment data of one block from what the node answered:
/// the traces of the block, the block with its transactions if the node has
/// it, and the recipient's balance at the block before and at the block
/// itself. Fails exactly where the node has no such block.
pub fn assemble_payment_data(
    block_number: u64,
    fee_recipient: Address,
    bid_value: U256,
    traces: &[Trace],
    block: Option<Block>,
    balance_before: U256,
    balance_after: U256,
) -> (r: Result<BlockProposerPaymentData, PaymentError>)
    ensures
        match block {
            None => r == Err::<BlockProposerPaymentData, PaymentError>(PaymentError::BlockNotFound),
            Some(b) => r matches Ok(data) && is_payment_data_of(
                data,
                block_number,
                fee_recipient,
                bid_value,
                traces@,
                b,
                balance_before@,
                balance_after@,
            ),
        },
        r matches Ok(data) ==> data.balance_diff@ >= 0,
{
    let transfers = filter_transfers(extract_transfers(traces), &fee_recipient);
    let block = match block {
        Some(block) => block,
        None => {
            return Err(PaymentError::BlockNotFound);
        },
    };
    let coinbase = match block.author {
        Some(author) => author,
        None => Address::zero(),
    };
    let last_tx = if block.transactions.len() > 0 {
        Some(block.transactions[block.transactions.len() - 1])
    } else {
        None
    };
    let withdrawals = match block.withdrawals {
        Some(list) => filter_withdrawals(list, &fee_recipient),
        None => {
            proof {
                reveal(Seq::filter);
            }
            Vec::new()
        },
    };
    let payment = classify_payment(coinbase, last_tx, transfers.as_slice(), fee_recipient);
    let balance_diff = balance_after.saturating_sub(&balance_before);
    Ok(
        BlockProposerPaymentData {
            block_number,
            fee_recipient,
            bid_value,
            fee_recipient_transfers: transfers,
            fee_recipient_withdrawals: withdrawals,
            payment,
            balance_diff,
        },
    )
}

} // verus!
