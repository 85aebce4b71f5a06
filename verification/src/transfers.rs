//! Direct value transfers found in the call traces of one block.
use crate::amount::U256;
use crate::primitives::{Address, TxHash};
use vstd::prelude::*;

verus! {

/// How a traced call was made.
#[derive(Debug, Clone, Copy, PartialEq, Eq, Structural)]
pub enum CallType {
    /// The node named no call kind.
    Unset,
    Call,
    CallCode,
    DelegateCall,
    StaticCall,
}

/// What a traced call moved, and between whom.
#[derive(Debug, Clone, Copy, PartialEq, Eq)]
pub struct Call {
    pub from: Address,
    pub to: Address,
    pub value: U256,
    pub call_type: CallType,
}

/// What one execution step did. Only calls can carry a payment; of the other
/// kinds nothing but the kind is kept.
#[derive(Debug, Clone, Copy, PartialEq, Eq)]
pub enum Action {
    Call(Call),
    Create,
    Suicide,
    Reward,
}

/// One execution step of a block, as a node reports it.
#[derive(Debug, Clone, PartialEq, Eq)]
pub struct Trace {
    pub action: Action,
    /// The failure that the step ended in, if it failed.
    pub error: Option<String>,
    pub block_number: u64,
    /// The transaction that the step belongs to; block rewards have none.
    pub transaction_hash: Option<TxHash>,
}

/// Value that one account sent to another inside a transaction.
#[derive(Debug, Clone, Copy, PartialEq, Eq)]
pub struct TransferData {
    pub block_number: u64,
    pub tx_hash: TxHash,
    pub from: Address,
    pub to: Address,
    pub value: U256,
}

/// The transfer that a trace records, if it records one: the step is a plain
/// call, it did not fail, it belongs to a transaction, and it moved a
/// positive amount.
pub open spec fn as_transfer(trace: Trace) -> Option<TransferData> {
    match trace.action {
        Action::Call(call) => if call.call_type == CallType::Call && trace.error is None
            && trace.transaction_hash is Some && call.value@ != 0 {
            Some(
                TransferData {
                    block_number: trace.block_number,
                    tx_hash: trace.transaction_hash->0,
                    from: call.from,
                    to: call.to,
                    value: call.value,
                },
            )
        } else {
            None
        },
        _ => None,
    }
}

/// The transfers that a list of traces records, in the order of the traces.
pub open spec fn extracted_transfers(traces: Seq<Trace>) -> Seq<TransferData> {
    traces.filter_map(|t: Trace| as_transfer(t))
}

/// Whether `recipient` sent or received the transfer.
pub open spec fn touches(transfer: TransferData, recipient: Address) -> bool {
    transfer.to == recipient || transfer.from == recipient
}

/// The transfers that `recipient` sent or received, in their given order.
pub open spec fn transfers_touching(transfers: Seq<TransferData>, recipient: Address) -> Seq<
    TransferData,
> {
    transfers.filter(|t: TransferData| touches(t, recipient))
}

/// Every extracted transfer was recorded by one of the traces, and so moved
/// a positive amount by a plain call that did not fail, inside a transaction.
pub proof fn lemma_extracted_from_traces(traces: Seq<Trace>, j: int)
    requires
        0 <= j < extracted_transfers(traces).len(),
    ensures
        exists|i: int|
            0 <= i < traces.len() && #[trigger] as_transfer(traces[i]) == Some(
                extracted_transfers(traces)[j],
            ),
        extracted_transfers(traces)[j].value@ != 0,
    decreases traces.len(),
{
    if traces.len() > 0 {
        let rest = traces.drop_last();
        if j < extracted_transfers(rest).len() {
            lemma_extracted_from_traces(rest, j);
            let i = choose|i: int|
                0 <= i < rest.len() && #[trigger] as_transfer(rest[i]) == Some(
                    extracted_transfers(rest)[j],
                );
            assert(as_transfer(traces[i]) == Some(extracted_transfers(traces)[j]));
        } else {
            assert(as_transfer(traces[traces.len() - 1]) == Some(extracted_transfers(traces)[j]));
        }
    }
}

/// Lists the direct value transfers of a block, in execution order. A trace
/// that is no plain call, that failed, that belongs to no transaction or that
/// moved nothing is passed over.
pub fn extract_transfers(traces: &[Trace]) -> (transfers: Vec<TransferData>)
    ensures
        transfers@ == extracted_transfers(traces@),
        forall|j: int|
            0 <= j < transfers@.len() ==> (#[trigger] transfers@[j]).value@ != 0 && exists|i: int|
                0 <= i < traces@.len() && #[trigger] as_transfer(traces@[i]) == Some(transfers@[j]),
{
    let mut transfers: Vec<TransferData> = Vec::new();
    let mut i: usize = 0;
    while i < traces.len()
        invariant
            i <= traces@.len(),
            transfers@ == extracted_transfers(traces@.take(i as int)),
        decreases traces@.len() - i,
    {
        let trace = &traces[i];
        proof {
            assert(traces@.take(i + 1).drop_last() =~= traces@.take(i as int));
        }
        match &trace.action {
            Action::Call(call) => {
                if call.call_type == CallType::Call && trace.error.is_none() && !call.value.is_zero() {
                    match trace.transaction_hash {
                        Some(tx_hash) => {
                            transfers.push(
                                TransferData {
                                    block_number: trace.block_number,
                                    tx_hash,
                                    from: call.from,
                                    to: call.to,
                                    value: call.value,
                                },
                            );
                        },
                        None => {},
                    }
                }
            },
            _ => {},
        }
        i = i + 1;
    }
    proof {
        assert(traces@.take(traces@.len() as int) =~= traces@);
        assert forall|j: int| 0 <= j < transfers@.len() implies (#[trigger] transfers@[j]).value@
            != 0 && exists|i: int|
            0 <= i < traces@.len() && #[trigger] as_transfer(traces@[i]) == Some(
                transfers@[j],
            ) by {
            lemma_extracted_from_traces(traces@, j);
        }
    }
    transfers
}

/// Keeps the transfers that `recipient` sent or received, in order.
pub fn filter_transfers(transfers: Vec<TransferData>, recipient: &Address) -> (kept: Vec<
    TransferData,
>)
    ensures
        kept@ == transfers_touching(transfers@, *recipient),
{
    let mut kept: Vec<TransferData> = Vec::new();
    let mut i: usize = 0;
    while i < transfers.len()
        invariant
            i <= transfers@.len(),
            kept@ == transfers_touching(transfers@.take(i as int), *recipient),
        decreases transfers@.len() - i,
    {
        let t = transfers[i];
        proof {
            reveal(Seq::filter);
            assert(transfers@.take(i + 1).drop_last() =~= transfers@.take(i as int));
        }
        if t.to == *recipient || t.from == *recipient {
            kept.push(t);
        }
        i = i + 1;
    }
    proof {
        assert(transfers@.take(transfers@.len() as int) =~= transfers@);
    }
    kept
}

} // verus!
