//! Submission of a transaction from two hexadecimal addresses.

use vstd::prelude::*;
use crate::block::{BlockData, DataModel, Transaction};
use crate::bytes::sha256hash_from_slice;
use crate::chain::{Blockchain, ChainView};
use crate::trusted::{hex_decodable, hex_decode, hex_decoded};

verus! {

/// Why a submitted transaction was refused.
#[derive(Debug, PartialEq, Eq, Structural)]
pub enum InputError {
    /// The sender is not an even number of hexadecimal digits.
    InvalidHexFrom,
    /// The recipient is not an even number of hexadecimal digits.
    InvalidHexTo,
    /// The sender does not stand for exactly 32 bytes.
    InvalidLengthFrom,
    /// The recipient does not stand for exactly 32 bytes.
    InvalidLengthTo,
}

/// The first fault of the addresses `from` and `to`, in the order they are
/// checked, if any.
pub open spec fn address_fault(from: Seq<char>, to: Seq<char>) -> Option<InputError> {
    if !hex_decodable(from) {
        Some(InputError::InvalidHexFrom)
    } else if !hex_decodable(to) {
        Some(InputError::InvalidHexTo)
    } else if hex_decoded(from).len() != 32 {
        Some(InputError::InvalidLengthFrom)
    } else if hex_decoded(to).len() != 32 {
        Some(InputError::InvalidLengthTo)
    } else {
        None
    }
}

/// The transaction of `amount` between the hexadecimal addresses `from` and
/// `to`.
pub fn parse_transaction(from: &str, to: &str, amount: u64) -> (r: Result<Transaction, InputError>)
    ensures
        match r {
            Ok(t) => address_fault(from@, to@) is None && t.sender@ == hex_decoded(from@)
                && t.recipient@ == hex_decoded(to@) && t.amount == amount,
            Err(e) => address_fault(from@, to@) == Some(e),
        },
{
    let from_vec = match hex_decode(from) {
        Some(v) => v,
        None => {
            return Err(InputError::InvalidHexFrom);
        },
    };
    let to_vec = match hex_decode(to) {
        Some(v) => v,
        None => {
            return Err(InputError::InvalidHexTo);
        },
    };
    if from_vec.len() != 32 {
        return Err(InputError::InvalidLengthFrom);
    }
    if to_vec.len() != 32 {
        return Err(InputError::InvalidLengthTo);
    }
    let sender = sha256hash_from_slice(from_vec.as_slice());
    let recipient = sha256hash_from_slice(to_vec.as_slice());
    assert(sender@ =~= hex_decoded(from@));
    assert(recipient@ =~= hex_decoded(to@));
    Ok(Transaction { sender, recipient, amount })
}

/// Checks a transaction of `amount` between the hexadecimal addresses `from`
/// and `to` and queues it on `chain`; it is not put into any block.
pub fn publish_transaction(chain: &mut Blockchain, from: &str, to: &str, amount: u64) -> (r: Result<
    Transaction,
    InputError,
>)
    requires
        old(chain).wf(),
    ensures
        final(chain).wf(),
        match r {
            Ok(t) => address_fault(from@, to@) is None && t.sender@ == hex_decoded(from@)
                && t.recipient@ == hex_decoded(to@) && t.amount == amount && final(chain)@ == (
            ChainView {
                pending: old(chain)@.pending.push(
                    DataModel::Transaction {
                        sender: t.sender@,
                        recipient: t.recipient@,
                        amount: t.amount,
                    },
                ),
                ..old(chain)@
            }),
            Err(e) => address_fault(from@, to@) == Some(e) && final(chain)@ == old(chain)@,
        },
{
    match parse_transaction(from, to, amount) {
        Ok(t) => {
            let queued = Transaction { sender: t.sender, recipient: t.recipient, amount: t.amount };
            chain.add_data(BlockData::Transaction(queued));
            Ok(t)
        },
        Err(e) => Err(e),
    }
}

} // verus!
