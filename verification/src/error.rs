use vstd::prelude::*;

verus! {

/// The ways in which a block or transaction can be invalid.
#[derive(Clone, Copy, Debug, PartialEq, Eq, Structural)]
pub enum BtcError {
    InvalidTransaction,
    InvalidBlock,
    InvalidBlockHeader,
    InvalidTransactionInput,
    InvalidTransactionOutput,
}

/// The text that describes each error.
pub open spec fn btc_error_message(e: BtcError) -> Seq<char> {
    match e {
        BtcError::InvalidTransaction => "Invalid transaction"@,
        BtcError::InvalidBlock => "Invalid block"@,
        BtcError::InvalidBlockHeader => "Invalid block header"@,
        BtcError::InvalidTransactionInput => "Invalid transaction input"@,
        BtcError::InvalidTransactionOutput => "Invalid transaction output"@,
    }
}

impl BtcError {
    /// The text that describes this error.
    pub fn message(&self) -> (text: String)
        ensures
            text@ == btc_error_message(*self),
    {
        match self {
            BtcError::InvalidTransaction => String::from_str("Invalid transaction"),
            BtcError::InvalidBlock => String::from_str("Invalid block"),
            BtcError::InvalidBlockHeader => String::from_str("Invalid block header"),
            BtcError::InvalidTransactionInput => String::from_str("Invalid transaction input"),
            BtcError::InvalidTransactionOutput => String::from_str("Invalid transaction output"),
        }
    }
}

} // verus!
