use vstd::prelude::*;

pub mod contract;
pub mod date_time;
pub mod digits;
pub mod serializer;
mod text;

verus! {

/// Byte that separates the fields of a record.
pub const LINE_SPLITTER: u8 = 32;

/// Why a message could not be decoded.
#[derive(Clone, Copy, Debug, PartialEq, Eq, Structural)]
pub enum CodecError {
    /// Wrong field count, text that is not UTF-8, or a timestamp out of grammar.
    MalformedRecord,
}

} // verus!

pub use contract::{BidAskTcpContract, BidAskTcpModel, Generation};
pub use date_time::{BidAskTcpDateTime, UtcDateTime};
pub use serializer::{BidAskTcpSerializer, ReadingTcpContractFail};
