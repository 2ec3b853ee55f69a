use vstd::prelude::*;
use crate::contract::{
    lemma_message_round_trip, parse_message, BidAskTcpContract, BidAskTcpContractView, Generation,
};

verus! {

/// Size that an output buffer is first given: a typical message fits.
pub const MAX_PACKET_CAPACITY: usize = 255;

/// Bound on the bytes read while looking for the end of one message.
pub const READ_BUFFER_CAPACITY: usize = 24576;

/// Heartbeat messages are built afresh on every call, never shared.
pub const PING_PACKET_IS_SINGLETONE: bool = false;

/// The two bytes that end every message on the stream: CR, LF.
pub open spec fn terminator() -> Seq<u8> {
    seq![13u8, 10]
}

/// A terminator starts at `i`.
pub open spec fn terminator_at(s: Seq<u8>, i: int) -> bool {
    0 <= i && i + 1 < s.len() && s[i] == 13 && s[i + 1] == 10
}

/// The message framed for the stream.
pub open spec fn frame(m: BidAskTcpContractView, g: Generation) -> Seq<u8> {
    m.encoded(g) + terminator()
}

/// A framed message without its terminator, parsed; `None` where there is no
/// terminator at the end or the rest does not parse.
pub open spec fn unframe(s: Seq<u8>) -> Option<BidAskTcpContractView> {
    if s.len() >= 2 && s.subrange(s.len() - 2, s.len() as int) == terminator() {
        parse_message(s.subrange(0, s.len() - 2))
    } else {
        None
    }
}

/// Why no message could be read from the stream.
#[derive(Clone, Copy, Debug, PartialEq, Eq, Structural)]
pub enum ReadingTcpContractFail {
    /// No terminator within the bounded read buffer.
    SizeExceeded,
    /// The stream ended before a terminator.
    ConnectionEnded,
    /// A complete message that could not be decoded.
    UnreadableContract,
}

/// Frames messages for one connection and reads them back.
pub struct BidAskTcpSerializer {
    /// Layout in which records are written.
    pub generation: Generation,
    /// Bound on the bytes read while looking for a terminator.
    pub read_buffer_capacity: usize,
}

/// Unframing a framed well-formed message gives back what its layout keeps.
pub proof fn lemma_frame_round_trip(m: BidAskTcpContractView, g: Generation)
    requires
        m.wf(),
    ensures
        unframe(frame(m, g)) == Some(m.kept(g)),
{
    let s = frame(m, g);
    let e = m.encoded(g);
    assert(s.subrange(s.len() - 2, s.len() as int) =~= terminator());
    assert(s.subrange(0, s.len() - 2) =~= e);
    lemma_message_round_trip(m, g);
}

impl BidAskTcpSerializer {
    /// A serializer that writes records in the extended layout.
    pub fn new() -> (r: BidAskTcpSerializer)
        ensures
            r.generation == Generation::Extended,
            r.read_buffer_capacity == READ_BUFFER_CAPACITY,
    {
        BidAskTcpSerializer { generation: Generation::Extended, read_buffer_capacity: READ_BUFFER_CAPACITY }
    }

    /// A serializer that writes records in the given layout.
    pub fn with_generation(generation: Generation) -> (r: BidAskTcpSerializer)
        ensures
            r.generation == generation,
            r.read_buffer_capacity == READ_BUFFER_CAPACITY,
    {
        BidAskTcpSerializer { generation, read_buffer_capacity: READ_BUFFER_CAPACITY }
    }

    /// The message, encoded, followed by the terminator.
    pub fn serialize(&self, contract: BidAskTcpContract) -> (r: Vec<u8>)
        requires
            contract@.encodable(),
        ensures
            r@ == frame(contract@, self.generation),
    {
        self.serialize_ref(&contract)
    }

    /// The message, encoded, followed by the terminator, without consuming it.
    pub fn serialize_ref(&self, contract: &BidAskTcpContract) -> (r: Vec<u8>)
        requires
            contract@.encodable(),
        ensures
            r@ == frame(contract@, self.generation),
    {
        let mut result: Vec<u8> = Vec::with_capacity(MAX_PACKET_CAPACITY);
        contract.serialize(&mut result, self.generation);
        result.push(13);
        result.push(10);
        proof {
            assert(result@ =~= frame(contract@, self.generation));
        }
        result
    }

    /// A fresh heartbeat probe.
    pub fn get_ping(&self) -> (r: BidAskTcpContract)
        ensures
            r@ is Ping,
    {
        BidAskTcpContract::Ping
    }

    /// Finds the end of the first message in `stream`: the number of bytes up to
    /// and including the first terminator, which must end within the read buffer.
    /// Without one, `SizeExceeded` where the stream fills the buffer, else
    /// `ConnectionEnded`.
    pub fn read_until_end_marker(&self, stream: &[u8]) -> (r: Result<usize, ReadingTcpContractFail>)
        ensures
            r matches Ok(end) ==> 2 <= end <= self.read_buffer_capacity && terminator_at(
                stream@,
                end - 2,
            ) && forall|j: int| 0 <= j < end - 2 ==> !terminator_at(stream@, j),
            r matches Err(e) ==> (forall|j: int|
                0 <= j && j + 2 <= self.read_buffer_capacity ==> !terminator_at(stream@, j)) && e
                == (if stream@.len() >= self.read_buffer_capacity {
                ReadingTcpContractFail::SizeExceeded
            } else {
                ReadingTcpContractFail::ConnectionEnded
            }),
    {
        let cap = self.read_buffer_capacity;
        let mut i: usize = 0;
        while i < stream.len() && stream.len() - i >= 2 && i + 2 <= cap
            invariant
                i <= stream@.len(),
                cap == self.read_buffer_capacity,
                forall|j: int| 0 <= j < i ==> !terminator_at(stream@, j),
            decreases stream@.len() - i,
        {
            if stream[i] == 13 && stream[i + 1] == 10 {
                return Ok(i + 2);
            }
            i = i + 1;
        }
        if stream.len() >= cap {
            Err(ReadingTcpContractFail::SizeExceeded)
        } else {
            Err(ReadingTcpContractFail::ConnectionEnded)
        }
    }

    /// Decodes what the reader returned: its failure passes through unchanged; a
    /// span that does not end with the terminator, or whose message does not
    /// parse, gives `UnreadableContract`.
    pub fn deserialize(&mut self, read: Result<Vec<u8>, ReadingTcpContractFail>) -> (r: Result<
        BidAskTcpContract,
        ReadingTcpContractFail,
    >)
        ensures
            *final(self) == *old(self),
            r matches Ok(c) ==> read matches Ok(b) && unframe(b@) == Some(c@),
            r matches Err(e) ==> (read matches Err(e0) && e == e0) || (read matches Ok(b) && unframe(
                b@,
            ) is None && e == ReadingTcpContractFail::UnreadableContract),
    {
        match read {
            Err(e) => Err(e),
            Ok(bytes) => {
                let n = bytes.len();
                let ghost b = bytes@;
                if n < 2 || bytes[n - 2] != 13 || bytes[n - 1] != 10 {
                    proof {
                        if n >= 2 && b.subrange(n - 2, n as int) == terminator() {
                            assert(b.subrange(n - 2, n as int)[0] == b[n - 2]);
                            assert(b.subrange(n - 2, n as int)[1] == b[n - 1]);
                        }
                    }
                    return Err(ReadingTcpContractFail::UnreadableContract);
                }
                proof {
                    assert(b.subrange(n - 2, n as int) =~= terminator());
                }
                let mut payload = bytes;
                payload.truncate(n - 2);
                proof {
                    assert(payload@ =~= b.subrange(0, n - 2));
                }
                match BidAskTcpContract::parse(payload.as_slice()) {
                    Ok(c) => Ok(c),
                    Err(_) => Err(ReadingTcpContractFail::UnreadableContract),
                }
            },
        }
    }

    /// Records nothing: the codec keeps no state about the messages it reads.
    pub fn apply_packet(&mut self, _contract: &BidAskTcpContract) -> (r: bool)
        ensures
            !r,
            *final(self) == *old(self),
    {
        false
    }
}

} // verus!
