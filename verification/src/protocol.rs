//! The layers that turn requests into packets and packets into messages, as the sender sees them.

use grammers_crypto::DequeBuffer;
use grammers_mtproto::mtp::DeserializeError;
use grammers_mtproto::MsgId;
use vstd::prelude::*;

verus! {

/// `grammers_mtproto::transport::Error`: why a packet could not be taken apart.
#[verifier::external_type_specification]
#[verifier::external_body]
pub struct ExTransportError(grammers_mtproto::transport::Error);

/// What taking a packet off the front of some bytes comes to.
pub enum Unpacked {
    /// There is a packet: where its payload starts and ends, and where the next packet starts.
    Packet { data_start: usize, data_end: usize, next_offset: usize },
    /// The packet is not complete yet.
    MissingBytes,
    /// There is no packet.
    Failed(grammers_mtproto::transport::Error),
}

/// One message out of a packet's payload.
pub enum Received {
    /// Something happened on the server.
    Update(Vec<u8>),
    /// A request succeeded.
    RpcResult { msg_id: MsgId, body: Vec<u8> },
    /// A request failed.
    RpcError { msg_id: MsgId, code: i32, message: String },
    /// A message was not accepted.
    BadMessage { msg_id: MsgId, code: i32 },
    /// The answer to a request could not be read.
    Failure { msg_id: MsgId, error: DeserializeError },
}

/// A message protocol on top of a transport. Nothing is assumed of what these do.
pub trait Protocol {
    /// Writes one more request into the buffer and returns what it is identified by; nothing if
    /// the buffer is full.
    fn push(&mut self, buffer: &mut DequeBuffer<u8>, body: &[u8]) -> Option<MsgId>;

    /// Completes the buffer. Returns the last identifier given out, if there is anything to send.
    fn finalize(&mut self, buffer: &mut DequeBuffer<u8>) -> Option<MsgId>;

    /// Makes a packet of the buffer.
    fn pack(&mut self, buffer: &mut DequeBuffer<u8>);

    /// Takes a packet off the front of `bytes`.
    fn unpack(&mut self, bytes: &[u8]) -> Unpacked;

    /// Reads the messages in a packet's payload.
    fn deserialize(&mut self, payload: &[u8]) -> Result<Vec<Received>, DeserializeError>;

    /// Forgets everything, for a new connection.
    fn reset(&mut self);
}

/// One use of a protocol: what went in and what came out. `before` is the buffer that the protocol
/// was given, and `after` is what it left of it.
pub enum Call {
    Push {
        body: Seq<u8>,
        id: Option<MsgId>,
        before: DequeBuffer<u8>,
        after: DequeBuffer<u8>,
    },
    Finalize { id: Option<MsgId>, before: DequeBuffer<u8>, after: DequeBuffer<u8> },
    Pack { before: DequeBuffer<u8>, after: DequeBuffer<u8> },
    Unpack { bytes: Seq<u8>, unpacked: Unpacked },
    Deserialize { payload: Seq<u8>, messages: Result<Vec<Received>, DeserializeError> },
    Reset,
}

/// A protocol and, for the sake of contracts, all uses of it so far.
pub struct Recorded<P> {
    pub protocol: P,
    calls: Ghost<Seq<Call>>,
}

impl<P> Recorded<P> {
    /// The protocol.
    pub closed spec fn inner(self) -> P {
        self.protocol
    }

    /// All uses of the protocol so far.
    pub closed spec fn calls(self) -> Seq<Call> {
        self.calls@
    }

    /// A protocol that was not used yet.
    pub fn new(protocol: P) -> (recorded: Self)
        ensures
            recorded.inner() == protocol,
            recorded.calls() == Seq::<Call>::empty(),
    {
        Recorded { protocol, calls: Ghost(Seq::empty()) }
    }
}

impl<P: Protocol> Recorded<P> {
    pub(crate) fn push(&mut self, buffer: &mut DequeBuffer<u8>, body: &[u8]) -> (id: Option<MsgId>)
        ensures
            final(self).calls() == old(self).calls().push(
                Call::Push { body: body@, id, before: *old(buffer), after: *final(buffer) },
            ),
    {
        let ghost before = *buffer;
        let id = self.protocol.push(buffer, body);
        proof {
            self.calls@ =
            self.calls@.push(Call::Push { body: body@, id, before, after: *buffer });
        }
        id
    }

    pub(crate) fn finalize(&mut self, buffer: &mut DequeBuffer<u8>) -> (id: Option<MsgId>)
        ensures
            final(self).calls() == old(self).calls().push(
                Call::Finalize { id, before: *old(buffer), after: *final(buffer) },
            ),
    {
        let ghost before = *buffer;
        let id = self.protocol.finalize(buffer);
        proof {
            self.calls@ = self.calls@.push(Call::Finalize { id, before, after: *buffer });
        }
        id
    }

    pub(crate) fn pack(&mut self, buffer: &mut DequeBuffer<u8>)
        ensures
            final(self).calls() == old(self).calls().push(
                Call::Pack { before: *old(buffer), after: *final(buffer) },
            ),
    {
        let ghost before = *buffer;
        self.protocol.pack(buffer);
        proof {
            self.calls@ = self.calls@.push(Call::Pack { before, after: *buffer });
        }
    }

    pub(crate) fn unpack(&mut self, bytes: &[u8]) -> (unpacked: Unpacked)
        ensures
            final(self).calls() == old(self).calls().push(Call::Unpack { bytes: bytes@, unpacked }),
    {
        let unpacked = self.protocol.unpack(bytes);
        proof {
            self.calls@ = self.calls@.push(Call::Unpack { bytes: bytes@, unpacked });
        }
        unpacked
    }

    pub(crate) fn deserialize(&mut self, payload: &[u8]) -> (messages: Result<
        Vec<Received>,
        DeserializeError,
    >)
        ensures
            final(self).calls() == old(self).calls().push(
                Call::Deserialize { payload: payload@, messages },
            ),
    {
        let messages = self.protocol.deserialize(payload);
        proof {
            self.calls@ = self.calls@.push(Call::Deserialize { payload: payload@, messages });
        }
        messages
    }

    pub(crate) fn reset(&mut self)
        ensures
            final(self).calls() == old(self).calls().push(Call::Reset),
    {
        self.protocol.reset();
        proof {
            self.calls@ = self.calls@.push(Call::Reset);
        }
    }
}

} // verus!
