//! The two directions of a connection to a proxy, apart from the socket they run over.

use std::collections::VecDeque;
use vstd::prelude::*;
use vstd::slice::slice_subrange;

use crate::aes_ctr::{ctr, law_ctr_is_its_own_inverse, law_ctr_streams, AesCtr};
use crate::config::{proxy_secret_of, MtProxyConfig, MtProxyMode};
use crate::digest::sha256;
use crate::errors::MtProxyError;
use crate::obfuscated::{
    draw_header, is_drawn_header, law_both_ends_agree, law_header_opens_the_stream,
    INTERMEDIATE_TAG,
};
use crate::octets::{append, be_nat, same_bytes, slice_copy};
use crate::random::{Draw, Draws};
use crate::tls_record::{
    drain_plain, law_unwrap_streams, law_unwrap_undoes_wrap, parse_tls_records, records,
    unwrap_records, wrap_tls_records, CHANGE_CIPHER_SPEC,
};

verus! {

/// The most bytes that one read from the socket brings where they come in TLS records.
pub const TLS_READ_LIMIT: usize = 8192;

/// Where the reading direction stands.
pub struct ReadView {
    /// Whether the bytes come in TLS records.
    pub tls: bool,
    /// The cipher's key.
    pub key: Seq<u8>,
    /// The cipher's place in its key stream.
    pub position: nat,
    /// Received bytes that are no complete record yet.
    pub raw: Seq<u8>,
    /// Decrypted bytes that were not handed out yet.
    pub plain: Seq<u8>,
}

/// The reading direction after `bytes` have come in, before any are handed out.
pub open spec fn absorbed(state: ReadView, bytes: Seq<u8>) -> ReadView {
    let (payload, rest) = if state.tls {
        let found = unwrap_records(state.raw + bytes);
        (found.payload, found.rest)
    } else {
        (bytes, state.raw)
    };
    ReadView {
        position: state.position + payload.len(),
        raw: rest,
        plain: state.plain + ctr(state.key, state.position, payload),
        ..state
    }
}

/// How many of `available` bytes fit in `room`.
pub open spec fn fitting(available: Seq<u8>, room: nat) -> int {
    if room < available.len() {
        room as int
    } else {
        available.len() as int
    }
}

/// Whether decrypted bytes are left over from an earlier read.
pub open spec fn has_ready(state: ReadView) -> bool {
    state.tls && state.plain.len() > 0
}

/// The reading direction after decrypted bytes were handed out into `room`, and those bytes.
pub open spec fn handed_out(state: ReadView, room: nat) -> (ReadView, Seq<u8>) {
    let len = fitting(state.plain, room);
    (ReadView { plain: state.plain.skip(len), ..state }, state.plain.take(len))
}

/// The reading direction after a read from the socket brought `bytes`, and what is handed out into
/// `room`: all of it outside of TLS records, and nothing for a record that is invalid.
pub open spec fn taken_in(state: ReadView, bytes: Seq<u8>, room: nat) -> (
    ReadView,
    Option<Seq<u8>>,
) {
    let whole = absorbed(state, bytes);
    if !state.tls {
        (
            ReadView { plain: state.plain, ..whole },
            Some(ctr(state.key, state.position, bytes)),
        )
    } else if bytes.len() == 0 {
        (state, Some(Seq::empty()))
    } else if unwrap_records(state.raw + bytes).valid {
        let (after, chunk) = handed_out(whole, room);
        (after, Some(chunk))
    } else {
        (whole, None)
    }
}

/// The reading direction of a connection to a proxy.
pub struct MtProxyReadHalf {
    cipher: AesCtr,
    tls_mode: bool,
    tls_raw: Vec<u8>,
    tls_plain: VecDeque<u8>,
}

impl View for MtProxyReadHalf {
    type V = ReadView;

    closed spec fn view(&self) -> ReadView {
        ReadView {
            tls: self.tls_mode,
            key: self.cipher.key(),
            position: self.cipher.position(),
            raw: self.tls_raw@,
            plain: self.tls_plain@,
        }
    }
}

impl MtProxyReadHalf {
    /// Hands out decrypted bytes that are left over from an earlier read, at most `room`. Where
    /// there are none, the next bytes have to come from the socket.
    pub fn take_ready(&mut self, room: usize) -> (ready: Option<Vec<u8>>)
        ensures
            if has_ready(old(self)@) {
                &&& ready is Some
                &&& handed_out(old(self)@, room as nat) == (final(self)@, ready->Some_0@)
            } else {
                ready is None && final(self)@ == old(self)@
            },
    {
        if self.tls_mode && self.tls_plain.len() > 0 {
            Some(drain_plain(&mut self.tls_plain, room))
        } else {
            None
        }
    }

    /// The most bytes that one read from the socket may bring if there is room for `room` bytes.
    pub fn read_limit(&self, room: usize) -> (limit: usize)
        ensures
            limit == if self@.tls {
                TLS_READ_LIMIT
            } else {
                room
            },
    {
        if self.tls_mode {
            TLS_READ_LIMIT
        } else {
            room
        }
    }

    /// Takes in what a read from the socket brought and hands out what it decrypts to: all of it
    /// outside of TLS records, at most `room` bytes of it inside. No bytes mean that the peer
    /// closed the connection, and none are handed out then.
    pub fn on_read(&mut self, received: &[u8], room: usize) -> (read: Result<
        Vec<u8>,
        MtProxyError,
    >)
        ensures
            match read {
                Ok(chunk) => taken_in(old(self)@, received@, room as nat) == (
                    final(self)@,
                    Some(chunk@),
                ),
                Err(err) => {
                    &&& err is InvalidTlsRecord
                    &&& taken_in(old(self)@, received@, room as nat) == (
                        final(self)@,
                        None::<Seq<u8>>,
                    )
                },
            },
    {
        if !self.tls_mode {
            let mut data: Vec<u8> = slice_copy(received, 0, received.len());
            assert(data@ =~= received@);
            self.cipher.apply(data.as_mut_slice());
            return Ok(data);
        }
        if received.len() == 0 {
            return Ok(Vec::new());
        }
        append(&mut self.tls_raw, received);
        match parse_tls_records(&mut self.tls_raw, &mut self.tls_plain, &mut self.cipher) {
            Ok(()) => Ok(drain_plain(&mut self.tls_plain, room)),
            Err(err) => Err(err),
        }
    }
}

/// Where the writing direction stands.
pub struct WriteView {
    /// Whether the bytes go out in TLS records.
    pub tls: bool,
    /// Whether nothing went out in TLS records yet.
    pub first: bool,
    /// Whether the intermediate transport's tag is still to be left out.
    pub strip: bool,
    /// The cipher's key.
    pub key: Seq<u8>,
    /// The cipher's place in its key stream.
    pub position: nat,
    /// The header that goes before the next frame.
    pub header: Seq<u8>,
    /// What is left of the frame that is being sent.
    pub pending: Seq<u8>,
    /// How many of the caller's bytes that frame stands for.
    pub original_len: nat,
}

/// What of `buf` is sent: the tag that the intermediate transport opens with is left out, since
/// the header has it already.
pub open spec fn stripped(strip: bool, buf: Seq<u8>) -> Seq<u8> {
    if strip && buf.len() >= 4 && buf.take(4) == INTERMEDIATE_TAG@ {
        buf.skip(4)
    } else {
        buf
    }
}

/// The bytes that go out for `buf`.
pub open spec fn frame(state: WriteView, buf: Seq<u8>) -> Seq<u8> {
    let encrypted = state.header + ctr(state.key, state.position, stripped(state.strip, buf));
    if !state.tls {
        encrypted
    } else if state.first {
        CHANGE_CIPHER_SPEC@ + records(encrypted)
    } else {
        records(encrypted)
    }
}

/// The writing direction once the frame for `buf` is ready to go out.
pub open spec fn framed(state: WriteView, buf: Seq<u8>) -> WriteView {
    WriteView {
        first: state.first && !state.tls,
        position: state.position + stripped(state.strip, buf).len(),
        header: seq![],
        pending: frame(state, buf),
        original_len: buf.len(),
        ..state
    }
}

/// The writing direction once the whole frame went out.
pub open spec fn flushed(state: WriteView) -> WriteView {
    WriteView {
        strip: state.strip && state.original_len == 0,
        pending: seq![],
        original_len: 0,
        ..state
    }
}

/// The writing direction once a write of `buf` was started, and how many bytes were written where
/// there is nothing to send. A frame that is still being sent goes on instead.
pub open spec fn started(state: WriteView, buf: Seq<u8>) -> (WriteView, Option<nat>) {
    let ready = framed(state, buf);
    if state.pending.len() > 0 {
        (state, None)
    } else if ready.pending.len() > 0 {
        (ready, None)
    } else {
        (flushed(ready), Some(buf.len()))
    }
}

/// The writing direction once the socket took the first `written` bytes of what was left of the
/// frame, and how many of the caller's bytes were written once all of it went out.
pub open spec fn socket_took(state: WriteView, written: nat) -> (WriteView, Option<nat>) {
    if written < state.pending.len() {
        (WriteView { pending: state.pending.skip(written as int), ..state }, None)
    } else {
        (flushed(state), Some(state.original_len))
    }
}

/// The writing direction of a connection to a proxy.
pub struct MtProxyWriteHalf {
    cipher: AesCtr,
    strip_intermediate_init: bool,
    tls_mode: bool,
    tls_first_write: bool,
    initial_header: Vec<u8>,
    pending: Vec<u8>,
    pending_pos: usize,
    pending_original_len: usize,
}

impl View for MtProxyWriteHalf {
    type V = WriteView;

    closed spec fn view(&self) -> WriteView {
        WriteView {
            tls: self.tls_mode,
            first: self.tls_first_write,
            strip: self.strip_intermediate_init,
            key: self.cipher.key(),
            position: self.cipher.position(),
            header: self.initial_header@,
            pending: self.pending@.skip(self.pending_pos as int),
            original_len: self.pending_original_len as nat,
        }
    }
}

impl MtProxyWriteHalf {
    /// Whether what is left of a frame is within the frame, and is not nothing.
    pub closed spec fn wf(self) -> bool {
        if self.pending@.len() == 0 {
            self.pending_pos == 0 && self.pending_original_len == 0
        } else {
            self.pending_pos < self.pending@.len()
        }
    }

    /// Starts a write of `buf`. Where a frame is still being sent, that goes on instead. Returns
    /// the number of bytes written if there is nothing to send, and nothing if there is.
    pub fn start(&mut self, buf: &[u8]) -> (done: Option<usize>)
        requires
            old(self).wf(),
        ensures
            final(self).wf(),
            ({
                let ready = framed(old(self)@, buf@);
                if old(self)@.pending.len() > 0 {
                    done is None && final(self)@ == old(self)@
                } else if ready.pending.len() > 0 {
                    done is None && final(self)@ == ready
                } else {
                    done == Some(buf@.len() as usize) && final(self)@ == flushed(ready)
                }
            }),
            ({
                let (after, all) = started(old(self)@, buf@);
                &&& final(self)@ == after
                &&& match all {
                    Some(len) => done is Some && done->Some_0 == len,
                    None => done is None,
                }
            }),
    {
        if self.pending.len() > 0 {
            return None;
        }
        let ghost before = self@;
        let strips: bool = self.strip_intermediate_init && buf.len() >= 4 && same_bytes(
            slice_subrange(buf, 0, 4),
            &INTERMEDIATE_TAG,
        );
        let from: usize = if strips {
            4
        } else {
            0
        };
        assert(buf@.subrange(0, 4) =~= buf@.take(4));
        let mut encrypted: Vec<u8> = slice_copy(buf, from, buf.len());
        assert(encrypted@ =~= stripped(before.strip, buf@));
        self.cipher.apply(encrypted.as_mut_slice());
        let mut whole: Vec<u8> = Vec::new();
        append(&mut whole, &self.initial_header);
        append(&mut whole, &encrypted);
        self.initial_header.clear();
        assert(whole@ =~= before.header + ctr(
            before.key,
            before.position,
            stripped(before.strip, buf@),
        ));
        if self.tls_mode {
            self.pending = wrap_tls_records(&whole, &mut self.tls_first_write);
        } else {
            self.pending = whole;
        }
        assert(self.pending@ =~= frame(before, buf@));
        assert(self.initial_header@ =~= Seq::<u8>::empty());
        assert(self.pending@.skip(0) =~= self.pending@);
        if self.pending.len() == 0 {
            if buf.len() > 0 {
                self.strip_intermediate_init = false;
            }
            assert(self.pending@ =~= Seq::<u8>::empty());
            return Some(buf.len());
        }
        self.pending_original_len = buf.len();
        None
    }

    /// What is left of the frame that is being sent.
    pub fn chunk(&self) -> (chunk: &[u8])
        requires
            self.wf(),
        ensures
            chunk@ == self@.pending,
    {
        let chunk = slice_subrange(self.pending.as_slice(), self.pending_pos, self.pending.len());
        assert(chunk@ =~= self.pending@.skip(self.pending_pos as int));
        chunk
    }

    /// Takes note that the socket took the first `written` bytes of what was left. Once all is
    /// sent, returns how many of the caller's bytes were written.
    pub fn on_written(&mut self, written: usize) -> (done: Result<Option<usize>, MtProxyError>)
        requires
            old(self).wf(),
            old(self)@.pending.len() > 0,
            written <= old(self)@.pending.len(),
        ensures
            final(self).wf(),
            if written == 0 {
                done is Err && done->Err_0 is FrameNotWritten && final(self)@ == old(self)@
            } else if written < old(self)@.pending.len() {
                &&& done is Ok
                &&& done->Ok_0 is None
                &&& final(self)@ == (WriteView {
                    pending: old(self)@.pending.skip(written as int),
                    ..old(self)@
                })
            } else {
                &&& done is Ok
                &&& done->Ok_0 == Some(old(self)@.original_len as usize)
                &&& final(self)@ == flushed(old(self)@)
            },
            written > 0 ==> {
                let (after, all) = socket_took(old(self)@, written as nat);
                &&& final(self)@ == after
                &&& done is Ok
                &&& match all {
                    Some(len) => done->Ok_0 is Some && done->Ok_0->Some_0 == len,
                    None => done->Ok_0 is None,
                }
            },
    {
        if written == 0 {
            return Err(MtProxyError::FrameNotWritten);
        }
        let ghost before = self@;
        let left: usize = self.pending.len() - self.pending_pos;
        if written < left {
            self.pending_pos += written;
            assert(self.pending@.skip(self.pending_pos as int) =~= before.pending.skip(
                written as int,
            ));
            return Ok(None);
        }
        self.pending.clear();
        self.pending_pos = 0;
        let original_len: usize = self.pending_original_len;
        self.pending_original_len = 0;
        if original_len > 0 {
            self.strip_intermediate_init = false;
        }
        assert(self.pending@.skip(0) =~= Seq::<u8>::empty());
        Ok(Some(original_len))
    }
}

/// Both directions of a connection to a proxy.
pub struct MtProxyStream {
    pub read: MtProxyReadHalf,
    pub write: MtProxyWriteHalf,
}

/// Whether `made` is a connection that just opened with `header` and its ciphers, and what has to
/// be sent at once.
pub open spec fn is_new_stream(
    made: (MtProxyStream, Vec<u8>),
    tls: bool,
    header: (Vec<u8>, AesCtr, AesCtr),
) -> bool {
    let nothing = Seq::<u8>::empty();
    &&& made.0.write.wf()
    &&& made.0.read@ == ReadView {
        tls,
        key: header.1.key(),
        position: header.1.position(),
        raw: nothing,
        plain: nothing,
    }
    &&& made.0.write@ == WriteView {
        tls,
        first: true,
        strip: true,
        key: header.2.key(),
        position: header.2.position(),
        header: if tls {
            header.0@
        } else {
            nothing
        },
        pending: nothing,
        original_len: 0,
    }
    &&& made.1@ == if tls {
        nothing
    } else {
        header.0@
    }
}

/// Whether `opened` is what opening a connection to the proxy of `config` comes to, given the
/// draws from the random source: none are made for a secret that has no key.
pub open spec fn is_opened(
    opened: Result<(MtProxyStream, Vec<u8>), MtProxyError>,
    draws: Seq<Draw>,
    config: MtProxyConfig,
    dc_id: i16,
) -> bool {
    match proxy_secret_of(config.secret@) {
        None => opened is Err && opened->Err_0 is InvalidSecretLength && draws.len() == 0,
        Some(secret) => match opened {
            Ok(stream) => exists|header: (Vec<u8>, AesCtr, AesCtr)|
                #[trigger] is_drawn_header(Ok(header), draws, secret, dc_id) && is_new_stream(
                    stream,
                    config@.domain is Some,
                    header,
                ),
            Err(err) => is_drawn_header(Err(err), draws, secret, dc_id),
        },
    }
}

impl MtProxyStream {
    /// A connection that opens with `header`. Inside TLS records the header goes out with the
    /// first frame; outside of them it is returned, to be sent at once.
    pub fn new(tls_mode: bool, header: Vec<u8>, read_cipher: AesCtr, write_cipher: AesCtr) -> (made:
        (MtProxyStream, Vec<u8>))
        ensures
            is_new_stream(made, tls_mode, (header, read_cipher, write_cipher)),
    {
        let (initial_header, to_send): (Vec<u8>, Vec<u8>) = if tls_mode {
            (header, Vec::new())
        } else {
            (Vec::new(), header)
        };
        let read = MtProxyReadHalf {
            cipher: read_cipher,
            tls_mode,
            tls_raw: Vec::new(),
            tls_plain: VecDeque::new(),
        };
        let write = MtProxyWriteHalf {
            cipher: write_cipher,
            strip_intermediate_init: true,
            tls_mode,
            tls_first_write: true,
            initial_header,
            pending: Vec::new(),
            pending_pos: 0,
            pending_original_len: 0,
        };
        assert(write.pending@.skip(0) =~= Seq::<u8>::empty());
        assert(read.tls_plain@ =~= Seq::<u8>::empty());
        (MtProxyStream { read, write }, to_send)
    }

    /// A connection to the proxy of `config`, with a fresh header for the data centre `dc_id`,
    /// and what has to be sent at once. What the draws from the random source come to is said by
    /// `open_with`.
    pub fn open(config: &MtProxyConfig, dc_id: i16) -> (opened: Result<
        (MtProxyStream, Vec<u8>),
        MtProxyError,
    >)
        ensures
            exists|draws: Seq<Draw>| #[trigger] is_opened(opened, draws, *config, dc_id),
    {
        let mut draws: Draws = Draws::new();
        let opened = Self::open_with(&mut draws, config, dc_id);
        assert(draws.made().skip(0) =~= draws.made());
        assert(is_opened(opened, draws.made(), *config, dc_id));
        opened
    }

    /// A connection to the proxy of `config`, with a header for the data centre `dc_id` that is
    /// drawn from `draws`, and what has to be sent at once.
    pub fn open_with(draws: &mut Draws, config: &MtProxyConfig, dc_id: i16) -> (opened: Result<
        (MtProxyStream, Vec<u8>),
        MtProxyError,
    >)
        ensures
            old(draws).made().len() <= final(draws).made().len(),
            final(draws).made().take(old(draws).made().len() as int) == old(draws).made(),
            proxy_secret_of(config.secret@) is None ==> *final(draws) == *old(draws),
            is_opened(
                opened,
                final(draws).made().skip(old(draws).made().len() as int),
                *config,
                dc_id,
            ),
    {
        let secret: [u8; 16] = match config.proxy_secret() {
            Ok(secret) => secret,
            Err(err) => {
                assert(draws.made().take(draws.made().len() as int) =~= draws.made());
                return Err(err);
            },
        };
        let tls_mode: bool = match &config.mode {
            MtProxyMode::FakeTls { .. } => true,
            MtProxyMode::Obfuscated => false,
        };
        let made = draw_header(draws, &secret, dc_id);
        let ghost new = draws.made().skip(old(draws).made().len() as int);
        assert(is_drawn_header(made, new, secret@, dc_id));
        match made {
            Ok((header, read_cipher, write_cipher)) => {
                Ok(Self::new(tls_mode, header, read_cipher, write_cipher))
            },
            Err(err) => Err(err),
        }
    }

    /// The two directions, each on its own.
    pub fn split(&mut self) -> (halves: (&mut MtProxyReadHalf, &mut MtProxyWriteHalf))
        ensures
            *halves.0 == old(self).read,
            *halves.1 == old(self).write,
            final(self).read == *final(halves.0),
            final(self).write == *final(halves.1),
    {
        (&mut self.read, &mut self.write)
    }
}

/// Reads may cut the stream anywhere: taking in two pieces one after the other comes to the same
/// as taking in both at once, as long as the first holds no invalid record.
pub proof fn law_reads_stream(state: ReadView, first: Seq<u8>, second: Seq<u8>)
    requires
        state.tls ==> unwrap_records(state.raw + first).valid,
    ensures
        absorbed(absorbed(state, first), second) == absorbed(state, first + second),
        state.tls ==> unwrap_records(absorbed(state, first).raw + second).valid == unwrap_records(
            state.raw + (first + second),
        ).valid,
{
    let key = state.key;
    if state.tls {
        let raw = state.raw + first;
        let early = unwrap_records(raw);
        let late = unwrap_records(early.rest + second);
        law_unwrap_streams(raw, second);
        law_ctr_streams(key, state.position, early.payload, late.payload);
        assert(state.raw + (first + second) =~= raw + second);
    } else {
        law_ctr_streams(key, state.position, first, second);
    }
    assert(absorbed(absorbed(state, first), second).plain =~= absorbed(
        state,
        first + second,
    ).plain);
}

/// One time that a reader asks for bytes.
pub struct Poll {
    /// How many bytes the reader has room for.
    pub room: nat,
    /// What a read from the socket brings, if the socket is asked and has anything.
    pub arrived: Option<Seq<u8>>,
}

/// What a reader was handed over several polls, where that leaves the reading direction, and what
/// was taken from the socket for it.
pub struct ReadRun {
    pub state: ReadView,
    pub taken: Seq<u8>,
    pub handed: Seq<u8>,
}

/// What these polls come to, one after the other; nothing if there is an invalid record. The
/// socket is asked only where nothing is left over from an earlier read.
pub open spec fn polled(fresh: ReadView, polls: Seq<Poll>) -> Option<ReadRun>
    decreases polls.len(),
{
    if polls.len() == 0 {
        Some(ReadRun { state: fresh, taken: Seq::empty(), handed: Seq::empty() })
    } else {
        let poll = polls.last();
        match polled(fresh, polls.drop_last()) {
            None => None,
            Some(run) => if has_ready(run.state) {
                let (state, chunk) = handed_out(run.state, poll.room);
                Some(ReadRun { state, taken: run.taken, handed: run.handed + chunk })
            } else {
                match poll.arrived {
                    None => Some(run),
                    Some(bytes) => match taken_in(run.state, bytes, poll.room) {
                        (_, None) => None,
                        (state, Some(chunk)) => Some(
                            ReadRun {
                                state,
                                taken: run.taken + bytes,
                                handed: run.handed + chunk,
                            },
                        ),
                    },
                }
            },
        }
    }
}

/// What `taken` carries: the payloads of the complete records in it, where it comes in records.
pub open spec fn carried(tls: bool, taken: Seq<u8>) -> Seq<u8> {
    if tls {
        unwrap_records(taken).payload
    } else {
        taken
    }
}

/// Nothing is lost, repeated or reordered over any run of reads on a new connection: what was
/// handed out, followed by what is left to hand out, is the decryption of all that was carried.
pub proof fn law_reads_lose_nothing(fresh: ReadView, polls: Seq<Poll>)
    requires
        fresh.raw.len() == 0,
        fresh.plain.len() == 0,
        polled(fresh, polls) is Some,
    ensures
        ({
            let run = polled(fresh, polls)->Some_0;
            let data = carried(fresh.tls, run.taken);
            &&& run.handed + run.state.plain == ctr(fresh.key, fresh.position, data)
            &&& run.state.position == fresh.position + data.len()
            &&& run.state.key == fresh.key
            &&& run.state.tls == fresh.tls
            &&& fresh.tls ==> unwrap_records(run.taken).valid && run.state.raw == unwrap_records(
                run.taken,
            ).rest
            &&& !fresh.tls ==> run.state.plain.len() == 0
        }),
    decreases polls.len(),
{
    let key = fresh.key;
    if polls.len() == 0 {
        let run = polled(fresh, polls)->Some_0;
        assert(carried(fresh.tls, run.taken) =~= Seq::<u8>::empty());
        assert(run.handed + run.state.plain =~= ctr(key, fresh.position, Seq::empty()));
        assert(run.state.raw =~= Seq::<u8>::empty());
    } else {
        law_reads_lose_nothing(fresh, polls.drop_last());
        let poll = polls.last();
        let run = polled(fresh, polls.drop_last())->Some_0;
        let next = polled(fresh, polls)->Some_0;
        let data = carried(fresh.tls, run.taken);
        if has_ready(run.state) {
            assert(next.handed + next.state.plain =~= run.handed + run.state.plain);
        } else if let Some(bytes) = poll.arrived {
            if !fresh.tls {
                law_ctr_streams(key, fresh.position, data, bytes);
                assert(next.handed + next.state.plain =~= (run.handed + run.state.plain) + ctr(
                    key,
                    run.state.position,
                    bytes,
                ));
            } else if bytes.len() == 0 {
                assert(next.taken =~= run.taken);
                assert(next.handed =~= run.handed);
            } else {
                let late = unwrap_records(run.state.raw + bytes);
                law_unwrap_streams(run.taken, bytes);
                law_ctr_streams(key, fresh.position, data, late.payload);
                assert(next.handed + next.state.plain =~= (run.handed + run.state.plain) + ctr(
                    key,
                    run.state.position,
                    late.payload,
                ));
            }
        }
    }
}

/// Whether `peer`, at the other end, is where it can read what `state` writes next: it holds the
/// same key at the same place, has nothing incomplete, and no header is to come.
pub open spec fn in_step(state: WriteView, peer: ReadView) -> bool {
    &&& peer.tls == state.tls
    &&& peer.key == state.key
    &&& peer.position == state.position
    &&& peer.raw.len() == 0
    &&& state.header.len() == 0
}

/// What is written is read at the other end, in order and less the transport's tag: after the
/// change-cipher-spec record that goes before the first TLS records, a peer in step that takes in
/// the frame gets exactly the bytes that were written, and is in step for the next frame.
pub proof fn law_frame_is_read_back(state: WriteView, buf: Seq<u8>, peer: ReadView)
    requires
        in_step(state, peer),
    ensures
        ({
            let sent = frame(state, buf);
            let skipped: int = if state.tls && state.first {
                CHANGE_CIPHER_SPEC@.len() as int
            } else {
                0
            };
            let read = absorbed(peer, sent.skip(skipped));
            &&& skipped > 0 ==> sent.take(skipped) == CHANGE_CIPHER_SPEC@
            &&& state.tls ==> unwrap_records(peer.raw + sent.skip(skipped)).valid
            &&& read.plain == peer.plain + stripped(state.strip, buf)
            &&& in_step(flushed(framed(state, buf)), read)
        }),
{
    let data = stripped(state.strip, buf);
    let hidden = ctr(state.key, state.position, data);
    let sent = frame(state, buf);
    assert(state.header + hidden =~= hidden);
    law_ctr_is_its_own_inverse(state.key, state.position, data);
    if state.tls {
        law_unwrap_undoes_wrap(hidden);
        let skipped: int = if state.first {
            CHANGE_CIPHER_SPEC@.len() as int
        } else {
            0
        };
        assert(sent.skip(skipped) =~= records(hidden));
        assert(state.first ==> sent.take(skipped) =~= CHANGE_CIPHER_SPEC@);
        assert(peer.raw + records(hidden) =~= records(hidden));
    } else {
        assert(sent.skip(0) =~= hidden);
    }
}

/// The header that waits for the first frame inside TLS records arrives in front of it, and what
/// comes after it is read back.
pub proof fn law_first_frame_carries_header(state: WriteView, buf: Seq<u8>)
    requires
        state.tls,
        state.first,
    ensures
        ({
            let sent = frame(state, buf);
            let found = unwrap_records(sent.skip(CHANGE_CIPHER_SPEC@.len() as int));
            &&& sent.take(CHANGE_CIPHER_SPEC@.len() as int) == CHANGE_CIPHER_SPEC@
            &&& found.valid
            &&& found.payload == state.header + ctr(
                state.key,
                state.position,
                stripped(state.strip, buf),
            )
            &&& found.rest.len() == 0
            &&& ctr(
                state.key,
                state.position,
                found.payload.skip(state.header.len() as int),
            ) == stripped(state.strip, buf)
        }),
{
    let data = stripped(state.strip, buf);
    let whole = state.header + ctr(state.key, state.position, data);
    law_ctr_is_its_own_inverse(state.key, state.position, data);
    assert(whole.skip(state.header.len() as int) =~= ctr(state.key, state.position, data));
    let sent = frame(state, buf);
    law_unwrap_undoes_wrap(whole);
    assert(sent.skip(CHANGE_CIPHER_SPEC@.len() as int) =~= records(whole));
    assert(sent.take(CHANGE_CIPHER_SPEC@.len() as int) =~= CHANGE_CIPHER_SPEC@);
}

/// The transport's tag is left out once at most: after a frame for any bytes at all went out,
/// every later frame carries all of its bytes.
pub proof fn law_tag_is_stripped_once(state: WriteView, buf: Seq<u8>, later: Seq<u8>)
    requires
        buf.len() > 0,
    ensures
        ({
            let after = flushed(framed(state, buf));
            !after.strip && stripped(after.strip, later) == later
        }),
{
}

/// The bytes of a frame go out once and in order, in however many pieces the socket takes them: two
/// pieces come to the same as one of their length, what is left follows what was taken, and nothing
/// else changes until all is out. Then as many bytes count as written as the caller gave.
pub proof fn law_frame_goes_out_once(state: WriteView, a: nat, b: nat)
    requires
        a < state.pending.len(),
        a + b <= state.pending.len(),
    ensures
        ({
            let (after, done) = socket_took(state, a);
            let (end, all) = socket_took(state, state.pending.len());
            &&& done is None
            &&& state.pending.take(a as int) + after.pending == state.pending
            &&& after.tls == state.tls && after.first == state.first && after.strip == state.strip
            &&& after.key == state.key && after.position == state.position
            &&& after.header == state.header && after.original_len == state.original_len
            &&& socket_took(after, b) == socket_took(state, a + b)
            &&& all == Some(state.original_len)
            &&& end.pending.len() == 0 && end.original_len == 0
            &&& end.tls == state.tls && end.first == state.first
            &&& end.key == state.key && end.position == state.position
            &&& end.header == state.header
            &&& end.strip <==> state.strip && state.original_len == 0
        }),
{
    let after = socket_took(state, a).0;
    assert(state.pending.take(a as int) + after.pending =~= state.pending);
    assert(after.pending.skip(b as int) =~= state.pending.skip((a + b) as int));
}

/// A frame stands for all of the caller's bytes; it uses the header up, and only what comes after
/// the transport's tag, where that is left out, uses up the key stream.
pub proof fn law_frame_stands_for_all_bytes(state: WriteView, buf: Seq<u8>)
    ensures
        ({
            let tag = seq![0xeeu8, 0xeeu8, 0xeeu8, 0xeeu8];
            let ready = framed(state, buf);
            let left_out: int = if state.strip && buf.len() >= 4 && buf.take(4) == tag {
                4
            } else {
                0
            };
            &&& ready.original_len == buf.len()
            &&& ready.header.len() == 0
            &&& ready.key == state.key && ready.tls == state.tls && ready.strip == state.strip
            &&& ready.position == state.position + buf.len() - left_out
            &&& stripped(state.strip, buf) == buf.skip(left_out)
            &&& ready.pending == frame(state, buf)
            &&& socket_took(ready, ready.pending.len()).1 == Some(buf.len())
        }),
{
    assert(INTERMEDIATE_TAG@ =~= seq![0xeeu8, 0xeeu8, 0xeeu8, 0xeeu8]);
    assert(buf.skip(0) =~= buf);
}

/// The change-cipher-spec record goes before the first TLS records and before no others, and never
/// where there are no TLS records.
pub proof fn law_change_cipher_spec_goes_first(state: WriteView, buf: Seq<u8>, later: Seq<u8>)
    ensures
        ({
            let data = state.header + ctr(state.key, state.position, stripped(state.strip, buf));
            let next = flushed(framed(state, buf));
            let after = next.header + ctr(next.key, next.position, stripped(next.strip, later));
            let spec = seq![0x14u8, 0x03u8, 0x03u8, 0x00u8, 0x01u8, 0x01u8];
            &&& !state.tls ==> frame(state, buf) == data && frame(next, later) == after
            &&& state.tls && state.first ==> frame(state, buf) == spec + records(data)
            &&& state.tls && !state.first ==> frame(state, buf) == records(data)
            &&& state.tls ==> frame(next, later) == records(after)
        }),
{
    assert(CHANGE_CIPHER_SPEC@ =~= seq![0x14u8, 0x03u8, 0x03u8, 0x00u8, 0x01u8, 0x01u8]);
}

/// Decrypted bytes are handed out as soon as there are any and as many as there is room for: left
/// over bytes without asking the socket, and new ones right after they were taken in.
pub proof fn law_bytes_are_handed_out_at_once(state: ReadView, bytes: Seq<u8>, room: nat)
    ensures
        has_ready(state) <==> state.tls && state.plain.len() > 0,
        ({
            let (after, chunk) = handed_out(state, room);
            &&& chunk.len() == room || chunk.len() < room && after.plain.len() == 0
            &&& chunk + after.plain == state.plain
            &&& after.raw == state.raw && after.position == state.position
        }),
        ({
            let (after, chunk) = taken_in(state, bytes, room);
            if !state.tls {
                &&& chunk == Some(ctr(state.key, state.position, bytes))
                &&& after.position == state.position + bytes.len()
                &&& after.plain == state.plain && after.raw == state.raw
            } else if bytes.len() == 0 {
                chunk is Some && chunk->Some_0.len() == 0 && after == state
            } else {
                let found = unwrap_records(state.raw + bytes);
                let all = state.plain + ctr(state.key, state.position, found.payload);
                &&& after.raw == found.rest
                &&& after.position == state.position + found.payload.len()
                &&& chunk is Some <==> found.valid
                &&& match chunk {
                    Some(chunk) => {
                        &&& chunk.len() == room || chunk.len() < room && after.plain.len() == 0
                        &&& chunk + after.plain == all
                    },
                    None => after.plain == all,
                }
            }
        }),
{
    let (after, chunk) = handed_out(state, room);
    assert(chunk + after.plain =~= state.plain);
    let whole = absorbed(state, bytes);
    let (later, piece) = handed_out(whole, room);
    assert(piece + later.plain =~= whole.plain);
}

/// A connection that was opened can be talked over: the proxy, which has the 16 bytes of the secret
/// that keys are derived from, finds in the 64 bytes of the header what the client writes with from
/// then on and what it reads with. The header goes out with the first TLS records where the proxy
/// hides behind a domain, and at once where it does not.
pub proof fn law_opened_connection_can_be_talked_over(
    opened: (MtProxyStream, Vec<u8>),
    draws: Seq<Draw>,
    config: MtProxyConfig,
    dc_id: i16,
)
    requires
        is_opened(Ok(opened), draws, config, dc_id),
    ensures
        ({
            let tls = match config.mode {
                MtProxyMode::FakeTls { .. } => true,
                MtProxyMode::Obfuscated => false,
            };
            let secret = if config.secret@.len() == 16 {
                config.secret@
            } else {
                config.secret@.subrange(1, 17)
            };
            let read = opened.0.read@;
            let write = opened.0.write@;
            let header = if tls {
                write.header
            } else {
                opened.1@
            };
            let back = header.reverse();
            let key = sha256(header.subrange(8, 40) + secret)@;
            let start = 16 * be_nat(header.subrange(40, 56));
            let told = ctr(key, start + 56, header.skip(56));
            &&& config.secret@.len() >= 16
            &&& header.len() == 64
            &&& tls ==> opened.1@.len() == 0
            &&& !tls ==> write.header.len() == 0
            &&& write.tls == tls && write.first && write.strip
            &&& write.pending.len() == 0 && write.original_len == 0
            &&& write.key == key && write.position == start + 64
            &&& told.take(4) == seq![0xeeu8, 0xeeu8, 0xeeu8, 0xeeu8]
            &&& dc_id != 0 ==> told[4] + 256 * told[5] == dc_id as int % 0x1_0000
            &&& read.tls == tls && read.raw.len() == 0 && read.plain.len() == 0
            &&& read.key == sha256(back.subrange(8, 40) + secret)@
            &&& read.position == 16 * be_nat(back.subrange(40, 56))
        }),
{
    let secret = proxy_secret_of(config.secret@)->Some_0;
    let made = choose|header: (Vec<u8>, AesCtr, AesCtr)|
        #[trigger] is_drawn_header(Ok(header), draws, secret, dc_id) && is_new_stream(
            opened,
            config@.domain is Some,
            header,
        );
    let random = draws.last().bytes;
    let nothing = Seq::<u8>::empty();
    law_header_opens_the_stream(made, random, secret, dc_id, nothing);
    let sent = made.0@;
    assert(sent.skip(56) + ctr(made.2.key(), made.2.position(), nothing) =~= sent.skip(56));
    law_both_ends_agree(random, secret, dc_id);
}

/// A secret that keys cannot be derived from opens nothing and draws nothing; one that they can be
/// derived from fails to open a connection only as drawing its header fails.
pub proof fn law_when_no_connection_opens(
    err: MtProxyError,
    draws: Seq<Draw>,
    config: MtProxyConfig,
    dc_id: i16,
)
    requires
        is_opened(Err(err), draws, config, dc_id),
        draws.len() < u64::MAX,
    ensures
        config.secret@.len() < 16 <==> draws.len() == 0,
        config.secret@.len() < 16 ==> err is InvalidSecretLength,
        config.secret@.len() >= 16 ==> draws.last().filled == Err::<(), MtProxyError>(err),
{
}

/// A write that was started is done once the socket took all of its frame, and not before: the
/// caller's bytes count as written then, all of them and once. A frame that is still being sent goes
/// first, as it is; a write that there is nothing to send for is done at once.
pub proof fn law_writes_are_done_when_sent(state: WriteView, buf: Seq<u8>)
    ensures
        state.pending.len() > 0 ==> started(state, buf) == (state, None::<nat>),
        state.pending.len() == 0 ==> {
            let (after, done) = started(state, buf);
            let sent = frame(state, buf);
            &&& after.pending == sent
            &&& done is Some <==> sent.len() == 0
            &&& done is Some ==> {
                &&& done->Some_0 == buf.len()
                &&& after.original_len == 0
                &&& after.strip <==> state.strip && buf.len() == 0
            }
            &&& done is None ==> {
                let (end, all) = socket_took(after, sent.len());
                all == Some(buf.len()) && end == flushed(framed(state, buf))
            }
        },
{
    if state.pending.len() == 0 && frame(state, buf).len() == 0 {
        assert(frame(state, buf) =~= Seq::<u8>::empty());
    }
}

} // verus!
