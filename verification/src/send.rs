//! The sender's side of a transfer.
//!
//! `Handshake` makes the keys, `Prepared` waits for the receiver, `Offering`
//! offers the file, `Sender` sends its chunks, and `Delivery` sends again what
//! was lost until the receiver confirms.

use vstd::prelude::*;
use vstd::utf8::encode_utf8;

use crate::crypto::{
    derive_keys, pake_finish, pake_message, pake_view, recv_key, send_key, sha256,
    spake2_start_sender, transfer_pake, PakeState, PakeView, SIDE_A,
};
use crate::envelope::{open_message, post, postable, posted, received, refused, too_long};
use crate::error::TransferError;
use crate::file::{same_digest, FileInfo, CHUNK_SIZE};
use crate::inbox::Arrival;
use crate::protocol::{decode, encode, parse_msg, Msg, MsgView, Payload, PayloadView};
use crate::wire::lemma_le_bytes_len;

verus! {

/// How many messages are sent again for one request, besides the one that is
/// asked for. They are likely to have been lost with it.
pub const RETRANSMIT_WINDOW: u64 = 32;

/// After how many chunks the sender looks for a notice from the receiver.
pub const POLL_INTERVAL: u64 = 16;

/// After how many seconds of silence the sender no longer waits for the
/// confirmation: half an hour.
pub const ACK_TIMEOUT: u64 = 1800;

/// How many nanoseconds a number of bytes takes at a rate of so many KiB/s,
/// rounded up, so that the rate is not exceeded. A rate of zero is no limit.
pub fn pause_after(bytes: u64, rate: u32) -> (nanos: u128)
    ensures
        rate == 0 ==> nanos == 0,
        rate > 0 ==> nanos * rate * 1024 >= bytes * 1_000_000_000,
        rate > 0 ==> (nanos - 1) * rate * 1024 < bytes * 1_000_000_000,
{
    if rate == 0 {
        return 0;
    }
    let total: u128 = bytes as u128 * 1_000_000_000;
    let per_nano: u128 = rate as u128 * 1024;
    let nanos: u128 = (total + per_nano - 1) / per_nano;
    proof {
        lemma_rounded_up(total as int, per_nano as int);
        assert(nanos * rate * 1024 == nanos * per_nano && (nanos - 1) * rate * 1024 == (nanos - 1)
            * per_nano) by (nonlinear_arith)
            requires
                per_nano == rate * 1024,
        ;
    }
    nanos
}

/// Division that rounds up gives the least number of parts that suffices.
proof fn lemma_rounded_up(total: int, part: int)
    requires
        total >= 0,
        part > 0,
    ensures
        (total + part - 1) / part * part >= total,
        ((total + part - 1) / part - 1) * part < total,
{
    let q = (total + part - 1) / part;
    assert(q * part >= total && (q - 1) * part < total) by (nonlinear_arith)
        requires
            part > 0,
            q == (total + part - 1) / part,
    ;
}

// ---------------------------------------------------------------------------
// Handshake
// ---------------------------------------------------------------------------

/// Reads the receiver's hello: its address, and its key exchange message.
pub fn read_hello(raw: &[u8]) -> (r: Result<(String, Vec<u8>), TransferError>)
    ensures
        match parse_msg(raw@) {
            None => r matches Err(e) && e is Deserialize,
            Some(MsgView::Hello { receiver_address, pake_msg }) => r matches Ok((a, p)) && a@
                == receiver_address && p@ == pake_msg,
            Some(m) => r matches Err(TransferError::UnexpectedMsg(got)) && got@ == m,
        },
{
    match decode::<Msg>(raw)? {
        Msg::Hello { receiver_address, pake_msg } => Ok((receiver_address, pake_msg)),
        other => Err(TransferError::UnexpectedMsg(other)),
    }
}

/// The sender has made its reply to a hello.
pub struct Handshake {
    state: PakeState,
    peer_msg: Vec<u8>,
}

impl View for Handshake {
    type V = (PakeView, Seq<u8>);

    closed spec fn view(&self) -> (PakeView, Seq<u8>) {
        (pake_view(self.state), self.peer_msg@)
    }
}

impl Handshake {
    /// Starts a key exchange with the password, for a peer that has sent
    /// `peer_msg`. Gives the message to send.
    pub fn reply(password: &str, peer_msg: Vec<u8>) -> (r: Result<
        (Handshake, Vec<u8>),
        TransferError,
    >)
        ensures
            r matches Ok((h, raw)) && {
                let reply = MsgView::PakeReply { pake_msg: h@.0.message };
                &&& pake_message(SIDE_A, h@.0.message)
                &&& h@.0 == transfer_pake(SIDE_A, encode_utf8(password@), h@.0.message)
                &&& h@.0.password == encode_utf8(password@)
                &&& h@.1 == peer_msg@
                &&& raw@ == reply.wire()
                &&& parse_msg(raw@) == Some(reply)
            },
    {
        let (state, pake_msg) = spake2_start_sender(password.as_bytes());
        proof {
            lemma_le_bytes_len(1, 4);
            lemma_le_bytes_len(pake_msg@.len(), 8);
        }
        let raw = encode(&Msg::PakeReply { pake_msg })?;
        Ok((Handshake { state, peer_msg }, raw))
    }

    /// Finishes the key exchange, for the transfer of a file.
    pub fn finish(self, info: FileInfo) -> (r: Result<Prepared, TransferError>)
        ensures
            match pake_finish(self@.0, self@.1) {
                Ok(secret) => r matches Ok(p) && p@ == new_sender(secret, info),
                Err(why) => r matches Err(TransferError::KeyExchange(e)) && e == why,
            },
    {
        let secret = match self.state.finish(self.peer_msg.as_slice()) {
            Ok(secret) => secret,
            Err(e) => return Err(TransferError::KeyExchange(e)),
        };
        let (send_key, recv_key) = derive_keys(secret.as_slice());
        Ok(Prepared { core: Core { send_key, recv_key, info, seq: 0 } })
    }
}

// ---------------------------------------------------------------------------
// The transfer
// ---------------------------------------------------------------------------

/// What a sender knows after the key exchange.
struct Core {
    send_key: [u8; 32],
    recv_key: [u8; 32],
    info: FileInfo,
    seq: u64,
}

/// A sender that has the keys, and waits until the receiver has them too.
pub struct Prepared {
    core: Core,
}

/// A sender that offers the file.
pub struct Offering {
    core: Core,
}

/// A sender whose offer was accepted, and who sends chunks.
pub struct Sender {
    core: Core,
}

/// A sender who has sent everything, and waits for the confirmation.
pub struct Delivery {
    core: Core,
}

/// A sender as a mathematical value.
pub struct SenderView {
    /// The key under which it sends.
    pub send_key: Seq<u8>,
    /// The key under which the receiver replies.
    pub recv_key: Seq<u8>,
    /// The offer of the file.
    pub offer: PayloadView,
    /// The digest of the file.
    pub digest: Seq<u8>,
    /// How many chunks have been sent.
    pub seq: u64,
}

impl View for Core {
    type V = SenderView;

    closed spec fn view(&self) -> SenderView {
        SenderView {
            send_key: self.send_key@,
            recv_key: self.recv_key@,
            offer: self.info.offer(),
            digest: self.info.sha256@,
            seq: self.seq,
        }
    }
}

impl View for Prepared {
    type V = SenderView;

    closed spec fn view(&self) -> SenderView {
        self.core@
    }
}

impl View for Offering {
    type V = SenderView;

    closed spec fn view(&self) -> SenderView {
        self.core@
    }
}

impl View for Sender {
    type V = SenderView;

    closed spec fn view(&self) -> SenderView {
        self.core@
    }
}

impl View for Delivery {
    type V = SenderView;

    closed spec fn view(&self) -> SenderView {
        self.core@
    }
}

/// A sender right after the key exchange.
pub open spec fn new_sender(secret: Seq<u8>, info: FileInfo) -> SenderView {
    SenderView {
        send_key: send_key(secret),
        recv_key: recv_key(secret),
        offer: info.offer(),
        digest: info.sha256@,
        seq: 0,
    }
}

impl SenderView {
    /// There are counters for one more chunk and for the end.
    pub open spec fn has_room(self) -> bool {
        self.seq + 2 < u64::MAX
    }

    /// What is sent under a counter, once all chunks have been sent: the offer
    /// under zero, then the chunks, then the end. The data matter for chunks
    /// only.
    pub open spec fn payload_at(self, counter: u64, data: Seq<u8>) -> PayloadView {
        if counter == 0 {
            self.offer
        } else if counter <= self.seq {
            PayloadView::Chunk { seq: (counter - 1) as u64, data }
        } else {
            PayloadView::Done { total_chunks: self.seq }
        }
    }

    /// The end of what is sent again when this counter is asked for: the message
    /// itself and a window of those that follow it, as far as there are any.
    pub open spec fn window_end(self, counter: u64) -> int {
        if counter + RETRANSMIT_WINDOW + 1 < self.seq + 2 {
            counter + RETRANSMIT_WINDOW + 1
        } else {
            self.seq + 2
        }
    }

    /// How an answer to the offer is read.
    pub open spec fn answered(self, raw: Seq<u8>, r: Result<Answer, TransferError>) -> bool {
        match received(self.recv_key, raw) {
            Some((_, PayloadView::Accept)) => r matches Ok(Answer::Accepted(s)) && s@ == self,
            Some((_, PayloadView::Reject { reason })) => r matches Ok(Answer::Rejected(s)) && s@
                == reason,
            Some((_, p)) => r matches Err(TransferError::UnexpectedPayload(x)) && x@ == p,
            None => r matches Err(e) && refused(self.recv_key, raw, e),
        }
    }

    /// How a message is read that comes after the end was sent.
    pub open spec fn confirmed(self, raw: Seq<u8>, r: Result<Confirmation, TransferError>) -> bool {
        match received(self.recv_key, raw) {
            Some((_, PayloadView::Ack { sha256 })) => if sha256 == self.digest {
                r matches Ok(Confirmation::Delivered)
            } else {
                r matches Ok(Confirmation::Corrupted)
            },
            Some((_, PayloadView::Retransmit { counter })) => {
                &&& r matches Ok(Confirmation::Resend { from, end })
                &&& from == counter
                &&& end == self.window_end(counter)
            },
            Some((_, PayloadView::Error { message })) => r matches Err(
                TransferError::ReceiverAborted(m),
            ) && m@ == message,
            Some((_, p)) => r matches Err(TransferError::UnexpectedPayload(x)) && x@ == p,
            None => r matches Err(e) && refused(self.recv_key, raw, e),
        }
    }

    /// Whether the receiver's notice is looked for after this many chunks.
    pub open spec fn polls(self) -> bool {
        self.seq % POLL_INTERVAL == 0
    }
}

/// A sender right after the key exchange has the two keys of the secret, offers
/// the file and has sent nothing.
pub proof fn law_new_sender_has_the_keys(secret: Seq<u8>, info: FileInfo)
    ensures
        new_sender(secret, info).send_key == sha256(secret + encode_utf8("wormhole-nym-send"@)),
        new_sender(secret, info).recv_key == sha256(secret + encode_utf8("wormhole-nym-recv"@)),
        new_sender(secret, info).offer == info.offer(),
        new_sender(secret, info).digest == info.sha256@,
        new_sender(secret, info).seq == 0,
{
}

/// A request brings again exactly the message that is asked for and the 32 that
/// follow it, as far as there are any. A confirmation is a delivery exactly if
/// the digests are the same. The receiver's error ends the transfer, and all
/// else is refused.
pub proof fn law_confirmations_are_read(
    sender: SenderView,
    raw: Seq<u8>,
    r: Result<Confirmation, TransferError>,
    counter: u64,
    payload: PayloadView,
    c: u64,
)
    requires
        sender.confirmed(raw, r),
        received(sender.recv_key, raw) == Some((counter, payload)),
    ensures
        payload matches PayloadView::Retransmit { counter: asked } ==> (r matches Ok(
            Confirmation::Resend { from, end },
        ) && (from <= c < end <==> asked <= c <= asked + 32 && c <= sender.seq + 1)),
        payload matches PayloadView::Ack { sha256 } ==> {
            &&& sha256 == sender.digest <==> (r matches Ok(Confirmation::Delivered))
            &&& sha256 != sender.digest <==> (r matches Ok(Confirmation::Corrupted))
        },
        payload matches PayloadView::Error { message } ==> (r matches Err(
            TransferError::ReceiverAborted(m),
        ) && m@ == message),
        !(payload is Retransmit || payload is Ack || payload is Error) ==> (r matches Err(
            TransferError::UnexpectedPayload(x),
        ) && x@ == payload),
{
}

/// The offer is accepted or rejected exactly if the receiver says so. Messages
/// that do not open are refused, here and after the end was sent.
pub proof fn law_answers_are_read(
    sender: SenderView,
    raw: Seq<u8>,
    r: Result<Answer, TransferError>,
    late: Result<Confirmation, TransferError>,
)
    requires
        sender.answered(raw, r),
        sender.confirmed(raw, late),
    ensures
        (r matches Ok(Answer::Accepted(s)) && s@ == sender) <==> (received(
            sender.recv_key,
            raw,
        ) matches Some((_, PayloadView::Accept))),
        (r matches Ok(Answer::Rejected(_))) <==> (received(sender.recv_key, raw) matches Some(
            (_, PayloadView::Reject { .. }),
        )),
        received(sender.recv_key, raw) matches Some((_, PayloadView::Reject { reason })) ==> (
        r matches Ok(Answer::Rejected(s)) && s@ == reason),
        received(sender.recv_key, raw) matches Some((_, p)) && !(p is Accept || p is Reject) ==> (
        r matches Err(TransferError::UnexpectedPayload(x)) && x@ == received(
            sender.recv_key,
            raw,
        )->Some_0.1),
        received(sender.recv_key, raw) is None ==> {
            &&& r matches Err(e) && refused(sender.recv_key, raw, e)
            &&& late matches Err(e) && refused(sender.recv_key, raw, e)
        },
{
}

/// The sender looks for a notice after every sixteenth chunk, and can send
/// chunks until the counters for one more and for the end are used up.
pub proof fn law_polls_after_every_sixteenth_chunk(sender: SenderView, n: u64)
    ensures
        sender.seq == 16 * n ==> sender.polls(),
        16 * n < sender.seq < 16 * n + 16 ==> !sender.polls(),
        sender.has_room() <==> sender.seq < u64::MAX - 2,
{
}

/// The receiver's answer to the offer.
pub enum Answer {
    /// The chunks can be sent.
    Accepted(Sender),
    /// With the reason.
    Rejected(String),
}

/// What the receiver says after the end was sent.
#[derive(Debug)]
pub enum Confirmation {
    /// Nothing yet.
    Wait,
    /// It has the file.
    Delivered,
    /// It has a file with another digest.
    Corrupted,
    /// It misses messages. Send those with the counters `from..end` again.
    Resend { from: u64, end: u64 },
}

/// What is sent under a counter.
#[derive(Debug)]
pub enum Piece {
    Offer,
    /// The chunk that begins at this offset of the file.
    Chunk { offset: u64 },
    Done,
}

impl Core {
    #[verifier::type_invariant]
    spec fn counters_are_left(self) -> bool {
        self.seq + 2 <= u64::MAX
    }
}

impl Prepared {
    /// Reads the message that says that the receiver has the keys. No offer is
    /// made before it, because the network may put the offer in front of the
    /// sender's reply.
    pub fn on_ready(self, raw: &[u8]) -> (r: Result<Offering, TransferError>)
        ensures
            match parse_msg(raw@) {
                None => r matches Err(e) && e is Deserialize,
                Some(MsgView::Ready) => r matches Ok(o) && o@ == self@,
                Some(m) => r matches Err(TransferError::UnexpectedMsg(got)) && got@ == m,
            },
    {
        match decode::<Msg>(raw)? {
            Msg::Ready => Ok(Offering { core: self.core }),
            other => Err(TransferError::UnexpectedMsg(other)),
        }
    }
}

impl Offering {
    /// Makes the offer.
    pub fn offer(&self) -> (r: Result<Vec<u8>, TransferError>)
        ensures
            match r {
                Ok(raw) => postable(self@.offer.wire().len()) && posted(
                    self@.send_key,
                    0,
                    self@.offer,
                    raw@,
                ),
                Err(e) => too_long(self@.offer.wire().len(), e),
            },
    {
        post(&self.core.send_key, 0, &self.core.info.to_offer())
    }

    /// Reads the answer to the offer.
    pub fn on_answer(self, raw: &[u8]) -> (r: Result<Answer, TransferError>)
        ensures
            self@.answered(raw@, r),
    {
        let (_, payload) = open_message(&self.core.recv_key, raw)?;
        match payload {
            Payload::Accept => Ok(Answer::Accepted(Sender { core: self.core })),
            Payload::Reject { reason } => Ok(Answer::Rejected(reason)),
            other => Err(TransferError::UnexpectedPayload(other)),
        }
    }
}

impl Sender {
    /// How many chunks have been sent.
    pub fn chunks_sent(&self) -> (seq: u64)
        ensures
            seq == self@.seq,
    {
        self.core.seq
    }

    /// Whether there are counters for one more chunk and for the end.
    pub fn has_room(&self) -> (b: bool)
        ensures
            b == self@.has_room(),
    {
        self.core.seq < u64::MAX - 2
    }

    /// Makes the message with the next chunk of the file.
    pub fn chunk(&mut self, data: Vec<u8>) -> (r: Result<Vec<u8>, TransferError>)
        requires
            old(self)@.has_room(),
        ensures
            ({
                let seq = old(self)@.seq;
                let payload = PayloadView::Chunk { seq, data: data@ };
                match r {
                    Ok(raw) => {
                        &&& postable(payload.wire().len())
                        &&& posted(old(self)@.send_key, (seq + 1) as u64, payload, raw@)
                        &&& final(self)@ == (SenderView { seq: (seq + 1) as u64, ..old(self)@ })
                    },
                    Err(e) => too_long(payload.wire().len(), e) && final(self)@ == old(self)@,
                }
            }),
    {
        let seq: u64 = self.core.seq;
        let raw = post(&self.core.send_key, seq + 1, &Payload::Chunk { seq, data })?;
        self.core.seq = seq + 1;
        Ok(raw)
    }

    /// Whether it is time to look for a notice from the receiver.
    pub fn should_poll(&self) -> (b: bool)
        ensures
            b == self@.polls(),
    {
        self.core.seq % POLL_INTERVAL == 0
    }

    /// Reads a message that came while chunks are being sent. Gives the
    /// receiver's message if it has given up. Everything else is ignored.
    pub fn abort_notice(&self, raw: &[u8]) -> (r: Option<String>)
        ensures
            match received(self@.recv_key, raw@) {
                Some((_, PayloadView::Error { message })) => r matches Some(m) && m@ == message,
                _ => r is None,
            },
    {
        match open_message(&self.core.recv_key, raw) {
            Ok((_, Payload::Error { message })) => Some(message),
            _ => None,
        }
    }

    /// Ends the chunks. Gives the message that says so.
    pub fn done(self) -> (r: Result<(Delivery, Vec<u8>), TransferError>)
        ensures
            r matches Ok((delivery, raw)) && delivery@ == self@ && posted(
                self@.send_key,
                (self@.seq + 1) as u64,
                PayloadView::Done { total_chunks: self@.seq },
                raw@,
            ),
    {
        let core = self.core;
        proof {
            use_type_invariant(&core);
            lemma_le_bytes_len(4, 4);
            lemma_le_bytes_len(core.seq as nat, 8);
        }
        let raw = post(&core.send_key, core.seq + 1, &Payload::Done { total_chunks: core.seq })?;
        Ok((Delivery { core }, raw))
    }
}

impl Delivery {
    /// Reads a message that came after the end was sent.
    pub fn on_confirmation(&self, raw: &[u8]) -> (r: Result<Confirmation, TransferError>)
        ensures
            self@.confirmed(raw@, r),
    {
        proof {
            use_type_invariant(&self.core);
        }
        let (_, payload) = open_message(&self.core.recv_key, raw)?;
        match payload {
            Payload::Ack { sha256 } => if same_digest(&sha256, &self.core.info.sha256) {
                Ok(Confirmation::Delivered)
            } else {
                Ok(Confirmation::Corrupted)
            },
            Payload::Retransmit { counter } => {
                let mut end: u64 = self.core.seq + 2;
                if counter < end && end - counter > RETRANSMIT_WINDOW + 1 {
                    end = counter + RETRANSMIT_WINDOW + 1;
                }
                Ok(Confirmation::Resend { from: counter, end })
            },
            Payload::Error { message } => Err(TransferError::ReceiverAborted(message)),
            other => Err(TransferError::UnexpectedPayload(other)),
        }
    }

    /// Takes in what arrived after the end was sent. Half an hour of silence
    /// ends the wait.
    pub fn await_confirmation(&self, arrival: Arrival) -> (r: Result<Confirmation, TransferError>)
        ensures
            match arrival {
                Arrival::Begin => r matches Ok(Confirmation::Wait),
                Arrival::Message(raw) => self@.confirmed(raw@, r),
                Arrival::Silence => r matches Err(e) && e is NoConfirmation,
                Arrival::Closed => r matches Err(e) && e is Closed,
            },
    {
        match arrival {
            Arrival::Begin => Ok(Confirmation::Wait),
            Arrival::Message(raw) => self.on_confirmation(raw.as_slice()),
            Arrival::Silence => Err(TransferError::NoConfirmation),
            Arrival::Closed => Err(TransferError::Closed),
        }
    }

    /// Says what is sent under a counter, and where its data begin in the file.
    pub fn piece(&self, counter: u64) -> (piece: Piece)
        requires
            counter <= self@.seq + 1,
            0 < counter <= self@.seq ==> (counter - 1) * CHUNK_SIZE <= u64::MAX,
        ensures
            match piece {
                Piece::Offer => counter == 0,
                Piece::Chunk { offset } => 0 < counter <= self@.seq && offset == (counter - 1)
                    * CHUNK_SIZE,
                Piece::Done => counter == self@.seq + 1,
            },
    {
        if counter == 0 {
            Piece::Offer
        } else if counter <= self.core.seq {
            Piece::Chunk { offset: (counter - 1) * CHUNK_SIZE }
        } else {
            Piece::Done
        }
    }

    /// Makes the message with this counter again. For a chunk, the data are
    /// those of the file where the chunk begins.
    pub fn resend(&self, counter: u64, data: Vec<u8>) -> (r: Result<Vec<u8>, TransferError>)
        requires
            counter <= self@.seq + 1,
        ensures
            ({
                let payload = self@.payload_at(counter, data@);
                match r {
                    Ok(raw) => postable(payload.wire().len()) && posted(
                        self@.send_key,
                        counter,
                        payload,
                        raw@,
                    ),
                    Err(e) => too_long(payload.wire().len(), e),
                }
            }),
    {
        let payload = if counter == 0 {
            self.core.info.to_offer()
        } else if counter <= self.core.seq {
            Payload::Chunk { seq: counter - 1, data }
        } else {
            Payload::Done { total_chunks: self.core.seq }
        };
        post(&self.core.send_key, counter, &payload)
    }
}

} // verus!
