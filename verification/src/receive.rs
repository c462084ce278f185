//! The receiver's side of a transfer.
//!
//! `Handshake` makes the keys, `Receiver` waits for the offer, and `Transfer`
//! takes in the chunks. Each is handed what arrives and says what to send, what
//! to write and how long to wait.

use vstd::prelude::*;
use vstd::utf8::encode_utf8;

use crate::crypto::{
    derive_keys, pake_finish, pake_message, pake_view, recv_key, send_key, sha256,
    spake2_start_receiver, transfer_pake, Hasher, PakeState, PakeView, SIDE_B,
};
use crate::envelope::{post, posted};
use crate::error::TransferError;
use crate::file::{same_digest, FileInfo};
use crate::inbox::{Arrival, Inbox, InboxView, Next, Outcome};
use crate::protocol::{decode, encode, parse_msg, Msg, MsgView, Payload, PayloadView};
use crate::wire::{lemma_le_bytes_len, lemma_utf8_len};

verus! {

/// Seconds to wait for a message before the transfer counts as stalled.
pub const RECV_TIMEOUT: u64 = 30;

/// Seconds to wait while lost messages are being sent again. Losses that follow
/// each other are then made good without the long wait for each.
pub const RETRANSMIT_FOLLOWUP_TIMEOUT: u64 = 3;

/// Nanoseconds without a chunk after which the sender counts as gone: 60 s.
pub const NO_PROGRESS_LIMIT: u128 = 60_000_000_000;

/// How many messages are asked for at once, at most.
pub const REQUEST_LIMIT: u64 = 32;

// ---------------------------------------------------------------------------
// Handshake
// ---------------------------------------------------------------------------

/// The receiver has said hello and waits for the reply.
pub struct Handshake {
    state: PakeState,
}

impl View for Handshake {
    type V = PakeView;

    closed spec fn view(&self) -> PakeView {
        pake_view(self.state)
    }
}

impl Handshake {
    /// Starts a key exchange with the password. Gives the message to send.
    pub fn begin(password: &str, our_address: String) -> (r: Result<
        (Handshake, Vec<u8>),
        TransferError,
    >)
        ensures
            r is Ok <==> encode_utf8(our_address@).len() + 53 <= isize::MAX,
            r matches Ok((h, raw)) ==> {
                let hello = MsgView::Hello {
                    receiver_address: our_address@,
                    pake_msg: h@.message,
                };
                &&& pake_message(SIDE_B, h@.message)
                &&& h@ == transfer_pake(SIDE_B, encode_utf8(password@), h@.message)
                &&& h@.password == encode_utf8(password@)
                &&& raw@ == hello.wire()
                &&& parse_msg(raw@) == Some(hello)
            },
            r matches Err(e) ==> e is Serialize,
    {
        let (state, pake_msg) = spake2_start_receiver(password.as_bytes());
        proof {
            lemma_le_bytes_len(0, 4);
            lemma_le_bytes_len(encode_utf8(our_address@).len(), 8);
            lemma_le_bytes_len(pake_msg@.len(), 8);
        }
        let raw = encode(&Msg::Hello { receiver_address: our_address, pake_msg })?;
        Ok((Handshake { state }, raw))
    }

    /// Finishes the key exchange with the sender's reply. Gives the message to
    /// send, which says that the keys are there.
    pub fn on_reply(self, raw: &[u8]) -> (r: Result<(Receiver, Vec<u8>), TransferError>)
        ensures
            match parse_msg(raw@) {
                None => r matches Err(e) && e is Deserialize,
                Some(MsgView::PakeReply { pake_msg }) => match pake_finish(self@, pake_msg) {
                    Ok(secret) => {
                        &&& r matches Ok((receiver, ready))
                        &&& receiver@ == new_receiver(secret)
                        &&& ready@ == MsgView::Ready.wire()
                        &&& parse_msg(ready@) == Some(MsgView::Ready)
                    },
                    Err(why) => r matches Err(TransferError::KeyExchange(e)) && e == why,
                },
                Some(m) => r matches Err(TransferError::UnexpectedMsg(got)) && got@ == m,
            },
    {
        let pake_msg = match decode::<Msg>(raw)? {
            Msg::PakeReply { pake_msg } => pake_msg,
            other => return Err(TransferError::UnexpectedMsg(other)),
        };
        let secret = match self.state.finish(pake_msg.as_slice()) {
            Ok(secret) => secret,
            Err(e) => return Err(TransferError::KeyExchange(e)),
        };
        let (send_key, recv_key) = derive_keys(secret.as_slice());
        proof {
            lemma_le_bytes_len(2, 4);
        }
        let ready = encode(&Msg::Ready)?;
        let receiver = Receiver { inbox: Inbox::new(send_key), key: recv_key, offered: None };
        Ok((receiver, ready))
    }
}

// ---------------------------------------------------------------------------
// The offer
// ---------------------------------------------------------------------------

/// The receiver has the keys and waits for the offer.
pub struct Receiver {
    inbox: Inbox,
    key: [u8; 32],
    offered: Option<[u8; 32]>,
}

/// A waiting receiver as a mathematical value.
pub struct ReceiverView {
    /// What has arrived and is not delivered yet.
    pub inbox: InboxView,
    /// The key under which the receiver replies.
    pub key: Seq<u8>,
    /// The digest of the file that was offered, once it was.
    pub offered: Option<Seq<u8>>,
}

impl ReceiverView {
    /// The receiver after an arrival.
    pub open spec fn after(self, arrival: Arrival) -> ReceiverView {
        ReceiverView {
            inbox: self.inbox.after(arrival),
            offered: match self.inbox.outcome(arrival) {
                Outcome::Deliver(PayloadView::Offer { sha256, .. }) => Some(sha256),
                _ => self.offered,
            },
            ..self
        }
    }
}

impl View for Receiver {
    type V = ReceiverView;

    closed spec fn view(&self) -> ReceiverView {
        ReceiverView {
            inbox: self.inbox@,
            key: self.key@,
            offered: match self.offered {
                Some(digest) => Some(digest@),
                None => None,
            },
        }
    }
}

/// What waiting for the offer does with an arrival.
pub open spec fn awaited(
    before: ReceiverView,
    arrival: Arrival,
    r: Result<Option<FileInfo>, TransferError>,
    after: ReceiverView,
) -> bool {
    &&& after == before.after(arrival)
    &&& match before.inbox.outcome(arrival) {
        Outcome::Deliver(p) => if p is Offer {
            r matches Ok(Some(info)) && info.offer() == p
        } else {
            r matches Err(TransferError::UnexpectedPayload(x)) && x@ == p
        },
        Outcome::Wait => r matches Ok(None),
        Outcome::Stalled => r matches Err(e) && e is NoOffer,
        Outcome::Failed => r matches Err(e) && before.inbox.failure(arrival, e),
    }
}

/// A receiver right after the key exchange.
pub open spec fn new_receiver(secret: Seq<u8>) -> ReceiverView {
    ReceiverView {
        inbox: InboxView { key: send_key(secret), held: Map::empty(), next: 0 },
        key: recv_key(secret),
        offered: None,
    }
}

/// The reason that comes with a rejection.
pub open spec fn declined() -> PayloadView {
    PayloadView::Reject { reason: "User declined"@ }
}

impl Receiver {
    /// The counter of the next delivery.
    pub fn next_counter(&self) -> (next: u64)
        ensures
            next == self@.inbox.next,
    {
        self.inbox.next_counter()
    }

    /// Takes in what arrived. Gives the offer once it is there.
    pub fn await_offer(&mut self, arrival: Arrival) -> (r: Result<Option<FileInfo>, TransferError>)
        requires
            old(self)@.inbox.next < u64::MAX,
        ensures
            awaited(old(self)@, arrival, r, final(self)@),
    {
        match self.inbox.next_payload(arrival)? {
            Next::Deliver(Payload::Offer { filename, filesize, sha256 }) => {
                self.offered = Some(sha256);
                Ok(Some(FileInfo { filename, filesize, sha256 }))
            },
            Next::Deliver(other) => Err(TransferError::UnexpectedPayload(other)),
            Next::Wait => Ok(None),
            Next::Stalled => Err(TransferError::NoOffer),
        }
    }

    /// Rejects the offer. Gives the message to send.
    pub fn decline(self) -> (r: Result<Vec<u8>, TransferError>)
        ensures
            r matches Ok(raw) && posted(self@.key, 0, declined(), raw@),
    {
        let payload = Payload::Reject { reason: "User declined".to_owned() };
        proof {
            reveal_strlit("User declined");
            lemma_utf8_len("User declined"@);
            lemma_le_bytes_len(2, 4);
            lemma_le_bytes_len(encode_utf8("User declined"@).len(), 8);
        }
        post(&self.key, 0, &payload)
    }

    /// Accepts the offer of a file with this digest. Gives the transfer and the
    /// message to send. This fails where no such file was offered.
    pub fn accept(self, sha256: [u8; 32]) -> (r: Result<(Transfer, Vec<u8>), TransferError>)
        ensures
            if self@.offered == Some(sha256@) {
                r matches Ok((transfer, raw)) && transfer@ == new_transfer(self@, sha256@)
                    && posted(self@.key, 0, PayloadView::Accept, raw@)
            } else {
                r matches Err(e) && e is NotOffered
            },
    {
        let offered = match &self.offered {
            Some(digest) => same_digest(digest, &sha256),
            None => false,
        };
        if !offered {
            return Err(TransferError::NotOffered);
        }
        proof {
            lemma_le_bytes_len(1, 4);
        }
        let raw = post(&self.key, 0, &Payload::Accept)?;
        let transfer = Transfer {
            inbox: self.inbox,
            key: self.key,
            counter: 1,
            expected: sha256,
            hasher: Hasher::new(),
            patience: RECV_TIMEOUT,
            last_progress: 0,
        };
        Ok((transfer, raw))
    }
}

// ---------------------------------------------------------------------------
// The transfer
// ---------------------------------------------------------------------------

/// The receiver has accepted the offer and takes in chunks.
pub struct Transfer {
    inbox: Inbox,
    key: [u8; 32],
    counter: u64,
    expected: [u8; 32],
    hasher: Hasher,
    patience: u64,
    last_progress: u128,
}

/// A running transfer as a mathematical value.
#[verifier::ext_equal]
pub struct TransferView {
    /// What has arrived and is not delivered yet.
    pub inbox: InboxView,
    /// The key under which the receiver replies.
    pub key: Seq<u8>,
    /// The counter of its next reply.
    pub counter: u64,
    /// The digest that was offered.
    pub expected: Seq<u8>,
    /// The data of all chunks so far.
    pub written: Seq<u8>,
    /// How many seconds to wait for a message.
    pub patience: u64,
    /// When the last chunk came, in nanoseconds since the transfer began.
    pub last_progress: u128,
}

impl View for Transfer {
    type V = TransferView;

    closed spec fn view(&self) -> TransferView {
        TransferView {
            inbox: self.inbox@,
            key: self.key@,
            counter: self.counter,
            expected: self.expected@,
            written: self.hasher@,
            patience: self.patience,
            last_progress: self.last_progress,
        }
    }
}

/// A transfer right after the offer was accepted.
pub open spec fn new_transfer(receiver: ReceiverView, expected: Seq<u8>) -> TransferView {
    TransferView {
        inbox: receiver.inbox,
        key: receiver.key,
        counter: 1,
        expected,
        written: Seq::empty(),
        patience: RECV_TIMEOUT,
        last_progress: 0,
    }
}

/// What to do after something happened in a transfer.
#[derive(Debug)]
pub enum Step {
    /// Write this to the file, and go on with `Arrival::Begin`.
    Write(Vec<u8>),
    /// Wait for another arrival.
    Wait,
    /// Send these messages, which ask for lost ones, and go on with
    /// `Arrival::Begin`.
    Request(Vec<Vec<u8>>),
    /// All chunks are there.
    Finished,
    /// The sender is gone.
    GiveUp,
}

/// Why the receiver breaks a transfer off.
#[derive(Debug)]
pub enum Abort {
    /// The user does not want to go on.
    Cancelled,
    /// No chunk came for too long.
    NoProgress,
}

impl Abort {
    /// What the sender is told.
    pub open spec fn text(&self) -> Seq<char> {
        match self {
            Abort::Cancelled => "cancelled by user"@,
            Abort::NoProgress => "no progress for 60s — sender disconnected"@,
        }
    }

    /// What the sender is told.
    pub fn message(&self) -> (m: String)
        ensures
            m@ == self.text(),
    {
        match self {
            Abort::Cancelled => "cancelled by user".to_owned(),
            Abort::NoProgress => "no progress for 60s — sender disconnected".to_owned(),
        }
    }
}

impl TransferView {
    /// The counters are far from their end.
    pub open spec fn has_room(self) -> bool {
        &&& self.inbox.next + REQUEST_LIMIT <= u64::MAX
        &&& self.counter + REQUEST_LIMIT <= u64::MAX
    }

    /// The transfer after a chunk. The long timeout is back once the inbox holds
    /// anything, because then messages flow again.
    pub open spec fn wrote(self, inbox: InboxView, data: Seq<u8>, now: u128) -> TransferView {
        TransferView {
            inbox,
            written: self.written + data,
            patience: if inbox.nothing_held() {
                self.patience
            } else {
                RECV_TIMEOUT
            },
            last_progress: now,
            ..self
        }
    }

    /// Whether the last chunk came too long ago.
    pub open spec fn no_progress(self, now: u128) -> bool {
        now - self.last_progress > NO_PROGRESS_LIMIT
    }

    /// The transfer after it has asked for lost messages.
    pub open spec fn asked(self, count: nat) -> TransferView {
        TransferView {
            counter: (self.counter + count) as u64,
            patience: RETRANSMIT_FOLLOWUP_TIMEOUT,
            ..self
        }
    }

    /// The messages ask for what is wanted, in order and each under a counter
    /// of its own.
    pub open spec fn asks(self, raws: Seq<Vec<u8>>) -> bool {
        &&& forall|c: u64|
            wanted(self.inbox, c) <==> self.inbox.next <= c < self.inbox.next + raws.len()
        &&& forall|i: int|
            #![trigger raws[i]]
            0 <= i < raws.len() ==> posted(
                self.key,
                (self.counter + i) as u64,
                PayloadView::Retransmit { counter: (self.inbox.next + i) as u64 },
                raws[i]@,
            )
    }
}

/// The counters to ask for: those from the next one on that are below all that
/// are held for later, but not more than the limit. Where nothing is held for
/// later, only the next one is known to be missing.
pub open spec fn wanted(inbox: InboxView, c: u64) -> bool {
    &&& inbox.next <= c < inbox.next + REQUEST_LIMIT
    &&& forall|k: u64| inbox.held.contains_key(k) && inbox.next <= k ==> c < k
    &&& inbox.nothing_ahead() ==> c == inbox.next
}

impl Transfer {
    /// How many seconds to wait for a message.
    pub fn patience(&self) -> (secs: u64)
        ensures
            secs == self@.patience,
    {
        self.patience
    }

    /// Whether the counters are far from their end.
    pub fn has_room(&self) -> (b: bool)
        ensures
            b == self@.has_room(),
    {
        self.inbox.next_counter() <= u64::MAX - REQUEST_LIMIT && self.counter <= u64::MAX
            - REQUEST_LIMIT
    }

    /// Takes in what arrived, `now` nanoseconds after the transfer began, and
    /// says what to do.
    pub fn step(&mut self, arrival: Arrival, now: u128) -> (r: Result<Step, TransferError>)
        requires
            old(self)@.has_room(),
        ensures
            stepped(old(self)@, arrival, now, r, final(self)@),
    {
        match self.inbox.next_payload(arrival)? {
            Next::Deliver(Payload::Chunk { seq: _, data }) => {
                self.last_progress = now;
                if !self.inbox.is_empty() {
                    self.patience = RECV_TIMEOUT;
                }
                self.hasher.update(data.as_slice());
                Ok(Step::Write(data))
            },
            Next::Deliver(Payload::Done { .. }) => Ok(Step::Finished),
            Next::Deliver(Payload::Error { message }) => Err(TransferError::SenderFailed(message)),
            Next::Deliver(other) => Err(TransferError::UnexpectedPayload(other)),
            Next::Wait => Ok(Step::Wait),
            Next::Stalled => {
                if now > self.last_progress && now - self.last_progress > NO_PROGRESS_LIMIT {
                    return Ok(Step::GiveUp);
                }
                let raws = self.ask();
                Ok(Step::Request(raws))
            },
        }
    }

    /// Asks for what is wanted.
    fn ask(&mut self) -> (raws: Vec<Vec<u8>>)
        requires
            old(self)@.has_room(),
        ensures
            old(self)@.asks(raws@),
            final(self)@ == old(self)@.asked(raws@.len()),
    {
        let ghost before = self@;
        let missing: u64 = self.inbox.next_counter();
        let mut end: u64 = match self.inbox.first_ahead() {
            Some(k) => k,
            None => missing + 1,
        };
        if end > missing + REQUEST_LIMIT {
            end = missing + REQUEST_LIMIT;
        }
        self.patience = RETRANSMIT_FOLLOWUP_TIMEOUT;
        let mut raws: Vec<Vec<u8>> = Vec::new();
        let mut ctr: u64 = missing;
        while ctr < end
            invariant
                before.has_room(),
                missing == before.inbox.next,
                missing <= ctr,
                ctr <= end || ctr == missing,
                end <= missing + REQUEST_LIMIT,
                raws@.len() == ctr - missing,
                self@ == before.asked(raws@.len()),
                forall|i: int|
                    #![trigger raws@[i]]
                    0 <= i < raws@.len() ==> posted(
                        before.key,
                        (before.counter + i) as u64,
                        PayloadView::Retransmit { counter: (missing + i) as u64 },
                        raws@[i]@,
                    ),
            decreases end - ctr,
        {
            proof {
                lemma_le_bytes_len(7, 4);
                lemma_le_bytes_len(ctr as nat, 8);
            }
            match post(&self.key, self.counter, &Payload::Retransmit { counter: ctr }) {
                Ok(raw) => {
                    raws.push(raw);
                },
                Err(_) => {
                    assert(false);
                },
            }
            self.counter = self.counter + 1;
            ctr = ctr + 1;
        }
        raws
    }

    /// Breaks the transfer off. Gives the message that tells the sender.
    pub fn notice(self, why: Abort) -> (r: Result<Vec<u8>, TransferError>)
        ensures
            r matches Ok(raw) && posted(
                self@.key,
                self@.counter,
                PayloadView::Error { message: why.text() },
                raw@,
            ),
    {
        let payload = Payload::Error { message: why.message() };
        proof {
            reveal_strlit("cancelled by user");
            reveal_strlit("no progress for 60s — sender disconnected");
            lemma_utf8_len(why.text());
            lemma_le_bytes_len(6, 4);
            lemma_le_bytes_len(encode_utf8(why.text()).len(), 8);
        }
        post(&self.key, self.counter, &payload)
    }

    /// Ends the transfer. Says whether what was written has the digest that was
    /// offered, and gives the message that confirms its digest.
    pub fn finish(self) -> (r: Result<(bool, Vec<u8>), TransferError>)
        ensures
            r matches Ok((verified, raw)) && verified == (sha256(self@.written) == self@.expected)
                && posted(
                self@.key,
                self@.counter,
                PayloadView::Ack { sha256: sha256(self@.written) },
                raw@,
            ),
    {
        let actual = self.hasher.finalize();
        let verified = same_digest(&actual, &self.expected);
        proof {
            lemma_le_bytes_len(5, 4);
        }
        let raw = post(&self.key, self.counter, &Payload::Ack { sha256: actual })?;
        Ok((verified, raw))
    }
}

/// What a step of a transfer does.
pub open spec fn stepped(
    before: TransferView,
    arrival: Arrival,
    now: u128,
    r: Result<Step, TransferError>,
    after: TransferView,
) -> bool {
    let inbox = before.inbox.after(arrival);
    let moved = TransferView { inbox, ..before };
    match before.inbox.outcome(arrival) {
        Outcome::Deliver(PayloadView::Chunk { data, .. }) => {
            &&& r matches Ok(Step::Write(d)) && d@ == data
            &&& after == before.wrote(inbox, data, now)
        },
        Outcome::Deliver(PayloadView::Done { .. }) => {
            &&& r matches Ok(Step::Finished)
            &&& after == moved
        },
        Outcome::Deliver(PayloadView::Error { message }) => {
            &&& r matches Err(TransferError::SenderFailed(m)) && m@ == message
            &&& after == moved
        },
        Outcome::Deliver(p) => {
            &&& r matches Err(TransferError::UnexpectedPayload(x)) && x@ == p
            &&& after == moved
        },
        Outcome::Wait => {
            &&& r matches Ok(Step::Wait)
            &&& after == moved
        },
        Outcome::Stalled => if before.no_progress(now) {
            &&& r matches Ok(Step::GiveUp)
            &&& after == moved
        } else {
            &&& r matches Ok(Step::Request(raws)) && before.asks(raws@) && after == before.asked(
                raws@.len(),
            )
        },
        Outcome::Failed => {
            &&& r matches Err(e) && before.inbox.failure(arrival, e)
            &&& after == moved
        },
    }
}

} // verus!
