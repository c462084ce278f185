//! What holds of a transfer as a whole.

use vstd::prelude::*;
use vstd::utf8::{encode_utf8, is_ascii_chars_encode_utf8};

use crate::crypto::{pake_finish, pake_message, sha256, transfer_pake, SIDE_A, SIDE_B};
use crate::envelope::{posted, received, refused};
use crate::error::TransferError;
use crate::file::{
    chunk_count, chunk_of, chunk_start, law_chunks_make_up_the_file, outgoing, FileInfo, CHUNK_SIZE,
};
use crate::inbox::{Arrival, InboxView, Outcome};
use crate::protocol::PayloadView;
use crate::receive::{
    awaited, declined, new_receiver, new_transfer, stepped, wanted, Abort, ReceiverView, Step,
    TransferView, REQUEST_LIMIT,
};
use crate::send::{new_sender, Answer, Confirmation, SenderView, POLL_INTERVAL, RETRANSMIT_WINDOW};

verus! {

// ---------------------------------------------------------------------------
// Keys
// ---------------------------------------------------------------------------

/// Two peers with the same password who have finished the handshake hold the
/// same two keys, each for the direction that the other one expects.
pub proof fn law_handshake_gives_matching_keys(
    password: Seq<u8>,
    message_a: Seq<u8>,
    message_b: Seq<u8>,
    info: FileInfo,
)
    requires
        pake_message(SIDE_A, message_a),
        pake_message(SIDE_B, message_b),
    ensures
        ({
            let at_sender = pake_finish(transfer_pake(SIDE_A, password, message_a), message_b);
            let at_receiver = pake_finish(transfer_pake(SIDE_B, password, message_b), message_a);
            &&& at_sender is Ok
            &&& at_receiver is Ok
            &&& new_sender(at_sender->Ok_0, info).send_key == new_receiver(
                at_receiver->Ok_0,
            ).inbox.key
            &&& new_sender(at_sender->Ok_0, info).recv_key == new_receiver(at_receiver->Ok_0).key
        }),
{
}

/// The keys of the two directions are digests of different bytes, whatever the
/// secrets.
pub proof fn law_directions_are_separated(secret: Seq<u8>, other: Seq<u8>)
    ensures
        secret + encode_utf8("wormhole-nym-send"@) != other + encode_utf8("wormhole-nym-recv"@),
{
    reveal_strlit("wormhole-nym-send");
    reveal_strlit("wormhole-nym-recv");
    is_ascii_chars_encode_utf8("wormhole-nym-send"@);
    is_ascii_chars_encode_utf8("wormhole-nym-recv"@);
    let a = secret + encode_utf8("wormhole-nym-send"@);
    let b = other + encode_utf8("wormhole-nym-recv"@);
    if a == b {
        assert("wormhole-nym-send"@[16] == 'd' && "wormhole-nym-recv"@[16] == 'v');
        assert(a[a.len() - 1] == encode_utf8("wormhole-nym-send"@)[16]);
        assert(b[b.len() - 1] == encode_utf8("wormhole-nym-recv"@)[16]);
    }
}

// ---------------------------------------------------------------------------
// Counters
// ---------------------------------------------------------------------------

/// A counter of the sender stands for one payload: what is sent again under it
/// is what was sent under it first.
pub proof fn law_resent_is_what_was_sent(sender: SenderView, seq: u64, data: Seq<u8>)
    requires
        sender.seq < u64::MAX,
    ensures
        sender.payload_at(0, data) == sender.offer,
        seq < sender.seq ==> sender.payload_at((seq + 1) as u64, data) == (PayloadView::Chunk {
            seq,
            data,
        }),
        sender.payload_at((sender.seq + 1) as u64, data) == (PayloadView::Done {
            total_chunks: sender.seq,
        }),
{
}

/// A message that is made twice has the same bytes both times.
pub proof fn law_messages_are_reproducible(
    key: Seq<u8>,
    counter: u64,
    payload: PayloadView,
    first: Seq<u8>,
    second: Seq<u8>,
)
    requires
        posted(key, counter, payload, first),
        posted(key, counter, payload, second),
    ensures
        first == second,
{
}

/// The receiver never seals two replies under one counter: a step moves the
/// counter past those that it has used, and never back.
pub proof fn law_reply_counters_are_fresh(
    before: TransferView,
    arrival: Arrival,
    now: u128,
    r: Result<Step, TransferError>,
    after: TransferView,
)
    requires
        before.has_room(),
        stepped(before, arrival, now, r, after),
    ensures
        after.key == before.key,
        after.counter >= before.counter,
        r matches Ok(Step::Request(raws)) ==> forall|i: int|
            0 <= i < raws@.len() ==> (#[trigger] received(before.key, raws@[i]@) matches Some((c, _))
                && c == before.counter + i && c < after.counter),
{
    if let Ok(Step::Request(raws)) = r {
        lemma_request_count(before, raws@);
        assert forall|i: int| 0 <= i < raws@.len() implies (#[trigger] received(
            before.key,
            raws@[i]@,
        ) matches Some((c, _)) && c == before.counter + i && c < after.counter) by {
            let _ = raws@[i];
        }
    }
}

/// At most as many messages as the limit are asked for.
proof fn lemma_request_count(v: TransferView, raws: Seq<Vec<u8>>)
    requires
        v.has_room(),
        v.asks(raws),
    ensures
        raws.len() <= REQUEST_LIMIT,
{
    let c = (v.inbox.next + REQUEST_LIMIT) as u64;
    assert(!wanted(v.inbox, c));
}

// ---------------------------------------------------------------------------
// States
// ---------------------------------------------------------------------------

/// A receiver right after the key exchange opens messages with the sender's key
/// of the secret, replies under its own, and has nothing yet. A transfer keeps
/// both, replies under the counter behind that of the acceptance, expects the
/// digest that was accepted, and waits 30 s for a message.
pub proof fn law_new_states(secret: Seq<u8>, receiver: ReceiverView, digest: Seq<u8>, k: u64)
    ensures
        ({
            let new = new_receiver(secret);
            &&& new.inbox.key == sha256(secret + encode_utf8("wormhole-nym-send"@))
            &&& new.key == sha256(secret + encode_utf8("wormhole-nym-recv"@))
            &&& new.inbox.next == 0
            &&& !new.inbox.held.contains_key(k)
            &&& new.offered is None
        }),
        ({
            let new = new_transfer(receiver, digest);
            &&& new.inbox == receiver.inbox
            &&& new.key == receiver.key
            &&& new.counter == 1
            &&& new.expected == digest
            &&& new.written.len() == 0
            &&& new.patience == 30
            &&& new.last_progress == 0
        }),
{
}

/// A transfer can go on as long as the counters of 32 more deliveries and of 32
/// more replies are left.
pub proof fn law_room_is_for_the_counters_only(v: TransferView)
    ensures
        v.has_room() <==> v.inbox.next <= u64::MAX - 32 && v.counter <= u64::MAX - 32,
{
}

/// What the receiver tells the sender when it does not take the file.
pub proof fn law_reasons_are_told(why: Abort)
    ensures
        declined() == (PayloadView::Reject { reason: "User declined"@ }),
        why is Cancelled ==> why.text() == "cancelled by user"@,
        why is NoProgress ==> why.text() == "no progress for 60s — sender disconnected"@,
{
}

/// Why waiting for the offer ends without one, and when it goes on.
pub proof fn law_waiting_for_the_offer(
    before: ReceiverView,
    arrival: Arrival,
    r: Result<Option<FileInfo>, TransferError>,
    after: ReceiverView,
)
    requires
        before.inbox.next < u64::MAX,
        awaited(before, arrival, r, after),
        arrival matches Arrival::Message(raw) ==> received(before.inbox.key, raw@) is None,
        arrival is Begin ==> !before.inbox.held.contains_key(before.inbox.next),
    ensures
        after == before,
        arrival is Silence ==> (r matches Err(TransferError::NoOffer)),
        arrival is Closed ==> (r matches Err(TransferError::Closed)),
        arrival is Begin ==> (r matches Ok(None)),
        arrival matches Arrival::Message(raw) ==> (r matches Err(e) && refused(
            before.inbox.key,
            raw@,
            e,
        )),
{
}

/// The user is asked about an offer exactly if an offer is the next payload, and
/// what they are asked about is this offer: its digest is then the one that can
/// be accepted. Another payload in its place is an error, and while the next one
/// is missing, messages are only held.
pub proof fn law_the_offer_is_what_was_delivered(
    before: ReceiverView,
    raw: Vec<u8>,
    r: Result<Option<FileInfo>, TransferError>,
    after: ReceiverView,
    counter: u64,
    payload: PayloadView,
)
    requires
        before.inbox.next < u64::MAX,
        awaited(before, Arrival::Message(raw), r, after),
        received(before.inbox.key, raw@) == Some((counter, payload)),
        counter == before.inbox.next || !before.inbox.held.contains_key(before.inbox.next),
    ensures
        after.key == before.key,
        after.inbox.key == before.inbox.key,
        if counter != before.inbox.next {
            &&& r matches Ok(None)
            &&& after.inbox.next == before.inbox.next
            &&& after.inbox.held.contains_key(counter) && after.inbox.held[counter] == payload
            &&& after.offered == before.offered
        } else {
            &&& after.inbox.next == before.inbox.next + 1
            &&& match payload {
                PayloadView::Offer { filename, filesize, sha256 } => {
                    &&& after.offered == Some(sha256)
                    &&& r matches Ok(Some(info)) && info.filename@ == filename && info.filesize
                        == filesize && info.sha256@ == sha256
                },
                p => {
                    &&& after.offered == before.offered
                    &&& r matches Err(TransferError::UnexpectedPayload(x)) && x@ == p
                },
            }
        },
{
}

// ---------------------------------------------------------------------------
// Steps
// ---------------------------------------------------------------------------

/// The payload that is due, because it has just come or because it is held, is
/// dealt with by what it is: the data of a chunk are written behind what was
/// written before, and their time is kept; the end finishes the transfer; the
/// sender's error and everything else are errors. The timeout is 30 s again
/// after a chunk, if anything is held then.
pub proof fn law_due_payload_is_dealt_with(
    before: TransferView,
    arrival: Arrival,
    now: u128,
    r: Result<Step, TransferError>,
    after: TransferView,
    due: PayloadView,
)
    requires
        before.inbox.next < u64::MAX,
        stepped(before, arrival, now, r, after),
        ({
            let next = before.inbox.next;
            let opens = arrival is Message && received(
                before.inbox.key,
                arrival->Message_0@,
            ) is Some;
            let counter = received(before.inbox.key, arrival->Message_0@)->Some_0.0;
            ||| opens && received(before.inbox.key, arrival->Message_0@) == Some((next, due))
            ||| (arrival is Begin || (opens && counter != next)) && before.inbox.held.contains_key(
                next,
            ) && before.inbox.held[next] == due
        }),
    ensures
        after.inbox.next == before.inbox.next + 1,
        !after.inbox.held.contains_key(before.inbox.next),
        after.inbox.key == before.inbox.key,
        after.key == before.key,
        after.counter == before.counter,
        after.expected == before.expected,
        match due {
            PayloadView::Chunk { data, .. } => {
                &&& r matches Ok(Step::Write(d)) && d@ == data
                &&& after.written == before.written + data
                &&& after.last_progress == now
                &&& (exists|k: u64| after.inbox.held.contains_key(k)) ==> after.patience == 30
                &&& (forall|k: u64| !after.inbox.held.contains_key(k)) ==> after.patience
                    == before.patience
            },
            PayloadView::Done { .. } => r matches Ok(Step::Finished),
            PayloadView::Error { message } => r matches Err(TransferError::SenderFailed(m)) && m@
                == message,
            p => r matches Err(TransferError::UnexpectedPayload(x)) && x@ == p,
        },
        !(due is Chunk) ==> {
            &&& after.written == before.written
            &&& after.last_progress == before.last_progress
            &&& after.patience == before.patience
        },
{
    let inbox = before.inbox.after(arrival);
    assert(after.inbox == inbox);
    if exists|k: u64| inbox.held.contains_key(k) {
        assert(!inbox.nothing_held());
    } else {
        assert(inbox.nothing_held());
    }
}

/// A message that opens is kept: its payload is due at once, if it is the next
/// one, and else held under its counter, however far ahead. What was held before
/// stays held, but for what is due. Where nothing is due, nothing else changes.
pub proof fn law_step_with_a_message(
    before: TransferView,
    raw: Vec<u8>,
    now: u128,
    r: Result<Step, TransferError>,
    after: TransferView,
    counter: u64,
    payload: PayloadView,
    k: u64,
)
    requires
        before.inbox.next < u64::MAX,
        stepped(before, Arrival::Message(raw), now, r, after),
        received(before.inbox.key, raw@) == Some((counter, payload)),
    ensures
        ({
            let next = before.inbox.next;
            &&& counter != next ==> {
                &&& after.inbox.held.contains_key(counter)
                &&& after.inbox.held[counter] == payload
            }
            &&& if counter != next && !before.inbox.held.contains_key(next) {
                &&& r matches Ok(Step::Wait)
                &&& after.inbox.next == next
            } else {
                &&& !(r matches Ok(Step::Wait))
                &&& after.inbox.next == next + 1
            }
            &&& k != counter && k != next ==> {
                &&& after.inbox.held.contains_key(k) <==> before.inbox.held.contains_key(k)
                &&& before.inbox.held.contains_key(k) ==> after.inbox.held[k]
                    == before.inbox.held[k]
            }
            &&& !(r matches Ok(Step::Write(_))) ==> {
                &&& after.written == before.written
                &&& after.last_progress == before.last_progress
                &&& after.patience == before.patience
            }
            &&& after.inbox.key == before.inbox.key
            &&& after.key == before.key
            &&& after.counter == before.counter
            &&& after.expected == before.expected
        }),
{
}

/// Without a message that opens, only the payload that is due leaves the inbox,
/// if it is held and nothing else has happened. A closed connection and a message
/// that does not open are errors, and change nothing.
pub proof fn law_step_without_a_message(
    before: TransferView,
    arrival: Arrival,
    now: u128,
    r: Result<Step, TransferError>,
    after: TransferView,
    k: u64,
)
    requires
        before.inbox.next < u64::MAX,
        stepped(before, arrival, now, r, after),
        !(arrival is Silence),
        arrival matches Arrival::Message(raw) ==> received(before.inbox.key, raw@) is None,
    ensures
        ({
            let next = before.inbox.next;
            &&& if arrival is Begin && before.inbox.held.contains_key(next) {
                &&& after.inbox.next == next + 1
                &&& k != next ==> {
                    &&& after.inbox.held.contains_key(k) <==> before.inbox.held.contains_key(k)
                    &&& before.inbox.held.contains_key(k) ==> after.inbox.held[k]
                        == before.inbox.held[k]
                }
            } else {
                after == before
            }
            &&& arrival is Begin && !before.inbox.held.contains_key(next) ==> (r matches Ok(
                Step::Wait,
            ))
            &&& arrival is Closed ==> (r matches Err(TransferError::Closed))
            &&& arrival matches Arrival::Message(raw) ==> (r matches Err(e) && refused(
                before.inbox.key,
                raw@,
                e,
            ))
        }),
{
}

/// After a stall the receiver gives up exactly if the last chunk came more than
/// 60 s ago. Else it asks again, and waits 3 s for what it asked for. Nothing
/// that was taken in changes.
pub proof fn law_gives_up_after_a_minute_without_a_chunk(
    before: TransferView,
    now: u128,
    r: Result<Step, TransferError>,
    after: TransferView,
)
    requires
        stepped(before, Arrival::Silence, now, r, after),
    ensures
        (r matches Ok(Step::GiveUp)) <==> now > before.last_progress + 60_000_000_000,
        (r matches Ok(Step::Request(_))) <==> now <= before.last_progress + 60_000_000_000,
        r matches Ok(Step::Request(raws)) ==> after.patience == 3 && after.counter == (
        before.counter + raws@.len()) as u64,
        r matches Ok(Step::GiveUp) ==> after == before,
        after.inbox == before.inbox,
        after.key == before.key,
        after.expected == before.expected,
        after.written == before.written,
        after.last_progress == before.last_progress,
{
}

/// Only the time since the last chunk counts: where two transfers stall the same
/// time after their last chunks, and hold the same, they both give up or both
/// ask for the same.
pub proof fn law_only_the_time_since_the_last_chunk_counts(
    one: TransferView,
    now: u128,
    r: Result<Step, TransferError>,
    after: TransferView,
    other: TransferView,
    other_now: u128,
    other_r: Result<Step, TransferError>,
    other_after: TransferView,
)
    requires
        stepped(one, Arrival::Silence, now, r, after),
        stepped(other, Arrival::Silence, other_now, other_r, other_after),
        now - one.last_progress == other_now - other.last_progress,
    ensures
        (r matches Ok(Step::GiveUp)) <==> (other_r matches Ok(Step::GiveUp)),
        (r matches Ok(Step::Request(_))) <==> (other_r matches Ok(Step::Request(_))),
{
}

// ---------------------------------------------------------------------------
// Retransmission
// ---------------------------------------------------------------------------

/// After a stall the receiver asks for the message it waits for, and with it
/// for the whole gap up to the first message that it holds for later, as far as
/// the limit allows. Messages that have come again after their turn change
/// nothing.
pub proof fn law_stall_asks_for_the_gap(v: TransferView, raws: Seq<Vec<u8>>, first: u64)
    requires
        v.has_room(),
        v.asks(raws),
        !v.inbox.is_ready(),
    ensures
        1 <= raws.len() <= REQUEST_LIMIT,
        received(v.key, raws[0]@) == Some(
            (v.counter, PayloadView::Retransmit { counter: v.inbox.next }),
        ),
        forall|i: int|
            #![trigger raws[i]]
            0 <= i < raws.len() ==> received(v.key, raws[i]@) == Some(
                (
                    (v.counter + i) as u64,
                    PayloadView::Retransmit { counter: (v.inbox.next + i) as u64 },
                ),
            ),
        v.inbox.nothing_ahead() ==> raws.len() == 1,
        v.inbox.is_first_ahead(first) ==> raws.len() == (if first < v.inbox.next + REQUEST_LIMIT {
            first - v.inbox.next
        } else {
            REQUEST_LIMIT as int
        }),
{
    lemma_request_count(v, raws);
    let next = v.inbox.next;
    assert(wanted(v.inbox, next));
    let beyond = (next + raws.len()) as u64;
    assert(!wanted(v.inbox, beyond));
    let last = (next + raws.len() - 1) as u64;
    assert(wanted(v.inbox, last));
    let _ = raws[0];
}

/// The requests after a stall ask the sender for exactly the messages that are
/// known to be missing, each once and in order. Those are the next one and all
/// behind it up to the first that is held for later, but not more than 32, and
/// only the next one where nothing is held for later. None of them was delivered
/// or is held.
pub proof fn law_requests_are_for_what_is_missing(
    before: TransferView,
    now: u128,
    r: Result<Step, TransferError>,
    after: TransferView,
    raws: Vec<Vec<u8>>,
    i: int,
    c: u64,
)
    requires
        before.inbox.next <= u64::MAX - 32,
        before.counter <= u64::MAX - 32,
        !before.inbox.held.contains_key(before.inbox.next),
        stepped(before, Arrival::Silence, now, r, after),
        r == Ok::<Step, TransferError>(Step::Request(raws)),
    ensures
        ({
            let next = before.inbox.next;
            &&& 1 <= raws@.len() <= 32
            &&& after.counter == before.counter + raws@.len()
            &&& 0 <= i < raws@.len() ==> {
                &&& received(before.key, raws@[i]@) == Some(
                    (
                        (before.counter + i) as u64,
                        PayloadView::Retransmit { counter: (next + i) as u64 },
                    ),
                )
                &&& !before.inbox.held.contains_key((next + i) as u64)
            }
            &&& next <= c < next + raws@.len() <==> {
                &&& next <= c < next + 32
                &&& forall|k: u64| before.inbox.held.contains_key(k) && next <= k ==> c < k
                &&& (forall|k: u64| before.inbox.held.contains_key(k) ==> k < next) ==> c == next
            }
        }),
{
    let next = before.inbox.next;
    lemma_request_count(before, raws@);
    law_stall_asks_for_the_gap(before, raws@, 0);
    assert(wanted(before.inbox, c) <==> next <= c < next + raws@.len());
    if 0 <= i < raws@.len() {
        let _ = raws@[i];
        assert(wanted(before.inbox, (next + i) as u64));
    }
}

/// A stall within 60 s of the last chunk always leads to a request for the next
/// message.
pub proof fn law_short_stalls_ask_for_the_next_message(
    before: TransferView,
    now: u128,
    r: Result<Step, TransferError>,
    after: TransferView,
)
    requires
        before.inbox.next <= u64::MAX - 32,
        before.counter <= u64::MAX - 32,
        !before.inbox.held.contains_key(before.inbox.next),
        stepped(before, Arrival::Silence, now, r, after),
        now <= before.last_progress + 60_000_000_000,
    ensures
        r matches Ok(Step::Request(raws)) && raws@.len() >= 1 && received(before.key, raws@[0]@)
            == Some((before.counter, PayloadView::Retransmit { counter: before.inbox.next })),
{
    if let Ok(Step::Request(raws)) = r {
        law_requests_are_for_what_is_missing(before, now, r, after, raws, 0, before.inbox.next);
    }
}

/// What the receiver asks for is what the sender sends again, with a whole
/// window of messages behind it, or all that there are up to the end.
pub proof fn law_window_starts_with_the_request(sender: SenderView, counter: u64)
    requires
        sender.seq + 2 <= u64::MAX,
        counter <= sender.seq + 1,
    ensures
        counter < sender.window_end(counter) <= sender.seq + 2,
        sender.window_end(counter) == counter + 1 + RETRANSMIT_WINDOW || (sender.window_end(counter)
            == sender.seq + 2 && sender.seq + 2 <= counter + 1 + RETRANSMIT_WINDOW),
{
}

/// A lost message is made good: the receiver that stalls asks for it, the sender
/// reads the request and sends it again, and the receiver then goes on with it.
pub proof fn law_lost_message_is_made_good(
    v: TransferView,
    raws: Seq<Vec<u8>>,
    sender: SenderView,
    r: Result<Confirmation, TransferError>,
    data: Seq<u8>,
    again: Vec<u8>,
)
    requires
        v.has_room(),
        v.asks(raws),
        !v.inbox.is_ready(),
        sender.send_key == v.inbox.key,
        sender.recv_key == v.key,
        sender.seq + 2 <= u64::MAX,
        v.inbox.next <= sender.seq + 1,
        sender.confirmed(raws[0]@, r),
        posted(
            sender.send_key,
            v.inbox.next,
            sender.payload_at(v.inbox.next, data),
            again@,
        ),
    ensures
        r matches Ok(Confirmation::Resend { from, end }) && from == v.inbox.next && from < end,
        v.asked(raws.len()).inbox.outcome(Arrival::Message(again)) == Outcome::Deliver(
            sender.payload_at(v.inbox.next, data),
        ),
{
    law_stall_asks_for_the_gap(v, raws, 0);
}

// ---------------------------------------------------------------------------
// Answers
// ---------------------------------------------------------------------------

/// The sender looks for a notice at least once in any sixteen chunks, which are
/// 512 KiB.
pub proof fn law_abort_is_seen_within_512_kib(sender: SenderView)
    requires
        sender.seq + POLL_INTERVAL <= u64::MAX,
    ensures
        exists|n: u64|
            0 < n <= POLL_INTERVAL && #[trigger] (SenderView {
                seq: (sender.seq + n) as u64,
                ..sender
            }).polls(),
        POLL_INTERVAL * CHUNK_SIZE == 512 * 1024,
{
    let n = (POLL_INTERVAL - sender.seq % POLL_INTERVAL) as u64;
    assert((SenderView { seq: (sender.seq + n) as u64, ..sender }).polls());
}

/// The sender reads the receiver's acceptance and rejection as such.
pub proof fn law_answers_are_understood(
    sender: SenderView,
    payload: PayloadView,
    raw: Seq<u8>,
    r: Result<Answer, TransferError>,
)
    requires
        posted(sender.recv_key, 0, payload, raw),
        sender.answered(raw, r),
    ensures
        payload is Accept ==> (r matches Ok(Answer::Accepted(s)) && s@ == sender),
        payload is Reject ==> (r matches Ok(Answer::Rejected(s)) && s@ == payload->reason),
{
}

/// The sender calls a file delivered exactly if the receiver has written a file
/// with the digest that was offered, which is also when the receiver calls it
/// verified.
pub proof fn law_delivered_means_verified(
    v: TransferView,
    sender: SenderView,
    ack: Seq<u8>,
    r: Result<Confirmation, TransferError>,
)
    requires
        sender.recv_key == v.key,
        sender.digest == v.expected,
        posted(v.key, v.counter, PayloadView::Ack { sha256: sha256(v.written) }, ack),
        sender.confirmed(ack, r),
    ensures
        if sha256(v.written) == v.expected {
            r matches Ok(Confirmation::Delivered)
        } else {
            r matches Ok(Confirmation::Corrupted)
        },
{
}

/// The sender stops with the receiver's message when the receiver breaks the
/// transfer off.
pub proof fn law_notice_stops_the_sender(
    v: TransferView,
    why: Abort,
    sender: SenderView,
    notice: Seq<u8>,
    r: Result<Confirmation, TransferError>,
)
    requires
        sender.recv_key == v.key,
        posted(v.key, v.counter, PayloadView::Error { message: why.text() }, notice),
        sender.confirmed(notice, r),
    ensures
        r matches Err(TransferError::ReceiverAborted(m)) && m@ == why.text(),
        received(sender.recv_key, notice) == Some(
            (v.counter, PayloadView::Error { message: why.text() }),
        ),
{
}

// ---------------------------------------------------------------------------
// The file
// ---------------------------------------------------------------------------

/// A file that can be transferred: there are counters for all its chunks.
pub open spec fn transferable(file: Seq<u8>) -> bool {
    chunk_count(file) + 2 <= u64::MAX
}

/// The sender sends the payloads of the file, each under its counter: the offer
/// under zero, the chunk with number `seq` under `seq + 1`, and the end under
/// the next counter. What it sends again is the same.
pub proof fn law_sender_sends_the_file(
    sender: SenderView,
    info: FileInfo,
    file: Seq<u8>,
    seq: u64,
    counter: u64,
    data: Seq<u8>,
)
    requires
        transferable(file),
        sender.offer == info.offer(),
        sender.seq == chunk_count(file),
        counter <= sender.seq + 1,
        0 < counter <= sender.seq ==> data == chunk_of(file, (counter - 1) as nat),
    ensures
        outgoing(info, file)[0] == sender.offer,
        seq < sender.seq ==> outgoing(info, file)[seq + 1] == (PayloadView::Chunk {
            seq,
            data: chunk_of(file, seq as nat),
        }),
        outgoing(info, file)[sender.seq + 1] == (PayloadView::Done { total_chunks: sender.seq }),
        outgoing(info, file)[counter as int] == sender.payload_at(counter, data),
        seq < sender.seq ==> chunk_start(file, seq as nat) == seq * CHUNK_SIZE,
{
}

/// All that is held is what the sender sends for the file.
pub open spec fn holds_only(inbox: InboxView, info: FileInfo, file: Seq<u8>) -> bool {
    forall|k: u64| #[trigger]
        inbox.held.contains_key(k) ==> k < outgoing(info, file).len() && inbox.held[k] == outgoing(
            info,
            file,
        )[k as int]
}

/// What arrived is a message of the sender, or nothing.
pub open spec fn from_sender(
    key: Seq<u8>,
    arrival: Arrival,
    info: FileInfo,
    file: Seq<u8>,
) -> bool {
    match arrival {
        Arrival::Message(raw) => received(key, raw@) matches Some((c, p)) && c < outgoing(
            info,
            file,
        ).len() && p == outgoing(info, file)[c as int],
        Arrival::Closed => false,
        _ => true,
    }
}

/// The transfer has the file up to where the next chunk begins.
pub open spec fn in_step(v: TransferView, info: FileInfo, file: Seq<u8>) -> bool {
    &&& 1 <= v.inbox.next <= chunk_count(file) + 1
    &&& v.written == file.take(chunk_start(file, (v.inbox.next - 1) as nat) as int)
    &&& holds_only(v.inbox, info, file)
}

/// The offer comes first, whatever the order in which messages arrive, and the
/// digest that the receiver then expects is the one that the sender has.
pub proof fn law_offer_comes_first(
    receiver: ReceiverView,
    arrival: Arrival,
    info: FileInfo,
    file: Seq<u8>,
)
    requires
        transferable(file),
        receiver.inbox.next == 0,
        holds_only(receiver.inbox, info, file),
        from_sender(receiver.inbox.key, arrival, info, file),
    ensures
        ({
            let outcome = receiver.inbox.outcome(arrival);
            let after = receiver.after(arrival);
            &&& !(outcome is Failed)
            &&& if outcome is Deliver {
                &&& outcome == Outcome::Deliver(info.offer())
                &&& after.offered == Some(info.sha256@)
                &&& after.inbox.next == 1
            } else {
                &&& after.offered == receiver.offered
                &&& after.inbox.next == 0
            }
            &&& holds_only(after.inbox, info, file)
            &&& after.inbox.key == receiver.inbox.key
            &&& after.key == receiver.key
        }),
{
}

/// A step of a transfer with an honest sender does not fail. It writes the next
/// chunk or nothing, and it finishes only when the whole file is written.
pub proof fn law_step_is_faithful(
    before: TransferView,
    arrival: Arrival,
    now: u128,
    r: Result<Step, TransferError>,
    after: TransferView,
    info: FileInfo,
    file: Seq<u8>,
)
    requires
        transferable(file),
        in_step(before, info, file),
        from_sender(before.inbox.key, arrival, info, file),
        stepped(before, arrival, now, r, after),
    ensures
        r is Ok,
        after.inbox.key == before.inbox.key,
        after.expected == before.expected,
        r matches Ok(Step::Write(d)) ==> after.written == before.written + d@,
        !(r matches Ok(Step::Write(_))) ==> after.written == before.written,
        if r matches Ok(Step::Finished) {
            after.written == file
        } else {
            in_step(after, info, file)
        },
{
    let held = before.inbox.take_in(arrival);
    assert(holds_only(held, info, file));
    let n = before.inbox.next as int;
    law_chunks_make_up_the_file(file, (n - 1) as nat);
    if n == chunk_count(file) + 1 {
        assert(file.take(file.len() as int) =~= file);
    }
}

/// One step of a transfer, with what came of it.
pub struct Happening {
    pub arrival: Arrival,
    pub now: u128,
    pub result: Result<Step, TransferError>,
    pub after: TransferView,
}

/// The transfer after all the steps.
pub open spec fn end_of(start: TransferView, run: Seq<Happening>) -> TransferView {
    if run.len() == 0 {
        start
    } else {
        run.last().after
    }
}

/// The last step said that all chunks are there.
pub open spec fn finished(run: Seq<Happening>) -> bool {
    run.len() > 0 && (run.last().result matches Ok(Step::Finished))
}

/// The steps follow each other, and none follows the end of the transfer.
pub open spec fn runs(start: TransferView, run: Seq<Happening>) -> bool
    decreases run.len(),
{
    run.len() > 0 ==> {
        let earlier = run.drop_last();
        let last = run.last();
        &&& runs(start, earlier)
        &&& !finished(earlier)
        &&& stepped(end_of(start, earlier), last.arrival, last.now, last.result, last.after)
    }
}

/// Everything that the steps say to write, in order.
pub open spec fn output(run: Seq<Happening>) -> Seq<u8>
    decreases run.len(),
{
    if run.len() == 0 {
        Seq::empty()
    } else {
        match run.last().result {
            Ok(Step::Write(data)) => output(run.drop_last()) + data@,
            _ => output(run.drop_last()),
        }
    }
}

/// The time of the last chunk is that of the last step that wrote one, whatever
/// other steps came after it, and that of the beginning if there was none.
pub proof fn law_last_chunk_sets_the_time(start: TransferView, run: Seq<Happening>, j: int)
    requires
        runs(start, run),
        -1 <= j < run.len(),
        forall|i: int| j < i < run.len() ==> !((#[trigger] run[i]).result matches Ok(Step::Write(_))),
        j >= 0 ==> (run[j].result matches Ok(Step::Write(_))),
    ensures
        end_of(start, run).last_progress == (if j >= 0 {
            run[j].now
        } else {
            start.last_progress
        }),
    decreases run.len(),
{
    if run.len() > 0 {
        let earlier = run.drop_last();
        let last = run.last();
        assert(last == run[run.len() - 1]);
        if j < run.len() - 1 {
            assert forall|i: int| j < i < earlier.len() implies !((
            #[trigger] earlier[i]).result matches Ok(Step::Write(_))) by {
                assert(earlier[i] == run[i]);
            }
            law_last_chunk_sets_the_time(start, earlier, j);
        }
    }
}

/// Whatever the order in which the messages of the sender arrive, however often
/// they do, and whatever stalls lie between: no step fails, what is written is
/// always a beginning of the file, and it is the file when the transfer
/// finishes.
pub proof fn law_file_arrives_intact(
    start: TransferView,
    run: Seq<Happening>,
    info: FileInfo,
    file: Seq<u8>,
)
    requires
        transferable(file),
        start.inbox.next == 1,
        start.written.len() == 0,
        holds_only(start.inbox, info, file),
        runs(start, run),
        forall|i: int|
            0 <= i < run.len() ==> from_sender(
                start.inbox.key,
                (#[trigger] run[i]).arrival,
                info,
                file,
            ),
    ensures
        forall|i: int| 0 <= i < run.len() ==> (#[trigger] run[i]).result is Ok,
        output(run).is_prefix_of(file),
        end_of(start, run).written == output(run),
        finished(run) ==> output(run) == file,
{
    lemma_run(start, run, info, file);
    let v = end_of(start, run);
    if in_step(v, info, file) {
        let n = chunk_start(file, (v.inbox.next - 1) as nat) as int;
        assert(file.take(n) =~= file.subrange(0, n));
    }
}

/// What holds of a transfer after every step.
proof fn lemma_run(start: TransferView, run: Seq<Happening>, info: FileInfo, file: Seq<u8>)
    requires
        transferable(file),
        start.inbox.next == 1,
        start.written.len() == 0,
        holds_only(start.inbox, info, file),
        runs(start, run),
        forall|i: int|
            0 <= i < run.len() ==> from_sender(
                start.inbox.key,
                (#[trigger] run[i]).arrival,
                info,
                file,
            ),
    ensures
        forall|i: int| 0 <= i < run.len() ==> (#[trigger] run[i]).result is Ok,
        end_of(start, run).inbox.key == start.inbox.key,
        end_of(start, run).written == output(run),
        if finished(run) {
            output(run) == file
        } else {
            in_step(end_of(start, run), info, file)
        },
    decreases run.len(),
{
    if run.len() == 0 {
        assert(start.written =~= file.take(0));
    } else {
        let earlier = run.drop_last();
        assert forall|i: int| 0 <= i < earlier.len() implies from_sender(
            start.inbox.key,
            (#[trigger] earlier[i]).arrival,
            info,
            file,
        ) by {
            assert(earlier[i] == run[i]);
        }
        lemma_run(start, earlier, info, file);
        let last = run.last();
        assert(last == run[run.len() - 1]);
        law_step_is_faithful(
            end_of(start, earlier),
            last.arrival,
            last.now,
            last.result,
            last.after,
            info,
            file,
        );
        assert forall|i: int| 0 <= i < run.len() implies (#[trigger] run[i]).result is Ok by {
            if i < earlier.len() {
                assert(earlier[i] == run[i]);
            }
        }
    }
}

/// Once all messages have arrived, the transfer finishes without any more.
pub proof fn law_complete_arrival_finishes(
    start: TransferView,
    run: Seq<Happening>,
    info: FileInfo,
    file: Seq<u8>,
)
    requires
        transferable(file),
        in_step(start, info, file),
        forall|c: u64|
            start.inbox.next <= c < chunk_count(file) + 2 ==> start.inbox.held.contains_key(c),
        runs(start, run),
        forall|i: int| 0 <= i < run.len() ==> (#[trigger] run[i]).arrival is Begin,
        run.len() == chunk_count(file) + 2 - start.inbox.next,
    ensures
        finished(run),
        end_of(start, run).written == file,
{
    lemma_drain(start, run, info, file);
}

/// What holds while held messages are delivered.
proof fn lemma_drain(start: TransferView, run: Seq<Happening>, info: FileInfo, file: Seq<u8>)
    requires
        transferable(file),
        in_step(start, info, file),
        forall|c: u64|
            start.inbox.next <= c < chunk_count(file) + 2 ==> start.inbox.held.contains_key(c),
        runs(start, run),
        forall|i: int| 0 <= i < run.len() ==> (#[trigger] run[i]).arrival is Begin,
        run.len() <= chunk_count(file) + 2 - start.inbox.next,
    ensures
        ({
            let v = end_of(start, run);
            &&& v.inbox.next == start.inbox.next + run.len()
            &&& forall|c: u64|
                v.inbox.next <= c < chunk_count(file) + 2 ==> v.inbox.held.contains_key(c)
            &&& if run.len() < chunk_count(file) + 2 - start.inbox.next {
                &&& in_step(v, info, file)
                &&& !finished(run)
            } else {
                &&& finished(run)
                &&& v.written == file
            }
        }),
    decreases run.len(),
{
    if run.len() > 0 {
        let earlier = run.drop_last();
        assert forall|i: int| 0 <= i < earlier.len() implies (
        #[trigger] earlier[i]).arrival is Begin by {
            assert(earlier[i] == run[i]);
        }
        lemma_drain(start, earlier, info, file);
        let before = end_of(start, earlier);
        let last = run.last();
        assert(last == run[run.len() - 1]);
        assert(before.inbox.held.contains_key(before.inbox.next));
        law_step_is_faithful(
            before,
            last.arrival,
            last.now,
            last.result,
            last.after,
            info,
            file,
        );
    }
}

} // verus!
