//! Whole transfers between a sender and a receiver.

use wormhole_nym::crypto::{derive_keys, spake2_start_receiver, spake2_start_sender, Hasher};
use wormhole_nym::envelope::{open_message, post};
use wormhole_nym::error::{PakeError, TransferError};
use wormhole_nym::file::{same_digest, FileInfo, CHUNK_SIZE};
use wormhole_nym::inbox::Arrival;
use wormhole_nym::protocol::{decode, encode, Msg, Payload};
use wormhole_nym::receive::{
    Abort, Handshake as ReceiverHandshake, Receiver, Step, Transfer, RECV_TIMEOUT,
    RETRANSMIT_FOLLOWUP_TIMEOUT,
};
use wormhole_nym::send::{
    pause_after, read_hello, Answer, Confirmation, Delivery, Handshake as SenderHandshake,
    Offering, Piece, Prepared, Sender, ACK_TIMEOUT,
};

const PASSWORD: &str = "fork-road-calm";
const SECOND: u128 = 1_000_000_000;

fn digest(data: &[u8]) -> [u8; 32] {
    let mut h = Hasher::new();
    h.update(data);
    h.finalize()
}

fn info(file: &[u8]) -> FileInfo {
    FileInfo {
        filename: "photo.jpg".to_string(),
        filesize: file.len() as u64,
        sha256: digest(file),
    }
}

fn sample(len: usize) -> Vec<u8> {
    (0..len).map(|i| (i * 7 + i / 251) as u8).collect()
}

/// Runs the handshake.
fn connect(file: &[u8]) -> (Offering, Receiver) {
    let (receiver, hello) = ReceiverHandshake::begin(PASSWORD, "addr@gw".to_string()).unwrap();
    let (address, pake_msg) = read_hello(&hello).unwrap();
    assert_eq!(address, "addr@gw");
    let (sender, reply) = SenderHandshake::reply(PASSWORD, pake_msg).unwrap();
    let sender: Prepared = sender.finish(info(file)).unwrap();
    let (receiver, ready) = receiver.on_reply(&reply).unwrap();
    (sender.on_ready(&ready).unwrap(), receiver)
}

/// Runs the handshake and the offer.
fn accept(file: &[u8]) -> (Sender, Transfer) {
    let (sender, mut receiver) = connect(file);
    let offer = sender.offer().unwrap();
    let offered = receiver.await_offer(Arrival::Message(offer)).unwrap().unwrap();
    assert_eq!(offered.filename, "photo.jpg");
    assert_eq!(offered.filesize, file.len() as u64);
    let (transfer, answer) = receiver.accept(offered.sha256).unwrap();
    (accepted(sender, &answer), transfer)
}

/// The sender after an answer that accepts.
fn accepted(sender: Offering, answer: &[u8]) -> Sender {
    match sender.on_answer(answer) {
        Ok(Answer::Accepted(sender)) => sender,
        _ => panic!("not accepted"),
    }
}

/// All the messages with chunks, and the end.
fn all_messages(mut sender: Sender, file: &[u8]) -> (Delivery, Vec<Vec<u8>>) {
    let mut out = Vec::new();
    for chunk in file.chunks(CHUNK_SIZE as usize) {
        assert!(sender.has_room());
        out.push(sender.chunk(chunk.to_vec()).unwrap());
    }
    let (delivery, done) = sender.done().unwrap();
    out.push(done);
    (delivery, out)
}

/// Hands an arrival to the transfer. Says whether it has finished.
fn feed(transfer: &mut Transfer, written: &mut Vec<u8>, first: Arrival) -> bool {
    let mut arrival = first;
    loop {
        assert!(transfer.has_room());
        match transfer.step(arrival, 0).unwrap() {
            Step::Write(data) => written.extend(data),
            Step::Wait => return false,
            Step::Finished => return true,
            _ => panic!("not expected"),
        }
        arrival = Arrival::Begin;
    }
}

#[test]
fn a_file_arrives() {
    for len in [0, 1, 0x7fff, 0x8000, 0x8001, 200_000] {
        let file = sample(len);
        let (sender, mut transfer) = accept(&file);
        let mut written = Vec::new();
        let (sender, messages) = all_messages(sender, &file);
        assert_eq!(messages.len(), (len + 0x7fff) / 0x8000 + 1);
        let last = messages.len() - 1;
        for (i, raw) in messages.into_iter().enumerate() {
            let finished = feed(&mut transfer, &mut written, Arrival::Message(raw));
            assert_eq!(finished, i == last);
        }
        assert_eq!(written, file);
        let (verified, ack) = transfer.finish().unwrap();
        assert!(verified);
        assert!(matches!(sender.on_confirmation(&ack), Ok(Confirmation::Delivered)));
    }
}

#[test]
fn a_file_arrives_in_reverse_and_twice() {
    let file = sample(100_000);
    let (sender, mut transfer) = accept(&file);
    let mut written = Vec::new();
    let (_, mut messages) = all_messages(sender, &file);
    messages.reverse();
    let count = messages.len();
    for (i, raw) in messages.into_iter().enumerate() {
        if i + 1 < count {
            assert!(!feed(&mut transfer, &mut written, Arrival::Message(raw.clone())));
            assert!(!feed(&mut transfer, &mut written, Arrival::Message(raw)));
            assert!(written.is_empty());
        } else {
            assert!(feed(&mut transfer, &mut written, Arrival::Message(raw)));
        }
    }
    assert_eq!(written, file);
    assert!(transfer.finish().unwrap().0);
}

#[test]
fn the_offer_may_come_after_chunks() {
    let file = sample(40_000);
    let (mut receiver, key) = receiver_by_hand();
    let offer = info(&file).to_offer();
    let payloads = [
        Payload::Chunk { seq: 0, data: file[..0x8000].to_vec() },
        Payload::Chunk { seq: 1, data: file[0x8000..].to_vec() },
        Payload::Done { total_chunks: 2 },
    ];
    assert!(receiver.await_offer(Arrival::Begin).unwrap().is_none());
    for (i, payload) in payloads.iter().enumerate() {
        let raw = post(&key, i as u64 + 1, payload).unwrap();
        assert!(receiver.await_offer(Arrival::Message(raw)).unwrap().is_none());
    }
    assert_eq!(receiver.next_counter(), 0);
    let raw = post(&key, 0, &offer).unwrap();
    let offered = receiver.await_offer(Arrival::Message(raw)).unwrap().unwrap();
    assert_eq!(receiver.next_counter(), 1);
    let (mut transfer, _) = receiver.accept(offered.sha256).unwrap();
    let mut written = Vec::new();
    assert!(feed(&mut transfer, &mut written, Arrival::Begin));
    assert_eq!(written, file);
    assert!(transfer.finish().unwrap().0);
}

#[test]
fn lost_chunks_are_asked_for_and_sent_again() {
    let file = sample(10 * 0x8000);
    let (sender, mut transfer) = accept(&file);
    let mut written = Vec::new();
    let (sender, messages) = all_messages(sender, &file);
    // Chunks 2, 3 and 4 are lost: counters 3, 4 and 5.
    for (i, raw) in messages.iter().enumerate() {
        if !(2..5).contains(&i) {
            assert!(!feed(&mut transfer, &mut written, Arrival::Message(raw.clone())));
        }
    }
    assert_eq!(transfer.patience(), RECV_TIMEOUT);
    let requests = match transfer.step(Arrival::Silence, 30 * SECOND).unwrap() {
        Step::Request(raws) => raws,
        _ => panic!("not expected"),
    };
    assert_eq!(transfer.patience(), RETRANSMIT_FOLLOWUP_TIMEOUT);
    assert_eq!(requests.len(), 3);
    for (i, raw) in requests.iter().enumerate() {
        match sender.on_confirmation(raw).unwrap() {
            Confirmation::Resend { from, end } => {
                assert_eq!(from, 3 + i as u64);
                assert_eq!(end, 12);
            }
            _ => panic!("not expected"),
        }
    }
    for counter in 3..6 {
        let offset = match sender.piece(counter) {
            Piece::Chunk { offset } => offset as usize,
            _ => panic!("not expected"),
        };
        assert_eq!(offset, (counter as usize - 1) * 0x8000);
        let again = sender.resend(counter, file[offset..offset + 0x8000].to_vec()).unwrap();
        assert_eq!(again, messages[counter as usize - 1]);
        let finished = feed(&mut transfer, &mut written, Arrival::Message(again));
        assert_eq!(finished, counter == 5);
    }
    assert_eq!(written, file);
    assert!(transfer.finish().unwrap().0);
}

#[test]
fn requests_are_limited_and_have_counters_of_their_own() {
    let file = sample(100);
    let (_, mut transfer) = accept(&file);
    // Nothing is held: only the next counter is asked for.
    match transfer.step(Arrival::Silence, SECOND).unwrap() {
        Step::Request(raws) => {
            assert_eq!(raws.len(), 1);
            match decode::<Msg>(&raws[0]).unwrap() {
                Msg::Encrypted { counter, .. } => assert_eq!(counter, 1),
                _ => panic!("not expected"),
            }
        }
        _ => panic!("not expected"),
    }
    // A gap that is larger than the limit.
    let (other, mut transfer) = accept(&sample(50 * 0x8000));
    let (other, messages) = all_messages(other, &sample(50 * 0x8000));
    let mut written = Vec::new();
    feed(&mut transfer, &mut written, Arrival::Message(messages[49].clone()));
    for round in 0..2 {
        match transfer.step(Arrival::Silence, SECOND).unwrap() {
            Step::Request(raws) => {
                assert_eq!(raws.len(), 32);
                for (i, raw) in raws.iter().enumerate() {
                    match decode::<Msg>(raw).unwrap() {
                        Msg::Encrypted { counter, .. } => {
                            assert_eq!(counter, 1 + round * 32 + i as u64)
                        }
                        _ => panic!("not expected"),
                    }
                    assert!(matches!(
                        other.on_confirmation(raw),
                        Ok(Confirmation::Resend { from, .. }) if from == 1 + i as u64
                    ));
                }
            }
            _ => panic!("not expected"),
        }
    }
}

/// The counters that the requests of a step ask for.
fn asked_for(sender: &Delivery, step: Step) -> Vec<u64> {
    match step {
        Step::Request(raws) => raws
            .iter()
            .map(|raw| match sender.on_confirmation(raw) {
                Ok(Confirmation::Resend { from, .. }) => from,
                _ => panic!("not a request"),
            })
            .collect(),
        _ => panic!("not expected"),
    }
}

#[test]
fn a_delivered_message_that_comes_again_does_not_stop_requests() {
    let file = sample(6 * 0x8000);
    let (sender, mut transfer) = accept(&file);
    let (sender, messages) = all_messages(sender, &file);
    let mut written = Vec::new();
    feed(&mut transfer, &mut written, Arrival::Message(messages[0].clone()));
    feed(&mut transfer, &mut written, Arrival::Message(messages[0].clone()));
    let step = transfer.step(Arrival::Silence, 30 * SECOND).unwrap();
    assert_eq!(asked_for(&sender, step), vec![2]);
    // With a later message held too, the gap below it is asked for.
    feed(&mut transfer, &mut written, Arrival::Message(messages[4].clone()));
    let step = transfer.step(Arrival::Silence, 33 * SECOND).unwrap();
    assert_eq!(asked_for(&sender, step), vec![2, 3, 4]);
    for i in [1, 2, 3, 5] {
        assert!(!feed(&mut transfer, &mut written, Arrival::Message(messages[i].clone())));
    }
    assert!(feed(&mut transfer, &mut written, Arrival::Message(messages[6].clone())));
    assert_eq!(written, file);
    assert!(transfer.finish().unwrap().0);
}

#[test]
fn the_long_timeout_is_back_when_anything_is_held() {
    let file = sample(3 * 0x8000);
    let (sender, mut transfer) = accept(&file);
    let (_, messages) = all_messages(sender, &file);
    let mut written = Vec::new();
    feed(&mut transfer, &mut written, Arrival::Message(messages[0].clone()));
    feed(&mut transfer, &mut written, Arrival::Message(messages[0].clone()));
    assert!(matches!(transfer.step(Arrival::Silence, SECOND), Ok(Step::Request(_))));
    assert_eq!(transfer.patience(), 3);
    feed(&mut transfer, &mut written, Arrival::Message(messages[1].clone()));
    assert_eq!(transfer.patience(), 30);
}

#[test]
fn the_long_timeout_is_back_when_messages_flow() {
    let file = sample(3 * 0x8000);
    let (sender, mut transfer) = accept(&file);
    let (sender, messages) = all_messages(sender, &file);
    assert!(matches!(transfer.step(Arrival::Silence, SECOND), Ok(Step::Request(_))));
    assert_eq!(transfer.patience(), 3);
    // The first chunk alone leaves nothing behind it.
    let first = Arrival::Message(messages[0].clone());
    assert!(matches!(transfer.step(first, SECOND), Ok(Step::Write(_))));
    assert_eq!(transfer.patience(), 3);
    // The second one comes when another is held.
    let third = Arrival::Message(messages[2].clone());
    assert!(matches!(transfer.step(third, SECOND), Ok(Step::Wait)));
    let second = Arrival::Message(messages[1].clone());
    assert!(matches!(transfer.step(second, SECOND), Ok(Step::Write(_))));
    assert_eq!(transfer.patience(), 30);
}

#[test]
fn a_minute_without_a_chunk_ends_the_transfer() {
    let file = sample(2 * 0x8000);
    let (sender, mut transfer) = accept(&file);
    let (sender, messages) = all_messages(sender, &file);
    assert!(matches!(transfer.step(Arrival::Silence, 60 * SECOND), Ok(Step::Request(_))));
    assert!(matches!(transfer.step(Arrival::Silence, 60 * SECOND + 1), Ok(Step::GiveUp)));
    let first = Arrival::Message(messages[0].clone());
    assert!(matches!(transfer.step(first, 61 * SECOND), Ok(Step::Write(_))));
    assert!(matches!(transfer.step(Arrival::Silence, 121 * SECOND), Ok(Step::Request(_))));
    assert!(matches!(transfer.step(Arrival::Silence, 122 * SECOND), Ok(Step::GiveUp)));
    let notice = transfer.notice(Abort::NoProgress).unwrap();
    assert!(matches!(
        sender.on_confirmation(&notice),
        Err(TransferError::ReceiverAborted(m)) if m == "no progress for 60s — sender disconnected"
    ));
}

#[test]
fn cancelling_stops_the_sender() {
    let file = sample(2 * 0x8000);
    let (sender, transfer) = accept(&file);
    let notice = transfer.notice(Abort::Cancelled).unwrap();
    assert_eq!(Abort::Cancelled.message(), "cancelled by user");
    assert_eq!(sender.abort_notice(&notice).unwrap(), "cancelled by user");
    let (sender, _) = all_messages(sender, &file);
    assert!(matches!(
        sender.on_confirmation(&notice),
        Err(TransferError::ReceiverAborted(m)) if m == "cancelled by user"
    ));
}

#[test]
fn only_an_abort_is_noticed_while_sending() {
    let file = sample(10);
    let (sender, mut transfer) = accept(&file);
    assert!(sender.abort_notice(&[1, 2, 3]).is_none());
    assert!(sender.abort_notice(&encode(&Msg::Ready).unwrap()).is_none());
    match transfer.step(Arrival::Silence, 0).unwrap() {
        Step::Request(raws) => assert!(sender.abort_notice(&raws[0]).is_none()),
        _ => panic!("not expected"),
    }
}

#[test]
fn the_sender_polls_after_every_sixteenth_chunk() {
    let (mut sender, _) = accept(&[]);
    for n in 1..=48 {
        sender.chunk(vec![0]).unwrap();
        assert_eq!(sender.chunks_sent(), n);
        assert_eq!(sender.should_poll(), n == 16 || n == 32 || n == 48);
    }
    assert_eq!(16 * CHUNK_SIZE, 512 * 1024);
}

/// A sender, and both keys of the receiver it talks to.
fn by_hand() -> (Offering, [u8; 32], [u8; 32]) {
    let (state, message_b) = spake2_start_receiver(PASSWORD.as_bytes());
    let (handshake, reply) = SenderHandshake::reply(PASSWORD, message_b).unwrap();
    let sender = handshake.finish(info(b"x")).unwrap();
    let sender = sender.on_ready(&encode(&Msg::Ready).unwrap()).unwrap();
    let pake_msg = match decode::<Msg>(&reply).unwrap() {
        Msg::PakeReply { pake_msg } => pake_msg,
        _ => panic!("not expected"),
    };
    let secret = state.finish(&pake_msg).unwrap();
    let (send_key, recv_key) = derive_keys(&secret);
    (sender, send_key, recv_key)
}

#[test]
fn resending_covers_a_window() {
    let (sender, _, key) = by_hand();
    let offer = sender.offer().unwrap();
    let mut sender = accepted(sender, &post(&key, 0, &Payload::Accept).unwrap());
    for _ in 0..100 {
        sender.chunk(vec![1]).unwrap();
    }
    let (sender, done) = sender.done().unwrap();
    for (from, end) in [(0, 33), (1, 34), (68, 101), (69, 102), (70, 102), (101, 102), (102, 102), (500, 102)] {
        let raw = post(&key, 5, &Payload::Retransmit { counter: from }).unwrap();
        match sender.on_confirmation(&raw) {
            Ok(Confirmation::Resend { from: f, end: e }) => assert_eq!((f, e), (from, end)),
            other => panic!("not expected: {:?}", other),
        }
    }
    let raw = post(&key, 5, &Payload::Retransmit { counter: u64::MAX }).unwrap();
    assert!(matches!(
        sender.on_confirmation(&raw),
        Ok(Confirmation::Resend { from: u64::MAX, end: 102 })
    ));
    assert!(matches!(sender.piece(0), Piece::Offer));
    assert!(matches!(sender.piece(1), Piece::Chunk { offset: 0 }));
    assert!(matches!(sender.piece(100), Piece::Chunk { offset: 3_244_032 }));
    assert!(matches!(sender.piece(101), Piece::Done));
    assert_eq!(sender.resend(0, vec![]).unwrap(), offer);
    assert_eq!(sender.resend(101, vec![]).unwrap(), done);
}

#[test]
fn a_request_brings_the_message_and_the_32_that_follow() {
    let file = vec![7u8; 1_310_720];
    let (sender, mut transfer) = accept(&file);
    let (sender, messages) = all_messages(sender, &file);
    assert_eq!(messages.len(), 41);
    let raws = match transfer.step(Arrival::Silence, 30 * SECOND).unwrap() {
        Step::Request(raws) => raws,
        _ => panic!("not expected"),
    };
    assert_eq!(raws.len(), 1);
    let (from, end) = match sender.await_confirmation(Arrival::Message(raws[0].clone())) {
        Ok(Confirmation::Resend { from, end }) => (from, end),
        other => panic!("not expected: {:?}", other),
    };
    assert_eq!((from, end), (1, 34));
    let mut written = Vec::new();
    for counter in from..end {
        let again = sender.resend(counter, vec![7u8; 0x8000]).unwrap();
        assert_eq!(again, messages[counter as usize - 1]);
        feed(&mut transfer, &mut written, Arrival::Message(again));
    }
    assert_eq!(written, &file[..33 * 0x8000]);
}

#[test]
fn the_wait_for_the_confirmation_ends() {
    let (sender, transfer) = accept(&[]);
    let (sender, _) = sender.done().unwrap();
    assert!(matches!(sender.await_confirmation(Arrival::Begin), Ok(Confirmation::Wait)));
    assert!(matches!(
        sender.await_confirmation(Arrival::Silence),
        Err(TransferError::NoConfirmation)
    ));
    assert!(matches!(
        sender.await_confirmation(Arrival::Closed),
        Err(TransferError::Closed)
    ));
    let (_, ack) = transfer.finish().unwrap();
    assert!(matches!(
        sender.await_confirmation(Arrival::Message(ack)),
        Ok(Confirmation::Delivered)
    ));
}

#[test]
fn unexpected_answers_are_refused() {
    let (sender, send_key, key) = by_hand();
    let offer = sender.offer().unwrap();
    assert!(matches!(
        open_message(&send_key, &offer),
        Ok((0, Payload::Offer { filename, filesize: 1, .. })) if filename == "photo.jpg"
    ));
    let ack = post(&key, 0, &Payload::Ack { sha256: [0; 32] }).unwrap();
    assert!(matches!(
        sender.on_answer(&ack),
        Err(TransferError::UnexpectedPayload(Payload::Ack { .. }))
    ));
    let (sender, send_key, _) = by_hand();
    let own = post(&send_key, 0, &Payload::Accept).unwrap();
    assert!(matches!(sender.on_answer(&own), Err(TransferError::Decrypt { .. })));
    let (sender, _, _) = by_hand();
    let ready = encode(&Msg::Ready).unwrap();
    assert!(matches!(
        sender.on_answer(&ready),
        Err(TransferError::UnexpectedMsg(Msg::Ready))
    ));
}

#[test]
fn unexpected_confirmations_are_refused() {
    let (sender, _, key) = by_hand();
    let accept = post(&key, 0, &Payload::Accept).unwrap();
    let (sender, _) = accepted(sender, &accept).done().unwrap();
    assert!(matches!(
        sender.on_confirmation(&accept),
        Err(TransferError::UnexpectedPayload(Payload::Accept))
    ));
    let ack = post(&key, 1, &Payload::Ack { sha256: [0; 32] }).unwrap();
    assert!(matches!(sender.on_confirmation(&ack), Ok(Confirmation::Corrupted)));
    let ack = post(&key, 1, &Payload::Ack { sha256: digest(b"x") }).unwrap();
    assert!(matches!(sender.on_confirmation(&ack), Ok(Confirmation::Delivered)));
    assert!(matches!(sender.on_confirmation(&[]), Err(TransferError::Deserialize)));
}

#[test]
fn declining_tells_the_reason() {
    let (sender, mut receiver) = connect(b"x");
    let offer = sender.offer().unwrap();
    assert!(receiver.await_offer(Arrival::Message(offer)).unwrap().is_some());
    let raw = receiver.decline().unwrap();
    assert!(matches!(
        sender.on_answer(&raw),
        Ok(Answer::Rejected(reason)) if reason == "User declined"
    ));
}

#[test]
fn only_an_offered_file_is_accepted() {
    let (_, receiver) = connect(b"x");
    assert!(matches!(receiver.accept(digest(b"x")), Err(TransferError::NotOffered)));
    let (sender, mut receiver) = connect(b"x");
    let offer = sender.offer().unwrap();
    assert!(receiver.await_offer(Arrival::Message(offer)).unwrap().is_some());
    assert!(matches!(receiver.accept(digest(b"y")), Err(TransferError::NotOffered)));
}

#[test]
fn no_offer_in_time_is_an_error() {
    let (sender, mut receiver) = connect(b"x");
    assert!(matches!(receiver.await_offer(Arrival::Silence), Err(TransferError::NoOffer)));
    assert!(matches!(receiver.await_offer(Arrival::Closed), Err(TransferError::Closed)));
    assert!(matches!(
        receiver.await_offer(Arrival::Message(vec![9])),
        Err(TransferError::Deserialize)
    ));
    let offer = sender.offer().unwrap();
    assert!(receiver.await_offer(Arrival::Message(offer)).unwrap().is_some());
}

/// A receiver, and the key of the sender it talks to.
fn receiver_by_hand() -> (Receiver, [u8; 32]) {
    let (handshake, hello) = ReceiverHandshake::begin(PASSWORD, "a".to_string()).unwrap();
    let (_, peer) = read_hello(&hello).unwrap();
    let (state, message_a) = spake2_start_sender(PASSWORD.as_bytes());
    let secret = state.finish(&peer).unwrap();
    let reply = encode(&Msg::PakeReply { pake_msg: message_a }).unwrap();
    let (receiver, _) = handshake.on_reply(&reply).unwrap();
    (receiver, derive_keys(&secret).0)
}

#[test]
fn a_payload_that_is_no_offer_is_refused() {
    let (mut receiver, key) = receiver_by_hand();
    let raw = post(&key, 0, &Payload::Done { total_chunks: 0 }).unwrap();
    assert!(matches!(
        receiver.await_offer(Arrival::Message(raw)),
        Err(TransferError::UnexpectedPayload(Payload::Done { .. }))
    ));
}

#[test]
fn the_senders_error_and_other_payloads_end_the_transfer() {
    let offer = Payload::Offer { filename: "f".to_string(), filesize: 1, sha256: [0; 32] };
    let (mut receiver, key) = receiver_by_hand();
    let raw = post(&key, 0, &offer).unwrap();
    let offered = receiver.await_offer(Arrival::Message(raw)).unwrap().unwrap();
    let (mut transfer, _) = receiver.accept(offered.sha256).unwrap();
    let raw = post(&key, 1, &Payload::Error { message: "disk".to_string() }).unwrap();
    assert!(matches!(
        transfer.step(Arrival::Message(raw), 0),
        Err(TransferError::SenderFailed(m)) if m == "disk"
    ));
    let raw = post(&key, 2, &Payload::Accept).unwrap();
    assert!(matches!(
        transfer.step(Arrival::Message(raw), 0),
        Err(TransferError::UnexpectedPayload(Payload::Accept))
    ));
    assert!(matches!(transfer.step(Arrival::Closed, 0), Err(TransferError::Closed)));
    assert!(matches!(
        transfer.step(Arrival::Message(vec![3]), 0),
        Err(TransferError::Deserialize)
    ));
}

#[test]
fn another_digest_is_not_verified() {
    let (mut receiver, key) = receiver_by_hand();
    let offer = Payload::Offer { filename: "f".to_string(), filesize: 1, sha256: [0; 32] };
    let raw = post(&key, 0, &offer).unwrap();
    let offered = receiver.await_offer(Arrival::Message(raw)).unwrap().unwrap();
    let (mut transfer, _) = receiver.accept(offered.sha256).unwrap();
    let raw = post(&key, 1, &Payload::Chunk { seq: 0, data: vec![1] }).unwrap();
    assert!(matches!(
        transfer.step(Arrival::Message(raw), 0),
        Ok(Step::Write(d)) if d == vec![1]
    ));
    let raw = post(&key, 2, &Payload::Done { total_chunks: 1 }).unwrap();
    assert!(matches!(transfer.step(Arrival::Message(raw), 0), Ok(Step::Finished)));
    let (verified, ack) = transfer.finish().unwrap();
    assert!(!verified);
    assert!(matches!(decode::<Msg>(&ack), Ok(Msg::Encrypted { counter: 1, .. })));
}

#[test]
fn handshakes_refuse_what_does_not_belong() {
    let ready = encode(&Msg::Ready).unwrap();
    assert!(matches!(read_hello(&ready), Err(TransferError::UnexpectedMsg(Msg::Ready))));
    assert!(matches!(read_hello(&[]), Err(TransferError::Deserialize)));
    let (handshake, hello) = ReceiverHandshake::begin(PASSWORD, "a".to_string()).unwrap();
    let (_, pake_msg) = read_hello(&hello).unwrap();
    let (sender, _) = SenderHandshake::reply(PASSWORD, pake_msg.clone()).unwrap();
    assert!(matches!(
        sender.finish(info(b"")).unwrap().on_ready(&hello),
        Err(TransferError::UnexpectedMsg(Msg::Hello { .. }))
    ));
    let (sender, _) = SenderHandshake::reply(PASSWORD, pake_msg).unwrap();
    assert!(matches!(
        sender.finish(info(b"")).unwrap().on_ready(&[7]),
        Err(TransferError::Deserialize)
    ));
    assert!(matches!(
        handshake.on_reply(&ready),
        Err(TransferError::UnexpectedMsg(Msg::Ready))
    ));
    let (handshake, _) = ReceiverHandshake::begin(PASSWORD, "a".to_string()).unwrap();
    let short = encode(&Msg::PakeReply { pake_msg: vec![b'A'] }).unwrap();
    assert!(matches!(
        handshake.on_reply(&short),
        Err(TransferError::KeyExchange(PakeError::WrongLength))
    ));
    let (handshake, _) = ReceiverHandshake::begin(PASSWORD, "a".to_string()).unwrap();
    assert!(matches!(handshake.on_reply(&[1]), Err(TransferError::Deserialize)));
    let (handshake, _) = SenderHandshake::reply(PASSWORD, vec![b'A'; 33]).unwrap();
    assert!(matches!(
        handshake.finish(info(b"")),
        Err(TransferError::KeyExchange(PakeError::BadSide))
    ));
}

#[test]
fn another_password_cannot_open_the_offer() {
    let (receiver, hello) = ReceiverHandshake::begin("wrong", "a".to_string()).unwrap();
    let (_, pake_msg) = read_hello(&hello).unwrap();
    let (sender, reply) = SenderHandshake::reply(PASSWORD, pake_msg).unwrap();
    let sender = sender.finish(info(b"x")).unwrap();
    let (mut receiver, ready) = receiver.on_reply(&reply).unwrap();
    let sender = sender.on_ready(&ready).unwrap();
    let offer = sender.offer().unwrap();
    assert!(matches!(
        receiver.await_offer(Arrival::Message(offer)),
        Err(TransferError::Decrypt { .. })
    ));
}

#[test]
fn pauses_keep_to_the_rate() {
    assert_eq!(pause_after(0x8000, 48), 666_666_667);
    assert_eq!(pause_after(1024, 1), SECOND);
    assert_eq!(pause_after(0, 48), 0);
    assert_eq!(pause_after(0x8000, 0), 0);
    assert_eq!(pause_after(1, u32::MAX), 1);
}

#[test]
fn timeouts_and_digests() {
    assert_eq!((RECV_TIMEOUT, RETRANSMIT_FOLLOWUP_TIMEOUT, ACK_TIMEOUT), (30, 3, 30 * 60));
    let mut other = [1; 32];
    assert!(same_digest(&[1; 32], &other));
    other[31] = 2;
    assert!(!same_digest(&[1; 32], &other));
}
