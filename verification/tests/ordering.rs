//! Payloads that arrive out of order.

use wormhole_nym::envelope::post;
use wormhole_nym::error::TransferError;
use wormhole_nym::inbox::{Arrival, Inbox, Next};
use wormhole_nym::protocol::{encode, Msg, Payload};

const KEY: [u8; 32] = [4; 32];

fn message(counter: u64) -> Arrival {
    Arrival::Message(post(&KEY, counter, &Payload::Done { total_chunks: counter }).unwrap())
}

fn delivered(inbox: &mut Inbox, first: Arrival) -> Vec<u64> {
    let mut out = Vec::new();
    let mut arrival = first;
    loop {
        match inbox.next_payload(arrival).unwrap() {
            Next::Deliver(Payload::Done { total_chunks }) => out.push(total_chunks),
            Next::Wait => return out,
            _ => panic!("not expected"),
        }
        arrival = Arrival::Begin;
    }
}

#[test]
fn payloads_are_put_in_order() {
    let mut inbox = Inbox::new(KEY);
    assert!(inbox.is_empty());
    assert_eq!(delivered(&mut inbox, Arrival::Begin), vec![]);
    assert_eq!(delivered(&mut inbox, message(2)), vec![]);
    assert_eq!(delivered(&mut inbox, message(3)), vec![]);
    assert_eq!(inbox.first_ahead(), Some(2));
    assert_eq!(delivered(&mut inbox, message(0)), vec![0]);
    assert_eq!(inbox.next_counter(), 1);
    assert_eq!(delivered(&mut inbox, message(1)), vec![1, 2, 3]);
    assert_eq!(inbox.next_counter(), 4);
    assert_eq!(inbox.first_ahead(), None);
    assert!(inbox.is_empty());
}

#[test]
fn every_order_and_repetition_gives_the_same_deliveries() {
    let orders: [&[u64]; 5] = [
        &[0, 1, 2, 3, 4],
        &[4, 3, 2, 1, 0],
        &[2, 2, 0, 0, 4, 1, 1, 3],
        &[1, 3, 0, 2, 4, 4],
        &[0, 0, 0, 4, 3, 1, 2],
    ];
    for order in orders {
        let mut inbox = Inbox::new(KEY);
        let mut all = Vec::new();
        for counter in order {
            all.extend(delivered(&mut inbox, message(*counter)));
        }
        assert_eq!(all, vec![0, 1, 2, 3, 4]);
    }
}

#[test]
fn what_comes_again_is_held_but_not_delivered() {
    let mut inbox = Inbox::new(KEY);
    assert_eq!(delivered(&mut inbox, message(0)), vec![0]);
    assert_eq!(delivered(&mut inbox, message(0)), vec![]);
    assert!(!inbox.is_empty());
    assert_eq!(inbox.first_ahead(), None);
    assert_eq!(delivered(&mut inbox, message(3)), vec![]);
    assert_eq!(inbox.first_ahead(), Some(3));
    assert_eq!(delivered(&mut inbox, message(1)), vec![1]);
}

#[test]
fn silence_and_closing_are_reported() {
    let mut inbox = Inbox::new(KEY);
    assert!(matches!(inbox.next_payload(Arrival::Silence), Ok(Next::Stalled)));
    assert!(matches!(inbox.next_payload(Arrival::Closed), Err(TransferError::Closed)));
}

#[test]
fn messages_that_cannot_be_opened_are_refused() {
    let mut inbox = Inbox::new(KEY);
    let foreign = post(&[5; 32], 0, &Payload::Accept).unwrap();
    assert!(matches!(
        inbox.next_payload(Arrival::Message(foreign)),
        Err(TransferError::Decrypt { .. })
    ));
    let plain = encode(&Msg::PakeReply { pake_msg: vec![1] }).unwrap();
    assert!(matches!(
        inbox.next_payload(Arrival::Message(plain)),
        Err(TransferError::UnexpectedMsg(Msg::PakeReply { .. }))
    ));
    assert!(matches!(
        inbox.next_payload(Arrival::Message(vec![])),
        Err(TransferError::Deserialize)
    ));
    assert!(inbox.is_empty());
}
