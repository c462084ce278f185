//! The primitives on plain bytes.

use wormhole_nym::error::{PakeError, TransferError};
use wormhole_nym::protocol::{encode, Payload};
use wormhole_nym::wasm::{
    wasm_decrypt, wasm_derive_keys, wasm_encrypt, wasm_generate_password, wasm_open, wasm_seal,
    wasm_sha256, Spake2ReceiverState, Spake2SenderState,
};

#[test]
fn states_are_finished_once() {
    let sender = Spake2SenderState::start(b"fork-road-calm").unwrap();
    let receiver = Spake2ReceiverState::start(b"fork-road-calm").unwrap();
    let message_a = sender.pake_msg();
    let message_b = receiver.pake_msg();
    let mut sender = sender.take_state();
    let mut receiver = receiver.take_state();
    let secret = sender.finish(&message_b).unwrap();
    assert_eq!(receiver.finish(&message_a).unwrap(), secret);
    assert!(matches!(sender.finish(&message_b), Err(TransferError::AlreadyConsumed)));
    assert!(matches!(receiver.finish(&message_a), Err(TransferError::AlreadyConsumed)));
}

#[test]
fn a_failed_finish_consumes_the_state() {
    let start = Spake2SenderState::start(b"pw").unwrap();
    let own = start.pake_msg();
    let mut state = start.take_state();
    assert!(matches!(
        state.finish(&own),
        Err(TransferError::KeyExchange(PakeError::BadSide))
    ));
    assert!(matches!(state.finish(&own), Err(TransferError::AlreadyConsumed)));
    let mut state = Spake2ReceiverState::start(b"pw").unwrap().take_state();
    assert!(matches!(
        state.finish(&[1]),
        Err(TransferError::KeyExchange(PakeError::WrongLength))
    ));
}

#[test]
fn derived_keys_are_put_behind_each_other() {
    let keys = wasm_derive_keys(b"secret");
    assert_eq!(keys.len(), 64);
    let (send_key, recv_key) = wormhole_nym::crypto::derive_keys(b"secret");
    assert_eq!(&keys[..32], &send_key);
    assert_eq!(&keys[32..], &recv_key);
    assert_eq!(&keys[..32], &wasm_sha256(b"secretwormhole-nym-send")[..]);
    assert_eq!(&keys[32..], &wasm_sha256(b"secretwormhole-nym-recv")[..]);
}

#[test]
fn payload_bytes_are_sealed_and_opened() {
    let bytes = encode(&Payload::Chunk { seq: 3, data: vec![1, 2] }).unwrap();
    let sealed = wasm_seal(&[8; 32], 5, &bytes).unwrap();
    assert_eq!(sealed.len(), bytes.len() + 16);
    assert_eq!(wasm_open(&[8; 32], 5, &sealed).unwrap(), bytes);
    let mut longer = bytes.clone();
    longer.extend_from_slice(&[1, 2, 3]);
    assert_eq!(wasm_seal(&[8; 32], 5, &longer).unwrap(), sealed);
}

#[test]
fn bad_keys_and_bytes_are_refused() {
    let bytes = encode(&Payload::Accept).unwrap();
    for len in [0, 16, 31, 33] {
        let key = vec![0u8; len];
        assert!(matches!(wasm_seal(&key, 0, &bytes), Err(TransferError::KeyLength)));
        assert!(matches!(wasm_open(&key, 0, &bytes), Err(TransferError::KeyLength)));
        assert!(matches!(wasm_encrypt(&key, 0, &bytes), Err(TransferError::KeyLength)));
        assert!(matches!(wasm_decrypt(&key, 0, &bytes), Err(TransferError::KeyLength)));
    }
    assert!(matches!(wasm_seal(&[0; 32], 0, &[9, 0, 0, 0]), Err(TransferError::Deserialize)));
    assert!(matches!(wasm_open(&[0; 32], 0, &[0; 40]), Err(TransferError::Decrypt { .. })));
    let junk = wasm_encrypt(&[0; 32], 0, &[9, 0, 0, 0]).unwrap();
    assert!(matches!(
        wasm_open(&[0; 32], 0, &junk),
        Err(TransferError::InvalidPayload { counter: 0 })
    ));
    assert!(matches!(wasm_decrypt(&[1; 32], 0, &junk), Err(TransferError::Decrypt { .. })));
}

#[test]
fn raw_encryption_matches_the_library() {
    let ciphertext = wasm_encrypt(&[7; 32], 1, b"hello").unwrap();
    assert_eq!(ciphertext, wormhole_nym::crypto::encrypt(&[7; 32], 1, b"hello").unwrap());
    assert_eq!(wasm_decrypt(&[7; 32], 1, &ciphertext).unwrap(), b"hello");
}

#[test]
fn digest_of_abc() {
    let digest = wasm_sha256(b"abc");
    assert_eq!(digest.len(), 32);
    assert_eq!(&digest[..4], &[0xba, 0x78, 0x16, 0xbf]);
    assert_eq!(&digest[28..], &[0xf2, 0x00, 0x15, 0xad]);
}

#[test]
fn passwords_come_from_the_list() {
    assert_eq!(wasm_generate_password(&["fork"], 3), "fork-fork-fork");
}
