//! Key exchange, keys, digests and encryption.

use wormhole_nym::crypto::{
    decrypt, derive_keys, encrypt, open, seal, spake2_start_receiver, spake2_start_sender, Hasher,
};
use wormhole_nym::envelope::{open_message, post};
use wormhole_nym::error::{PakeError, TransferError};
use wormhole_nym::protocol::{encode, Msg, Payload};

const SHA256_EMPTY: [u8; 32] = [
    0xe3, 0xb0, 0xc4, 0x42, 0x98, 0xfc, 0x1c, 0x14, 0x9a, 0xfb, 0xf4, 0xc8, 0x99, 0x6f, 0xb9, 0x24,
    0x27, 0xae, 0x41, 0xe4, 0x64, 0x9b, 0x93, 0x4c, 0xa4, 0x95, 0x99, 0x1b, 0x78, 0x52, 0xb8, 0x55,
];
const SHA256_ABC: [u8; 32] = [
    0xba, 0x78, 0x16, 0xbf, 0x8f, 0x01, 0xcf, 0xea, 0x41, 0x41, 0x40, 0xde, 0x5d, 0xae, 0x22, 0x23,
    0xb0, 0x03, 0x61, 0xa3, 0x96, 0x17, 0x7a, 0x9c, 0xb4, 0x10, 0xff, 0x61, 0xf2, 0x00, 0x15, 0xad,
];

#[test]
fn digests_are_sha256() {
    assert_eq!(Hasher::new().finalize(), SHA256_EMPTY);
    let mut h = Hasher::new();
    h.update(b"abc");
    assert_eq!(h.finalize(), SHA256_ABC);
}

#[test]
fn pieces_are_hashed_like_the_whole() {
    let mut h = Hasher::new();
    h.update(b"a");
    h.update(b"");
    h.update(b"bc");
    assert_eq!(h.finalize(), SHA256_ABC);
}

#[test]
fn keys_are_digests_of_secret_and_direction() {
    let secret: Vec<u8> = (0u8..32).collect();
    let (send_key, recv_key) = derive_keys(&secret);
    assert_eq!(
        send_key,
        [
            0xe1, 0xd0, 0xda, 0x0d, 0x75, 0xa4, 0x77, 0xeb, 0xe2, 0x7f, 0xfe, 0x4e, 0xc4, 0xd8,
            0x2b, 0x52, 0x47, 0x42, 0x8f, 0xf4, 0xb5, 0xe0, 0x16, 0xc1, 0x14, 0xf8, 0x7b, 0xac,
            0xdf, 0xc1, 0x54, 0xa6
        ]
    );
    assert_eq!(
        recv_key,
        [
            0xcf, 0xb8, 0xe4, 0x67, 0xff, 0x38, 0xb1, 0x61, 0x27, 0xde, 0xf9, 0xed, 0x3a, 0xd8,
            0x2a, 0xb1, 0xa0, 0x7c, 0xf2, 0x4d, 0x19, 0x14, 0x68, 0x8a, 0x9b, 0x36, 0xe9, 0xb4,
            0x76, 0x07, 0x8c, 0x0d
        ]
    );
}

#[test]
fn the_two_directions_have_different_keys() {
    let (send_key, recv_key) = derive_keys(b"");
    assert_ne!(send_key, recv_key);
}

#[test]
fn both_sides_agree_on_the_secret() {
    let (sender, message_a) = spake2_start_sender(b"fork-road-calm");
    let (receiver, message_b) = spake2_start_receiver(b"fork-road-calm");
    assert_eq!(message_a.len(), 33);
    assert_eq!(message_b.len(), 33);
    assert_eq!(message_a[0], b'A');
    assert_eq!(message_b[0], b'B');
    let at_sender = sender.finish(&message_b).unwrap();
    let at_receiver = receiver.finish(&message_a).unwrap();
    assert_eq!(at_sender, at_receiver);
    assert_eq!(at_sender.len(), 32);
}

#[test]
fn sides_interoperate_with_spake2() {
    let (sender, message_a) = spake2_start_sender(b"pw");
    let (peer, message_b) = spake2::Spake2::<spake2::Ed25519Group>::start_b(
        &spake2::Password::new(b"pw"),
        &spake2::Identity::new(b"wormhole-nym-sender"),
        &spake2::Identity::new(b"wormhole-nym-receiver"),
    );
    assert_eq!(sender.finish(&message_b).unwrap(), peer.finish(&message_a).unwrap());
}

#[test]
fn another_password_gives_another_secret() {
    let (sender, message_a) = spake2_start_sender(b"fork-road-calm");
    let (receiver, message_b) = spake2_start_receiver(b"fork-road-cold");
    assert_ne!(sender.finish(&message_b).unwrap(), receiver.finish(&message_a).unwrap());
}

#[test]
fn bad_key_exchange_messages_are_refused() {
    let (state, own) = spake2_start_sender(b"pw");
    assert_eq!(state.finish(&own), Err(PakeError::BadSide));
    let (state, _) = spake2_start_sender(b"pw");
    assert_eq!(state.finish(&[b'B'; 32]), Err(PakeError::WrongLength));
    let (state, _) = spake2_start_sender(b"pw");
    assert_eq!(state.finish(&[]), Err(PakeError::WrongLength));
    let (_, mut message_b) = spake2_start_receiver(b"pw");
    let mut refused = 0;
    for i in 0u8..=255 {
        message_b[1] = i;
        let (state, _) = spake2_start_sender(b"pw");
        match state.finish(&message_b) {
            Ok(_) => {}
            Err(e) => {
                assert_eq!(e, PakeError::CorruptMessage);
                refused += 1;
            }
        }
    }
    assert!(refused > 0 && refused < 256);
}

#[test]
fn encryption_has_the_expected_bytes() {
    assert_eq!(
        encrypt(&[7; 32], 1, b"hello").unwrap(),
        vec![
            0xa3, 0xe7, 0xe9, 0xea, 0x5f, 0xb9, 0x63, 0x26, 0xdf, 0x2a, 0xc8, 0x79, 0xe7, 0x5b,
            0xb8, 0xa7, 0xc1, 0xc5, 0x0e, 0x28, 0x2d
        ]
    );
    assert_eq!(
        seal(&[7; 32], 0x0102030405060708, &Payload::Accept).unwrap(),
        vec![
            0x77, 0xab, 0xf0, 0x67, 0x5b, 0x3b, 0x25, 0x9e, 0x18, 0x78, 0x96, 0xf1, 0x36, 0x69,
            0xfa, 0x41, 0x73, 0x31, 0xd0, 0xdb
        ]
    );
}

#[test]
fn what_was_encrypted_is_decrypted() {
    let key = [5; 32];
    for plaintext in [&b""[..], b"x", &[9; 1000]] {
        let ciphertext = encrypt(&key, 3, plaintext).unwrap();
        assert_eq!(ciphertext.len(), plaintext.len() + 16);
        assert_eq!(decrypt(&key, 3, &ciphertext).unwrap(), plaintext);
    }
}

#[test]
fn wrong_key_counter_or_bytes_do_not_decrypt() {
    let key = [5; 32];
    let ciphertext = encrypt(&key, 3, b"data").unwrap();
    assert!(matches!(decrypt(&[6; 32], 3, &ciphertext), Err(TransferError::Decrypt { .. })));
    assert!(matches!(
        decrypt(&key, 4, &ciphertext),
        Err(TransferError::Decrypt { counter: 4 })
    ));
    assert!(matches!(decrypt(&key, 3, &ciphertext[..10]), Err(TransferError::Decrypt { .. })));
    for i in 0..ciphertext.len() {
        let mut altered = ciphertext.clone();
        altered[i] ^= 1;
        assert!(matches!(decrypt(&key, 3, &altered), Err(TransferError::Decrypt { .. })));
    }
}

#[test]
fn a_plaintext_comes_out_exactly_if_it_encrypts_to_the_ciphertext() {
    let key = [5; 32];
    let ciphertext = encrypt(&key, 3, b"data").unwrap();
    for plaintext in [&b"data"[..], b"dat", b"Data", b"", b"data0"] {
        let decrypts = decrypt(&key, 3, &ciphertext).unwrap() == plaintext;
        let encrypts = encrypt(&key, 3, plaintext).unwrap() == ciphertext;
        assert_eq!(decrypts, encrypts);
        assert_eq!(decrypts, plaintext == b"data");
    }
}

#[test]
fn counters_give_distinct_ciphertexts() {
    let key = [5; 32];
    let ciphertexts: Vec<Vec<u8>> =
        [0, 1, 255, 256, 1 << 32, u64::MAX].iter().map(|c| encrypt(&key, *c, b"same").unwrap()).collect();
    for i in 0..ciphertexts.len() {
        for j in 0..i {
            assert_ne!(ciphertexts[i], ciphertexts[j]);
        }
    }
}

#[test]
fn sealed_payloads_open_to_themselves() {
    let key = [1; 32];
    let payload = Payload::Chunk { seq: 4, data: vec![1, 2, 3] };
    let ciphertext = seal(&key, 9, &payload).unwrap();
    assert!(matches!(
        open(&key, 9, &ciphertext),
        Ok(Payload::Chunk { seq: 4, data }) if data == vec![1, 2, 3]
    ));
    assert!(matches!(open(&key, 8, &ciphertext), Err(TransferError::Decrypt { .. })));
}

#[test]
fn sealed_bytes_that_are_no_payload_are_refused() {
    let key = [1; 32];
    let ciphertext = encrypt(&key, 0, &[99, 0, 0, 0]).unwrap();
    assert!(matches!(
        open(&key, 0, &ciphertext),
        Err(TransferError::InvalidPayload { counter: 0 })
    ));
}

#[test]
fn posted_payloads_are_received() {
    let key = [2; 32];
    let raw = post(&key, 77, &Payload::Done { total_chunks: 5 }).unwrap();
    assert_eq!(raw.len(), 12 + 36);
    assert!(matches!(
        open_message(&key, &raw),
        Ok((77, Payload::Done { total_chunks: 5 }))
    ));
    assert_eq!(raw, post(&key, 77, &Payload::Done { total_chunks: 5 }).unwrap());
}

#[test]
fn messages_that_hold_nothing_are_refused() {
    let key = [2; 32];
    let raw = post(&[3; 32], 12, &Payload::Accept).unwrap();
    assert!(matches!(
        open_message(&key, &raw),
        Err(TransferError::Decrypt { counter: 12 })
    ));
    let ciphertext = encrypt(&key, 13, b"junk!").unwrap();
    let raw = encode(&Msg::Encrypted { counter: 13, ciphertext }).unwrap();
    assert!(matches!(
        open_message(&key, &raw),
        Err(TransferError::InvalidPayload { counter: 13 })
    ));
    assert!(matches!(open_message(&key, &[1, 2]), Err(TransferError::Deserialize)));
    let ready = encode(&Msg::Ready).unwrap();
    assert!(matches!(
        open_message(&key, &ready),
        Err(TransferError::UnexpectedMsg(Msg::Ready))
    ));
}
