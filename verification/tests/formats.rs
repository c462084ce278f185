//! The bytes of messages and payloads.

use serde::ser::{Serialize, SerializeStructVariant, Serializer};
use wormhole_nym::error::TransferError;
use wormhole_nym::protocol::{decode, encode, Msg, Payload};
use wormhole_nym::wire::{
    get_bytes, get_digest, get_text, get_u32, get_u64, put_bytes, put_digest, put_text, put_u32,
    put_u64,
};

fn bytes_of(parts: &[&[u8]]) -> Vec<u8> {
    parts.concat()
}

#[test]
fn hello_has_its_variant_and_two_prefixed_fields() {
    let msg = Msg::Hello { receiver_address: "ab@é".to_string(), pake_msg: vec![1, 2, 3] };
    let expected = bytes_of(&[
        &[0, 0, 0, 0],
        &[5, 0, 0, 0, 0, 0, 0, 0],
        "ab@é".as_bytes(),
        &[3, 0, 0, 0, 0, 0, 0, 0],
        &[1, 2, 3],
    ]);
    assert_eq!(encode(&msg).unwrap(), expected);
    assert_eq!(
        expected,
        bincode::serialize(&(0u32, "ab@é", vec![1u8, 2, 3])).unwrap()
    );
}

#[test]
fn other_messages_have_the_expected_bytes() {
    let reply = Msg::PakeReply { pake_msg: vec![9] };
    assert_eq!(encode(&reply).unwrap(), vec![1, 0, 0, 0, 1, 0, 0, 0, 0, 0, 0, 0, 9]);
    assert_eq!(encode(&Msg::Ready).unwrap(), vec![2, 0, 0, 0]);
    let sealed = Msg::Encrypted { counter: 0x0102030405060708, ciphertext: vec![0xaa, 0xbb] };
    assert_eq!(
        encode(&sealed).unwrap(),
        vec![3, 0, 0, 0, 8, 7, 6, 5, 4, 3, 2, 1, 2, 0, 0, 0, 0, 0, 0, 0, 0xaa, 0xbb]
    );
}

#[test]
fn payloads_have_the_expected_bytes() {
    let digest = [0x11u8; 32];
    let offer = Payload::Offer { filename: "a.txt".to_string(), filesize: 258, sha256: digest };
    assert_eq!(
        encode(&offer).unwrap(),
        bytes_of(&[
            &[0, 0, 0, 0],
            &[5, 0, 0, 0, 0, 0, 0, 0],
            b"a.txt",
            &[2, 1, 0, 0, 0, 0, 0, 0],
            &digest,
        ])
    );
    assert_eq!(encode(&Payload::Accept).unwrap(), vec![1, 0, 0, 0]);
    assert_eq!(
        encode(&Payload::Reject { reason: "no".to_string() }).unwrap(),
        vec![2, 0, 0, 0, 2, 0, 0, 0, 0, 0, 0, 0, b'n', b'o']
    );
    assert_eq!(
        encode(&Payload::Chunk { seq: 1, data: vec![7, 8] }).unwrap(),
        vec![3, 0, 0, 0, 1, 0, 0, 0, 0, 0, 0, 0, 2, 0, 0, 0, 0, 0, 0, 0, 7, 8]
    );
    assert_eq!(
        encode(&Payload::Done { total_chunks: 3 }).unwrap(),
        vec![4, 0, 0, 0, 3, 0, 0, 0, 0, 0, 0, 0]
    );
    assert_eq!(
        encode(&Payload::Ack { sha256: digest }).unwrap(),
        bytes_of(&[&[5, 0, 0, 0], &digest])
    );
    assert_eq!(
        encode(&Payload::Error { message: "".to_string() }).unwrap(),
        vec![6, 0, 0, 0, 0, 0, 0, 0, 0, 0, 0, 0]
    );
    assert_eq!(
        encode(&Payload::Retransmit { counter: u64::MAX }).unwrap(),
        vec![7, 0, 0, 0, 255, 255, 255, 255, 255, 255, 255, 255]
    );
}

#[test]
fn payload_bytes_agree_with_bincode() {
    let digest = [3u8; 32];
    let offer = Payload::Offer { filename: "ß".to_string(), filesize: 1, sha256: digest };
    assert_eq!(
        encode(&offer).unwrap(),
        bincode::serialize(&(0u32, "ß", 1u64, digest)).unwrap()
    );
    let chunk = Payload::Chunk { seq: 5, data: vec![1; 40] };
    assert_eq!(
        encode(&chunk).unwrap(),
        bincode::serialize(&(3u32, 5u64, vec![1u8; 40])).unwrap()
    );
}

#[test]
fn messages_come_back_whatever_follows() {
    let messages = vec![
        Msg::Hello { receiver_address: "x".to_string(), pake_msg: vec![] },
        Msg::PakeReply { pake_msg: vec![1, 2] },
        Msg::Ready,
        Msg::Encrypted { counter: 7, ciphertext: vec![0; 17] },
    ];
    for msg in messages {
        let mut bytes = encode(&msg).unwrap();
        let again: Msg = decode(&bytes).unwrap();
        assert_eq!(format!("{:?}", again), format!("{:?}", msg));
        bytes.extend_from_slice(&[1, 2, 3]);
        let again: Msg = decode(&bytes).unwrap();
        assert_eq!(format!("{:?}", again), format!("{:?}", msg));
    }
}

#[test]
fn payloads_come_back_whatever_follows() {
    let payloads = vec![
        Payload::Offer { filename: "f".to_string(), filesize: 0, sha256: [1; 32] },
        Payload::Accept,
        Payload::Reject { reason: "r".to_string() },
        Payload::Chunk { seq: 0, data: vec![1, 2, 3] },
        Payload::Done { total_chunks: 9 },
        Payload::Ack { sha256: [2; 32] },
        Payload::Error { message: "m".to_string() },
        Payload::Retransmit { counter: 4 },
    ];
    for payload in payloads {
        let mut bytes = encode(&payload).unwrap();
        bytes.push(0xff);
        let again: Payload = decode(&bytes).unwrap();
        assert_eq!(format!("{:?}", again), format!("{:?}", payload));
    }
}

#[test]
fn bytes_that_hold_nothing_are_refused() {
    for bytes in [
        &[][..],
        &[0, 0, 0],
        &[4, 0, 0, 0],
        &[1, 0, 0, 0, 1, 0, 0, 0, 0, 0, 0, 0],
        &[0, 0, 0, 0, 1, 0, 0, 0, 0, 0, 0, 0, 0xff, 0, 0, 0, 0, 0, 0, 0, 0],
        &[3, 0, 0, 0, 1, 2, 3],
        &[1, 0, 0, 0, 255, 255, 255, 255, 255, 255, 255, 255, 1],
    ] {
        assert!(matches!(decode::<Msg>(bytes), Err(TransferError::Deserialize)));
    }
    for bytes in [&[][..], &[8, 0, 0, 0], &[5, 0, 0, 0, 1, 2, 3], &[4, 0, 0, 0, 1]] {
        assert!(matches!(decode::<Payload>(bytes), Err(TransferError::Deserialize)));
    }
}

#[test]
fn plain_values_are_written_and_read() {
    let mut out: Vec<u8> = Vec::new();
    put_u32(&mut out, 0x01020304).unwrap();
    put_u64(&mut out, 5).unwrap();
    put_bytes(&mut out, &[6, 7]).unwrap();
    put_text(&mut out, "hé").unwrap();
    put_digest(&mut out, &[9; 32]).unwrap();
    assert_eq!(&out[..4], &[4, 3, 2, 1]);
    assert_eq!(out.len(), 4 + 8 + 8 + 2 + 8 + 3 + 32);
    let (a, rest) = get_u32(&out).unwrap();
    let (b, rest) = get_u64(rest).unwrap();
    let (c, rest) = get_bytes(rest).unwrap();
    let (d, rest) = get_text(rest).unwrap();
    let (e, rest) = get_digest(rest).unwrap();
    assert_eq!((a, b, c, d.as_str(), e), (0x01020304, 5, vec![6, 7], "hé", [9; 32]));
    assert!(rest.is_empty());
    assert!(get_u64(&[1, 2, 3]).is_err());
    assert!(get_digest(&[0; 31]).is_err());
    assert!(get_text(&[1, 0, 0, 0, 0, 0, 0, 0, 0xc3]).is_err());
    assert!(get_bytes(&[2, 0, 0, 0, 0, 0, 0, 0, 1]).is_err());
}

/// A payload as serde sees it.
struct Described<'a>(&'a Payload);

impl Serialize for Described<'_> {
    fn serialize<S: Serializer>(&self, s: S) -> Result<S::Ok, S::Error> {
        match self.0 {
            Payload::Offer { filename, filesize, sha256 } => {
                let mut v = s.serialize_struct_variant("Payload", 0, "Offer", 3)?;
                v.serialize_field("filename", filename)?;
                v.serialize_field("filesize", filesize)?;
                v.serialize_field("sha256", sha256)?;
                v.end()
            }
            Payload::Accept => s.serialize_unit_variant("Payload", 1, "Accept"),
            Payload::Reject { reason } => {
                let mut v = s.serialize_struct_variant("Payload", 2, "Reject", 1)?;
                v.serialize_field("reason", reason)?;
                v.end()
            }
            Payload::Chunk { seq, data } => {
                let mut v = s.serialize_struct_variant("Payload", 3, "Chunk", 2)?;
                v.serialize_field("seq", seq)?;
                v.serialize_field("data", data)?;
                v.end()
            }
            Payload::Done { total_chunks } => {
                let mut v = s.serialize_struct_variant("Payload", 4, "Done", 1)?;
                v.serialize_field("total_chunks", total_chunks)?;
                v.end()
            }
            Payload::Ack { sha256 } => {
                let mut v = s.serialize_struct_variant("Payload", 5, "Ack", 1)?;
                v.serialize_field("sha256", sha256)?;
                v.end()
            }
            Payload::Error { message } => {
                let mut v = s.serialize_struct_variant("Payload", 6, "Error", 1)?;
                v.serialize_field("message", message)?;
                v.end()
            }
            Payload::Retransmit { counter } => {
                let mut v = s.serialize_struct_variant("Payload", 7, "Retransmit", 1)?;
                v.serialize_field("counter", counter)?;
                v.end()
            }
        }
    }
}

#[test]
fn payload_bytes_are_those_of_an_enum() {
    for payload in [
        Payload::Offer { filename: "ünï".to_string(), filesize: 77, sha256: [6; 32] },
        Payload::Accept,
        Payload::Reject { reason: "no".to_string() },
        Payload::Chunk { seq: 3, data: vec![1, 2, 3] },
        Payload::Done { total_chunks: 4 },
        Payload::Ack { sha256: [7; 32] },
        Payload::Error { message: "e".to_string() },
        Payload::Retransmit { counter: 1 << 40 },
    ] {
        assert_eq!(
            encode(&payload).unwrap(),
            bincode::serialize(&Described(&payload)).unwrap()
        );
    }
}
