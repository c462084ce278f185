//! The messages that the two peers exchange, and their bytes.

use vstd::prelude::*;
use vstd::utf8::encode_utf8;

use crate::error::TransferError;
use crate::wire::{
    appended, get_bytes, get_digest, get_text, get_u32, get_u64, le_bytes, lemma_le_bytes_len,
    lemma_prefixed_taken, lemma_raw_taken, lemma_take_prefixed, lemma_take_raw, lemma_take_text,
    lemma_take_u32, lemma_take_u64, lemma_text_taken, lemma_u32_taken, lemma_u64_taken, prefixed,
    prefixed_text, put_bytes, put_digest, put_text, put_u32, put_u64, take_prefixed, take_raw,
    take_text, take_u32, take_u64,
};

verus! {

/// All messages exchanged over the mix network.
///
/// `Hello` and `PakeReply` travel in the clear and establish the shared key.
/// After `Ready`, everything is wrapped in `Encrypted`.
#[derive(Debug)]
pub enum Msg {
    /// Sent by the receiver to the sender to initiate the transfer. Carries
    /// the address to reply to and the receiver's key exchange message.
    Hello { receiver_address: String, pake_msg: Vec<u8> },
    /// The sender's key exchange message.
    PakeReply { pake_msg: Vec<u8> },
    /// Sent by the receiver once it has derived the shared key. The sender
    /// makes no offer before it has arrived, because the network may reorder
    /// the offer and the `PakeReply`.
    Ready,
    /// A sealed payload. `counter` is the number that its nonce is made of.
    Encrypted { counter: u64, ciphertext: Vec<u8> },
}

/// What travels inside `Msg::Encrypted`.
#[derive(Debug)]
pub enum Payload {
    /// The sender describes the file it wants to transfer.
    Offer { filename: String, filesize: u64, sha256: [u8; 32] },
    /// The receiver accepts the offer and is ready for chunks.
    Accept,
    /// The receiver declines.
    Reject { reason: String },
    /// One chunk of the file. `seq` counts chunks from zero.
    Chunk { seq: u64, data: Vec<u8> },
    /// All chunks have been sent.
    Done { total_chunks: u64 },
    /// The receiver has the whole file, with this digest.
    Ack { sha256: [u8; 32] },
    /// Either side gives up.
    Error { message: String },
    /// The receiver asks for the message with this counter again.
    Retransmit { counter: u64 },
}

/// A message as a mathematical value.
pub enum MsgView {
    Hello { receiver_address: Seq<char>, pake_msg: Seq<u8> },
    PakeReply { pake_msg: Seq<u8> },
    Ready,
    Encrypted { counter: u64, ciphertext: Seq<u8> },
}

/// A payload as a mathematical value.
pub enum PayloadView {
    Offer { filename: Seq<char>, filesize: u64, sha256: Seq<u8> },
    Accept,
    Reject { reason: Seq<char> },
    Chunk { seq: u64, data: Seq<u8> },
    Done { total_chunks: u64 },
    Ack { sha256: Seq<u8> },
    Error { message: Seq<char> },
    Retransmit { counter: u64 },
}

impl View for Msg {
    type V = MsgView;

    open spec fn view(&self) -> MsgView {
        match self {
            Msg::Hello { receiver_address, pake_msg } => MsgView::Hello {
                receiver_address: receiver_address@,
                pake_msg: pake_msg@,
            },
            Msg::PakeReply { pake_msg } => MsgView::PakeReply { pake_msg: pake_msg@ },
            Msg::Ready => MsgView::Ready,
            Msg::Encrypted { counter, ciphertext } => MsgView::Encrypted {
                counter: *counter,
                ciphertext: ciphertext@,
            },
        }
    }
}

impl View for Payload {
    type V = PayloadView;

    open spec fn view(&self) -> PayloadView {
        match self {
            Payload::Offer { filename, filesize, sha256 } => PayloadView::Offer {
                filename: filename@,
                filesize: *filesize,
                sha256: sha256@,
            },
            Payload::Accept => PayloadView::Accept,
            Payload::Reject { reason } => PayloadView::Reject { reason: reason@ },
            Payload::Chunk { seq, data } => PayloadView::Chunk { seq: *seq, data: data@ },
            Payload::Done { total_chunks } => PayloadView::Done { total_chunks: *total_chunks },
            Payload::Ack { sha256 } => PayloadView::Ack { sha256: sha256@ },
            Payload::Error { message } => PayloadView::Error { message: message@ },
            Payload::Retransmit { counter } => PayloadView::Retransmit { counter: *counter },
        }
    }
}

impl MsgView {
    /// The bytes of a message: the number of its variant, then its fields.
    pub open spec fn wire(self) -> Seq<u8> {
        match self {
            MsgView::Hello { receiver_address, pake_msg } => le_bytes(0, 4) + prefixed_text(
                receiver_address,
            ) + prefixed(pake_msg),
            MsgView::PakeReply { pake_msg } => le_bytes(1, 4) + prefixed(pake_msg),
            MsgView::Ready => le_bytes(2, 4),
            MsgView::Encrypted { counter, ciphertext } => le_bytes(3, 4) + le_bytes(
                counter as nat,
                8,
            ) + prefixed(ciphertext),
        }
    }
}

impl PayloadView {
    /// The bytes of a payload: the number of its variant, then its fields.
    pub open spec fn wire(self) -> Seq<u8> {
        match self {
            PayloadView::Offer { filename, filesize, sha256 } => le_bytes(0, 4) + prefixed_text(
                filename,
            ) + le_bytes(filesize as nat, 8) + sha256,
            PayloadView::Accept => le_bytes(1, 4),
            PayloadView::Reject { reason } => le_bytes(2, 4) + prefixed_text(reason),
            PayloadView::Chunk { seq, data } => le_bytes(3, 4) + le_bytes(seq as nat, 8)
                + prefixed(data),
            PayloadView::Done { total_chunks } => le_bytes(4, 4) + le_bytes(
                total_chunks as nat,
                8,
            ),
            PayloadView::Ack { sha256 } => le_bytes(5, 4) + sha256,
            PayloadView::Error { message } => le_bytes(6, 4) + prefixed_text(message),
            PayloadView::Retransmit { counter } => le_bytes(7, 4) + le_bytes(counter as nat, 8),
        }
    }

    /// A digest has 32 bytes.
    pub open spec fn wf(self) -> bool {
        match self {
            PayloadView::Offer { sha256, .. } => sha256.len() == 32,
            PayloadView::Ack { sha256 } => sha256.len() == 32,
            _ => true,
        }
    }
}

/// The message at the front of some bytes, if there is one.
pub open spec fn parse_msg(s: Seq<u8>) -> Option<MsgView> {
    match take_u32(s) {
        None => None,
        Some((tag, s)) => if tag == 0 {
            match take_text(s) {
                None => None,
                Some((receiver_address, s)) => match take_prefixed(s) {
                    None => None,
                    Some((pake_msg, _)) => Some(MsgView::Hello { receiver_address, pake_msg }),
                },
            }
        } else if tag == 1 {
            match take_prefixed(s) {
                None => None,
                Some((pake_msg, _)) => Some(MsgView::PakeReply { pake_msg }),
            }
        } else if tag == 2 {
            Some(MsgView::Ready)
        } else if tag == 3 {
            match take_u64(s) {
                None => None,
                Some((counter, s)) => match take_prefixed(s) {
                    None => None,
                    Some((ciphertext, _)) => Some(MsgView::Encrypted { counter, ciphertext }),
                },
            }
        } else {
            None
        },
    }
}

/// The payload at the front of some bytes, if there is one.
pub open spec fn parse_payload(s: Seq<u8>) -> Option<PayloadView> {
    match take_u32(s) {
        None => None,
        Some((tag, s)) => if tag == 0 {
            match take_text(s) {
                None => None,
                Some((filename, s)) => match take_u64(s) {
                    None => None,
                    Some((filesize, s)) => match take_raw(s, 32) {
                        None => None,
                        Some((sha256, _)) => Some(
                            PayloadView::Offer { filename, filesize, sha256 },
                        ),
                    },
                },
            }
        } else if tag == 1 {
            Some(PayloadView::Accept)
        } else if tag == 2 {
            match take_text(s) {
                None => None,
                Some((reason, _)) => Some(PayloadView::Reject { reason }),
            }
        } else if tag == 3 {
            match take_u64(s) {
                None => None,
                Some((seq, s)) => match take_prefixed(s) {
                    None => None,
                    Some((data, _)) => Some(PayloadView::Chunk { seq, data }),
                },
            }
        } else if tag == 4 {
            match take_u64(s) {
                None => None,
                Some((total_chunks, _)) => Some(PayloadView::Done { total_chunks }),
            }
        } else if tag == 5 {
            match take_raw(s, 32) {
                None => None,
                Some((sha256, _)) => Some(PayloadView::Ack { sha256 }),
            }
        } else if tag == 6 {
            match take_text(s) {
                None => None,
                Some((message, _)) => Some(PayloadView::Error { message }),
            }
        } else if tag == 7 {
            match take_u64(s) {
                None => None,
                Some((counter, _)) => Some(PayloadView::Retransmit { counter }),
            }
        } else {
            None
        },
    }
}

/// A message that is written out and read back is the same message, whatever
/// follows its bytes.
pub proof fn law_msg_round_trip(m: MsgView, rest: Seq<u8>)
    requires
        m.wire().len() <= isize::MAX,
    ensures
        parse_msg(m.wire() + rest) == Some(m),
{
    match m {
        MsgView::Hello { receiver_address, pake_msg } => {
            lemma_le_bytes_len(encode_utf8(receiver_address).len(), 8);
            lemma_le_bytes_len(pake_msg.len(), 8);
            let tail = prefixed(pake_msg) + rest;
            lemma_take_prefixed(pake_msg, rest);
            lemma_take_text(receiver_address, tail);
            lemma_take_u32(0, prefixed_text(receiver_address) + tail);
            assert(m.wire() + rest =~= le_bytes(0, 4) + (prefixed_text(receiver_address) + tail));
        },
        MsgView::PakeReply { pake_msg } => {
            lemma_le_bytes_len(pake_msg.len(), 8);
            lemma_take_prefixed(pake_msg, rest);
            lemma_take_u32(1, prefixed(pake_msg) + rest);
            assert(m.wire() + rest =~= le_bytes(1, 4) + (prefixed(pake_msg) + rest));
        },
        MsgView::Ready => {
            lemma_take_u32(2, rest);
        },
        MsgView::Encrypted { counter, ciphertext } => {
            lemma_le_bytes_len(ciphertext.len(), 8);
            let tail = prefixed(ciphertext) + rest;
            lemma_take_prefixed(ciphertext, rest);
            lemma_take_u64(counter, tail);
            lemma_take_u32(3, le_bytes(counter as nat, 8) + tail);
            assert(m.wire() + rest =~= le_bytes(3, 4) + (le_bytes(counter as nat, 8) + tail));
        },
    }
}

/// A payload that is written out and read back is the same payload, whatever
/// follows its bytes.
pub proof fn law_payload_round_trip(p: PayloadView, rest: Seq<u8>)
    requires
        p.wf(),
        p.wire().len() <= isize::MAX,
    ensures
        parse_payload(p.wire() + rest) == Some(p),
{
    match p {
        PayloadView::Offer { filename, filesize, sha256 } => {
            lemma_le_bytes_len(encode_utf8(filename).len(), 8);
            let size = le_bytes(filesize as nat, 8);
            lemma_take_raw(sha256, rest);
            lemma_take_u64(filesize, sha256 + rest);
            lemma_take_text(filename, size + (sha256 + rest));
            lemma_take_u32(0, prefixed_text(filename) + (size + (sha256 + rest)));
            assert(p.wire() + rest =~= le_bytes(0, 4) + (prefixed_text(filename) + (size + (sha256
                + rest))));
        },
        PayloadView::Accept => {
            lemma_take_u32(1, rest);
        },
        PayloadView::Reject { reason } => {
            lemma_le_bytes_len(encode_utf8(reason).len(), 8);
            lemma_take_text(reason, rest);
            lemma_take_u32(2, prefixed_text(reason) + rest);
            assert(p.wire() + rest =~= le_bytes(2, 4) + (prefixed_text(reason) + rest));
        },
        PayloadView::Chunk { seq, data } => {
            lemma_le_bytes_len(data.len(), 8);
            let tail = prefixed(data) + rest;
            lemma_take_prefixed(data, rest);
            lemma_take_u64(seq, tail);
            lemma_take_u32(3, le_bytes(seq as nat, 8) + tail);
            assert(p.wire() + rest =~= le_bytes(3, 4) + (le_bytes(seq as nat, 8) + tail));
        },
        PayloadView::Done { total_chunks } => {
            let field = le_bytes(total_chunks as nat, 8);
            lemma_take_u64(total_chunks, rest);
            lemma_take_u32(4, field + rest);
            assert(p.wire() + rest =~= le_bytes(4, 4) + (field + rest));
        },
        PayloadView::Ack { sha256 } => {
            lemma_take_raw(sha256, rest);
            lemma_take_u32(5, sha256 + rest);
            assert(p.wire() + rest =~= le_bytes(5, 4) + (sha256 + rest));
        },
        PayloadView::Error { message } => {
            lemma_le_bytes_len(encode_utf8(message).len(), 8);
            lemma_take_text(message, rest);
            lemma_take_u32(6, prefixed_text(message) + rest);
            assert(p.wire() + rest =~= le_bytes(6, 4) + (prefixed_text(message) + rest));
        },
        PayloadView::Retransmit { counter } => {
            let field = le_bytes(counter as nat, 8);
            lemma_take_u64(counter, rest);
            lemma_take_u32(7, field + rest);
            assert(p.wire() + rest =~= le_bytes(7, 4) + (field + rest));
        },
    }
}

/// Only bytes that begin with the bytes of a message are read as that message.
pub proof fn law_msg_bytes_are_canonical(s: Seq<u8>)
    ensures
        parse_msg(s) matches Some(m) ==> m.wire().is_prefix_of(s),
{
    lemma_u32_taken(s);
    if let Some((tag, s1)) = take_u32(s) {
        lemma_text_taken(s1);
        lemma_prefixed_taken(s1);
        lemma_u64_taken(s1);
        if tag == 0 {
            if let Some((_, s2)) = take_text(s1) {
                lemma_prefixed_taken(s2);
            }
        } else if tag == 3 {
            if let Some((_, s2)) = take_u64(s1) {
                lemma_prefixed_taken(s2);
            }
        }
    }
}

/// Only bytes that begin with the bytes of a payload are read as that payload.
pub proof fn law_payload_bytes_are_canonical(s: Seq<u8>)
    ensures
        parse_payload(s) matches Some(p) ==> p.wf() && p.wire().is_prefix_of(s),
{
    lemma_u32_taken(s);
    if let Some((tag, s1)) = take_u32(s) {
        lemma_text_taken(s1);
        lemma_u64_taken(s1);
        lemma_raw_taken(s1, 32);
        if tag == 0 {
            if let Some((_, s2)) = take_text(s1) {
                lemma_u64_taken(s2);
                if let Some((_, s3)) = take_u64(s2) {
                    lemma_raw_taken(s3, 32);
                }
            }
        } else if tag == 3 {
            if let Some((_, s2)) = take_u64(s1) {
                lemma_prefixed_taken(s2);
            }
        }
    }
}

/// A value with a byte form.
pub trait Wire: View + Sized {
    /// The bytes of a value.
    spec fn wire(v: <Self as View>::V) -> Seq<u8>;

    /// The value at the front of some bytes, if there is one.
    spec fn parsed(s: Seq<u8>) -> Option<<Self as View>::V>;

    /// Appends the bytes of this value.
    fn put(&self, out: &mut Vec<u8>) -> (r: Result<(), TransferError>)
        requires
            old(out)@.len() <= isize::MAX,
        ensures
            appended(old(out)@, final(out)@, Self::wire(self@), r),
    ;

    /// Reads the value at the front of some bytes.
    fn get(bytes: &[u8]) -> (r: Result<Self, TransferError>)
        ensures
            match Self::parsed(bytes@) {
                Some(v) => r matches Ok(x) && x@ == v,
                None => r matches Err(e) && e is Deserialize,
            },
    ;

    /// The bytes of a value are read as that value, whatever follows them.
    proof fn lemma_round_trip(&self, rest: Seq<u8>)
        requires
            Self::wire(self@).len() <= isize::MAX,
        ensures
            Self::parsed(Self::wire(self@) + rest) == Some(self@),
    ;
}

impl Wire for Msg {
    open spec fn wire(v: MsgView) -> Seq<u8> {
        v.wire()
    }

    open spec fn parsed(s: Seq<u8>) -> Option<MsgView> {
        parse_msg(s)
    }

    fn put(&self, out: &mut Vec<u8>) -> (r: Result<(), TransferError>) {
        let ghost before = out@;
        match self {
            Msg::Hello { receiver_address, pake_msg } => {
                put_u32(out, 0)?;
                put_text(out, receiver_address.as_str())?;
                assert(before + self@.wire() =~= out@ + prefixed(pake_msg@));
                put_bytes(out, pake_msg.as_slice())
            },
            Msg::PakeReply { pake_msg } => {
                put_u32(out, 1)?;
                assert(before + self@.wire() =~= out@ + prefixed(pake_msg@));
                put_bytes(out, pake_msg.as_slice())
            },
            Msg::Ready => put_u32(out, 2),
            Msg::Encrypted { counter, ciphertext } => {
                put_u32(out, 3)?;
                put_u64(out, *counter)?;
                assert(before + self@.wire() =~= out@ + prefixed(ciphertext@));
                put_bytes(out, ciphertext.as_slice())
            },
        }
    }

    fn get(bytes: &[u8]) -> (r: Result<Self, TransferError>) {
        let (tag, s) = get_u32(bytes)?;
        if tag == 0 {
            let (receiver_address, s) = get_text(s)?;
            let (pake_msg, _) = get_bytes(s)?;
            Ok(Msg::Hello { receiver_address, pake_msg })
        } else if tag == 1 {
            let (pake_msg, _) = get_bytes(s)?;
            Ok(Msg::PakeReply { pake_msg })
        } else if tag == 2 {
            Ok(Msg::Ready)
        } else if tag == 3 {
            let (counter, s) = get_u64(s)?;
            let (ciphertext, _) = get_bytes(s)?;
            Ok(Msg::Encrypted { counter, ciphertext })
        } else {
            Err(TransferError::Deserialize)
        }
    }

    proof fn lemma_round_trip(&self, rest: Seq<u8>) {
        law_msg_round_trip(self@, rest);
    }
}

impl Wire for Payload {
    open spec fn wire(v: PayloadView) -> Seq<u8> {
        v.wire()
    }

    open spec fn parsed(s: Seq<u8>) -> Option<PayloadView> {
        parse_payload(s)
    }

    fn put(&self, out: &mut Vec<u8>) -> (r: Result<(), TransferError>) {
        let ghost before = out@;
        match self {
            Payload::Offer { filename, filesize, sha256 } => {
                put_u32(out, 0)?;
                put_text(out, filename.as_str())?;
                put_u64(out, *filesize)?;
                assert(before + self@.wire() =~= out@ + sha256@);
                put_digest(out, sha256)
            },
            Payload::Accept => put_u32(out, 1),
            Payload::Reject { reason } => {
                put_u32(out, 2)?;
                assert(before + self@.wire() =~= out@ + prefixed_text(reason@));
                put_text(out, reason.as_str())
            },
            Payload::Chunk { seq, data } => {
                put_u32(out, 3)?;
                put_u64(out, *seq)?;
                assert(before + self@.wire() =~= out@ + prefixed(data@));
                put_bytes(out, data.as_slice())
            },
            Payload::Done { total_chunks } => {
                put_u32(out, 4)?;
                assert(before + self@.wire() =~= out@ + le_bytes(*total_chunks as nat, 8));
                put_u64(out, *total_chunks)
            },
            Payload::Ack { sha256 } => {
                put_u32(out, 5)?;
                assert(before + self@.wire() =~= out@ + sha256@);
                put_digest(out, sha256)
            },
            Payload::Error { message } => {
                put_u32(out, 6)?;
                assert(before + self@.wire() =~= out@ + prefixed_text(message@));
                put_text(out, message.as_str())
            },
            Payload::Retransmit { counter } => {
                put_u32(out, 7)?;
                assert(before + self@.wire() =~= out@ + le_bytes(*counter as nat, 8));
                put_u64(out, *counter)
            },
        }
    }

    fn get(bytes: &[u8]) -> (r: Result<Self, TransferError>) {
        let (tag, s) = get_u32(bytes)?;
        if tag == 0 {
            let (filename, s) = get_text(s)?;
            let (filesize, s) = get_u64(s)?;
            let (sha256, _) = get_digest(s)?;
            Ok(Payload::Offer { filename, filesize, sha256 })
        } else if tag == 1 {
            Ok(Payload::Accept)
        } else if tag == 2 {
            let (reason, _) = get_text(s)?;
            Ok(Payload::Reject { reason })
        } else if tag == 3 {
            let (seq, s) = get_u64(s)?;
            let (data, _) = get_bytes(s)?;
            Ok(Payload::Chunk { seq, data })
        } else if tag == 4 {
            let (total_chunks, _) = get_u64(s)?;
            Ok(Payload::Done { total_chunks })
        } else if tag == 5 {
            let (sha256, _) = get_digest(s)?;
            Ok(Payload::Ack { sha256 })
        } else if tag == 6 {
            let (message, _) = get_text(s)?;
            Ok(Payload::Error { message })
        } else if tag == 7 {
            let (counter, _) = get_u64(s)?;
            Ok(Payload::Retransmit { counter })
        } else {
            Err(TransferError::Deserialize)
        }
    }

    proof fn lemma_round_trip(&self, rest: Seq<u8>) {
        law_payload_round_trip(self@, rest);
    }
}

/// A payload has four bytes for its variant, then its fields one behind the
/// other: integers as eight bytes, digests as they are, and texts and data as
/// their length and all their bytes.
pub proof fn law_payload_layout(p: PayloadView)
    requires
        p matches PayloadView::Offer { sha256, .. } ==> sha256.len() == 32,
        p matches PayloadView::Ack { sha256 } ==> sha256.len() == 32,
    ensures
        ({
            let b = <Payload as Wire>::wire(p);
            &&& b == p.wire()
            &&& b.len() >= 4
            &&& b[1] == 0 && b[2] == 0 && b[3] == 0
            &&& match p {
                PayloadView::Offer { filename, filesize, sha256 } => {
                    let n = encode_utf8(filename).len() as int;
                    &&& b[0] == 0
                    &&& b.len() == 52 + n
                    &&& b.subrange(4, 12) == le_bytes(n as nat, 8)
                    &&& b.subrange(12, 12 + n) == encode_utf8(filename)
                    &&& b.subrange(12 + n, 20 + n) == le_bytes(filesize as nat, 8)
                    &&& b.skip(20 + n) == sha256
                },
                PayloadView::Accept => b[0] == 1 && b.len() == 4,
                PayloadView::Reject { reason } => {
                    &&& b[0] == 2
                    &&& b.subrange(4, 12) == le_bytes(encode_utf8(reason).len(), 8)
                    &&& b.skip(12) == encode_utf8(reason)
                },
                PayloadView::Chunk { seq, data } => {
                    &&& b[0] == 3
                    &&& b.len() == 20 + data.len()
                    &&& b.subrange(4, 12) == le_bytes(seq as nat, 8)
                    &&& b.subrange(12, 20) == le_bytes(data.len(), 8)
                    &&& b.skip(20) == data
                },
                PayloadView::Done { total_chunks } => {
                    &&& b[0] == 4
                    &&& b.skip(4) == le_bytes(total_chunks as nat, 8)
                },
                PayloadView::Ack { sha256 } => b[0] == 5 && b.skip(4) == sha256,
                PayloadView::Error { message } => {
                    &&& b[0] == 6
                    &&& b.subrange(4, 12) == le_bytes(encode_utf8(message).len(), 8)
                    &&& b.skip(12) == encode_utf8(message)
                },
                PayloadView::Retransmit { counter } => {
                    &&& b[0] == 7
                    &&& b.skip(4) == le_bytes(counter as nat, 8)
                },
            }
        }),
{
    let b = <Payload as Wire>::wire(p);
    lemma_tag_bytes();
    match p {
        PayloadView::Offer { filename, filesize, sha256 } => {
            let n = encode_utf8(filename).len() as int;
            lemma_le_bytes_len(n as nat, 8);
            lemma_le_bytes_len(filesize as nat, 8);
            assert(b.subrange(4, 12) =~= le_bytes(n as nat, 8));
            assert(b.subrange(12, 12 + n) =~= encode_utf8(filename));
            assert(b.subrange(12 + n, 20 + n) =~= le_bytes(filesize as nat, 8));
            assert(b.skip(20 + n) =~= sha256);
        },
        PayloadView::Accept => {},
        PayloadView::Reject { reason } => {
            lemma_le_bytes_len(encode_utf8(reason).len(), 8);
            assert(b.subrange(4, 12) =~= le_bytes(encode_utf8(reason).len(), 8));
            assert(b.skip(12) =~= encode_utf8(reason));
        },
        PayloadView::Chunk { seq, data } => {
            lemma_le_bytes_len(seq as nat, 8);
            lemma_le_bytes_len(data.len(), 8);
            assert(b.subrange(4, 12) =~= le_bytes(seq as nat, 8));
            assert(b.subrange(12, 20) =~= le_bytes(data.len(), 8));
            assert(b.skip(20) =~= data);
        },
        PayloadView::Done { total_chunks } => {
            assert(b.skip(4) =~= le_bytes(total_chunks as nat, 8));
        },
        PayloadView::Ack { sha256 } => {
            assert(b.skip(4) =~= sha256);
        },
        PayloadView::Error { message } => {
            lemma_le_bytes_len(encode_utf8(message).len(), 8);
            assert(b.subrange(4, 12) =~= le_bytes(encode_utf8(message).len(), 8));
            assert(b.skip(12) =~= encode_utf8(message));
        },
        PayloadView::Retransmit { counter } => {
            assert(b.skip(4) =~= le_bytes(counter as nat, 8));
        },
    }
}

/// A message has four bytes for its variant, then its fields one behind the
/// other, laid out like those of a payload.
pub proof fn law_msg_layout(m: MsgView)
    ensures
        ({
            let b = <Msg as Wire>::wire(m);
            &&& b == m.wire()
            &&& b.len() >= 4
            &&& b[1] == 0 && b[2] == 0 && b[3] == 0
            &&& match m {
                MsgView::Hello { receiver_address, pake_msg } => {
                    let n = encode_utf8(receiver_address).len() as int;
                    &&& b[0] == 0
                    &&& b.len() == 20 + n + pake_msg.len()
                    &&& b.subrange(4, 12) == le_bytes(n as nat, 8)
                    &&& b.subrange(12, 12 + n) == encode_utf8(receiver_address)
                    &&& b.subrange(12 + n, 20 + n) == le_bytes(pake_msg.len(), 8)
                    &&& b.skip(20 + n) == pake_msg
                },
                MsgView::PakeReply { pake_msg } => {
                    &&& b[0] == 1
                    &&& b.subrange(4, 12) == le_bytes(pake_msg.len(), 8)
                    &&& b.skip(12) == pake_msg
                },
                MsgView::Ready => b[0] == 2 && b.len() == 4,
                MsgView::Encrypted { counter, ciphertext } => {
                    &&& b[0] == 3
                    &&& b.subrange(4, 12) == le_bytes(counter as nat, 8)
                    &&& b.subrange(12, 20) == le_bytes(ciphertext.len(), 8)
                    &&& b.skip(20) == ciphertext
                },
            }
        }),
{
    let b = <Msg as Wire>::wire(m);
    lemma_tag_bytes();
    match m {
        MsgView::Hello { receiver_address, pake_msg } => {
            let n = encode_utf8(receiver_address).len() as int;
            lemma_le_bytes_len(n as nat, 8);
            lemma_le_bytes_len(pake_msg.len(), 8);
            assert(b.subrange(4, 12) =~= le_bytes(n as nat, 8));
            assert(b.subrange(12, 12 + n) =~= encode_utf8(receiver_address));
            assert(b.subrange(12 + n, 20 + n) =~= le_bytes(pake_msg.len(), 8));
            assert(b.skip(20 + n) =~= pake_msg);
        },
        MsgView::PakeReply { pake_msg } => {
            lemma_le_bytes_len(pake_msg.len(), 8);
            assert(b.subrange(4, 12) =~= le_bytes(pake_msg.len(), 8));
            assert(b.skip(12) =~= pake_msg);
        },
        MsgView::Ready => {},
        MsgView::Encrypted { counter, ciphertext } => {
            lemma_le_bytes_len(counter as nat, 8);
            lemma_le_bytes_len(ciphertext.len(), 8);
            assert(b.subrange(4, 12) =~= le_bytes(counter as nat, 8));
            assert(b.subrange(12, 20) =~= le_bytes(ciphertext.len(), 8));
            assert(b.skip(20) =~= ciphertext);
        },
    }
}

/// The bytes of the numbers of the variants.
proof fn lemma_tag_bytes()
    ensures
        forall|t: nat|
            t < 8 ==> {
                let b = #[trigger] le_bytes(t, 4);
                b.len() == 4 && b[0] == t && b[1] == 0 && b[2] == 0 && b[3] == 0
            },
{
    assert forall|t: nat| t < 8 implies {
        let b = #[trigger] le_bytes(t, 4);
        b.len() == 4 && b[0] == t && b[1] == 0 && b[2] == 0 && b[3] == 0
    } by {
        reveal_with_fuel(le_bytes, 5);
    }
}

/// What is written out and read in is what the values hold, all of it.
pub proof fn law_views_hold_everything(
    text: String,
    data: Vec<u8>,
    digest: [u8; 32],
    number: u64,
)
    ensures
        (Msg::Hello { receiver_address: text, pake_msg: data })@ == (MsgView::Hello {
            receiver_address: text@,
            pake_msg: data@,
        }),
        (Msg::PakeReply { pake_msg: data })@ == (MsgView::PakeReply { pake_msg: data@ }),
        (Msg::Ready)@ == MsgView::Ready,
        (Msg::Encrypted { counter: number, ciphertext: data })@ == (MsgView::Encrypted {
            counter: number,
            ciphertext: data@,
        }),
        (Payload::Offer { filename: text, filesize: number, sha256: digest })@ == (
        PayloadView::Offer { filename: text@, filesize: number, sha256: digest@ }),
        (Payload::Accept)@ == PayloadView::Accept,
        (Payload::Reject { reason: text })@ == (PayloadView::Reject { reason: text@ }),
        (Payload::Chunk { seq: number, data })@ == (PayloadView::Chunk { seq: number, data: data@ }),
        (Payload::Done { total_chunks: number })@ == (PayloadView::Done { total_chunks: number }),
        (Payload::Ack { sha256: digest })@ == (PayloadView::Ack { sha256: digest@ }),
        (Payload::Error { message: text })@ == (PayloadView::Error { message: text@ }),
        (Payload::Retransmit { counter: number })@ == (PayloadView::Retransmit { counter: number }),
{
}

/// What is read from bytes is the value that they begin with, and there is one
/// to be read whenever they begin with one.
pub proof fn law_reading_inverts_writing(s: Seq<u8>, m: MsgView, p: PayloadView)
    requires
        p matches PayloadView::Offer { sha256, .. } ==> sha256.len() == 32,
        p matches PayloadView::Ack { sha256 } ==> sha256.len() == 32,
        s.len() <= isize::MAX,
    ensures
        <Msg as Wire>::parsed(s) == Some(m) <==> m.wire().is_prefix_of(s),
        <Payload as Wire>::parsed(s) == Some(p) <==> p.wire().is_prefix_of(s),
{
    law_msg_bytes_are_canonical(s);
    law_payload_bytes_are_canonical(s);
    if m.wire().is_prefix_of(s) {
        law_msg_round_trip(m, s.skip(m.wire().len() as int));
        assert(m.wire() + s.skip(m.wire().len() as int) =~= s);
    }
    if p.wire().is_prefix_of(s) {
        law_payload_round_trip(p, s.skip(p.wire().len() as int));
        assert(p.wire() + s.skip(p.wire().len() as int) =~= s);
    }
}

/// Writes a value out as bytes. This fails only where the bytes would be too
/// many to allocate. Reading them gives the value back.
pub fn encode<T: Wire>(value: &T) -> (r: Result<Vec<u8>, TransferError>)
    ensures
        r is Ok <==> T::wire(value@).len() <= isize::MAX,
        r matches Ok(bytes) ==> bytes@ == T::wire(value@) && T::parsed(bytes@) == Some(value@),
        r matches Err(e) ==> e is Serialize,
{
    let mut out: Vec<u8> = Vec::new();
    value.put(&mut out)?;
    proof {
        assert(out@ =~= T::wire(value@));
        value.lemma_round_trip(Seq::empty());
        assert(T::wire(value@) + Seq::empty() =~= T::wire(value@));
    }
    Ok(out)
}

/// Reads the value at the front of some bytes. Bytes after it are ignored.
pub fn decode<T: Wire>(bytes: &[u8]) -> (r: Result<T, TransferError>)
    ensures
        match T::parsed(bytes@) {
            Some(v) => r matches Ok(x) && x@ == v,
            None => r matches Err(e) && e is Deserialize,
        },
{
    T::get(bytes)
}

} // verus!
