//! Sealed payloads as messages: what goes over the network after the
//! handshake.

use vstd::prelude::*;

use crate::crypto::{
    aead_seal, decrypted, encryptable, nonce_of, open, opened, seal, sealed, unopened, MAX_PLAINTEXT,
};
use crate::error::TransferError;
use crate::protocol::{decode, encode, law_msg_layout, law_msg_round_trip, parse_msg, Msg, MsgView, Payload, PayloadView};
use crate::wire::{le_bytes, lemma_le_bytes_len};

verus! {

/// The bytes of the message that carries a payload, sealed under a counter.
pub open spec fn envelope(key: Seq<u8>, counter: u64, payload: PayloadView) -> Seq<u8> {
    MsgView::Encrypted {
        counter,
        ciphertext: aead_seal(key, nonce_of(counter), payload.wire()),
    }.wire()
}

/// What a message holds for the owner of the key: a counter, and the payload
/// that was sealed under it.
pub open spec fn received(key: Seq<u8>, raw: Seq<u8>) -> Option<(u64, PayloadView)> {
    match parse_msg(raw) {
        Some(MsgView::Encrypted { counter, ciphertext }) => match opened(
            key,
            counter,
            ciphertext,
        ) {
            Some(payload) => Some((counter, payload)),
            None => None,
        },
        _ => None,
    }
}

/// Why a message that holds nothing for the owner of the key is refused.
pub open spec fn refused(key: Seq<u8>, raw: Seq<u8>, e: TransferError) -> bool {
    match parse_msg(raw) {
        None => e is Deserialize,
        Some(MsgView::Encrypted { counter, ciphertext }) => unopened(key, counter, ciphertext, e),
        Some(m) => e matches TransferError::UnexpectedMsg(got) && got@ == m,
    }
}

/// The message carries the payload, and whoever has the key gets it back.
pub open spec fn posted(key: Seq<u8>, counter: u64, payload: PayloadView, raw: Seq<u8>) -> bool {
    &&& raw == envelope(key, counter, payload)
    &&& received(key, raw) == Some((counter, payload))
}

/// How many bytes a message has besides the payload: the variant, the counter,
/// the length of the ciphertext, and the tag.
pub const ENVELOPE_LEN: u64 = 36;

/// Whether a payload of this length fits into a message.
pub open spec fn postable(len: nat) -> bool {
    len <= MAX_PLAINTEXT && len + ENVELOPE_LEN <= isize::MAX
}

/// Why a payload does not fit into a message.
pub open spec fn too_long(len: nat, e: TransferError) -> bool {
    &&& !postable(len)
    &&& e is Encrypt <==> len <= isize::MAX && !encryptable(len)
    &&& e is Encrypt || e is Serialize
}

/// Seals a payload and puts it into a message.
pub fn post(key: &[u8; 32], counter: u64, payload: &Payload) -> (r: Result<Vec<u8>, TransferError>)
    ensures
        match r {
            Ok(raw) => postable(payload@.wire().len()) && posted(key@, counter, payload@, raw@),
            Err(e) => too_long(payload@.wire().len(), e),
        },
{
    let ciphertext = seal(key, counter, payload)?;
    proof {
        lemma_le_bytes_len(3, 4);
        lemma_le_bytes_len(counter as nat, 8);
        lemma_le_bytes_len(ciphertext@.len(), 8);
    }
    encode(&Msg::Encrypted { counter, ciphertext })
}

/// Reads a message and opens the payload in it.
pub fn open_message(key: &[u8; 32], raw: &[u8]) -> (r: Result<(u64, Payload), TransferError>)
    ensures
        match r {
            Ok((counter, payload)) => received(key@, raw@) == Some((counter, payload@)),
            Err(e) => received(key@, raw@) is None && refused(key@, raw@, e),
        },
{
    match decode::<Msg>(raw)? {
        Msg::Encrypted { counter, ciphertext } => {
            let payload = open(key, counter, ciphertext.as_slice())?;
            Ok((counter, payload))
        },
        other => Err(TransferError::UnexpectedMsg(other)),
    }
}

/// A posted message has its variant, the whole counter, the length of the
/// ciphertext and the ciphertext, and opens to the counter and the payload.
pub proof fn law_envelope_layout(key: Seq<u8>, counter: u64, payload: PayloadView, raw: Seq<u8>)
    requires
        posted(key, counter, payload, raw),
        payload.wire().len() + 36 <= isize::MAX,
    ensures
        raw.len() >= 20,
        raw[0] == 3 && raw[1] == 0 && raw[2] == 0 && raw[3] == 0,
        raw.subrange(4, 12) == le_bytes(counter as nat, 8),
        raw.skip(20) == aead_seal(key, nonce_of(counter), payload.wire()),
        raw.subrange(12, 20) == le_bytes(raw.skip(20).len(), 8),
        received(key, raw) == Some((counter, payload)),
{
    let ciphertext = aead_seal(key, nonce_of(counter), payload.wire());
    law_msg_layout(MsgView::Encrypted { counter, ciphertext });
    lemma_le_bytes_len(3, 4);
    lemma_le_bytes_len(counter as nat, 8);
    lemma_le_bytes_len(ciphertext.len(), 8);
}

/// A message is received exactly if it is an encrypted one, and what it carries
/// opens under the counter that it carries. Why another one is refused depends
/// on what it is.
pub proof fn law_received_is_what_opens(
    key: Seq<u8>,
    raw: Seq<u8>,
    counter: u64,
    payload: PayloadView,
    e: TransferError,
)
    ensures
        received(key, raw) == Some((counter, payload)) <==> exists|ciphertext: Seq<u8>|
            parse_msg(raw) == Some(MsgView::Encrypted { counter, ciphertext }) && #[trigger] opened(
                key,
                counter,
                ciphertext,
            ) == Some(payload),
        received(key, raw) is None && refused(key, raw, e) ==> match parse_msg(raw) {
            None => e is Deserialize,
            Some(MsgView::Encrypted { counter: c, ciphertext }) => if decrypted(
                key,
                c,
                ciphertext,
            ) is None {
                e == (TransferError::Decrypt { counter: c })
            } else {
                e == (TransferError::InvalidPayload { counter: c })
            },
            Some(m) => e matches TransferError::UnexpectedMsg(got) && got@ == m,
        },
{
    match parse_msg(raw) {
        Some(MsgView::Encrypted { counter: c, ciphertext }) => {
            assert(received(key, raw) is Some <==> opened(key, c, ciphertext) is Some);
        },
        _ => {},
    }
}

/// Every payload fits into a message up to the limits of the cipher and of what
/// can be allocated, and which of the two it exceeds is told.
pub proof fn law_payloads_fit(len: nat, e: TransferError)
    ensures
        postable(len) <==> len <= 0x3f_ffff_ff80 && len + 36 <= isize::MAX,
        too_long(len, e) ==> !postable(len),
        too_long(len, e) && len <= isize::MAX && (len > 0x3f_ffff_ff80 || len + 16 > isize::MAX)
            ==> e is Encrypt,
        too_long(len, e) && !(len <= isize::MAX && (len > 0x3f_ffff_ff80 || len + 16 > isize::MAX))
            ==> e is Serialize,
{
}

/// Whoever has the key opens a message to the payload it was made of, whatever
/// the time and the order in which messages arrive.
pub proof fn law_posted_is_received(
    key: Seq<u8>,
    counter: u64,
    payload: PayloadView,
    ciphertext: Seq<u8>,
)
    requires
        sealed(key, counter, payload, ciphertext),
        postable(payload.wire().len()),
    ensures
        posted(key, counter, payload, MsgView::Encrypted { counter, ciphertext }.wire()),
{
    let m = MsgView::Encrypted { counter, ciphertext };
    lemma_le_bytes_len(3, 4);
    lemma_le_bytes_len(counter as nat, 8);
    lemma_le_bytes_len(ciphertext.len(), 8);
    law_msg_round_trip(m, Seq::empty());
    assert(m.wire() + Seq::empty() =~= m.wire());
}

} // verus!
