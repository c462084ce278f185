//! The protocol's primitives on plain bytes, for bindings to other languages.

use vstd::prelude::*;

use crate::crypto::{
    decrypt, decrypts, derive_keys, encrypt, encryptable, encrypts, open, opened, pake_finish,
    pake_message, pake_view, recv_key, seal, sealed, send_key, sha256, spake2_start_receiver,
    spake2_start_sender, transfer_pake, unopened, Hasher, PakeState, PakeView, SIDE_A, SIDE_B,
};
use crate::error::TransferError;
use crate::protocol::{
    decode, encode, law_payload_round_trip, parse_payload, Payload, PayloadView,
};
use crate::words::{drawn_password, generate_password, hyphenated, picked, within};

verus! {

/// Makes a password of random words of the list.
pub fn wasm_generate_password(list: &[&str], num_words: usize) -> (password: String)
    requires
        list@.len() > 0,
    ensures
        exists|picks: Seq<usize>| #[trigger]
            within(picks, list@.len()) && picks.len() == num_words && password@ == hyphenated(
                picked(list@, picks),
            ),
        drawn_password(list@, num_words, password@),
{
    generate_password(list, num_words)
}

// ---------------------------------------------------------------------------
// Key exchange
// ---------------------------------------------------------------------------

/// The sender's side of a key exchange. It can be finished once.
pub struct Spake2SenderState {
    inner: Option<PakeState>,
}

/// A sender's side that was started, with its message.
pub struct StartResult {
    state: Spake2SenderState,
    pake_msg: Vec<u8>,
}

/// The receiver's side of a key exchange. It can be finished once.
pub struct Spake2ReceiverState {
    inner: Option<PakeState>,
}

/// A receiver's side that was started, with its message.
pub struct ReceiverStartResult {
    state: Spake2ReceiverState,
    pake_msg: Vec<u8>,
}

/// What a side holds: the key exchange, until it is finished.
pub open spec fn held_state(inner: Option<PakeState>) -> Option<PakeView> {
    match inner {
        Some(state) => Some(pake_view(state)),
        None => None,
    }
}

impl View for Spake2SenderState {
    type V = Option<PakeView>;

    closed spec fn view(&self) -> Option<PakeView> {
        held_state(self.inner)
    }
}

impl View for Spake2ReceiverState {
    type V = Option<PakeView>;

    closed spec fn view(&self) -> Option<PakeView> {
        held_state(self.inner)
    }
}

impl View for StartResult {
    type V = (Option<PakeView>, Seq<u8>);

    closed spec fn view(&self) -> (Option<PakeView>, Seq<u8>) {
        (self.state@, self.pake_msg@)
    }
}

impl View for ReceiverStartResult {
    type V = (Option<PakeView>, Seq<u8>);

    closed spec fn view(&self) -> (Option<PakeView>, Seq<u8>) {
        (self.state@, self.pake_msg@)
    }
}

/// What finishing a side gives. A side that was finished before gives nothing.
pub open spec fn finished(
    state: Option<PakeView>,
    peer_msg: Seq<u8>,
    r: Result<Vec<u8>, TransferError>,
) -> bool {
    match state {
        None => r matches Err(e) && e is AlreadyConsumed,
        Some(v) => match pake_finish(v, peer_msg) {
            Ok(secret) => r matches Ok(s) && s@ == secret,
            Err(why) => r matches Err(TransferError::KeyExchange(e)) && e == why,
        },
    }
}

/// A side that was finished gives nothing any more, and one that was not gives
/// the secret of its key exchange with the message, or says why there is none.
pub proof fn law_a_side_is_finished_once(
    state: Option<PakeView>,
    peer_msg: Seq<u8>,
    r: Result<Vec<u8>, TransferError>,
    inner: Option<PakeState>,
)
    requires
        finished(state, peer_msg, r),
    ensures
        state is None <==> (r matches Err(TransferError::AlreadyConsumed)),
        state matches Some(v) && pake_finish(v, peer_msg) is Ok ==> (r matches Ok(s) && s@
            == pake_finish(state->Some_0, peer_msg)->Ok_0),
        state matches Some(v) && pake_finish(v, peer_msg) is Err ==> (r matches Err(
            TransferError::KeyExchange(e),
        ) && e == pake_finish(state->Some_0, peer_msg)->Err_0),
        held_state(inner) is Some <==> inner is Some,
        inner is Some ==> held_state(inner) == Some(pake_view(inner->Some_0)),
{
}

/// Finishes a side, if it was not finished before.
fn finish_once(inner: &mut Option<PakeState>, peer_msg: &[u8]) -> (r: Result<
    Vec<u8>,
    TransferError,
>)
    ensures
        finished(held_state(*old(inner)), peer_msg@, r),
        *final(inner) is None,
{
    match inner.take() {
        Some(state) => match state.finish(peer_msg) {
            Ok(secret) => Ok(secret),
            Err(e) => Err(TransferError::KeyExchange(e)),
        },
        None => Err(TransferError::AlreadyConsumed),
    }
}

impl Spake2SenderState {
    /// Starts a key exchange as the sender.
    pub fn start(password: &[u8]) -> (r: Result<StartResult, TransferError>)
        ensures
            r matches Ok(s) && pake_message(SIDE_A, s@.1) && s@.0 == Some(
                transfer_pake(SIDE_A, password@, s@.1),
            ) && s@.0->Some_0.password == password@,
    {
        let (state, pake_msg) = spake2_start_sender(password);
        Ok(StartResult { state: Spake2SenderState { inner: Some(state) }, pake_msg })
    }

    /// Finishes the key exchange with the receiver's message. Gives the shared
    /// secret.
    pub fn finish(&mut self, peer_msg: &[u8]) -> (r: Result<Vec<u8>, TransferError>)
        ensures
            finished(old(self)@, peer_msg@, r),
            final(self)@ is None,
    {
        finish_once(&mut self.inner, peer_msg)
    }
}

impl StartResult {
    /// The side that was started.
    pub fn take_state(self) -> (state: Spake2SenderState)
        ensures
            state@ == self@.0,
    {
        self.state
    }

    /// The message for the other side.
    pub fn pake_msg(&self) -> (m: Vec<u8>)
        ensures
            m@ == self@.1,
    {
        self.pake_msg.clone()
    }
}

impl Spake2ReceiverState {
    /// Starts a key exchange as the receiver.
    pub fn start(password: &[u8]) -> (r: Result<ReceiverStartResult, TransferError>)
        ensures
            r matches Ok(s) && pake_message(SIDE_B, s@.1) && s@.0 == Some(
                transfer_pake(SIDE_B, password@, s@.1),
            ) && s@.0->Some_0.password == password@,
    {
        let (state, pake_msg) = spake2_start_receiver(password);
        Ok(ReceiverStartResult { state: Spake2ReceiverState { inner: Some(state) }, pake_msg })
    }

    /// Finishes the key exchange with the sender's message. Gives the shared
    /// secret.
    pub fn finish(&mut self, peer_msg: &[u8]) -> (r: Result<Vec<u8>, TransferError>)
        ensures
            finished(old(self)@, peer_msg@, r),
            final(self)@ is None,
    {
        finish_once(&mut self.inner, peer_msg)
    }
}

impl ReceiverStartResult {
    /// The side that was started.
    pub fn take_state(self) -> (state: Spake2ReceiverState)
        ensures
            state@ == self@.0,
    {
        self.state
    }

    /// The message for the other side.
    pub fn pake_msg(&self) -> (m: Vec<u8>)
        ensures
            m@ == self@.1,
    {
        self.pake_msg.clone()
    }
}

// ---------------------------------------------------------------------------
// Keys, digests and encryption
// ---------------------------------------------------------------------------

/// Reads a key of 32 bytes.
fn to_key(key: &[u8]) -> (r: Result<[u8; 32], TransferError>)
    ensures
        match r {
            Ok(k) => key@.len() == 32 && k@ == key@,
            Err(e) => key@.len() != 32 && e is KeyLength,
        },
{
    if key.len() != 32 {
        return Err(TransferError::KeyLength);
    }
    let mut k: [u8; 32] = [0u8;32];
    let mut i: usize = 0;
    while i < 32
        invariant
            i <= 32,
            key@.len() == 32,
            k@.len() == 32,
            forall|j: int| 0 <= j < i ==> k@[j] == key@[j],
        decreases 32 - i,
    {
        k[i] = key[i];
        i = i + 1;
    }
    assert(k@ =~= key@);
    Ok(k)
}

/// Derives the two keys of a transfer: 32 bytes for the sender's direction,
/// then 32 bytes for the receiver's.
pub fn wasm_derive_keys(shared_secret: &[u8]) -> (keys: Vec<u8>)
    ensures
        keys@.len() == 64,
        keys@.take(32) == send_key(shared_secret@),
        keys@.skip(32) == recv_key(shared_secret@),
{
    let (send_key, recv_key) = derive_keys(shared_secret);
    let mut keys: Vec<u8> = Vec::new();
    keys.extend_from_slice(send_key.as_slice());
    keys.extend_from_slice(recv_key.as_slice());
    assert(keys@.take(32) =~= send_key@);
    assert(keys@.skip(32) =~= recv_key@);
    keys
}

/// Encrypts a payload that is given by its bytes. Bytes behind the payload are
/// dropped.
pub fn wasm_seal(key: &[u8], counter: u64, payload_bytes: &[u8]) -> (r: Result<
    Vec<u8>,
    TransferError,
>)
    ensures
        if key@.len() != 32 {
            r matches Err(e) && e is KeyLength
        } else {
            match parse_payload(payload_bytes@) {
                None => r matches Err(e) && e is Deserialize,
                Some(p) => match r {
                    Ok(c) => encryptable(p.wire().len()) && sealed(key@, counter, p, c@),
                    Err(e) => !encryptable(p.wire().len()) && (e is Serialize || e is Encrypt) && (
                    e is Serialize <==> p.wire().len() > isize::MAX),
                },
            }
        },
{
    let key = to_key(key)?;
    let payload = decode::<Payload>(payload_bytes)?;
    seal(&key, counter, &payload)
}

/// Decrypts a payload and gives its bytes.
pub fn wasm_open(key: &[u8], counter: u64, ciphertext: &[u8]) -> (r: Result<
    Vec<u8>,
    TransferError,
>)
    ensures
        if key@.len() != 32 {
            r matches Err(e) && e is KeyLength
        } else {
            match opened(key@, counter, ciphertext@) {
                None => r matches Err(e) && unopened(key@, counter, ciphertext@, e),
                Some(p) => match r {
                    Ok(bytes) => p.wire().len() <= isize::MAX && bytes@ == p.wire(),
                    Err(e) => p.wire().len() > isize::MAX && e is Serialize,
                },
            }
        },
{
    let key = to_key(key)?;
    let payload = open(&key, counter, ciphertext)?;
    encode(&payload)
}

/// The bytes of a payload that is sealed and opened again come back. Where
/// other bytes follow them, those are dropped.
pub proof fn law_wasm_round_trip(
    key: Seq<u8>,
    counter: u64,
    payload: PayloadView,
    rest: Seq<u8>,
    p: PayloadView,
    ciphertext: Seq<u8>,
)
    requires
        payload.wf(),
        payload.wire().len() <= isize::MAX,
        parse_payload(payload.wire() + rest) == Some(p),
        sealed(key, counter, p, ciphertext),
    ensures
        opened(key, counter, ciphertext) == Some(payload),
{
    law_payload_round_trip(payload, rest);
}

/// Encrypts bytes as they are.
pub fn wasm_encrypt(key: &[u8], counter: u64, plaintext: &[u8]) -> (r: Result<
    Vec<u8>,
    TransferError,
>)
    ensures
        if key@.len() != 32 {
            r matches Err(e) && e is KeyLength
        } else {
            encrypts(key@, counter, plaintext@, r)
        },
{
    let key = to_key(key)?;
    encrypt(&key, counter, plaintext)
}

/// Decrypts to bytes as they are.
pub fn wasm_decrypt(key: &[u8], counter: u64, ciphertext: &[u8]) -> (r: Result<
    Vec<u8>,
    TransferError,
>)
    ensures
        if key@.len() != 32 {
            r matches Err(e) && e is KeyLength
        } else {
            decrypts(key@, counter, ciphertext@, r)
        },
{
    let key = to_key(key)?;
    decrypt(&key, counter, ciphertext)
}

/// The SHA-256 digest of some bytes.
pub fn wasm_sha256(data: &[u8]) -> (digest: Vec<u8>)
    ensures
        digest@ == sha256(data@),
        digest@.len() == 32,
{
    let mut h = Hasher::new();
    h.update(data);
    assert(h@ =~= data@);
    let bytes = h.finalize();
    let mut digest: Vec<u8> = Vec::new();
    digest.extend_from_slice(bytes.as_slice());
    assert(digest@ =~= bytes@);
    digest
}

} // verus!
