//! Key exchange, key derivation, sealing of payloads and file digests.

use vstd::prelude::*;
use vstd::utf8::encode_utf8;

use crate::error::{PakeError, TransferError};
use crate::protocol::{decode, encode, parse_payload, Payload, PayloadView};
use crate::wire::{
    le_bytes, le_value, lemma_le_bytes_len, lemma_le_bytes_value, lemma_le_value_bytes,
    lemma_pow256_bounds,
};

verus! {

// ---------------------------------------------------------------------------
// Key exchange
// ---------------------------------------------------------------------------

/// One side of a SPAKE2 key exchange that waits for the other side's message.
#[verifier::external_body]
pub struct PakeState {
    inner: spake2::Spake2<spake2::Ed25519Group>,
}

/// What a side of a key exchange was started with, and the message it sent.
pub struct PakeView {
    pub side: u8,
    pub password: Seq<u8>,
    pub id_a: Seq<u8>,
    pub id_b: Seq<u8>,
    pub message: Seq<u8>,
}

/// What `state` was started with. This names the contents of the opaque
/// `spake2::Spake2` inside.
pub uninterp spec fn pake_view(state: PakeState) -> PakeView;

/// The secret that SPAKE2 over the Ed25519 group makes of a password, the two
/// identities and the two group elements that were exchanged. The elements and
/// the password determine both random scalars, so they determine the secret.
pub uninterp spec fn spake2_secret(
    password: Seq<u8>,
    id_a: Seq<u8>,
    id_b: Seq<u8>,
    element_a: Seq<u8>,
    element_b: Seq<u8>,
) -> Seq<u8>;

/// Whether 32 bytes are the compressed form of a group element.
pub uninterp spec fn ed25519_element(bytes: Seq<u8>) -> bool;

/// The first byte of the messages of side A: `A`.
pub const SIDE_A: u8 = 0x41;

/// The first byte of the messages of side B: `B`.
pub const SIDE_B: u8 = 0x42;

/// A message of the given side: the side, then a group element.
pub open spec fn pake_message(side: u8, message: Seq<u8>) -> bool {
    &&& message.len() == 33
    &&& message[0] == side
    &&& ed25519_element(message.skip(1))
}

/// The side that a side talks to.
pub open spec fn peer_of(side: u8) -> u8 {
    if side == SIDE_A {
        SIDE_B
    } else {
        SIDE_A
    }
}

/// What a side makes of the other side's message.
pub open spec fn pake_finish(v: PakeView, message: Seq<u8>) -> Result<Seq<u8>, PakeError> {
    if message.len() != 33 {
        Err(PakeError::WrongLength)
    } else if message[0] != peer_of(v.side) {
        Err(PakeError::BadSide)
    } else if !ed25519_element(message.skip(1)) {
        Err(PakeError::CorruptMessage)
    } else if v.side == SIDE_A {
        Ok(spake2_secret(v.password, v.id_a, v.id_b, v.message.skip(1), message.skip(1)))
    } else {
        Ok(spake2_secret(v.password, v.id_a, v.id_b, message.skip(1), v.message.skip(1)))
    }
}

/// `spake2::Spake2::start_a`: draws a random scalar and gives the state of
/// side A and its message, which is the byte `A` and a group element.
#[verifier::external_body]
fn pake_start_a(password: &[u8], id_a: &[u8], id_b: &[u8]) -> (r: (PakeState, Vec<u8>))
    ensures
        pake_view(r.0) == (PakeView {
            side: SIDE_A,
            password: password@,
            id_a: id_a@,
            id_b: id_b@,
            message: r.1@,
        }),
        pake_message(SIDE_A, r.1@),
{
    let (inner, message) = spake2::Spake2::start_a(
        &spake2::Password::new(password),
        &spake2::Identity::new(id_a),
        &spake2::Identity::new(id_b),
    );
    (PakeState { inner }, message)
}

/// `spake2::Spake2::start_b`: draws a random scalar and gives the state of
/// side B and its message, which is the byte `B` and a group element.
#[verifier::external_body]
fn pake_start_b(password: &[u8], id_a: &[u8], id_b: &[u8]) -> (r: (PakeState, Vec<u8>))
    ensures
        pake_view(r.0) == (PakeView {
            side: SIDE_B,
            password: password@,
            id_a: id_a@,
            id_b: id_b@,
            message: r.1@,
        }),
        pake_message(SIDE_B, r.1@),
{
    let (inner, message) = spake2::Spake2::start_b(
        &spake2::Password::new(password),
        &spake2::Identity::new(id_a),
        &spake2::Identity::new(id_b),
    );
    (PakeState { inner }, message)
}

/// `spake2::Spake2::finish`: checks the length of the message, the side in its
/// first byte and the element in the others, in this order, and then hashes
/// the exchange into a secret of 32 bytes. Both sides hash the same values in
/// the same order.
#[verifier::external_body]
fn pake_finish_with(state: PakeState, message: &[u8]) -> (r: Result<Vec<u8>, PakeError>)
    ensures
        (r matches Err(PakeError::WrongLength)) == (message@.len() != 33),
        (r matches Err(PakeError::BadSide)) == (message@.len() == 33 && message@[0] != peer_of(
            pake_view(state).side,
        )),
        (r matches Err(PakeError::CorruptMessage)) == (message@.len() == 33 && message@[0]
            == peer_of(pake_view(state).side) && !ed25519_element(message@.skip(1))),
        r is Ok ==> r->Ok_0@.len() == 32,
        r is Ok ==> r->Ok_0@ == (if pake_view(state).side == SIDE_A {
            spake2_secret(
                pake_view(state).password,
                pake_view(state).id_a,
                pake_view(state).id_b,
                pake_view(state).message.skip(1),
                message@.skip(1),
            )
        } else {
            spake2_secret(
                pake_view(state).password,
                pake_view(state).id_a,
                pake_view(state).id_b,
                message@.skip(1),
                pake_view(state).message.skip(1),
            )
        }),
{
    state.inner.finish(message).map_err(
        |e|
            match e {
                spake2::Error::BadSide => PakeError::BadSide,
                spake2::Error::CorruptMessage => PakeError::CorruptMessage,
                spake2::Error::WrongLength => PakeError::WrongLength,
            },
    )
}

impl PakeState {
    /// Finishes the key exchange with the other side's message.
    pub fn finish(self, message: &[u8]) -> (r: Result<Vec<u8>, PakeError>)
        ensures
            match r {
                Ok(secret) => pake_finish(pake_view(self), message@) == Ok::<Seq<u8>, PakeError>(
                    secret@,
                ) && secret@.len() == 32,
                Err(e) => pake_finish(pake_view(self), message@) == Err::<Seq<u8>, PakeError>(e),
            },
    {
        pake_finish_with(self, message)
    }
}

/// The identity of the side that sends the file.
pub open spec fn sender_identity() -> Seq<u8> {
    encode_utf8("wormhole-nym-sender"@)
}

/// The identity of the side that receives the file.
pub open spec fn receiver_identity() -> Seq<u8> {
    encode_utf8("wormhole-nym-receiver"@)
}

/// The key exchange between the two roles of a transfer.
pub open spec fn transfer_pake(side: u8, password: Seq<u8>, message: Seq<u8>) -> PakeView {
    PakeView {
        side,
        password,
        id_a: sender_identity(),
        id_b: receiver_identity(),
        message,
    }
}

/// Starts the key exchange as the sender (side A). Gives the state and the
/// message for the other side.
pub fn spake2_start_sender(password: &[u8]) -> (r: (PakeState, Vec<u8>))
    ensures
        pake_view(r.0).password == password@,
        pake_view(r.0) == transfer_pake(SIDE_A, password@, r.1@),
        pake_message(SIDE_A, r.1@),
{
    pake_start_a(
        password,
        "wormhole-nym-sender".as_bytes(),
        "wormhole-nym-receiver".as_bytes(),
    )
}

/// Starts the key exchange as the receiver (side B). Gives the state and the
/// message for the other side.
pub fn spake2_start_receiver(password: &[u8]) -> (r: (PakeState, Vec<u8>))
    ensures
        pake_view(r.0).password == password@,
        pake_view(r.0) == transfer_pake(SIDE_B, password@, r.1@),
        pake_message(SIDE_B, r.1@),
{
    pake_start_b(
        password,
        "wormhole-nym-sender".as_bytes(),
        "wormhole-nym-receiver".as_bytes(),
    )
}

/// The key exchange of a transfer runs over the whole password, whatever its
/// length, with the same two identities on both sides. So two exchanges are the
/// same only if they are over the same password.
pub proof fn law_exchange_is_over_the_whole_password(
    side: u8,
    password: Seq<u8>,
    message: Seq<u8>,
    other_side: u8,
    other_password: Seq<u8>,
    other_message: Seq<u8>,
)
    ensures
        ({
            let one = transfer_pake(side, password, message);
            let other = transfer_pake(other_side, other_password, other_message);
            &&& one.password == password
            &&& one.side == side
            &&& one.message == message
            &&& one.id_a == encode_utf8("wormhole-nym-sender"@)
            &&& one.id_b == encode_utf8("wormhole-nym-receiver"@)
            &&& one.password == other.password <==> password == other_password
            &&& one == other <==> (password == other_password && side == other_side && message
                == other_message)
        }),
{
}

/// A side takes exactly the messages of the other side: 33 bytes, of which the
/// first is `A` or `B` and the others are a group element. The secret is that of
/// the password and the two elements, with the sender's element first.
pub proof fn law_finish_takes_the_other_sides_message(v: PakeView, message: Seq<u8>)
    requires
        v.side == 0x41 || v.side == 0x42,
    ensures
        ({
            let r = pake_finish(v, message);
            let expected: u8 = if v.side == 0x41 {
                0x42
            } else {
                0x41
            };
            &&& r is Ok <==> message.len() == 33 && message[0] == expected && ed25519_element(
                message.skip(1),
            )
            &&& r is Ok && v.side == 0x41 ==> r->Ok_0 == spake2_secret(
                v.password,
                v.id_a,
                v.id_b,
                v.message.skip(1),
                message.skip(1),
            )
            &&& r is Ok && v.side == 0x42 ==> r->Ok_0 == spake2_secret(
                v.password,
                v.id_a,
                v.id_b,
                message.skip(1),
                v.message.skip(1),
            )
            &&& message.len() != 33 <==> r == Err::<Seq<u8>, PakeError>(PakeError::WrongLength)
            &&& message.len() == 33 && message[0] != expected <==> r == Err::<Seq<u8>, PakeError>(
                PakeError::BadSide,
            )
            &&& pake_message(expected, message) <==> r is Ok
        }),
{
}

/// Two sides that were started with the same password, and that finish with
/// each other's messages, both succeed and have the same secret.
pub proof fn law_key_agreement(password: Seq<u8>, message_a: Seq<u8>, message_b: Seq<u8>)
    requires
        pake_message(SIDE_A, message_a),
        pake_message(SIDE_B, message_b),
    ensures
        ({
            let at_sender = pake_finish(transfer_pake(SIDE_A, password, message_a), message_b);
            let at_receiver = pake_finish(transfer_pake(SIDE_B, password, message_b), message_a);
            at_sender is Ok && at_sender == at_receiver
        }),
{
}

// ---------------------------------------------------------------------------
// Digests and key derivation
// ---------------------------------------------------------------------------

/// The SHA-256 digest of some bytes.
pub uninterp spec fn sha256(data: Seq<u8>) -> Seq<u8>;

/// A SHA-256 computation in progress.
#[verifier::external_body]
pub struct Sha256State {
    inner: sha2::Sha256,
}

/// All the bytes that a computation has been given. This names the contents of
/// the opaque `sha2::Sha256` inside.
pub uninterp spec fn absorbed(state: Sha256State) -> Seq<u8>;

/// `sha2::Sha256::new`: a computation without any input yet.
#[verifier::external_body]
fn sha256_new() -> (state: Sha256State)
    ensures
        absorbed(state) == Seq::<u8>::empty(),
{
    Sha256State { inner: sha2::Digest::new() }
}

/// `sha2::Sha256::update`: appends to the input.
#[verifier::external_body]
fn sha256_update(state: &mut Sha256State, data: &[u8])
    ensures
        absorbed(*final(state)) == absorbed(*old(state)) + data@,
{
    sha2::Digest::update(&mut state.inner, data)
}

/// `sha2::Sha256::finalize`: the digest of all the input.
#[verifier::external_body]
fn sha256_finalize(state: Sha256State) -> (digest: [u8; 32])
    ensures
        digest@ == sha256(absorbed(state)),
{
    sha2::Digest::finalize(state.inner).into()
}

/// Computes the digest of a file that is read piece by piece. Its view is what
/// has been read so far.
pub struct Hasher {
    state: Sha256State,
}

impl View for Hasher {
    type V = Seq<u8>;

    closed spec fn view(&self) -> Seq<u8> {
        absorbed(self.state)
    }
}

impl Hasher {
    /// Nothing has been read yet.
    pub fn new() -> (h: Hasher)
        ensures
            h@ == Seq::<u8>::empty(),
    {
        Hasher { state: sha256_new() }
    }

    /// Takes in the next piece.
    pub fn update(&mut self, data: &[u8])
        ensures
            final(self)@ == old(self)@ + data@,
    {
        sha256_update(&mut self.state, data);
    }

    /// The digest of everything that was taken in.
    pub fn finalize(self) -> (digest: [u8; 32])
        ensures
            digest@ == sha256(self@),
    {
        sha256_finalize(self.state)
    }
}

/// The key under which the sender encrypts and the receiver decrypts.
pub open spec fn send_key(secret: Seq<u8>) -> Seq<u8> {
    sha256(secret + encode_utf8("wormhole-nym-send"@))
}

/// The key under which the receiver encrypts and the sender decrypts.
pub open spec fn recv_key(secret: Seq<u8>) -> Seq<u8> {
    sha256(secret + encode_utf8("wormhole-nym-recv"@))
}

/// Derives the two keys of a transfer, one for each direction, from the shared
/// secret.
pub fn derive_keys(shared_secret: &[u8]) -> (r: ([u8; 32], [u8; 32]))
    ensures
        r.0@ == send_key(shared_secret@),
        r.1@ == recv_key(shared_secret@),
        r.0@ == sha256(shared_secret@ + encode_utf8("wormhole-nym-send"@)),
        r.1@ == sha256(shared_secret@ + encode_utf8("wormhole-nym-recv"@)),
{
    let mut h = Hasher::new();
    h.update(shared_secret);
    h.update("wormhole-nym-send".as_bytes());
    assert(h@ =~= shared_secret@ + encode_utf8("wormhole-nym-send"@));
    let send_key = h.finalize();
    let mut h = Hasher::new();
    h.update(shared_secret);
    h.update("wormhole-nym-recv".as_bytes());
    assert(h@ =~= shared_secret@ + encode_utf8("wormhole-nym-recv"@));
    let recv_key = h.finalize();
    (send_key, recv_key)
}

/// Each key is the digest of the whole secret with the name of its direction
/// behind it.
pub proof fn law_keys_are_digests_of_the_whole_secret(secret: Seq<u8>)
    ensures
        send_key(secret) == sha256(secret + encode_utf8("wormhole-nym-send"@)),
        recv_key(secret) == sha256(secret + encode_utf8("wormhole-nym-recv"@)),
{
}

// ---------------------------------------------------------------------------
// Encryption and decryption
// ---------------------------------------------------------------------------

/// What ChaCha20-Poly1305 makes of a plaintext: the ciphertext, with its tag
/// behind.
pub uninterp spec fn aead_seal(key: Seq<u8>, nonce: Seq<u8>, plaintext: Seq<u8>) -> Seq<u8>;

/// What ChaCha20-Poly1305 makes of a ciphertext with its tag behind: the
/// plaintext, where the tag is right.
pub uninterp spec fn aead_open(key: Seq<u8>, nonce: Seq<u8>, ciphertext: Seq<u8>) -> Option<
    Seq<u8>,
>;

/// The longest plaintext for which ChaCha20 has key stream: its blocks of 64
/// bytes are counted with 32 bits, from one, and the last count stays unused.
pub const MAX_PLAINTEXT: u64 = 0x3f_ffff_ff80;

/// The length of the tag behind a ciphertext.
pub const TAG_LEN: u64 = 16;

/// `ChaCha20Poly1305::encrypt` without associated data: encrypts, and appends
/// the tag. It succeeds within the limits that are asked for, and what it gives
/// can be decrypted.
#[verifier::external_body]
fn aead_encrypt(key: &[u8; 32], nonce: &[u8; 12], plaintext: &[u8]) -> (r: Option<Vec<u8>>)
    requires
        plaintext@.len() <= MAX_PLAINTEXT,
        plaintext@.len() + TAG_LEN <= isize::MAX,
    ensures
        r is Some,
        r->Some_0@ == aead_seal(key@, nonce@, plaintext@),
        r->Some_0@.len() == plaintext@.len() + TAG_LEN,
        aead_open(key@, nonce@, r->Some_0@) == Some(plaintext@),
{
    let cipher: chacha20poly1305::ChaCha20Poly1305 = chacha20poly1305::KeyInit::new(key.into());
    chacha20poly1305::aead::Aead::encrypt(&cipher, nonce.into(), plaintext).ok()
}

/// `ChaCha20Poly1305::decrypt` without associated data: checks the tag behind
/// the ciphertext and, where it is right, decrypts. The tag is right only for
/// what `encrypt` makes of the plaintext.
#[verifier::external_body]
fn aead_decrypt(key: &[u8; 32], nonce: &[u8; 12], ciphertext: &[u8]) -> (r: Option<Vec<u8>>)
    requires
        ciphertext@.len() <= MAX_PLAINTEXT + TAG_LEN,
    ensures
        r is Some <==> aead_open(key@, nonce@, ciphertext@) is Some,
        r is Some ==> aead_open(key@, nonce@, ciphertext@) == Some(r->Some_0@),
        r is Some ==> ciphertext@ == aead_seal(key@, nonce@, r->Some_0@),
        r is Some ==> ciphertext@.len() == r->Some_0@.len() + TAG_LEN,
{
    let cipher: chacha20poly1305::ChaCha20Poly1305 = chacha20poly1305::KeyInit::new(key.into());
    chacha20poly1305::aead::Aead::decrypt(&cipher, nonce.into(), ciphertext).ok()
}

/// The nonce of a counter: its eight bytes, least significant first, and four
/// zeros.
pub open spec fn nonce_of(counter: u64) -> Seq<u8> {
    le_bytes(counter as nat, 8) + seq![0u8, 0u8, 0u8, 0u8]
}

/// Makes the nonce of a counter.
fn make_nonce(counter: u64) -> (nonce: [u8; 12])
    ensures
        nonce@ == nonce_of(counter),
{
    let mut bytes: [u8; 12] = [0u8;12];
    let mut left: u64 = counter;
    let mut i: usize = 0;
    assert(le_bytes(left as nat, 8) =~= Seq::<u8>::empty() + le_bytes(left as nat, 8));
    while i < 8
        invariant
            i <= 8,
            bytes@.take(i as int) + le_bytes(left as nat, (8 - i) as nat) == le_bytes(
                counter as nat,
                8,
            ),
            forall|k: int| i <= k < 12 ==> bytes@[k] == 0,
        decreases 8 - i,
    {
        let ghost done = bytes@.take(i as int);
        let ghost rest = le_bytes((left / 256) as nat, (7 - i) as nat);
        bytes[i] = (left % 256) as u8;
        assert(bytes@.take(i + 1) =~= done + seq![(left % 256) as u8]);
        assert(bytes@.take(i + 1) + rest =~= done + (seq![(left % 256) as u8] + rest));
        left = left / 256;
        i = i + 1;
    }
    assert(bytes@ =~= bytes@.take(8) + seq![0u8, 0u8, 0u8, 0u8]);
    assert(bytes@.take(8) + le_bytes(left as nat, 0) =~= bytes@.take(8));
    bytes
}

/// Whether a plaintext of this length can be encrypted.
pub open spec fn encryptable(len: nat) -> bool {
    len <= MAX_PLAINTEXT && len + TAG_LEN <= isize::MAX
}

/// What a ciphertext that was encrypted under this counter decrypts to.
pub open spec fn decrypted(key: Seq<u8>, counter: u64, ciphertext: Seq<u8>) -> Option<Seq<u8>> {
    if ciphertext.len() <= MAX_PLAINTEXT + TAG_LEN && ciphertext.len() <= isize::MAX {
        aead_open(key, nonce_of(counter), ciphertext)
    } else {
        None
    }
}

/// What encrypting a plaintext gives. It fails only for plaintexts that are too
/// long, and what comes out decrypts to the plaintext.
pub open spec fn encrypts(
    key: Seq<u8>,
    counter: u64,
    plaintext: Seq<u8>,
    r: Result<Vec<u8>, TransferError>,
) -> bool {
    match r {
        Ok(c) => {
            &&& encryptable(plaintext.len())
            &&& c@ == aead_seal(key, nonce_of(counter), plaintext)
            &&& c@.len() == plaintext.len() + TAG_LEN
            &&& decrypted(key, counter, c@) == Some(plaintext)
        },
        Err(e) => !encryptable(plaintext.len()) && e is Encrypt,
    }
}

/// What decrypting a ciphertext gives. It succeeds only for what encrypting the
/// plaintext gives.
pub open spec fn decrypts(
    key: Seq<u8>,
    counter: u64,
    ciphertext: Seq<u8>,
    r: Result<Vec<u8>, TransferError>,
) -> bool {
    match r {
        Ok(p) => {
            &&& decrypted(key, counter, ciphertext) == Some(p@)
            &&& encryptable(p@.len())
            &&& ciphertext == aead_seal(key, nonce_of(counter), p@)
            &&& ciphertext.len() == p@.len() + TAG_LEN
        },
        Err(e) => decrypted(key, counter, ciphertext) is None && undecryptable(counter, e),
    }
}

/// The failure names the counter that was tried.
pub open spec fn undecryptable(tried: u64, e: TransferError) -> bool {
    e matches TransferError::Decrypt { counter } && counter == tried
}

/// Encrypts `plaintext` under the nonce of `counter`.
pub fn encrypt(key: &[u8; 32], counter: u64, plaintext: &[u8]) -> (r: Result<Vec<u8>, TransferError>)
    ensures
        encrypts(key@, counter, plaintext@, r),
{
    if plaintext.len() as u64 > MAX_PLAINTEXT || plaintext.len() > isize::MAX as usize - 16 {
        return Err(TransferError::Encrypt);
    }
    match aead_encrypt(key, &make_nonce(counter), plaintext) {
        Some(c) => Ok(c),
        None => Err(TransferError::Encrypt),
    }
}

/// Decrypts `ciphertext` under the nonce of `counter`.
pub fn decrypt(key: &[u8; 32], counter: u64, ciphertext: &[u8]) -> (r: Result<Vec<u8>, TransferError>)
    ensures
        decrypts(key@, counter, ciphertext@, r),
{
    if ciphertext.len() as u64 > MAX_PLAINTEXT + TAG_LEN || ciphertext.len() > isize::MAX as usize {
        return Err(TransferError::Decrypt { counter });
    }
    match aead_decrypt(key, &make_nonce(counter), ciphertext) {
        Some(p) => Ok(p),
        None => Err(TransferError::Decrypt { counter }),
    }
}

/// Decrypting gives a plaintext exactly if encrypting the plaintext gives the
/// ciphertext. So where there is no such plaintext, none is given out.
pub proof fn law_decrypt_inverts_encrypt(
    key: Seq<u8>,
    counter: u64,
    plaintext: Seq<u8>,
    ciphertext: Seq<u8>,
    encryption: Result<Vec<u8>, TransferError>,
    decryption: Result<Vec<u8>, TransferError>,
)
    requires
        encrypts(key, counter, plaintext, encryption),
        decrypts(key, counter, ciphertext, decryption),
    ensures
        (decryption matches Ok(p) && p@ == plaintext) <==> (encryption matches Ok(c) && c@
            == ciphertext),
        decryption is Err ==> undecryptable(counter, decryption->Err_0) && !(
        encryption matches Ok(c) && c@ == ciphertext),
{
}

/// All plaintexts of up to 0x3f_ffff_ff80 bytes that can be allocated with their
/// tag are encrypted, and no others. The nonce is the whole counter, least
/// significant byte first, and four zeros, and the ciphertext is the one of the
/// key, this nonce and the whole plaintext.
pub proof fn law_encryption_is_under_the_counter(
    key: Seq<u8>,
    counter: u64,
    plaintext: Seq<u8>,
    r: Result<Vec<u8>, TransferError>,
)
    requires
        encrypts(key, counter, plaintext, r),
    ensures
        r is Ok <==> plaintext.len() <= 0x3f_ffff_ff80 && plaintext.len() + 16 <= isize::MAX,
        r matches Ok(c) ==> exists|nonce: Seq<u8>|
            {
                &&& nonce.len() == 12
                &&& le_value(nonce.take(8)) == counter
                &&& forall|k: int| 8 <= k < 12 ==> nonce[k] == 0
                &&& c@ == #[trigger] aead_seal(key, nonce, plaintext)
                &&& c@.len() == plaintext.len() + 16
                &&& aead_open(key, nonce, c@) == Some(plaintext)
            },
{
    lemma_nonce(counter);
    if let Ok(c) = r {
        assert(c@ == aead_seal(key, nonce_of(counter), plaintext));
    }
}

/// A ciphertext of up to 0x3f_ffff_ff90 bytes is decrypted to what the cipher
/// makes of it under the whole counter, and to nothing else.
pub proof fn law_decryption_is_under_the_counter(
    key: Seq<u8>,
    counter: u64,
    ciphertext: Seq<u8>,
    r: Result<Vec<u8>, TransferError>,
    nonce: Seq<u8>,
)
    requires
        decrypts(key, counter, ciphertext, r),
        ciphertext.len() <= 0x3f_ffff_ff90,
        ciphertext.len() <= isize::MAX,
        nonce.len() == 12,
        le_value(nonce.take(8)) == counter,
        forall|k: int| 8 <= k < 12 ==> nonce[k] == 0,
    ensures
        match aead_open(key, nonce, ciphertext) {
            Some(p) => r matches Ok(x) && x@ == p,
            None => r matches Err(TransferError::Decrypt { counter: c }) && c == counter,
        },
{
    lemma_nonce(counter);
    lemma_le_value_bytes(nonce.take(8));
    lemma_le_value_bytes(nonce_of(counter).take(8));
    assert(nonce =~= nonce.take(8) + nonce.skip(8));
    assert(nonce_of(counter) =~= nonce_of(counter).take(8) + nonce_of(counter).skip(8));
    assert(nonce.skip(8) =~= nonce_of(counter).skip(8));
}

/// The bytes of a nonce.
proof fn lemma_nonce(counter: u64)
    ensures
        nonce_of(counter).len() == 12,
        le_value(nonce_of(counter).take(8)) == counter,
        forall|k: int| 8 <= k < 12 ==> nonce_of(counter)[k] == 0,
{
    lemma_pow256_bounds();
    lemma_le_bytes_len(counter as nat, 8);
    lemma_le_bytes_value(counter as nat, 8);
    assert(nonce_of(counter).take(8) =~= le_bytes(counter as nat, 8));
}

/// Different counters have different nonces.
pub proof fn law_nonces_are_distinct(c1: u64, c2: u64)
    requires
        c1 != c2,
    ensures
        nonce_of(c1) != nonce_of(c2),
{
    lemma_pow256_bounds();
    lemma_le_bytes_len(c1 as nat, 8);
    lemma_le_bytes_len(c2 as nat, 8);
    lemma_le_bytes_value(c1 as nat, 8);
    lemma_le_bytes_value(c2 as nat, 8);
    assert(nonce_of(c1).take(8) =~= le_bytes(c1 as nat, 8));
    assert(nonce_of(c2).take(8) =~= le_bytes(c2 as nat, 8));
}

// ---------------------------------------------------------------------------
// Sealed payloads
// ---------------------------------------------------------------------------

/// What opening a sealed payload gives.
pub open spec fn opened(key: Seq<u8>, counter: u64, ciphertext: Seq<u8>) -> Option<PayloadView> {
    match decrypted(key, counter, ciphertext) {
        Some(plaintext) => parse_payload(plaintext),
        None => None,
    }
}

/// The ciphertext is the sealed form of the payload, and opens to it.
pub open spec fn sealed(
    key: Seq<u8>,
    counter: u64,
    payload: PayloadView,
    ciphertext: Seq<u8>,
) -> bool {
    &&& ciphertext == aead_seal(key, nonce_of(counter), payload.wire())
    &&& ciphertext.len() == payload.wire().len() + TAG_LEN
    &&& opened(key, counter, ciphertext) == Some(payload)
}

/// Why a ciphertext cannot be opened.
pub open spec fn unopened(key: Seq<u8>, tried: u64, ciphertext: Seq<u8>, e: TransferError) -> bool {
    &&& opened(key, tried, ciphertext) is None
    &&& if decrypted(key, tried, ciphertext) is None {
        undecryptable(tried, e)
    } else {
        e matches TransferError::InvalidPayload { counter } && counter == tried
    }
}

/// A sealed payload is the encryption of the payload's bytes, all of them, and
/// it opens to the payload.
pub proof fn law_sealing_encrypts_the_bytes(
    key: Seq<u8>,
    counter: u64,
    payload: PayloadView,
    ciphertext: Seq<u8>,
)
    requires
        sealed(key, counter, payload, ciphertext),
    ensures
        exists|nonce: Seq<u8>|
            {
                &&& nonce.len() == 12
                &&& le_value(nonce.take(8)) == counter
                &&& forall|k: int| 8 <= k < 12 ==> nonce[k] == 0
                &&& ciphertext == #[trigger] aead_seal(key, nonce, payload.wire())
            },
        ciphertext.len() == payload.wire().len() + 16,
        opened(key, counter, ciphertext) == Some(payload),
{
    lemma_nonce(counter);
    assert(ciphertext == aead_seal(key, nonce_of(counter), payload.wire()));
}

/// A ciphertext opens to a payload exactly if it decrypts to bytes that begin
/// with the payload.
pub proof fn law_opening_reads_the_decrypted_bytes(
    key: Seq<u8>,
    counter: u64,
    ciphertext: Seq<u8>,
    r: Result<Vec<u8>, TransferError>,
)
    requires
        decrypts(key, counter, ciphertext, r),
    ensures
        match r {
            Ok(plaintext) => opened(key, counter, ciphertext) == parse_payload(plaintext@),
            Err(_) => opened(key, counter, ciphertext) is None,
        },
{
}

/// Serialises and encrypts a payload. What comes out opens to the payload.
/// This fails only for payloads that are too long.
pub fn seal(key: &[u8; 32], counter: u64, payload: &Payload) -> (r: Result<Vec<u8>, TransferError>)
    ensures
        r is Ok <==> encryptable(payload@.wire().len()),
        r matches Ok(c) ==> sealed(key@, counter, payload@, c@),
        r matches Err(e) ==> e is Serialize || e is Encrypt,
        r matches Err(e) ==> (e is Serialize <==> payload@.wire().len() > isize::MAX),
{
    let plaintext = encode(payload)?;
    encrypt(key, counter, plaintext.as_slice())
}

/// Decrypts and reads a payload.
pub fn open(key: &[u8; 32], counter: u64, ciphertext: &[u8]) -> (r: Result<Payload, TransferError>)
    ensures
        match r {
            Ok(p) => opened(key@, counter, ciphertext@) == Some(p@),
            Err(e) => unopened(key@, counter, ciphertext@, e),
        },
{
    let plaintext = decrypt(key, counter, ciphertext)?;
    match decode::<Payload>(plaintext.as_slice()) {
        Ok(payload) => Ok(payload),
        Err(_) => Err(TransferError::InvalidPayload { counter }),
    }
}

} // verus!
