//! The BWC v1 sealing layer: X25519 HPKE in AuthPSK mode.
//!
//! Each request and each response is a one-shot HPKE context. The sender
//! authenticates two ways at once (AuthPSK): the connection `secret` is the
//! PSK, and the sender's X25519 static key is bound into the KEM. Suite:
//! DHKEM(X25519, HKDF-SHA256) / HKDF-SHA256 / ChaCha20Poly1305.
//!
//! [`seal`] returns the wire bytes `enc || ciphertext`; [`open`] takes them back.

use crate::os;
use crate::rng::{self, Drawn, RngError};
use crate::text;
use hpke::aead::ChaCha20Poly1305;
use hpke::kdf::HkdfSha256;
use hpke::kem::X25519HkdfSha256;
use hpke::{Deserializable, HpkeError, Kem, OpModeR, OpModeS, PskBundle, Serializable};
use vstd::prelude::*;
use vstd::string::*;

verus! {

/// Length of a serialized X25519 KEM public key (and encapsulated key).
pub const KEM_PUBLIC_KEY_LEN: usize = 32;

/// Length of the tag that ChaCha20Poly1305 appends to a ciphertext.
pub const TAG_LEN: usize = 16;

/// PSK identifier paired with the connection secret: the ASCII bytes of
/// `bwc-connection`.
pub const PSK_ID: &'static [u8; 14] = &[
    98, 119, 99, 45, 99, 111, 110, 110, 101, 99, 116, 105, 111, 110,
];

/// Additional data of every message: none.
pub const AAD: &'static [u8; 0] = &[];

/// An X25519 KEM public key, held as its raw encoding.
#[derive(Clone, Copy, Debug, PartialEq, Eq)]
pub struct PublicKey {
    bytes: [u8; 32],
}

/// An X25519 KEM private key, held as its raw encoding.
pub struct PrivateKey {
    bytes: [u8; 32],
}

impl Clone for PrivateKey {
    fn clone(&self) -> (r: Self)
        ensures
            r@ == self@,
    {
        PrivateKey { bytes: self.bytes }
    }
}

impl View for PublicKey {
    type V = Seq<u8>;

    closed spec fn view(&self) -> Seq<u8> {
        self.bytes@
    }
}

impl View for PrivateKey {
    type V = Seq<u8>;

    closed spec fn view(&self) -> Seq<u8> {
        self.bytes@
    }
}

/// What HPKE reports of a message that it could not seal or open.
#[derive(Clone, Copy, Debug, PartialEq, Eq, Structural)]
pub enum HpkeFailure {
    /// Encapsulation failed.
    EncapError,
    /// Decapsulation failed.
    DecapError,
    /// A preshared key has no identifier, or an identifier has no key.
    InvalidPskBundle,
    /// A ciphertext does not open.
    OpenError,
}

impl HpkeFailure {
    /// The variant's name.
    pub open spec fn name_chars(self) -> Seq<char> {
        match self {
            HpkeFailure::EncapError => "EncapError"@,
            HpkeFailure::DecapError => "DecapError"@,
            HpkeFailure::InvalidPskBundle => "InvalidPskBundle"@,
            HpkeFailure::OpenError => "OpenError"@,
        }
    }

    /// The variant's name, as its `Debug` form shows it.
    pub fn name(self) -> (s: &'static str)
        ensures
            s@ == self.name_chars(),
    {
        match self {
            HpkeFailure::EncapError => "EncapError",
            HpkeFailure::DecapError => "DecapError",
            HpkeFailure::InvalidPskBundle => "InvalidPskBundle",
            HpkeFailure::OpenError => "OpenError",
        }
    }
}

/// The private and the public key, in their raw encodings, that
/// `Kem::gen_keypair` of the X25519 KEM makes of 32 random bytes.
pub uninterp spec fn kem_keypair(ikm: Seq<u8>) -> (Seq<u8>, Seq<u8>);

/// The encapsulated key and the ciphertext that `hpke::single_shot_seal` makes
/// in AuthPSK mode, where its random number generator gives the bytes `ikm`.
pub uninterp spec fn hpke_sealed(
    ikm: Seq<u8>,
    sender_sk: Seq<u8>,
    sender_pk: Seq<u8>,
    recipient_pk: Seq<u8>,
    psk: Seq<u8>,
    psk_id: Seq<u8>,
    info: Seq<u8>,
    plaintext: Seq<u8>,
    aad: Seq<u8>,
) -> Result<(Seq<u8>, Seq<u8>), HpkeFailure>;

/// The plaintext that `hpke::single_shot_open` gives in AuthPSK mode. Where
/// `PskBundle::new` refuses the key and its identifier, it is that refusal.
pub uninterp spec fn hpke_opened(
    recipient_sk: Seq<u8>,
    sender_pk: Seq<u8>,
    psk: Seq<u8>,
    psk_id: Seq<u8>,
    enc: Seq<u8>,
    info: Seq<u8>,
    ciphertext: Seq<u8>,
    aad: Seq<u8>,
) -> Result<Seq<u8>, HpkeFailure>;

/// Whether the two keys were generated together.
pub open spec fn is_keypair(sk: Seq<u8>, pk: Seq<u8>) -> bool {
    exists|ikm: Seq<u8>| ikm.len() == 32 && #[trigger] kem_keypair(ikm) == (sk, pk)
}

/// Whether `pk` was generated as the public key of some private key.
pub open spec fn is_generated(pk: Seq<u8>) -> bool {
    exists|sk: Seq<u8>| #[trigger] is_keypair(sk, pk)
}

/// The longest plaintext that the keystream of one message covers. ChaCha20
/// counts blocks of 64 bytes in 32 bits; it keeps the first block for the tag
/// and never reaches the last.
pub open spec fn max_plaintext_len() -> int {
    64 * (u32::MAX - 1)
}

/// Calls `Kem::gen_keypair` of hpke's X25519 KEM. It asks its random number
/// generator once, for 32 bytes, and derives the two keys from them alone, so
/// the same bytes give the same keys.
#[verifier::external_body]
fn hpke_gen_keypair(rng: &mut Drawn) -> (r: ([u8; 32], [u8; 32]))
    requires
        old(rng)@.len() == 32,
    ensures
        (r.0@, r.1@) == kem_keypair(old(rng)@),
{
    let (sk, pk) = X25519HkdfSha256::gen_keypair(rng);
    (sk.to_bytes().into(), pk.to_bytes().into())
}

/// Calls `from_bytes` of hpke's X25519 public key. It takes any 32 bytes and
/// keeps them as they are, so that `to_bytes` gives them back, and refuses any
/// other number of bytes.
#[verifier::external_body]
fn hpke_public_key(bytes: &[u8]) -> (r: Option<[u8; 32]>)
    ensures
        match r {
            Some(pk) => bytes@.len() == 32 && pk@ == bytes@,
            None => bytes@.len() != 32,
        },
{
    match <X25519HkdfSha256 as Kem>::PublicKey::from_bytes(bytes) {
        Ok(pk) => Some(pk.to_bytes().into()),
        Err(_) => None,
    }
}

/// The bytes of an encapsulated key and a ciphertext.
pub open spec fn sealed_bytes(r: Result<([u8; 32], Vec<u8>), HpkeFailure>) -> Result<
    (Seq<u8>, Seq<u8>),
    HpkeFailure,
> {
    match r {
        Ok((enc, ciphertext)) => Ok((enc@, ciphertext@)),
        Err(e) => Err(e),
    }
}

/// The bytes of a plaintext.
pub open spec fn opened_bytes(r: Result<Vec<u8>, HpkeFailure>) -> Result<Seq<u8>, HpkeFailure> {
    match r {
        Ok(plaintext) => Ok(plaintext@),
        Err(e) => Err(e),
    }
}

/// Calls `hpke::single_shot_seal` in AuthPSK mode: `setup_sender` and
/// `AeadCtxS::seal` in one. It asks its random number generator once, for the
/// 32 bytes of the ephemeral key, and its result depends on nothing else but
/// its arguments.
///
/// The key and the identifier make a valid `PskBundle`, as neither is empty.
/// Encapsulation fails only where a Diffie-Hellman result is all zeros, which
/// it is not for a recipient key that was generated. The encapsulated key is
/// the public key that `Kem::gen_keypair` makes of the same random bytes. The
/// ciphertext is 16 bytes longer than the plaintext. The private key that was
/// generated with the recipient key opens what was sealed by a generated pair
/// of keys, under the same secret, `info` and additional data.
///
/// A plaintext longer than the keystream ends in a panic, and so does one that
/// leaves no room for the tag.
#[verifier::external_body]
fn hpke_seal(
    rng: &mut Drawn,
    sender_sk: &[u8; 32],
    sender_pk: &[u8; 32],
    recipient_pk: &[u8; 32],
    psk: &[u8],
    psk_id: &[u8],
    info: &[u8],
    plaintext: &[u8],
    aad: &[u8],
) -> (r: Result<([u8; 32], Vec<u8>), HpkeFailure>)
    requires
        old(rng)@.len() == 32,
        psk@.len() > 0,
        psk_id@.len() > 0,
        plaintext@.len() <= max_plaintext_len(),
        plaintext@.len() + TAG_LEN <= isize::MAX,
    ensures
        sealed_bytes(r) == hpke_sealed(
            old(rng)@,
            sender_sk@,
            sender_pk@,
            recipient_pk@,
            psk@,
            psk_id@,
            info@,
            plaintext@,
            aad@,
        ),
        r matches Err(e) ==> e == HpkeFailure::EncapError,
        is_generated(recipient_pk@) ==> r is Ok,
        r matches Ok((enc, ciphertext)) ==> enc@ == kem_keypair(old(rng)@).1,
        r matches Ok((enc, ciphertext)) ==> ciphertext@.len() == plaintext@.len() + TAG_LEN,
        r matches Ok((enc, ciphertext)) ==> forall|recipient_sk: Seq<u8>| #[trigger]
            is_keypair(recipient_sk, recipient_pk@) && is_keypair(sender_sk@, sender_pk@) ==> (
            hpke_opened(
                recipient_sk,
                sender_pk@,
                psk@,
                psk_id@,
                enc@,
                info@,
                ciphertext@,
                aad@,
            ) == Ok::<Seq<u8>, HpkeFailure>(plaintext@)),
{
    let sealed = PskBundle::new(psk, psk_id).and_then(|bundle| {
        let sk = <X25519HkdfSha256 as Kem>::PrivateKey::from_bytes(sender_sk)?;
        let pk = <X25519HkdfSha256 as Kem>::PublicKey::from_bytes(sender_pk)?;
        let to = <X25519HkdfSha256 as Kem>::PublicKey::from_bytes(recipient_pk)?;
        hpke::single_shot_seal::<ChaCha20Poly1305, HkdfSha256, X25519HkdfSha256, _>(
            &OpModeS::AuthPsk((sk, pk), bundle), &to, info, plaintext, aad, rng)
    });
    match sealed {
        Ok((enc, ciphertext)) => Ok((enc.to_bytes().into(), ciphertext)),
        Err(_) => Err(HpkeFailure::EncapError),
    }
}

/// Whether the cipher opens or refuses every ciphertext of this length. One for
/// which the keystream falls just short may end in a panic.
pub open spec fn is_openable_len(ciphertext_len: int) -> bool {
    ciphertext_len - TAG_LEN <= max_plaintext_len() || ciphertext_len - TAG_LEN >= 64 * u32::MAX
}

/// Calls `hpke::single_shot_open` in AuthPSK mode: `setup_receiver` and
/// `AeadCtxR::open` in one. Its result depends on its arguments alone.
///
/// `PskBundle::new` refuses a key without an identifier and an identifier
/// without a key, whatever the message. Past that, decapsulation fails with `DecapError`, and only
/// where a Diffie-Hellman result is all zeros, which it is not where the
/// encapsulated key and the sender's key were generated. What fails to open, a
/// ciphertext too short for a tag among it, fails with `OpenError`. The
/// plaintext is 16 bytes shorter than the ciphertext.
#[verifier::external_body]
fn hpke_open(
    recipient_sk: &[u8; 32],
    sender_pk: &[u8; 32],
    psk: &[u8],
    psk_id: &[u8],
    enc: &[u8],
    info: &[u8],
    ciphertext: &[u8],
    aad: &[u8],
) -> (r: Result<Vec<u8>, HpkeFailure>)
    requires
        enc@.len() == 32,
        (psk@.len() == 0) == (psk_id@.len() == 0) ==> is_openable_len(ciphertext@.len() as int),
    ensures
        opened_bytes(r) == hpke_opened(
            recipient_sk@,
            sender_pk@,
            psk@,
            psk_id@,
            enc@,
            info@,
            ciphertext@,
            aad@,
        ),
        r matches Err(e) ==> e != HpkeFailure::EncapError,
        (psk@.len() == 0) != (psk_id@.len() == 0) <==> (r matches Err(e) && e
            == HpkeFailure::InvalidPskBundle),
        is_generated(enc@) && is_generated(sender_pk@) ==> !(r matches Err(e) && e
            == HpkeFailure::DecapError),
        r matches Ok(plaintext) ==> ciphertext@.len() == plaintext@.len() + TAG_LEN,
{
    let opened = PskBundle::new(psk, psk_id).and_then(|bundle| {
        let sk = <X25519HkdfSha256 as Kem>::PrivateKey::from_bytes(recipient_sk)?;
        let from = <X25519HkdfSha256 as Kem>::PublicKey::from_bytes(sender_pk)?;
        let enc = <X25519HkdfSha256 as Kem>::EncappedKey::from_bytes(enc)?;
        hpke::single_shot_open::<ChaCha20Poly1305, HkdfSha256, X25519HkdfSha256>(
            &OpModeR::AuthPsk(from, bundle), &sk, &enc, info, ciphertext, aad)
    });
    match opened {
        Ok(plaintext) => Ok(plaintext),
        Err(HpkeError::InvalidPskBundle) => Err(HpkeFailure::InvalidPskBundle),
        Err(HpkeError::DecapError) => Err(HpkeFailure::DecapError),
        Err(_) => Err(HpkeFailure::OpenError),
    }
}

/// Some bytes are not the encoding of a KEM public key.
#[derive(Clone, Copy, Debug, PartialEq, Eq, Structural)]
pub struct MalformedKey {
    /// How many bytes were given.
    pub given: usize,
}

impl MalformedKey {
    /// The text that tells a user of the error.
    pub open spec fn message_chars(self) -> Seq<char> {
        "malformed KEM public key: IncorrectInputLength(32, "@ + text::decimal_chars(
            self.given as nat,
        ) + ")"@
    }

    /// The text that tells a user of the error.
    pub fn message(self) -> (s: String)
        ensures
            s@ == self.message_chars(),
    {
        let mut s: String = "malformed KEM public key: IncorrectInputLength(32, ".to_owned();
        s.append(text::decimal(self.given).as_str());
        s.append(")");
        s
    }
}

/// Why a message is not sealed.
#[derive(Clone, Copy, Debug, PartialEq, Eq, Structural)]
pub enum SealError {
    /// There was no randomness for the ephemeral key.
    Rng(RngError),
    /// HPKE could not set up the sender.
    SenderSetup(HpkeFailure),
}

impl SealError {
    /// The text that tells a user of the error.
    pub open spec fn message_chars(self) -> Seq<char> {
        match self {
            SealError::Rng(e) => e.message_chars(),
            SealError::SenderSetup(e) => "sender setup: "@ + e.name_chars(),
        }
    }

    /// The text that tells a user of the error.
    pub fn message(self) -> (s: String)
        ensures
            s@ == self.message_chars(),
    {
        match self {
            SealError::Rng(e) => e.message().to_owned(),
            SealError::SenderSetup(e) => "sender setup: ".to_owned().concat(e.name()),
        }
    }
}

/// Why a message is not opened.
#[derive(Clone, Copy, Debug, PartialEq, Eq, Structural)]
pub enum OpenError {
    /// The message is shorter than an encapsulated key.
    TooShort,
    /// The secret is no preshared key.
    Psk(HpkeFailure),
    /// HPKE could not set up the receiver.
    ReceiverSetup(HpkeFailure),
    /// The message was not sealed by the sender, to the recipient, under the
    /// secret and for the `info`, or it was changed since.
    Authentication,
}

impl OpenError {
    /// The text that tells a user of the error.
    pub open spec fn message_chars(self) -> Seq<char> {
        match self {
            OpenError::TooShort => "message too short"@,
            OpenError::Psk(e) => "psk bundle: "@ + e.name_chars(),
            OpenError::ReceiverSetup(e) => "receiver setup: "@ + e.name_chars(),
            OpenError::Authentication => "authentication/decryption failed"@,
        }
    }

    /// The text that tells a user of the error.
    pub fn message(self) -> (s: String)
        ensures
            s@ == self.message_chars(),
    {
        match self {
            OpenError::TooShort => "message too short".to_owned(),
            OpenError::Psk(e) => "psk bundle: ".to_owned().concat(e.name()),
            OpenError::ReceiverSetup(e) => "receiver setup: ".to_owned().concat(e.name()),
            OpenError::Authentication => "authentication/decryption failed".to_owned(),
        }
    }
}

/// The keypair made of `ikm`. These bytes have to be random and kept secret.
pub fn keypair_from(ikm: [u8; 32]) -> (r: (PrivateKey, PublicKey))
    ensures
        (r.0@, r.1@) == kem_keypair(ikm@),
        is_keypair(r.0@, r.1@),
{
    let (sk, pk) = hpke_gen_keypair(&mut Drawn::new(ikm));
    proof {
        assert(kem_keypair(ikm@) == (sk@, pk@));
    }
    (PrivateKey { bytes: sk }, PublicKey { bytes: pk })
}

/// The keypair made of 32 random bytes, or the failure to draw them.
pub fn drawn_keypair(draw: Result<[u8; 32], RngError>) -> (r: Result<
    (PrivateKey, PublicKey),
    RngError,
>)
    ensures
        match draw {
            Ok(ikm) => r matches Ok((sk, pk)) && (sk@, pk@) == kem_keypair(ikm@) && is_keypair(
                sk@,
                pk@,
            ),
            Err(e) => r matches Err(given) && given == e,
        },
{
    match draw {
        Ok(ikm) => Ok(keypair_from(ikm)),
        Err(e) => Err(e),
    }
}

/// Generates a fresh X25519 KEM keypair. It fails only where the system gives
/// no randomness.
pub fn gen_keypair() -> (r: Result<(PrivateKey, PublicKey), RngError>)
    ensures
        r matches Ok((sk, pk)) ==> is_keypair(sk@, pk@),
        match r {
            Ok((sk, pk)) => exists|ikm: Seq<u8>|
                ikm.len() == 32 && os::is_drawn(ikm) && #[trigger] kem_keypair(ikm) == (sk@, pk@),
            Err(e) => os::is_failure(e),
        },
{
    drawn_keypair(rng::random_bytes::<32>())
}

/// Serializes a KEM public key to its 32-byte encoding.
pub fn kem_pk_bytes(pk: &PublicKey) -> (bytes: [u8; KEM_PUBLIC_KEY_LEN])
    ensures
        bytes@ == pk@,
{
    pk.bytes
}

/// The KEM public key that `bytes` encode.
pub open spec fn public_key_of(bytes: Seq<u8>) -> Result<Seq<u8>, MalformedKey> {
    if bytes.len() == KEM_PUBLIC_KEY_LEN {
        Ok(bytes)
    } else {
        Err(MalformedKey { given: bytes.len() as usize })
    }
}

/// Deserializes a KEM public key from its 32-byte encoding.
pub fn kem_pk_from_bytes(bytes: &[u8]) -> (r: Result<PublicKey, MalformedKey>)
    ensures
        match r {
            Ok(pk) => public_key_of(bytes@) == Ok::<Seq<u8>, MalformedKey>(pk@),
            Err(e) => public_key_of(bytes@) == Err::<Seq<u8>, MalformedKey>(e),
        },
        bytes@.len() == 32 ==> (r matches Ok(pk) && pk@ == bytes@),
        bytes@.len() != 32 ==> (r matches Err(e) && e.given == bytes@.len()),
{
    match hpke_public_key(bytes) {
        Some(pk) => Ok(PublicKey { bytes: pk }),
        None => Err(MalformedKey { given: bytes.len() }),
    }
}

/// The encoding of a public key is the encoding of that key.
pub proof fn law_public_key_round_trip(pk: PublicKey)
    ensures
        public_key_of(pk@) == Ok::<Seq<u8>, MalformedKey>(pk@),
{
}

/// The wire bytes of what HPKE sealed.
pub open spec fn wire_of(outcome: Result<(Seq<u8>, Seq<u8>), HpkeFailure>) -> Result<
    Seq<u8>,
    SealError,
> {
    match outcome {
        Ok((enc, ciphertext)) => Ok(enc + ciphertext),
        Err(e) => Err(SealError::SenderSetup(e)),
    }
}

/// The encapsulated key and the ciphertext that `plaintext` is sealed to with
/// the ephemeral key made of `ikm`.
pub open spec fn sealed_parts(
    ikm: Seq<u8>,
    sender: (Seq<u8>, Seq<u8>),
    recipient_pk: Seq<u8>,
    psk: Seq<u8>,
    info: Seq<u8>,
    plaintext: Seq<u8>,
) -> Result<(Seq<u8>, Seq<u8>), HpkeFailure> {
    hpke_sealed(ikm, sender.0, sender.1, recipient_pk, psk, PSK_ID@, info, plaintext, AAD@)
}

/// The wire bytes that `plaintext` is sealed to with the ephemeral key made of
/// `ikm`.
pub open spec fn sealed(
    ikm: Seq<u8>,
    sender: (Seq<u8>, Seq<u8>),
    recipient_pk: Seq<u8>,
    psk: Seq<u8>,
    info: Seq<u8>,
    plaintext: Seq<u8>,
) -> Result<Seq<u8>, SealError> {
    wire_of(sealed_parts(ikm, sender, recipient_pk, psk, info, plaintext))
}

/// Whether the first 32 bytes of `wire` are the encapsulated key of `parts` and
/// the rest is their ciphertext.
pub open spec fn splits_into(
    wire: Seq<u8>,
    parts: Result<(Seq<u8>, Seq<u8>), HpkeFailure>,
) -> bool {
    parts matches Ok((enc, ciphertext)) && enc.len() == KEM_PUBLIC_KEY_LEN && enc == wire.take(
        KEM_PUBLIC_KEY_LEN as int,
    ) && ciphertext == wire.skip(KEM_PUBLIC_KEY_LEN as int)
}

/// The body of what HPKE opened.
pub open spec fn body_of(outcome: Result<Seq<u8>, HpkeFailure>) -> Result<Seq<u8>, OpenError> {
    match outcome {
        Ok(plaintext) => Ok(plaintext),
        Err(HpkeFailure::InvalidPskBundle) => Err(OpenError::Psk(HpkeFailure::InvalidPskBundle)),
        Err(HpkeFailure::DecapError) => Err(OpenError::ReceiverSetup(HpkeFailure::DecapError)),
        Err(_) => Err(OpenError::Authentication),
    }
}

/// The plaintext that wire bytes open to.
pub open spec fn opened(
    recipient_sk: Seq<u8>,
    sender_pk: Seq<u8>,
    psk: Seq<u8>,
    info: Seq<u8>,
    wire: Seq<u8>,
) -> Result<Seq<u8>, OpenError> {
    if wire.len() < KEM_PUBLIC_KEY_LEN {
        Err(OpenError::TooShort)
    } else {
        body_of(
            hpke_opened(
                recipient_sk,
                sender_pk,
                psk,
                PSK_ID@,
                wire.take(KEM_PUBLIC_KEY_LEN as int),
                info,
                wire.skip(KEM_PUBLIC_KEY_LEN as int),
                AAD@,
            ),
        )
    }
}

/// Puts what HPKE sealed on the wire: `enc || ciphertext`.
pub fn to_wire(outcome: Result<([u8; 32], Vec<u8>), HpkeFailure>) -> (r: Result<
    Vec<u8>,
    SealError,
>)
    ensures
        match r {
            Ok(wire) => wire_of(sealed_bytes(outcome)) == Ok::<Seq<u8>, SealError>(wire@),
            Err(e) => wire_of(sealed_bytes(outcome)) == Err::<Seq<u8>, SealError>(e),
        },
        match outcome {
            Ok((enc, ciphertext)) => r matches Ok(wire) && wire@ == enc@ + ciphertext@,
            Err(e) => r matches Err(given) && given == SealError::SenderSetup(e),
        },
{
    match outcome {
        Ok((enc, ciphertext)) => {
            let mut wire: Vec<u8> = Vec::new();
            wire.extend_from_slice(&enc);
            wire.extend_from_slice(ciphertext.as_slice());
            proof {
                assert(wire@ =~= enc@ + ciphertext@);
            }
            Ok(wire)
        },
        Err(e) => Err(SealError::SenderSetup(e)),
    }
}

/// Takes the body out of what HPKE opened.
pub fn to_body(outcome: Result<Vec<u8>, HpkeFailure>) -> (r: Result<Vec<u8>, OpenError>)
    ensures
        match r {
            Ok(body) => body_of(opened_bytes(outcome)) == Ok::<Seq<u8>, OpenError>(body@),
            Err(e) => body_of(opened_bytes(outcome)) == Err::<Seq<u8>, OpenError>(e),
        },
        match outcome {
            Ok(plaintext) => r matches Ok(body) && body@ == plaintext@,
            Err(e) => r matches Err(given) && match e {
                HpkeFailure::InvalidPskBundle => given == OpenError::Psk(e),
                HpkeFailure::DecapError => given == OpenError::ReceiverSetup(e),
                _ => given == OpenError::Authentication,
            },
        },
{
    match outcome {
        Ok(plaintext) => Ok(plaintext),
        Err(HpkeFailure::InvalidPskBundle) => Err(OpenError::Psk(HpkeFailure::InvalidPskBundle)),
        Err(HpkeFailure::DecapError) => Err(OpenError::ReceiverSetup(HpkeFailure::DecapError)),
        Err(_) => Err(OpenError::Authentication),
    }
}

/// Whether a message can be sealed at all: the secret is not empty, and the
/// plaintext is not longer than the keystream or than a `Vec` can hold together
/// with what is put around it.
pub open spec fn is_sealable(psk: Seq<u8>, plaintext_len: int) -> bool {
    &&& psk.len() > 0
    &&& plaintext_len <= max_plaintext_len()
    &&& plaintext_len + KEM_PUBLIC_KEY_LEN + TAG_LEN <= isize::MAX
}

/// Whether the recipient gets `plaintext` back from `wire`: every private key
/// generated with `recipient_pk` opens it, where the sender's own two keys
/// belong together.
pub open spec fn opens_to(
    wire: Seq<u8>,
    sender: (Seq<u8>, Seq<u8>),
    recipient_pk: Seq<u8>,
    psk: Seq<u8>,
    info: Seq<u8>,
    plaintext: Seq<u8>,
) -> bool {
    forall|recipient_sk: Seq<u8>| #[trigger]
        is_keypair(recipient_sk, recipient_pk) && is_keypair(sender.0, sender.1) ==> opened(
            recipient_sk,
            sender.1,
            psk,
            info,
            wire,
        ) == Ok::<Seq<u8>, OpenError>(plaintext)
}

/// Seals as [`seal`] does, with an ephemeral key made of `ikm`. These bytes
/// have to be random and used once.
pub fn seal_with(
    ikm: [u8; 32],
    sender: (&PrivateKey, &PublicKey),
    recipient_pk: &PublicKey,
    psk: &[u8],
    info: &[u8],
    plaintext: &[u8],
) -> (r: Result<Vec<u8>, SealError>)
    requires
        is_sealable(psk@, plaintext@.len() as int),
    ensures
        match r {
            Ok(wire) => sealed(
                ikm@,
                (sender.0@, sender.1@),
                recipient_pk@,
                psk@,
                info@,
                plaintext@,
            ) == Ok::<Seq<u8>, SealError>(wire@),
            Err(e) => sealed(
                ikm@,
                (sender.0@, sender.1@),
                recipient_pk@,
                psk@,
                info@,
                plaintext@,
            ) == Err::<Seq<u8>, SealError>(e),
        },
        match r {
            Ok(wire) => hpke_sealed(
                ikm@,
                sender.0@,
                sender.1@,
                recipient_pk@,
                psk@,
                PSK_ID@,
                info@,
                plaintext@,
                Seq::empty(),
            ) == Ok::<(Seq<u8>, Seq<u8>), HpkeFailure>((wire@.take(32), wire@.skip(32))),
            Err(_) => hpke_sealed(
                ikm@,
                sender.0@,
                sender.1@,
                recipient_pk@,
                psk@,
                PSK_ID@,
                info@,
                plaintext@,
                Seq::empty(),
            ) is Err,
        },
        r matches Err(e) ==> e == SealError::SenderSetup(HpkeFailure::EncapError),
        is_generated(recipient_pk@) ==> r is Ok,
        r matches Ok(wire) ==> wire@.len() == KEM_PUBLIC_KEY_LEN + plaintext@.len() + TAG_LEN,
        r matches Ok(wire) ==> splits_into(
            wire@,
            sealed_parts(
                ikm@,
                (sender.0@, sender.1@),
                recipient_pk@,
                psk@,
                info@,
                plaintext@,
            ),
        ),
        r matches Ok(wire) ==> wire@.take(KEM_PUBLIC_KEY_LEN as int) == kem_keypair(ikm@).1,
        r matches Ok(wire) ==> opens_to(
            wire@,
            (sender.0@, sender.1@),
            recipient_pk@,
            psk@,
            info@,
            plaintext@,
        ),
{
    let mut drawn: Drawn = Drawn::new(ikm);
    let outcome: Result<([u8; 32], Vec<u8>), HpkeFailure> = hpke_seal(
        &mut drawn,
        &sender.0.bytes,
        &sender.1.bytes,
        &recipient_pk.bytes,
        psk,
        PSK_ID,
        info,
        plaintext,
        AAD,
    );
    proof {
        if let Ok((enc, ciphertext)) = sealed_bytes(outcome) {
            let wire = enc + ciphertext;
            assert(wire.take(KEM_PUBLIC_KEY_LEN as int) =~= enc);
            assert(wire.skip(KEM_PUBLIC_KEY_LEN as int) =~= ciphertext);
        }
        assert(AAD@ =~= Seq::empty());
    }
    to_wire(outcome)
}

/// AuthPSK-seals `plaintext` to `recipient_pk`, authenticating as `sender`
/// under the connection `psk`. Returns the wire bytes `enc || ciphertext`.
///
/// To a recipient key that was generated it fails only where the system gives
/// no randomness.
pub fn seal(
    sender: (&PrivateKey, &PublicKey),
    recipient_pk: &PublicKey,
    psk: &[u8],
    info: &[u8],
    plaintext: &[u8],
) -> (r: Result<Vec<u8>, SealError>)
    requires
        is_sealable(psk@, plaintext@.len() as int),
    ensures
        match r {
            Ok(wire) => {
                &&& exists|ikm: Seq<u8>|
                    ikm.len() == 32 && #[trigger] sealed(
                        ikm,
                        (sender.0@, sender.1@),
                        recipient_pk@,
                        psk@,
                        info@,
                        plaintext@,
                    ) == Ok::<Seq<u8>, SealError>(wire@) && splits_into(
                        wire@,
                        sealed_parts(
                            ikm,
                            (sender.0@, sender.1@),
                            recipient_pk@,
                            psk@,
                            info@,
                            plaintext@,
                        ),
                    )
                &&& exists|ikm: Seq<u8>|
                    ikm.len() == 32 && os::is_drawn(ikm) && #[trigger] hpke_sealed(
                        ikm,
                        sender.0@,
                        sender.1@,
                        recipient_pk@,
                        psk@,
                        PSK_ID@,
                        info@,
                        plaintext@,
                        Seq::empty(),
                    ) == Ok::<(Seq<u8>, Seq<u8>), HpkeFailure>((wire@.take(32), wire@.skip(32)))
                &&& wire@.len() == KEM_PUBLIC_KEY_LEN + plaintext@.len() + TAG_LEN
                &&& is_generated(wire@.take(KEM_PUBLIC_KEY_LEN as int))
                &&& opens_to(
                    wire@,
                    (sender.0@, sender.1@),
                    recipient_pk@,
                    psk@,
                    info@,
                    plaintext@,
                )
            },
            Err(SealError::Rng(e)) => os::is_failure(e),
            Err(e) => {
                &&& exists|ikm: Seq<u8>|
                    ikm.len() == 32 && #[trigger] sealed(
                        ikm,
                        (sender.0@, sender.1@),
                        recipient_pk@,
                        psk@,
                        info@,
                        plaintext@,
                    ) == Err::<Seq<u8>, SealError>(e)
                &&& exists|ikm: Seq<u8>|
                    ikm.len() == 32 && os::is_drawn(ikm) && #[trigger] hpke_sealed(
                        ikm,
                        sender.0@,
                        sender.1@,
                        recipient_pk@,
                        psk@,
                        PSK_ID@,
                        info@,
                        plaintext@,
                        Seq::empty(),
                    ) is Err
                &&& e == SealError::SenderSetup(HpkeFailure::EncapError)
                &&& !is_generated(recipient_pk@)
            },
        },
{
    match rng::random_bytes::<32>() {
        Ok(ikm) => {
            proof {
                let (sk, pk) = kem_keypair(ikm@);
                assert(is_keypair(sk, pk));
            }
            seal_with(ikm, sender, recipient_pk, psk, info, plaintext)
        },
        Err(e) => Err(SealError::Rng(e)),
    }
}

/// Opens a wire message (`enc || ciphertext`), verifying that it came from
/// `sender_pk` under `psk`.
///
/// Where both the sender's key and the key on the wire were generated, a
/// message is refused for nothing but its authentication.
pub fn open(
    recipient_sk: &PrivateKey,
    sender_pk: &PublicKey,
    psk: &[u8],
    info: &[u8],
    wire: &[u8],
) -> (r: Result<Vec<u8>, OpenError>)
    requires
        psk@.len() > 0 ==> is_openable_len(wire@.len() - KEM_PUBLIC_KEY_LEN),
    ensures
        match r {
            Ok(body) => opened(recipient_sk@, sender_pk@, psk@, info@, wire@) == Ok::<
                Seq<u8>,
                OpenError,
            >(body@),
            Err(e) => opened(recipient_sk@, sender_pk@, psk@, info@, wire@) == Err::<
                Seq<u8>,
                OpenError,
            >(e),
        },
        match r {
            Ok(body) => wire@.len() >= 32 && hpke_opened(
                recipient_sk@,
                sender_pk@,
                psk@,
                PSK_ID@,
                wire@.take(32),
                info@,
                wire@.skip(32),
                Seq::empty(),
            ) == Ok::<Seq<u8>, HpkeFailure>(body@),
            Err(_) => wire@.len() < 32 || hpke_opened(
                recipient_sk@,
                sender_pk@,
                psk@,
                PSK_ID@,
                wire@.take(32),
                info@,
                wire@.skip(32),
                Seq::empty(),
            ) is Err,
        },
        wire@.len() < KEM_PUBLIC_KEY_LEN <==> (r matches Err(e) && e == OpenError::TooShort),
        wire@.len() >= KEM_PUBLIC_KEY_LEN && psk@.len() == 0 <==> (r matches Err(e) && e
            == OpenError::Psk(HpkeFailure::InvalidPskBundle)),
        wire@.len() >= KEM_PUBLIC_KEY_LEN && psk@.len() > 0 && is_generated(sender_pk@)
            && is_generated(wire@.take(KEM_PUBLIC_KEY_LEN as int)) ==> (r matches Err(e) ==> e
            == OpenError::Authentication),
        r matches Ok(body) ==> wire@.len() == KEM_PUBLIC_KEY_LEN + body@.len() + TAG_LEN,
{
    if wire.len() < KEM_PUBLIC_KEY_LEN {
        return Err(OpenError::TooShort);
    }
    let enc: &[u8] = vstd::slice::slice_subrange(wire, 0, KEM_PUBLIC_KEY_LEN);
    let ciphertext: &[u8] = vstd::slice::slice_subrange(wire, KEM_PUBLIC_KEY_LEN, wire.len());
    proof {
        assert(enc@ =~= wire@.take(KEM_PUBLIC_KEY_LEN as int));
        assert(ciphertext@ =~= wire@.skip(KEM_PUBLIC_KEY_LEN as int));
        assert(AAD@ =~= Seq::empty());
    }
    to_body(
        hpke_open(
            &recipient_sk.bytes,
            &sender_pk.bytes,
            psk,
            PSK_ID,
            enc,
            info,
            ciphertext,
            AAD,
        ),
    )
}

/// A message is opened exactly where HPKE opens what follows its first 32 bytes
/// with those as the encapsulated key, and to the plaintext that HPKE gives.
pub proof fn law_opened_only_by_hpke(
    recipient_sk: Seq<u8>,
    sender_pk: Seq<u8>,
    psk: Seq<u8>,
    info: Seq<u8>,
    wire: Seq<u8>,
    body: Seq<u8>,
)
    ensures
        opened(recipient_sk, sender_pk, psk, info, wire) == Ok::<Seq<u8>, OpenError>(body) <==> (
        wire.len() >= 32 && hpke_opened(
            recipient_sk,
            sender_pk,
            psk,
            PSK_ID@,
            wire.take(32),
            info,
            wire.skip(32),
            Seq::empty(),
        ) == Ok::<Seq<u8>, HpkeFailure>(body)),
{
    assert(AAD@ =~= Seq::empty());
}

/// A message that is not opened is refused for being shorter than 32 bytes, or
/// for what HPKE found wrong with it: a secret that is no key, a key that it
/// cannot use, or anything else as a failure to authenticate.
pub proof fn law_refused_only_by_hpke(
    recipient_sk: Seq<u8>,
    sender_pk: Seq<u8>,
    psk: Seq<u8>,
    info: Seq<u8>,
    wire: Seq<u8>,
    e: OpenError,
)
    requires
        opened(recipient_sk, sender_pk, psk, info, wire) == Err::<Seq<u8>, OpenError>(e),
    ensures
        e == OpenError::TooShort <==> wire.len() < 32,
        wire.len() >= 32 ==> (hpke_opened(
            recipient_sk,
            sender_pk,
            psk,
            PSK_ID@,
            wire.take(32),
            info,
            wire.skip(32),
            Seq::empty(),
        ) matches Err(given) && match given {
            HpkeFailure::InvalidPskBundle => e == OpenError::Psk(given),
            HpkeFailure::DecapError => e == OpenError::ReceiverSetup(given),
            HpkeFailure::EncapError | HpkeFailure::OpenError => e == OpenError::Authentication,
        }),
{
    assert(AAD@ =~= Seq::empty());
}

/// What is sealed is what HPKE seals, under the identifier of the connection
/// secret and with no additional data, the encapsulated key first.
pub proof fn law_sealed_by_hpke(
    ikm: Seq<u8>,
    sender: (Seq<u8>, Seq<u8>),
    recipient_pk: Seq<u8>,
    psk: Seq<u8>,
    info: Seq<u8>,
    plaintext: Seq<u8>,
)
    ensures
        match hpke_sealed(
            ikm,
            sender.0,
            sender.1,
            recipient_pk,
            psk,
            PSK_ID@,
            info,
            plaintext,
            Seq::empty(),
        ) {
            Ok((enc, ciphertext)) => sealed(ikm, sender, recipient_pk, psk, info, plaintext)
                == Ok::<Seq<u8>, SealError>(enc + ciphertext),
            Err(e) => sealed(ikm, sender, recipient_pk, psk, info, plaintext) == Err::<
                Seq<u8>,
                SealError,
            >(SealError::SenderSetup(e)),
        },
{
    assert(AAD@ =~= Seq::empty());
}

/// What comes back from a wire message that opens to `plaintext`: each private
/// key generated with the recipient's key gets it from HPKE.
pub proof fn law_recipient_opens(
    wire: Seq<u8>,
    sender: (Seq<u8>, Seq<u8>),
    recipient: (Seq<u8>, Seq<u8>),
    psk: Seq<u8>,
    info: Seq<u8>,
    plaintext: Seq<u8>,
    sender_ikm: Seq<u8>,
    recipient_ikm: Seq<u8>,
)
    requires
        opens_to(wire, sender, recipient.1, psk, info, plaintext),
        sender_ikm.len() == 32,
        kem_keypair(sender_ikm) == sender,
        recipient_ikm.len() == 32,
        kem_keypair(recipient_ikm) == recipient,
    ensures
        wire.len() >= 32,
        hpke_opened(
            recipient.0,
            sender.1,
            psk,
            PSK_ID@,
            wire.take(32),
            info,
            wire.skip(32),
            Seq::empty(),
        ) == Ok::<Seq<u8>, HpkeFailure>(plaintext),
{
    assert(is_keypair(recipient.0, recipient.1));
    assert(is_keypair(sender.0, sender.1));
    law_opened_only_by_hpke(recipient.0, sender.1, psk, info, wire, plaintext);
}

/// Only an empty secret, and a plaintext that runs out of keystream or of
/// memory, cannot be sealed.
pub proof fn law_sealable(psk: Seq<u8>, plaintext_len: int)
    ensures
        is_sealable(psk, plaintext_len) <==> psk.len() >= 1 && plaintext_len <= 274_877_906_816
            && plaintext_len + 48 <= isize::MAX,
{
}

/// A ciphertext is shut out only where its plaintext is longer than the
/// keystream by less than a block.
pub proof fn law_openable(ciphertext_len: int)
    ensures
        is_openable_len(ciphertext_len) <==> !(274_877_906_816 < ciphertext_len - 16
            < 274_877_906_880),
{
}

/// 32 bytes, and no other number of them, are a public key, and stay as they
/// are.
pub proof fn law_public_key_is_its_bytes(bytes: Seq<u8>)
    ensures
        public_key_of(bytes) is Ok <==> bytes.len() == 32,
        public_key_of(bytes) matches Ok(pk) ==> pk == bytes,
        bytes.len() <= usize::MAX ==> (public_key_of(bytes) matches Err(e) ==> e.given
            == bytes.len()),
{
}

/// What users are told.
pub proof fn law_messages(failure: HpkeFailure, e: RngError, given: usize)
    ensures
        HpkeFailure::EncapError.name_chars() == "EncapError"@,
        HpkeFailure::DecapError.name_chars() == "DecapError"@,
        HpkeFailure::InvalidPskBundle.name_chars() == "InvalidPskBundle"@,
        HpkeFailure::OpenError.name_chars() == "OpenError"@,
        SealError::Rng(e).message_chars() == "OS RNG failure"@,
        SealError::SenderSetup(failure).message_chars() == "sender setup: "@
            + failure.name_chars(),
        OpenError::TooShort.message_chars() == "message too short"@,
        OpenError::Psk(failure).message_chars() == "psk bundle: "@ + failure.name_chars(),
        OpenError::ReceiverSetup(failure).message_chars() == "receiver setup: "@
            + failure.name_chars(),
        OpenError::Authentication.message_chars() == "authentication/decryption failed"@,
        (MalformedKey { given }).message_chars()
            == "malformed KEM public key: IncorrectInputLength(32, "@ + text::decimal_chars(
            given as nat,
        ) + ")"@,
{
}

} // verus!
