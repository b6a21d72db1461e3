use hpke::{Deserializable, Kem, OpModeS, PskBundle, Serializable};
use hpke_demo::channel::{
    drawn_keypair, gen_keypair, kem_pk_bytes, kem_pk_from_bytes, keypair_from, open, seal, seal_with, to_body,
    to_wire, HpkeFailure, MalformedKey, OpenError, SealError, KEM_PUBLIC_KEY_LEN, PSK_ID,
};
use hpke_demo::connect::{ConnString, Version, INFO_REQUEST, INFO_RESPONSE};
use hpke_demo::rng::{random_bytes, RngError};

const SECRET: &[u8] = b"0123456789abcdef";

fn bytes32(hex: &str) -> [u8; 32] {
    let mut out = [0u8; 32];
    for i in 0..32 {
        out[i] = u8::from_str_radix(&hex[2 * i..2 * i + 2], 16).unwrap();
    }
    out
}

#[test]
fn client_and_wallet_talk() {
    let (wallet_sk, wallet_pk) = gen_keypair().unwrap();
    let secret = random_bytes::<16>().unwrap().to_vec();
    let conn = ConnString {
        relay: "relay.example.com".to_string(),
        version: Version::V1,
        wallet_pk: kem_pk_bytes(&wallet_pk).to_vec(),
        secret: secret.clone(),
        token: None,
        relay_params: Vec::new(),
    };
    let parsed = ConnString::parse(&conn.to_uri()).unwrap();
    assert_eq!(parsed.version, Version::V1);
    let wallet_pk = kem_pk_from_bytes(&parsed.wallet_pk).unwrap();
    let (client_sk, client_pk) = gen_keypair().unwrap();
    let request = seal(
        (&client_sk, &client_pk),
        &wallet_pk,
        &parsed.secret,
        INFO_REQUEST,
        b"pay_invoice lnbc1...",
    )
    .unwrap();
    assert_eq!(request.len(), 32 + 20 + 16);
    let body = open(&wallet_sk, &client_pk, &secret, INFO_REQUEST, &request).unwrap();
    assert_eq!(body, b"pay_invoice lnbc1...");
    let reply = seal(
        (&wallet_sk, &wallet_pk),
        &client_pk,
        &secret,
        INFO_RESPONSE,
        b"preimage 0123...",
    )
    .unwrap();
    let body = open(&client_sk, &wallet_pk, &parsed.secret, INFO_RESPONSE, &reply).unwrap();
    assert_eq!(body, b"preimage 0123...");

    let wrong_secret = random_bytes::<16>().unwrap();
    let forged = seal(
        (&client_sk, &client_pk),
        &wallet_pk,
        &wrong_secret,
        INFO_REQUEST,
        b"pay_invoice lnbc1...",
    )
    .unwrap();
    assert_eq!(
        open(&wallet_sk, &client_pk, &secret, INFO_REQUEST, &forged),
        Err(OpenError::Authentication)
    );
}

#[test]
fn known_keypair() {
    let (sk, pk) = keypair_from(bytes32(
        "6db9df30aa07dd42ee5e8181afdb977e538f5e1fec8a06223f33f7013e525037",
    ));
    assert_eq!(
        kem_pk_bytes(&pk),
        bytes32("3948cfe0ad1ddb695d780e59077195da6c56506b027329794ab02bca80815c4d")
    );
    let (from_sk, from_pk) = keypair_from([9; 32]);
    let wire = seal((&from_sk, &from_pk), &pk, SECRET, INFO_REQUEST, b"hello").unwrap();
    assert_eq!(open(&sk, &from_pk, SECRET, INFO_REQUEST, &wire).unwrap(), b"hello");
}

#[test]
fn drawn_keys() {
    let (_, pk) = drawn_keypair(Ok([9; 32])).unwrap();
    assert_eq!(pk, keypair_from([9; 32]).1);
    assert!(matches!(drawn_keypair(Err(RngError)), Err(RngError)));
}

#[test]
fn generated_keys_differ() {
    let (_, a) = gen_keypair().unwrap();
    let (_, b) = gen_keypair().unwrap();
    assert_ne!(kem_pk_bytes(&a), kem_pk_bytes(&b));
}

#[test]
fn the_wire_starts_with_the_ephemeral_key() {
    let (a_sk, a_pk) = keypair_from([1; 32]);
    let (b_sk, b_pk) = keypair_from([2; 32]);
    let (_, eph_pk) = keypair_from([3; 32]);
    let wire = seal_with([3; 32], (&a_sk, &a_pk), &b_pk, SECRET, b"info", b"body").unwrap();
    assert_eq!(wire[..KEM_PUBLIC_KEY_LEN], kem_pk_bytes(&eph_pk));
    assert_eq!(wire.len(), 32 + 4 + 16);
    assert_eq!(
        seal_with([3; 32], (&a_sk, &a_pk), &b_pk, SECRET, b"info", b"body").unwrap(),
        wire
    );
    assert_eq!(open(&b_sk, &a_pk, SECRET, b"info", &wire).unwrap(), b"body");
}

#[test]
fn a_cloned_key_opens() {
    let (a_sk, a_pk) = keypair_from([1; 32]);
    let (b_sk, b_pk) = keypair_from([2; 32]);
    let wire = seal((&a_sk.clone(), &a_pk), &b_pk, SECRET, b"info", b"body").unwrap();
    assert_eq!(open(&b_sk.clone(), &a_pk, SECRET, b"info", &wire).unwrap(), b"body");
}

#[test]
fn each_seal_is_fresh() {
    let (a_sk, a_pk) = keypair_from([1; 32]);
    let (_, b_pk) = keypair_from([2; 32]);
    let one = seal((&a_sk, &a_pk), &b_pk, SECRET, b"info", b"body").unwrap();
    let two = seal((&a_sk, &a_pk), &b_pk, SECRET, b"info", b"body").unwrap();
    assert_ne!(one[..32], two[..32]);
    assert_ne!(one[32..], two[32..]);
}

#[test]
fn empty_and_long_plaintexts() {
    let (a_sk, a_pk) = keypair_from([1; 32]);
    let (b_sk, b_pk) = keypair_from([2; 32]);
    for n in [0usize, 1, 15, 16, 17, 63, 64, 65, 10_000] {
        let body = vec![0xa5u8; n];
        let wire = seal((&a_sk, &a_pk), &b_pk, b"x", b"", &body).unwrap();
        assert_eq!(wire.len(), n + 48);
        assert_eq!(open(&b_sk, &a_pk, b"x", b"", &wire).unwrap(), body);
    }
}

#[test]
fn whatever_differs_is_refused() {
    let (a_sk, a_pk) = keypair_from([1; 32]);
    let (b_sk, b_pk) = keypair_from([2; 32]);
    let (c_sk, c_pk) = keypair_from([4; 32]);
    let wire = seal((&a_sk, &a_pk), &b_pk, SECRET, INFO_REQUEST, b"body").unwrap();
    let refused = Err(OpenError::Authentication);
    assert_eq!(open(&b_sk, &a_pk, SECRET, INFO_REQUEST, &wire).unwrap(), b"body");
    assert_eq!(open(&b_sk, &a_pk, b"another secret", INFO_REQUEST, &wire), refused);
    assert_eq!(open(&b_sk, &a_pk, SECRET, INFO_RESPONSE, &wire), refused);
    assert_eq!(open(&b_sk, &c_pk, SECRET, INFO_REQUEST, &wire), refused);
    assert_eq!(open(&c_sk, &a_pk, SECRET, INFO_REQUEST, &wire), refused);
    for i in 32..wire.len() {
        let mut changed = wire.clone();
        changed[i] ^= 1;
        assert_eq!(open(&b_sk, &a_pk, SECRET, INFO_REQUEST, &changed), refused);
    }
    assert_eq!(open(&b_sk, &a_pk, SECRET, INFO_REQUEST, &wire[..wire.len() - 1]), refused);
    assert_eq!(open(&b_sk, &a_pk, SECRET, INFO_REQUEST, &wire[..32]), refused);
    assert_eq!(open(&b_sk, &a_pk, SECRET, INFO_REQUEST, &wire[..47]), refused);
}

#[test]
fn a_pair_of_keys_that_do_not_belong_together_is_refused() {
    let (a_sk, _) = keypair_from([1; 32]);
    let (b_sk, b_pk) = keypair_from([2; 32]);
    let (_, c_pk) = keypair_from([4; 32]);
    let wire = seal((&a_sk, &c_pk), &b_pk, SECRET, INFO_REQUEST, b"body").unwrap();
    assert_eq!(
        open(&b_sk, &c_pk, SECRET, INFO_REQUEST, &wire),
        Err(OpenError::Authentication)
    );
}

#[test]
fn too_short() {
    let (sk, pk) = keypair_from([1; 32]);
    for n in [0usize, 1, 31] {
        let e = open(&sk, &pk, b"", INFO_REQUEST, &vec![7u8; n]).unwrap_err();
        assert_eq!(e, OpenError::TooShort);
        assert_eq!(e.message(), "message too short");
    }
}

#[test]
fn empty_secret_does_not_open() {
    let (sk, pk) = keypair_from([1; 32]);
    let e = open(&sk, &pk, b"", INFO_REQUEST, &[0u8; 32]).unwrap_err();
    assert_eq!(e, OpenError::Psk(HpkeFailure::InvalidPskBundle));
    assert_eq!(e.message(), "psk bundle: InvalidPskBundle");
}

#[test]
fn a_zero_key_is_refused_in_setup() {
    let (sk, pk) = keypair_from([1; 32]);
    let zero = kem_pk_from_bytes(&[0u8; 32]).unwrap();
    let e = open(&sk, &pk, SECRET, INFO_REQUEST, &[0u8; 60]).unwrap_err();
    assert_eq!(e, OpenError::ReceiverSetup(HpkeFailure::DecapError));
    assert_eq!(e.message(), "receiver setup: DecapError");
    let e = seal((&sk, &pk), &zero, SECRET, INFO_REQUEST, b"body").unwrap_err();
    assert_eq!(e, SealError::SenderSetup(HpkeFailure::EncapError));
    assert_eq!(e.message(), "sender setup: EncapError");
}

#[test]
fn public_key_bytes_round_trip() {
    let (_, pk) = gen_keypair().unwrap();
    let bytes = kem_pk_bytes(&pk);
    assert_eq!(kem_pk_from_bytes(&bytes), Ok(pk));
    let any: Vec<u8> = (224..=255).collect();
    assert_eq!(kem_pk_bytes(&kem_pk_from_bytes(&any).unwrap()).to_vec(), any);
}

#[test]
fn malformed_public_keys() {
    for (n, text) in [
        (0usize, "malformed KEM public key: IncorrectInputLength(32, 0)"),
        (9, "malformed KEM public key: IncorrectInputLength(32, 9)"),
        (31, "malformed KEM public key: IncorrectInputLength(32, 31)"),
        (33, "malformed KEM public key: IncorrectInputLength(32, 33)"),
        (1200, "malformed KEM public key: IncorrectInputLength(32, 1200)"),
    ] {
        let e = kem_pk_from_bytes(&vec![1u8; n]).unwrap_err();
        assert_eq!(e, MalformedKey { given: n });
        assert_eq!(e.message(), text);
    }
}

#[test]
fn outcomes_on_the_wire() {
    let mut wire = vec![5u8; 32];
    wire.extend_from_slice(b"rest");
    assert_eq!(to_wire(Ok(([5; 32], b"rest".to_vec()))), Ok(wire));
    assert_eq!(
        to_wire(Err(HpkeFailure::EncapError)),
        Err(SealError::SenderSetup(HpkeFailure::EncapError))
    );
    assert_eq!(to_body(Ok(vec![1, 2])), Ok(vec![1, 2]));
    assert_eq!(
        to_body(Err(HpkeFailure::InvalidPskBundle)),
        Err(OpenError::Psk(HpkeFailure::InvalidPskBundle))
    );
    assert_eq!(
        to_body(Err(HpkeFailure::DecapError)),
        Err(OpenError::ReceiverSetup(HpkeFailure::DecapError))
    );
    assert_eq!(to_body(Err(HpkeFailure::OpenError)), Err(OpenError::Authentication));
    assert_eq!(OpenError::Authentication.message(), "authentication/decryption failed");
    assert_eq!(SealError::Rng(RngError).message(), "OS RNG failure");
}

#[test]
fn names() {
    assert_eq!(PSK_ID, b"bwc-connection");
    for e in [
        HpkeFailure::EncapError,
        HpkeFailure::DecapError,
        HpkeFailure::InvalidPskBundle,
        HpkeFailure::OpenError,
    ] {
        assert_eq!(e.name(), format!("{e:?}"));
    }
}

#[test]
fn opens_what_the_hpke_crate_seals() {
    let (a_sk, _) = hpke::kem::X25519HkdfSha256::derive_keypair(&[1; 32]);
    let a_pk = hpke::kem::X25519HkdfSha256::sk_to_pk(&a_sk);
    let (b_sk, b_pk) = keypair_from([2; 32]);
    let mode = OpModeS::AuthPsk((a_sk, a_pk.clone()), PskBundle::new(SECRET, b"bwc-connection").unwrap());
    let to = <hpke::kem::X25519HkdfSha256 as Kem>::PublicKey::from_bytes(&kem_pk_bytes(&b_pk)).unwrap();
    let mut rng = hpke_demo::rng::Drawn::new([3; 32]);
    let (enc, mut ctx) = hpke::setup_sender::<
        hpke::aead::ChaCha20Poly1305,
        hpke::kdf::HkdfSha256,
        hpke::kem::X25519HkdfSha256,
        _,
    >(&mode, &to, INFO_REQUEST, &mut rng)
    .unwrap();
    let ciphertext = ctx.seal(b"body", b"").unwrap();
    let wire = [enc.to_bytes().as_slice(), &ciphertext].concat();
    let a_pk = kem_pk_from_bytes(a_pk.to_bytes().as_slice()).unwrap();
    assert_eq!(open(&b_sk, &a_pk, SECRET, INFO_REQUEST, &wire).unwrap(), b"body");
    let (lib_sk, lib_pk) = keypair_from([1; 32]);
    assert_eq!(lib_pk, a_pk);
    assert_eq!(
        seal_with([3; 32], (&lib_sk, &lib_pk), &b_pk, SECRET, INFO_REQUEST, b"body").unwrap(),
        wire
    );
}
