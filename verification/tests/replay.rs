use hpke_demo::channel::{gen_keypair, kem_pk_from_bytes, keypair_from, seal, OpenError, SealError};
use hpke_demo::connect::{INFO_REQUEST, INFO_RESPONSE};
use hpke_demo::replay::{
    frame, open_request, seal_request, ReceiveError, ReplayGuard, RequestError,
    MAX_CLOCK_SKEW_SECS,
};

const NOW: u64 = 1_700_000_000;

#[test]
fn frames() {
    let payload = frame(&[7; 16], 0x0102030405060708, b"body");
    assert_eq!(payload[..16], [7; 16]);
    assert_eq!(payload[16..24], [1, 2, 3, 4, 5, 6, 7, 8]);
    assert_eq!(payload[24..], b"body"[..]);
    assert_eq!(frame(&[0; 16], u64::MAX, b"")[16..], [255; 8]);
}

#[test]
fn freshness_window() {
    assert_eq!(MAX_CLOCK_SKEW_SECS, 300);
    for (timestamp, fresh) in [
        (NOW, true),
        (NOW - 300, true),
        (NOW + 300, true),
        (NOW - 301, false),
        (NOW + 301, false),
        (0, false),
        (u64::MAX, false),
    ] {
        let r = ReplayGuard::new().accept(NOW, &frame(&[1; 16], timestamp, b"x"));
        if fresh {
            assert_eq!(r, Ok(b"x".to_vec()));
        } else {
            assert_eq!(r, Err(RequestError::ClockSkew));
        }
    }
    assert_eq!(ReplayGuard::new().accept(0, &frame(&[1; 16], 300, b"x")), Ok(b"x".to_vec()));
}

#[test]
fn malformed_requests() {
    for n in [0usize, 16, 23] {
        let r = ReplayGuard::new().accept(0, &vec![0u8; n]);
        assert_eq!(r, Err(RequestError::Malformed));
    }
    assert_eq!(ReplayGuard::new().accept(0, &[0u8; 24]), Ok(Vec::new()));
}

#[test]
fn a_nonce_counts_once() {
    let mut guard = ReplayGuard::new();
    assert_eq!(guard.accept(NOW, &frame(&[1; 16], NOW, b"a")), Ok(b"a".to_vec()));
    assert_eq!(guard.accept(NOW, &frame(&[1; 16], NOW, b"a")), Err(RequestError::Replayed));
    assert_eq!(guard.accept(NOW + 1, &frame(&[1; 16], NOW + 1, b"b")), Err(RequestError::Replayed));
    let mut other = [1; 16];
    other[15] = 2;
    assert_eq!(guard.accept(NOW, &frame(&other, NOW, b"a")), Ok(b"a".to_vec()));
}

#[test]
fn a_refused_request_is_not_remembered() {
    let mut guard = ReplayGuard::new();
    let payload = frame(&[1; 16], NOW + 400, b"a");
    assert_eq!(guard.accept(NOW, &payload), Err(RequestError::ClockSkew));
    assert_eq!(guard.accept(NOW + 200, &payload), Ok(b"a".to_vec()));
}

#[test]
fn no_replay_at_any_later_time() {
    for ahead in [-300i64, -1, 0, 1, 300] {
        let payload = frame(&[1; 16], (NOW as i64 + ahead) as u64, b"a");
        for later in [0u64, 1, 299, 300, 301, 599, 600, 601, 10_000] {
            let mut guard = ReplayGuard::new();
            assert_eq!(guard.accept(NOW, &payload), Ok(b"a".to_vec()));
            guard.expire(NOW + later / 2);
            let r = guard.accept(NOW + later, &payload);
            assert!(r == Err(RequestError::Replayed) || r == Err(RequestError::ClockSkew));
        }
    }
}

#[test]
fn nonces_are_forgotten() {
    let mut guard = ReplayGuard::new();
    guard.accept(NOW, &frame(&[1; 16], NOW, b"a")).unwrap();
    let again = guard.accept(NOW + 600, &frame(&[1; 16], NOW + 600, b"b"));
    assert_eq!(again, Err(RequestError::Replayed));
    let again = guard.accept(NOW + 601, &frame(&[1; 16], NOW + 601, b"b"));
    assert_eq!(again, Ok(b"b".to_vec()));
}

#[test]
fn sealed_requests() {
    let (wallet_sk, wallet_pk) = gen_keypair().unwrap();
    let (client_sk, client_pk) = gen_keypair().unwrap();
    let client = (&client_sk, &client_pk);
    let secret = b"connection secret";
    let mut guard = ReplayGuard::new();
    let fresh = seal_request(client, &wallet_pk, secret, NOW, b"pay").unwrap();
    assert_eq!(fresh.len(), 3 + 24 + 48);
    let r = open_request(&mut guard, NOW, &wallet_sk, &client_pk, secret, &fresh);
    assert_eq!(r, Ok(b"pay".to_vec()));
    let e = open_request(&mut guard, NOW, &wallet_sk, &client_pk, secret, &fresh).unwrap_err();
    assert_eq!(e, ReceiveError::Request(RequestError::Replayed));
    assert_eq!(e.message(), "replayed: nonce already seen this session");
    let stale = seal_request(client, &wallet_pk, secret, NOW - 600, b"transfer").unwrap();
    let e = open_request(&mut guard, NOW, &wallet_sk, &client_pk, secret, &stale).unwrap_err();
    assert_eq!(e, ReceiveError::Request(RequestError::ClockSkew));
    assert_eq!(e.message(), "clock skew: timestamp outside the freshness window");
    let bare = seal(client, &wallet_pk, secret, INFO_REQUEST, b"bare").unwrap();
    let e = open_request(&mut guard, NOW, &wallet_sk, &client_pk, secret, &bare).unwrap_err();
    assert_eq!(e, ReceiveError::Request(RequestError::Malformed));
    assert_eq!(e.message(), "malformed request");
    let reply = seal(client, &wallet_pk, secret, INFO_RESPONSE, &[0; 24]).unwrap();
    let e = open_request(&mut guard, NOW, &wallet_sk, &client_pk, secret, &reply).unwrap_err();
    assert_eq!(e, ReceiveError::Open(OpenError::Authentication));
    assert_eq!(e.message(), "authentication/decryption failed");
    let again = seal_request(client, &wallet_pk, secret, NOW, b"pay").unwrap();
    let r = open_request(&mut guard, NOW, &wallet_sk, &client_pk, secret, &again);
    assert_eq!(r, Ok(b"pay".to_vec()));
}

#[test]
fn requests_to_a_zero_key() {
    let (sk, pk) = keypair_from([1; 32]);
    let zero = kem_pk_from_bytes(&[0u8; 32]).unwrap();
    let e = seal_request((&sk, &pk), &zero, b"s", NOW, b"pay").unwrap_err();
    assert!(matches!(e, SealError::SenderSetup(_)));
}
