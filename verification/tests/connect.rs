use hpke_demo::connect::{ConnError, ConnString, Version, INFO_REQUEST, INFO_RESPONSE};
use hpke_demo::hex::HexError;

fn conn() -> ConnString {
    ConnString {
        relay: "relay.example.com:8443/path".to_string(),
        version: Version::V1,
        wallet_pk: vec![0x00, 0x01, 0xab, 0xff],
        secret: vec![0xde, 0xad, 0xbe, 0xef],
        token: None,
        relay_params: Vec::new(),
    }
}

fn same(a: &ConnString, b: &ConnString) -> bool {
    a.relay == b.relay
        && a.version == b.version
        && a.wallet_pk == b.wallet_pk
        && a.secret == b.secret
        && a.token == b.token
        && a.relay_params == b.relay_params
}

fn refused(uri: &str) -> ConnError {
    match ConnString::parse(uri) {
        Ok(_) => panic!("accepted {uri}"),
        Err(e) => e,
    }
}

fn accepted(uri: &str) -> ConnString {
    match ConnString::parse(uri) {
        Ok(conn) => conn,
        Err(e) => panic!("refused {uri}: {}", e.message()),
    }
}

fn pairs(list: &[(&str, &str)]) -> Vec<(String, String)> {
    list.iter().map(|(k, v)| (k.to_string(), v.to_string())).collect()
}

#[test]
fn info_strings() {
    assert_eq!(INFO_REQUEST, b"bwc-v1 request");
    assert_eq!(INFO_RESPONSE, b"bwc-v1 response");
}

#[test]
fn uri_without_token() {
    assert_eq!(
        conn().to_uri(),
        "bwc://relay.example.com:8443/path?v=1&wallet_pk=0001abff&secret=deadbeef"
    );
}

#[test]
fn uri_with_token_and_params() {
    let mut c = conn();
    c.version = Version::V2;
    c.token = Some("t0ken=".to_string());
    c.relay_params = pairs(&[("region", "us-west"), ("x", "")]);
    assert_eq!(
        c.to_uri(),
        "bwc://relay.example.com:8443/path?v=2&wallet_pk=0001abff&secret=deadbeef\
         &token=t0ken=&region=us-west&x="
    );
}

#[test]
fn uri_of_empty_fields() {
    let c = ConnString {
        relay: String::new(),
        version: Version::V1,
        wallet_pk: Vec::new(),
        secret: Vec::new(),
        token: Some(String::new()),
        relay_params: pairs(&[("", "")]),
    };
    assert_eq!(c.to_uri(), "bwc://?v=1&wallet_pk=&secret=&token=&=");
    assert!(same(&accepted(&c.to_uri()), &c));
}

#[test]
fn parse_gives_back_what_was_rendered() {
    let mut c = conn();
    assert!(same(&accepted(&c.to_uri()), &c));
    c.token = Some("abc.def=".to_string());
    c.relay_params = pairs(&[("region", "us-west"), ("region", "eu"), ("f", "a=b"), ("ü", "ß")]);
    assert!(same(&accepted(&c.to_uri()), &c));
}

#[test]
fn rendering_what_was_parsed_parses_to_the_same() {
    let uri = "bwc://r?x=1&secret=aa&token=t&v=2&y=a=b&wallet_pk=";
    let c = accepted(uri);
    assert_eq!(c.to_uri(), "bwc://r?v=2&wallet_pk=&secret=aa&token=t&x=1&y=a=b");
    assert!(same(&accepted(&c.to_uri()), &c));
}

#[test]
fn parts_that_hold_separators_do_not_round_trip() {
    let mut c = conn();
    c.token = Some("a&b=c".to_string());
    let back = accepted(&c.to_uri());
    assert_eq!(back.token, Some("a".to_string()));
    assert_eq!(back.relay_params, pairs(&[("b", "c")]));
    let mut c = conn();
    c.relay_params = pairs(&[("token", "t")]);
    let back = accepted(&c.to_uri());
    assert_eq!(back.token, Some("t".to_string()));
    assert!(back.relay_params.is_empty());
}

#[test]
fn parse_splits_at_the_first_separators() {
    let c = accepted("bwc://relay/a?v=1&wallet_pk=&secret=&q=x?y=z");
    assert_eq!(c.relay, "relay/a");
    assert_eq!(c.relay_params, pairs(&[("q", "x?y=z")]));
    assert_eq!(c.token, None);
}

#[test]
fn params_are_order_independent() {
    let a = accepted("bwc://r?v=1&wallet_pk=01&secret=02&token=t&x=1");
    let b = accepted("bwc://r?x=1&token=t&secret=02&wallet_pk=01&v=1");
    assert!(same(&a, &b));
}

#[test]
fn the_last_of_repeated_params_counts() {
    let c = accepted("bwc://r?v=1&v=2&wallet_pk=01&wallet_pk=03&secret=02&secret=04&token=a&token=b");
    assert_eq!(c.version, Version::V2);
    assert_eq!(c.wallet_pk, vec![3]);
    assert_eq!(c.secret, vec![4]);
    assert_eq!(c.token, Some("b".to_string()));
    assert!(c.relay_params.is_empty());
}

#[test]
fn unrecognized_params_are_forwarded_verbatim() {
    let c = accepted("bwc://r?V=9&b=2&v=1&a=%20&wallet_pk=&token=t&b=2&secret=&=");
    assert_eq!(
        c.relay_params,
        pairs(&[("V", "9"), ("b", "2"), ("a", "%20"), ("b", "2"), ("", "")])
    );
}

#[test]
fn not_a_bwc_uri() {
    for uri in ["", "bwc:/", "BWC://r?v=1", "http://r?v=1", " bwc://r?v=1", "bwc:/x/r?v=1"] {
        let e = refused(uri);
        assert_eq!(e, ConnError::NotBwcUri);
        assert_eq!(e.message(), "not a bwc:// URI");
    }
}

#[test]
fn missing_query() {
    for uri in ["bwc://", "bwc://relay", "bwc://relay&v=1"] {
        let e = refused(uri);
        assert_eq!(e, ConnError::MissingQuery);
        assert_eq!(e.message(), "missing query");
    }
}

#[test]
fn malformed_param() {
    for uri in ["bwc://r?", "bwc://r?v", "bwc://r?v=1&&secret=", "bwc://r?x&v=1&wallet_pk=zz", "bwc://r?x&wallet_pk=zz"] {
        let e = refused(uri);
        assert_eq!(e, ConnError::MalformedParam);
        assert_eq!(e.message(), "malformed param");
    }
}

#[test]
fn unsupported_version_comes_first() {
    for uri in [
        "bwc://r?v=3&wallet_pk=&secret=",
        "bwc://r?wallet_pk=zz&v=3",
        "bwc://r?broken&v=3",
        "bwc://r?v=1&v=3&v=1",
        "bwc://r?v=3&v=4",
    ] {
        let e = refused(uri);
        assert_eq!(e, ConnError::UnsupportedVersion("3".to_string()));
        assert_eq!(e.message(), "UNSUPPORTED_VERSION: 3");
    }
    assert_eq!(refused("bwc://r?v="), ConnError::UnsupportedVersion(String::new()));
}

#[test]
fn missing_params() {
    let e = refused("bwc://r?wallet_pk=zz&secret=");
    assert_eq!(e, ConnError::MissingVersion);
    assert_eq!(e.message(), "missing v");
    let e = refused("bwc://r?v=1&secret=");
    assert_eq!(e, ConnError::MissingWalletPk);
    assert_eq!(e.message(), "missing wallet_pk");
    let e = refused("bwc://r?v=1&wallet_pk=");
    assert_eq!(e, ConnError::MissingSecret);
    assert_eq!(e.message(), "missing secret");
}

#[test]
fn bad_hex() {
    for (value, error, message) in [
        ("0", HexError::OddInputLength, "bad hex: OddInputLength"),
        ("0g0", HexError::OddInputLength, "bad hex: OddInputLength"),
        ("0g", HexError::InvalidCharacter, "bad hex: InvalidCharacter"),
        ("AB", HexError::InvalidCharacter, "bad hex: InvalidCharacter"),
        ("ü", HexError::InvalidCharacter, "bad hex: InvalidCharacter"),
        ("/0", HexError::InvalidCharacter, "bad hex: InvalidCharacter"),
        (":0", HexError::InvalidCharacter, "bad hex: InvalidCharacter"),
        ("`0", HexError::InvalidCharacter, "bad hex: InvalidCharacter"),
    ] {
        let e = refused(&format!("bwc://r?v=1&wallet_pk={value}&secret="));
        assert_eq!(e, ConnError::BadHex(error));
        assert_eq!(e.message(), message);
        assert_eq!(refused(&format!("bwc://r?v=1&wallet_pk=&secret={value}")), e);
    }
    let e = refused("bwc://r?v=1&secret=0&wallet_pk=0g&secret=00");
    assert_eq!(e, ConnError::BadHex(HexError::OddInputLength));
}

#[test]
fn the_first_fault_in_query_order_counts() {
    let bad = ConnError::BadHex(HexError::InvalidCharacter);
    assert_eq!(refused("bwc://r?v=1&wallet_pk=zz&foo"), bad);
    assert_eq!(refused("bwc://r?wallet_pk=zz&foo&v=1"), bad);
    assert_eq!(refused("bwc://r?v=1&foo&wallet_pk=zz"), ConnError::MalformedParam);
    assert_eq!(refused("bwc://r?wallet_pk=zz&foo"), ConnError::MissingVersion);
    assert_eq!(refused("bwc://r?foo&wallet_pk=zz"), ConnError::MalformedParam);
    assert_eq!(refused("bwc://r?secret=zz&foo"), bad);
    assert_eq!(refused("bwc://r?secret=zz&wallet_pk=zz"), bad);
    assert_eq!(refused("bwc://r?wallet_pk=zz&secret=zz"), ConnError::MissingVersion);
}

#[test]
fn only_the_wallet_key_waits_for_the_version() {
    let bad = ConnError::BadHex(HexError::InvalidCharacter);
    assert_eq!(refused("bwc://r?wallet_pk=00&secret=zz"), bad);
    assert_eq!(refused("bwc://r?secret=zz"), bad);
    assert_eq!(refused("bwc://r?wallet_pk=zz&secret=00"), ConnError::MissingVersion);
    assert_eq!(refused("bwc://r?wallet_pk=00&secret=00"), ConnError::MissingVersion);
}

#[test]
fn hex_names() {
    assert_eq!(HexError::BadOutputLength.name(), format!("{:?}", HexError::BadOutputLength));
    assert_eq!(HexError::InvalidCharacter.name(), format!("{:?}", HexError::InvalidCharacter));
    assert_eq!(HexError::OddInputLength.name(), format!("{:?}", HexError::OddInputLength));
}

#[test]
fn every_byte_as_hex() {
    let mut c = conn();
    c.wallet_pk = (0..=255u8).collect();
    let uri = c.to_uri();
    for b in 0..=255u8 {
        let at = uri.find("wallet_pk=").unwrap() + 10 + 2 * b as usize;
        assert_eq!(&uri[at..at + 2], format!("{b:02x}"));
    }
    assert_eq!(accepted(&uri).wallet_pk, c.wallet_pk);
}

#[test]
fn versions() {
    assert_eq!(Version::parse("1"), Ok(Version::V1));
    assert_eq!(Version::parse("2"), Ok(Version::V2));
    assert_eq!(Version::V1.as_u8(), 1);
    assert_eq!(Version::V2.as_u8(), 2);
    for v in ["", "0", "3", "01", "1 ", "11", "V1", "\u{661}"] {
        assert_eq!(Version::parse(v), Err(ConnError::UnsupportedVersion(v.to_string())));
    }
    for v in [Version::V1, Version::V2] {
        assert_eq!(Version::parse(&v.as_u8().to_string()), Ok(v));
    }
}

#[test]
fn clone_keeps_the_fields() {
    let mut c = conn();
    c.token = Some("t".to_string());
    assert!(same(&c.clone(), &c));
}
