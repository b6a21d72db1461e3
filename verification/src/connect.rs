//! The BWC connection string.
//!
//! A wallet hands the client
//! `bwc://<relay>?v=<version>&wallet_pk=<hex>&secret=<hex>[&token=<token>][&<key>=<value>...]`
//! out of band (QR, deeplink, paste). The client parses it and seals requests
//! to `wallet_pk` accordingly.

use crate::hex::{self, HexError};
use crate::text;
use vstd::prelude::*;
use vstd::string::*;

verus! {

/// HPKE `info` of a request: the ASCII bytes of `bwc-v1 request`.
pub const INFO_REQUEST: &'static [u8; 14] = &[
    98, 119, 99, 45, 118, 49, 32, 114, 101, 113, 117, 101, 115, 116,
];

/// HPKE `info` of a response: the ASCII bytes of `bwc-v1 response`.
pub const INFO_RESPONSE: &'static [u8; 15] = &[
    98, 119, 99, 45, 118, 49, 32, 114, 101, 115, 112, 111, 110, 115, 101,
];

/// BWC protocol version, carried in the connection string's `v` param.
#[derive(Clone, Copy, Debug, Eq, PartialEq, Structural)]
pub enum Version {
    /// X25519 HPKE, AuthPSK mode.
    V1,
    /// X-Wing post-quantum KEM, PSK mode.
    V2,
}

/// The version that a `v` value names; `None` for an unknown one.
pub open spec fn version_of(s: Seq<char>) -> Option<Version> {
    if s == "1"@ {
        Some(Version::V1)
    } else if s == "2"@ {
        Some(Version::V2)
    } else {
        None
    }
}

impl Version {
    /// The number of the version.
    pub open spec fn number(self) -> u8 {
        match self {
            Version::V1 => 1,
            Version::V2 => 2,
        }
    }

    /// The number of the version in decimal.
    pub open spec fn decimal_chars(self) -> Seq<char> {
        match self {
            Version::V1 => "1"@,
            Version::V2 => "2"@,
        }
    }

    /// Reads a `v` value. Fails on any value that names no known version, and
    /// hands that value back.
    pub fn parse(s: &str) -> (r: Result<Self, ConnError>)
        ensures
            match r {
                Ok(version) => version_of(s@) == Some(version),
                Err(e) => version_of(s@) is None && e@ == ConnErrorView::UnsupportedVersion(s@),
            },
    {
        if text::same(s, "1") {
            Ok(Version::V1)
        } else if text::same(s, "2") {
            Ok(Version::V2)
        } else {
            Err(ConnError::UnsupportedVersion(s.to_owned()))
        }
    }

    /// The number of the version.
    pub fn as_u8(self) -> (n: u8)
        ensures
            n == self.number(),
    {
        match self {
            Version::V1 => 1,
            Version::V2 => 2,
        }
    }

    /// The number of the version in decimal.
    fn decimal(self) -> (s: &'static str)
        ensures
            s@ == self.decimal_chars(),
    {
        match self {
            Version::V1 => "1",
            Version::V2 => "2",
        }
    }
}

/// Why a connection string is refused.
#[derive(Clone, Debug, PartialEq, Eq)]
pub enum ConnError {
    /// It does not start with `bwc://`.
    NotBwcUri,
    /// It holds no `?`.
    MissingQuery,
    /// A param names an unknown version.
    UnsupportedVersion(String),
    /// A param holds no `=`.
    MalformedParam,
    /// It has no `v` param.
    MissingVersion,
    /// A `wallet_pk` or `secret` value is no hex.
    BadHex(HexError),
    /// It has no `wallet_pk` param.
    MissingWalletPk,
    /// It has no `secret` param.
    MissingSecret,
}

/// What a [`ConnError`] says.
pub enum ConnErrorView {
    NotBwcUri,
    MissingQuery,
    UnsupportedVersion(Seq<char>),
    MalformedParam,
    MissingVersion,
    BadHex(HexError),
    MissingWalletPk,
    MissingSecret,
}

impl View for ConnError {
    type V = ConnErrorView;

    open spec fn view(&self) -> ConnErrorView {
        match self {
            ConnError::NotBwcUri => ConnErrorView::NotBwcUri,
            ConnError::MissingQuery => ConnErrorView::MissingQuery,
            ConnError::UnsupportedVersion(s) => ConnErrorView::UnsupportedVersion(s@),
            ConnError::MalformedParam => ConnErrorView::MalformedParam,
            ConnError::MissingVersion => ConnErrorView::MissingVersion,
            ConnError::BadHex(e) => ConnErrorView::BadHex(*e),
            ConnError::MissingWalletPk => ConnErrorView::MissingWalletPk,
            ConnError::MissingSecret => ConnErrorView::MissingSecret,
        }
    }
}

impl ConnErrorView {
    /// The text that tells a user of the error.
    pub open spec fn message_chars(self) -> Seq<char> {
        match self {
            ConnErrorView::NotBwcUri => "not a bwc:// URI"@,
            ConnErrorView::MissingQuery => "missing query"@,
            ConnErrorView::UnsupportedVersion(s) => "UNSUPPORTED_VERSION: "@ + s,
            ConnErrorView::MalformedParam => "malformed param"@,
            ConnErrorView::MissingVersion => "missing v"@,
            ConnErrorView::BadHex(e) => "bad hex: "@ + e.name_chars(),
            ConnErrorView::MissingWalletPk => "missing wallet_pk"@,
            ConnErrorView::MissingSecret => "missing secret"@,
        }
    }
}

impl ConnError {
    /// The text that tells a user of the error.
    pub fn message(&self) -> (s: String)
        ensures
            s@ == self@.message_chars(),
    {
        match self {
            ConnError::NotBwcUri => "not a bwc:// URI".to_owned(),
            ConnError::MissingQuery => "missing query".to_owned(),
            ConnError::UnsupportedVersion(s) => "UNSUPPORTED_VERSION: ".to_owned().concat(
                s.as_str(),
            ),
            ConnError::MalformedParam => "malformed param".to_owned(),
            ConnError::MissingVersion => "missing v".to_owned(),
            ConnError::BadHex(e) => "bad hex: ".to_owned().concat(e.name()),
            ConnError::MissingWalletPk => "missing wallet_pk".to_owned(),
            ConnError::MissingSecret => "missing secret".to_owned(),
        }
    }
}

/// A BWC connection string: built by the wallet, parsed by the client.
///
/// `wallet_pk` stays raw bytes until `version` says how to interpret it (32
/// bytes for v1's X25519 key), which is why the version is read before the key.
#[derive(Clone)]
pub struct ConnString {
    pub relay: String,
    pub version: Version,
    pub wallet_pk: Vec<u8>,
    pub secret: Vec<u8>,
    /// Optional bearer credential authenticating the *client* to the relay,
    /// orthogonal to the end-to-end client-wallet authentication of the HPKE
    /// layer. Opaque to BWC. [`ConnString::parse`] lifts it out of the params
    /// so that the client sends it as an `Authorization: Bearer` header.
    pub token: Option<String>,
    /// Params that are not recognized, in order. The client forwards them
    /// verbatim to the relay.
    pub relay_params: Vec<(String, String)>,
}

/// What a [`ConnString`] holds.
#[verifier::ext_equal]
pub struct ConnView {
    pub relay: Seq<char>,
    pub version: Version,
    pub wallet_pk: Seq<u8>,
    pub secret: Seq<u8>,
    pub token: Option<Seq<char>>,
    pub relay_params: Seq<(Seq<char>, Seq<char>)>,
}

/// The characters of each of some keys and values.
pub open spec fn owned_pairs(v: Seq<(String, String)>) -> Seq<(Seq<char>, Seq<char>)> {
    Seq::new(v.len(), |i: int| (v[i].0@, v[i].1@))
}

impl View for ConnString {
    type V = ConnView;

    open spec fn view(&self) -> ConnView {
        ConnView {
            relay: self.relay@,
            version: self.version,
            wallet_pk: self.wallet_pk@,
            secret: self.secret@,
            token: match self.token {
                Some(token) => Some(token@),
                None => None,
            },
            relay_params: owned_pairs(self.relay_params@),
        }
    }
}

/// `&<key>=<value>` for each of `params`, in order.
pub open spec fn params_text(params: Seq<(Seq<char>, Seq<char>)>) -> Seq<char>
    decreases params.len(),
{
    if params.len() == 0 {
        seq![]
    } else {
        params_text(params.drop_last()) + "&"@ + params.last().0 + "="@ + params.last().1
    }
}

/// The `bwc://` URI of a connection string.
pub open spec fn uri_of(conn: ConnView) -> Seq<char> {
    let head = "bwc://"@ + conn.relay + "?v="@ + conn.version.decimal_chars() + "&wallet_pk="@
        + hex::encoded(conn.wallet_pk) + "&secret="@ + hex::encoded(conn.secret);
    let with_token = match conn.token {
        Some(token) => head + "&token="@ + token,
        None => head,
    };
    with_token + params_text(conn.relay_params)
}

/// Whether BWC gives a meaning to the param `key`.
pub open spec fn is_recognized(key: Seq<char>) -> bool {
    key == "v"@ || key == "wallet_pk"@ || key == "secret"@ || key == "token"@
}

/// Whether `key` takes a hex value.
pub open spec fn takes_hex(key: Seq<char>) -> bool {
    key == "wallet_pk"@ || key == "secret"@
}

/// The value of a `v` param that names no known version.
pub open spec fn unsupported(param: Seq<char>) -> Option<Seq<char>> {
    match text::cut(param, '=') {
        Some((key, value)) => if key == "v"@ && version_of(value) is None {
            Some(value)
        } else {
            None
        },
        None => None,
    }
}

/// The first value among the `v` params that names no known version.
pub open spec fn first_unsupported(params: Seq<Seq<char>>) -> Option<Seq<char>>
    decreases params.len(),
{
    if params.len() == 0 {
        None
    } else {
        match first_unsupported(params.drop_last()) {
            Some(value) => Some(value),
            None => unsupported(params.last()),
        }
    }
}

/// Whether every param has the form `<key>=<value>`.
pub open spec fn all_pairs(params: Seq<Seq<char>>) -> bool {
    forall|i: int| 0 <= i < params.len() ==> text::cut(#[trigger] params[i], '=') is Some
}

/// The keys and values of params of the form `<key>=<value>`. A key ends at
/// the first `=`.
pub open spec fn pairs_of(params: Seq<Seq<char>>) -> Seq<(Seq<char>, Seq<char>)> {
    Seq::new(params.len(), |i: int| text::cut(params[i], '=')->0)
}

/// The last value given to `key`.
pub open spec fn last_value(pairs: Seq<(Seq<char>, Seq<char>)>, key: Seq<char>) -> Option<
    Seq<char>,
>
    decreases pairs.len(),
{
    if pairs.len() == 0 {
        None
    } else if pairs.last().0 == key {
        Some(pairs.last().1)
    } else {
        last_value(pairs.drop_last(), key)
    }
}

/// Why the value of a pair is no hex, where its key takes hex.
pub open spec fn bad_hex(pair: (Seq<char>, Seq<char>)) -> Option<HexError> {
    if takes_hex(pair.0) {
        match hex::decoded(pair.1) {
            Ok(_) => None,
            Err(e) => Some(e),
        }
    } else {
        None
    }
}

/// What is wrong with a param: it has no `=`, or a value that is no hex where
/// hex is due. A wallet key is version-typed, so one that is no hex where no
/// version is given (`versioned`) is refused for the version that is missing.
pub open spec fn fault(param: Seq<char>, versioned: bool) -> Option<ConnErrorView> {
    match text::cut(param, '=') {
        None => Some(ConnErrorView::MalformedParam),
        Some(pair) => match bad_hex(pair) {
            Some(e) => if pair.0 == "wallet_pk"@ && !versioned {
                Some(ConnErrorView::MissingVersion)
            } else {
                Some(ConnErrorView::BadHex(e))
            },
            None => None,
        },
    }
}

/// What is wrong with the first faulty param.
pub open spec fn first_fault(params: Seq<Seq<char>>, versioned: bool) -> Option<ConnErrorView>
    decreases params.len(),
{
    if params.len() == 0 {
        None
    } else {
        match first_fault(params.drop_last(), versioned) {
            Some(e) => Some(e),
            None => fault(params.last(), versioned),
        }
    }
}

/// Whether a param is a `v` param.
pub open spec fn is_version(param: Seq<char>) -> bool {
    text::cut(param, '=') matches Some((key, _)) && key == "v"@
}

/// Whether a `v` param is given.
pub open spec fn gives_version(params: Seq<Seq<char>>) -> bool {
    exists|i: int| 0 <= i < params.len() && is_version(#[trigger] params[i])
}

/// The pairs whose key is not recognized, in order.
pub open spec fn forwarded(pairs: Seq<(Seq<char>, Seq<char>)>) -> Seq<(Seq<char>, Seq<char>)> {
    pairs.filter(|pair: (Seq<char>, Seq<char>)| !is_recognized(pair.0))
}

/// What params without a fault come to, their keys and values told apart.
pub open spec fn parsed_pairs(relay: Seq<char>, pairs: Seq<(Seq<char>, Seq<char>)>) -> Result<
    ConnView,
    ConnErrorView,
> {
    match last_value(pairs, "v"@) {
        None => Err(ConnErrorView::MissingVersion),
        Some(version) => match last_value(pairs, "wallet_pk"@) {
            None => Err(ConnErrorView::MissingWalletPk),
            Some(wallet_pk) => match last_value(pairs, "secret"@) {
                None => Err(ConnErrorView::MissingSecret),
                Some(secret) => Ok(
                    ConnView {
                        relay,
                        version: version_of(version)->0,
                        wallet_pk: hex::decoded(wallet_pk)->Ok_0,
                        secret: hex::decoded(secret)->Ok_0,
                        token: last_value(pairs, "token"@),
                        relay_params: forwarded(pairs),
                    },
                ),
            },
        },
    }
}

/// What params come to. The version is read first, wherever it stands: an
/// unknown one is refused whatever the other params hold, and no wallet key is
/// read without one. Past that, the first faulty param counts.
pub open spec fn parsed_params(relay: Seq<char>, params: Seq<Seq<char>>) -> Result<
    ConnView,
    ConnErrorView,
> {
    match first_unsupported(params) {
        Some(value) => Err(ConnErrorView::UnsupportedVersion(value)),
        None => match first_fault(params, gives_version(params)) {
            Some(e) => Err(e),
            None => parsed_pairs(relay, pairs_of(params)),
        },
    }
}

/// The relay and the query of a `bwc://` URI.
pub open spec fn relay_and_query(uri: Seq<char>) -> Result<
    (Seq<char>, Seq<char>),
    ConnErrorView,
> {
    match text::after_prefix(uri, "bwc://"@) {
        None => Err(ConnErrorView::NotBwcUri),
        Some(rest) => match text::cut(rest, '?') {
            None => Err(ConnErrorView::MissingQuery),
            Some(parts) => Ok(parts),
        },
    }
}

/// What a URI comes to.
pub open spec fn parsed(uri: Seq<char>) -> Result<ConnView, ConnErrorView> {
    match relay_and_query(uri) {
        Ok((relay, query)) => parsed_params(relay, text::pieces(query, '&')),
        Err(e) => Err(e),
    }
}

/// The recognized keys differ from one another.
pub proof fn lemma_keys_differ()
    ensures
        "v"@ != "wallet_pk"@,
        "v"@ != "secret"@,
        "v"@ != "token"@,
        "wallet_pk"@ != "secret"@,
        "wallet_pk"@ != "token"@,
        "secret"@ != "token"@,
{
    reveal_strlit("v");
    reveal_strlit("wallet_pk");
    reveal_strlit("secret");
    reveal_strlit("token");
    assert("v"@.len() == 1);
    assert("wallet_pk"@.len() == 9);
    assert("secret"@.len() == 6);
    assert("token"@.len() == 5);
}

/// The first unsupported version of the first `n` params is the first of all.
proof fn lemma_first_unsupported_prefix(params: Seq<Seq<char>>, n: int)
    requires
        0 <= n <= params.len(),
        first_unsupported(params.take(n)) is Some,
    ensures
        first_unsupported(params) == first_unsupported(params.take(n)),
    decreases params.len() - n,
{
    if n == params.len() {
        assert(params.take(n) =~= params);
    } else {
        assert(params.take(n + 1).drop_last() =~= params.take(n));
        lemma_first_unsupported_prefix(params, n + 1);
    }
}

/// The first fault of the first `n` params is the first of all.
proof fn lemma_first_fault_prefix(params: Seq<Seq<char>>, versioned: bool, n: int)
    requires
        0 <= n <= params.len(),
        first_fault(params.take(n), versioned) is Some,
    ensures
        first_fault(params, versioned) == first_fault(params.take(n), versioned),
    decreases params.len() - n,
{
    if n == params.len() {
        assert(params.take(n) =~= params);
    } else {
        assert(params.take(n + 1).drop_last() =~= params.take(n));
        lemma_first_fault_prefix(params, versioned, n + 1);
    }
}

/// Among params with a `v` param, and no malformed one, `v` has a value.
proof fn lemma_version_value(params: Seq<Seq<char>>)
    requires
        all_pairs(params),
    ensures
        gives_version(params) <==> last_value(pairs_of(params), "v"@) is Some,
    decreases params.len(),
{
    if params.len() > 0 {
        let init = params.drop_last();
        let last = params[params.len() - 1];
        assert forall|i: int| 0 <= i < init.len() implies text::cut(
            #[trigger] init[i],
            '=',
        ) is Some by {
            assert(init[i] == params[i]);
        }
        lemma_version_value(init);
        assert(pairs_of(params).drop_last() =~= pairs_of(init));
        assert(text::cut(last, '=') is Some);
        if is_version(last) {
            assert(gives_version(params));
        } else {
            if gives_version(init) {
                let i = choose|i: int| 0 <= i < init.len() && is_version(#[trigger] init[i]);
                assert(is_version(params[i]));
            }
            if gives_version(params) {
                let i = choose|i: int| 0 <= i < params.len() && is_version(#[trigger] params[i]);
                assert(is_version(init[i]));
            }
        }
    }
}

/// One param more appends its pair.
proof fn lemma_pairs_of_take(params: Seq<Seq<char>>, n: int)
    requires
        0 <= n < params.len(),
    ensures
        params.take(n + 1) == params.take(n).push(params[n]),
        pairs_of(params.take(n + 1)) == pairs_of(params.take(n)).push(
            text::cut(params[n], '=')->0,
        ),
        all_pairs(params.take(n + 1)) <==> all_pairs(params.take(n)) && text::cut(
            params[n],
            '=',
        ) is Some,
{
    let short = params.take(n);
    let long = params.take(n + 1);
    assert(long =~= short.push(params[n]));
    assert(pairs_of(long) =~= pairs_of(short).push(text::cut(params[n], '=')->0));
    if all_pairs(long) {
        assert forall|i: int| 0 <= i < short.len() implies text::cut(
            #[trigger] short[i],
            '=',
        ) is Some by {
            assert(short[i] == long[i]);
        }
        assert(long[n] == params[n]);
    }
    if all_pairs(short) && text::cut(params[n], '=') is Some {
        assert forall|i: int| 0 <= i < long.len() implies text::cut(
            #[trigger] long[i],
            '=',
        ) is Some by {
            if i < n {
                assert(long[i] == short[i]);
            }
        }
    }
}

/// The version that the last `v` among some pairs names.
pub open spec fn version_in(pairs: Seq<(Seq<char>, Seq<char>)>) -> Option<Version> {
    match last_value(pairs, "v"@) {
        Some(value) => version_of(value),
        None => None,
    }
}

/// Reads the version: the one that the last `v` param names. A `v` param that
/// names an unknown version is refused, the first of them if there are more.
fn read_version(params: &Vec<&str>) -> (r: Result<Option<Version>, ConnError>)
    ensures
        match r {
            Ok(version) => {
                let chars = text::chars_of(params@);
                &&& first_unsupported(chars) is None
                &&& version is Some <==> gives_version(chars)
                &&& all_pairs(chars) ==> version == version_in(pairs_of(chars))
            },
            Err(e) => first_unsupported(text::chars_of(params@)) matches Some(value) && e@
                == ConnErrorView::UnsupportedVersion(value),
        },
{
    let ghost chars = text::chars_of(params@);
    let mut version: Option<Version> = None;
    let mut i: usize = 0;
    proof {
        assert(chars.take(0) =~= seq![]);
        assert(pairs_of(chars.take(0)) =~= seq![]);
    }
    while i < params.len()
        invariant
            i <= params@.len(),
            chars == text::chars_of(params@),
            first_unsupported(chars.take(i as int)) is None,
            version is Some ==> gives_version(chars),
            version is None ==> forall|k: int| 0 <= k < i ==> !is_version(#[trigger] chars[k]),
            all_pairs(chars.take(i as int)) ==> version == version_in(
                pairs_of(chars.take(i as int)),
            ),
        decreases params@.len() - i,
    {
        let param: &str = params[i];
        proof {
            lemma_pairs_of_take(chars, i as int);
            assert(chars.take(i + 1).drop_last() =~= chars.take(i as int));
            let short = pairs_of(chars.take(i as int));
            assert(short.push(text::cut(param@, '=')->0).drop_last() =~= short);
            assert(chars[i as int] == param@);
        }
        if let Some((key, value)) = text::split_once(param, '=') {
            if text::same(key, "v") {
                proof {
                    assert(is_version(chars[i as int]));
                }
                match Version::parse(value) {
                    Ok(known) => {
                        version = Some(known);
                    },
                    Err(e) => {
                        proof {
                            lemma_first_unsupported_prefix(chars, i + 1);
                        }
                        return Err(e);
                    },
                }
            }
        }
        i = i + 1;
    }
    proof {
        assert(chars.take(i as int) =~= chars);
    }
    Ok(version)
}

/// What is known of a hex value after some pairs: the bytes of the last value
/// given to `key`.
pub open spec fn holds_hex(
    found: Option<Vec<u8>>,
    pairs: Seq<(Seq<char>, Seq<char>)>,
    key: Seq<char>,
) -> bool {
    match found {
        Some(bytes) => last_value(pairs, key) matches Some(value) && hex::decoded(value) == Ok::<
            Seq<u8>,
            HexError,
        >(bytes@),
        None => last_value(pairs, key) is None,
    }
}

impl ConnString {
    /// Renders the `bwc://` URI that the wallet hands out. The hex of the key
    /// and of the secret has to fit in an allocation.
    pub fn to_uri(&self) -> (uri: String)
        requires
            2 * self.wallet_pk@.len() <= isize::MAX,
            2 * self.secret@.len() <= isize::MAX,
        ensures
            uri@ == uri_of(self@),
    {
        let mut uri: String = "bwc://".to_owned();
        uri.append(self.relay.as_str());
        uri.append("?v=");
        uri.append(self.version.decimal());
        uri.append("&wallet_pk=");
        uri.append(hex::encode(self.wallet_pk.as_slice()).as_str());
        uri.append("&secret=");
        uri.append(hex::encode(self.secret.as_slice()).as_str());
        if let Some(token) = &self.token {
            uri.append("&token=");
            uri.append(token.as_str());
        }
        let ghost start = uri@;
        let ghost params = owned_pairs(self.relay_params@);
        let mut i: usize = 0;
        proof {
            assert(params.take(0) =~= seq![]);
            assert(start + params_text(params.take(0)) =~= start);
        }
        while i < self.relay_params.len()
            invariant
                i <= self.relay_params@.len(),
                params == owned_pairs(self.relay_params@),
                uri@ == start + params_text(params.take(i as int)),
            decreases self.relay_params@.len() - i,
        {
            uri.append("&");
            uri.append(self.relay_params[i].0.as_str());
            uri.append("=");
            uri.append(self.relay_params[i].1.as_str());
            proof {
                let long = params.take(i + 1);
                assert(long.drop_last() =~= params.take(i as int));
                assert(long.last() == params[i as int]);
                assert(uri@ =~= start + params_text(long));
            }
            i = i + 1;
        }
        proof {
            assert(params.take(i as int) =~= params);
        }
        uri
    }

    /// Parses a `bwc://` URI. The version is read first; an unknown one is
    /// refused, and no wallet key is read without one. Past that, the first
    /// faulty param is reported.
    pub fn parse(uri: &str) -> (r: Result<Self, ConnError>)
        ensures
            match r {
                Ok(conn) => parsed(uri@) == Ok::<ConnView, ConnErrorView>(conn@),
                Err(e) => parsed(uri@) == Err::<ConnView, ConnErrorView>(e@),
            },
    {
        proof {
            reveal_strlit("bwc://");
        }
        let rest: &str = match text::strip_prefix(uri, "bwc://") {
            Some(rest) => rest,
            None => {
                return Err(ConnError::NotBwcUri);
            },
        };
        let (relay, query) = match text::split_once(rest, '?') {
            Some(parts) => parts,
            None => {
                return Err(ConnError::MissingQuery);
            },
        };
        let params: Vec<&str> = text::split_all(query, '&');
        let version: Option<Version> = match read_version(&params) {
            Ok(version) => version,
            Err(e) => {
                return Err(e);
            },
        };
        Self::from_params(relay, version, &params)
    }

    /// Builds a connection string from its version, read before, and all of
    /// its params.
    fn from_params(relay: &str, version: Option<Version>, params: &Vec<&str>) -> (r: Result<
        Self,
        ConnError,
    >)
        requires
            first_unsupported(text::chars_of(params@)) is None,
            version is Some <==> gives_version(text::chars_of(params@)),
            all_pairs(text::chars_of(params@)) ==> version == version_in(
                pairs_of(text::chars_of(params@)),
            ),
        ensures
            match r {
                Ok(conn) => parsed_params(relay@, text::chars_of(params@)) == Ok::<
                    ConnView,
                    ConnErrorView,
                >(conn@),
                Err(e) => parsed_params(relay@, text::chars_of(params@)) == Err::<
                    ConnView,
                    ConnErrorView,
                >(e@),
            },
    {
        let ghost chars = text::chars_of(params@);
        let mut wallet_pk: Option<Vec<u8>> = None;
        let mut secret: Option<Vec<u8>> = None;
        let mut token: Option<String> = None;
        let mut relay_params: Vec<(String, String)> = Vec::new();
        let mut i: usize = 0;
        proof {
            assert(chars.take(0) =~= seq![]);
            assert(pairs_of(chars.take(0)) =~= seq![]);
            reveal(Seq::filter);
            assert(owned_pairs(relay_params@) =~= forwarded(pairs_of(chars.take(0))));
        }
        while i < params.len()
            invariant
                i <= params@.len(),
                chars == text::chars_of(params@),
                first_unsupported(chars) is None,
                version is Some <==> gives_version(chars),
                first_fault(chars.take(i as int), version is Some) is None,
                all_pairs(chars.take(i as int)),
                holds_hex(wallet_pk, pairs_of(chars.take(i as int)), "wallet_pk"@),
                holds_hex(secret, pairs_of(chars.take(i as int)), "secret"@),
                match token {
                    Some(value) => last_value(pairs_of(chars.take(i as int)), "token"@) == Some(
                        value@,
                    ),
                    None => last_value(pairs_of(chars.take(i as int)), "token"@) is None,
                },
                owned_pairs(relay_params@) == forwarded(pairs_of(chars.take(i as int))),
            decreases params@.len() - i,
        {
            let param: &str = params[i];
            let ghost short = pairs_of(chars.take(i as int));
            proof {
                lemma_pairs_of_take(chars, i as int);
                assert(chars[i as int] == param@);
                assert(chars.take(i + 1).drop_last() =~= chars.take(i as int));
                assert(first_fault(chars.take(i + 1), version is Some) == fault(
                    param@,
                    version is Some,
                ));
                if fault(param@, version is Some) is Some {
                    lemma_first_fault_prefix(chars, version is Some, i + 1);
                }
            }
            let (key, value) = match text::split_once(param, '=') {
                Some(pair) => pair,
                None => {
                    return Err(ConnError::MalformedParam);
                },
            };
            let ghost long = pairs_of(chars.take(i + 1));
            let ghost kept = |pair: (Seq<char>, Seq<char>)| !is_recognized(pair.0);
            proof {
                lemma_keys_differ();
                assert(long == short.push((key@, value@)));
                assert(long.drop_last() =~= short);
                short.lemma_filter_push((key@, value@), kept);
            }
            if text::same(key, "wallet_pk") {
                match hex::decode(value) {
                    Ok(bytes) => {
                        wallet_pk = Some(bytes);
                    },
                    Err(e) => {
                        return Err(Self::key_error(version, e));
                    },
                }
            } else if text::same(key, "secret") {
                match hex::decode(value) {
                    Ok(bytes) => {
                        secret = Some(bytes);
                    },
                    Err(e) => {
                        return Err(ConnError::BadHex(e));
                    },
                }
            } else if text::same(key, "token") {
                token = Some(value.to_owned());
            } else if !text::same(key, "v") {
                let ghost before = owned_pairs(relay_params@);
                relay_params.push((key.to_owned(), value.to_owned()));
                proof {
                    assert(owned_pairs(relay_params@) =~= before.push((key@, value@)));
                }
            }
            i = i + 1;
        }
        proof {
            assert(chars.take(i as int) =~= chars);
            lemma_version_value(chars);
        }
        let version: Version = match version {
            Some(version) => version,
            None => {
                return Err(ConnError::MissingVersion);
            },
        };
        let wallet_pk: Vec<u8> = match wallet_pk {
            Some(bytes) => bytes,
            None => {
                return Err(ConnError::MissingWalletPk);
            },
        };
        let secret: Vec<u8> = match secret {
            Some(bytes) => bytes,
            None => {
                return Err(ConnError::MissingSecret);
            },
        };
        Ok(
            ConnString {
                relay: relay.to_owned(),
                version,
                wallet_pk,
                secret,
                token,
                relay_params,
            },
        )
    }

    /// What a wallet key that is no hex is refused for. Without a version no
    /// key is read.
    fn key_error(version: Option<Version>, e: HexError) -> (r: ConnError)
        ensures
            r@ == (if version is Some {
                ConnErrorView::BadHex(e)
            } else {
                ConnErrorView::MissingVersion
            }),
    {
        match version {
            Some(_) => ConnError::BadHex(e),
            None => ConnError::MissingVersion,
        }
    }
}

} // verus!
