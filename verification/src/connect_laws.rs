//! What holds of connection strings, whatever they carry.

use crate::channel::{self, MalformedKey, PublicKey};
use crate::connect::{self, ConnError, ConnErrorView, ConnString, ConnView, Version};
use crate::hex;
use crate::text;
use vstd::prelude::*;

verus! {

/// A key and its value.
pub type Pair = (Seq<char>, Seq<char>);

/// Whether the URI format can carry `conn`: no part holds the separator that
/// ends it, and no key of `relay_params` is one that BWC recognizes.
pub open spec fn well_formed(conn: ConnView) -> bool {
    &&& !conn.relay.contains('?')
    &&& conn.token matches Some(token) ==> !token.contains('&')
    &&& forall|i: int|
        0 <= i < conn.relay_params.len() ==> well_formed_pair(#[trigger] conn.relay_params[i])
}

/// Whether a pair can stand among the relay params.
pub open spec fn well_formed_pair(pair: Pair) -> bool {
    &&& !pair.0.contains('&')
    &&& !pair.0.contains('=')
    &&& !pair.1.contains('&')
    &&& !is_bwc_key(pair.0)
}

/// Whether `key` is one of the four that BWC defines.
pub open spec fn is_bwc_key(key: Seq<char>) -> bool {
    key == "v"@ || key == "wallet_pk"@ || key == "secret"@ || key == "token"@
}

/// The decimal number of a version.
pub open spec fn version_digit(version: Version) -> Seq<char> {
    match version {
        Version::V1 => "1"@,
        Version::V2 => "2"@,
    }
}

/// `<key>=<value>`.
pub open spec fn pair_text(pair: Pair) -> Seq<char> {
    pair.0.push('=') + pair.1
}

/// `<key>=<value>` for each of `pairs`.
pub open spec fn texts(pairs: Seq<Pair>) -> Seq<Seq<char>> {
    Seq::new(pairs.len(), |i: int| pair_text(pairs[i]))
}

/// The pairs that BWC recognizes in the URI of `conn`.
spec fn recognized_pairs(conn: ConnView) -> Seq<Pair> {
    let required = seq![
        ("v"@, conn.version.decimal_chars()),
        ("wallet_pk"@, hex::encoded(conn.wallet_pk)),
        ("secret"@, hex::encoded(conn.secret)),
    ];
    match conn.token {
        Some(token) => required.push(("token"@, token)),
        None => required,
    }
}

/// Reading the decimal number of a version gives that version.
pub proof fn law_version_round_trip(version: Version)
    ensures
        connect::version_of(version.decimal_chars()) == Some(version),
{
    reveal_strlit("1");
    reveal_strlit("2");
    assert("1"@[0] != "2"@[0]);
}

/// The texts of some pairs, joined, end with one more text per pair appended.
proof fn lemma_joined_params(pairs: Seq<Pair>, params: Seq<Pair>)
    requires
        pairs.len() > 0,
    ensures
        text::joined(texts(pairs + params), '&') == text::joined(texts(pairs), '&')
            + connect::params_text(params),
    decreases params.len(),
{
    if params.len() == 0 {
        assert(pairs + params =~= pairs);
        assert(text::joined(texts(pairs), '&') + connect::params_text(params) =~= text::joined(
            texts(pairs),
            '&',
        ));
    } else {
        let init = params.drop_last();
        let last = params.last();
        lemma_joined_params(pairs, init);
        assert(texts(pairs + params) =~= texts(pairs + init).push(pair_text(last)));
        text::lemma_joined_push(texts(pairs + init), '&', pair_text(last));
        reveal_strlit("&");
        reveal_strlit("=");
        assert("&"@ =~= seq!['&']);
        assert("="@ =~= seq!['=']);
        assert(text::joined(texts(pairs + params), '&') =~= text::joined(texts(pairs), '&')
            + connect::params_text(params));
    }
}

/// What BWC writes between the values is `&`, the key and `=`.
proof fn lemma_literals()
    ensures
        "?v="@ == seq!['?'] + "v"@ + seq!['='],
        "&wallet_pk="@ == seq!['&'] + "wallet_pk"@ + seq!['='],
        "&secret="@ == seq!['&'] + "secret"@ + seq!['='],
        "&token="@ == seq!['&'] + "token"@ + seq!['='],
{
    reveal_strlit("?v=");
    reveal_strlit("v");
    assert("?v="@ =~= seq!['?'] + "v"@ + seq!['=']);
    reveal_strlit("&wallet_pk=");
    reveal_strlit("wallet_pk");
    assert("&wallet_pk="@ =~= seq!['&'] + "wallet_pk"@ + seq!['=']);
    reveal_strlit("&secret=");
    reveal_strlit("secret");
    assert("&secret="@ =~= seq!['&'] + "secret"@ + seq!['=']);
    reveal_strlit("&token=");
    reveal_strlit("token");
    assert("&token="@ =~= seq!['&'] + "token"@ + seq!['=']);
}

/// One pair more appends `&`, its key, `=` and its value to the query.
proof fn lemma_one_more(pairs: Seq<Pair>, pair: Pair)
    requires
        pairs.len() > 0,
    ensures
        text::joined(texts(pairs.push(pair)), '&') == text::joined(texts(pairs), '&') + (seq!['&']
            + pair.0 + seq!['=']) + pair.1,
{
    assert(texts(pairs.push(pair)) =~= texts(pairs).push(pair_text(pair)));
    text::lemma_joined_push(texts(pairs), '&', pair_text(pair));
    assert(text::joined(texts(pairs), '&').push('&') + pair_text(pair) =~= text::joined(
        texts(pairs),
        '&',
    ) + (seq!['&'] + pair.0 + seq!['=']) + pair.1);
}

/// The query of the pairs that BWC writes itself.
proof fn lemma_recognized_query(conn: ConnView)
    ensures
        text::joined(texts(recognized_pairs(conn)), '&') == "v"@ + seq!['=']
            + conn.version.decimal_chars() + "&wallet_pk="@ + hex::encoded(conn.wallet_pk)
            + "&secret="@ + hex::encoded(conn.secret) + (match conn.token {
            Some(token) => "&token="@ + token,
            None => seq![],
        }),
{
    let v = ("v"@, conn.version.decimal_chars());
    let wallet_pk = ("wallet_pk"@, hex::encoded(conn.wallet_pk));
    let secret = ("secret"@, hex::encoded(conn.secret));
    let one = seq![v];
    let two = one.push(wallet_pk);
    let three = two.push(secret);
    lemma_literals();
    let q1 = text::joined(texts(one), '&');
    assert(texts(one) =~= seq![pair_text(v)]);
    assert(q1 =~= "v"@ + seq!['='] + v.1);
    lemma_one_more(one, wallet_pk);
    lemma_one_more(two, secret);
    let q3 = text::joined(texts(three), '&');
    assert(q3 == "v"@ + seq!['='] + v.1 + "&wallet_pk="@ + wallet_pk.1 + "&secret="@ + secret.1);
    match conn.token {
        Some(token) => {
            lemma_one_more(three, ("token"@, token));
            assert(recognized_pairs(conn) =~= three.push(("token"@, token)));
            assert(q3 + "&token="@ + token =~= q3 + ("&token="@ + token));
        },
        None => {
            assert(recognized_pairs(conn) =~= three);
            assert(q3 + Seq::<char>::empty() =~= q3);
        },
    }
}

/// Concatenation is associative.
proof fn lemma_regroup(a: Seq<char>, b: Seq<char>, c: Seq<char>)
    ensures
        a + b + c == a + (b + c),
{
    assert(a + b + c =~= a + (b + c));
}

/// The version, the wallet key and the secret in a URI.
spec fn required_text(conn: ConnView) -> Seq<char> {
    "v"@ + seq!['='] + conn.version.decimal_chars() + "&wallet_pk="@ + hex::encoded(conn.wallet_pk)
        + "&secret="@ + hex::encoded(conn.secret)
}

/// The part of a URI before the token.
proof fn lemma_required(conn: ConnView)
    ensures
        "bwc://"@ + conn.relay + "?v="@ + conn.version.decimal_chars() + "&wallet_pk="@
            + hex::encoded(conn.wallet_pk) + "&secret="@ + hex::encoded(conn.secret) == "bwc://"@
            + conn.relay.push('?') + required_text(conn),
{
    let head = "bwc://"@ + conn.relay;
    let start = "bwc://"@ + conn.relay.push('?');
    let key = "v"@ + seq!['='];
    let digit = conn.version.decimal_chars();
    let w = hex::encoded(conn.wallet_pk);
    let s = hex::encoded(conn.secret);
    lemma_literals();
    assert(head + "?v="@ =~= start + key);
    lemma_regroup(start, key, digit);
    lemma_regroup(start, key + digit, "&wallet_pk="@);
    lemma_regroup(start, key + digit + "&wallet_pk="@, w);
    lemma_regroup(start, key + digit + "&wallet_pk="@ + w, "&secret="@);
    lemma_regroup(start, key + digit + "&wallet_pk="@ + w + "&secret="@, s);
}

/// The URI of a connection string is its scheme, its relay and its params.
proof fn lemma_uri_of(conn: ConnView)
    ensures
        connect::uri_of(conn) == "bwc://"@ + (conn.relay.push('?') + text::joined(
            texts(recognized_pairs(conn) + conn.relay_params),
            '&',
        )),
{
    let query = text::joined(texts(recognized_pairs(conn)), '&');
    let tail = connect::params_text(conn.relay_params);
    let start = "bwc://"@ + conn.relay.push('?');
    let required = required_text(conn);
    lemma_joined_params(recognized_pairs(conn), conn.relay_params);
    lemma_recognized_query(conn);
    lemma_required(conn);
    match conn.token {
        Some(token) => {
            lemma_regroup(start, required, "&token="@);
            lemma_regroup(start, required + "&token="@, token);
            lemma_regroup(required, "&token="@, token);
        },
        None => {
            assert(required + Seq::<char>::empty() =~= required);
        },
    }
    assert(connect::uri_of(conn) == start + query + tail);
    lemma_regroup(start, query, tail);
    lemma_regroup("bwc://"@, conn.relay.push('?'), query + tail);
}

/// Params whose keys hold no `=` come apart into the pairs they were made of.
proof fn lemma_pairs_of_texts(pairs: Seq<Pair>)
    requires
        forall|i: int| 0 <= i < pairs.len() ==> !(#[trigger] pairs[i]).0.contains('='),
    ensures
        connect::all_pairs(texts(pairs)),
        connect::pairs_of(texts(pairs)) == pairs,
{
    assert forall|i: int| 0 <= i < pairs.len() implies text::cut(
        #[trigger] texts(pairs)[i],
        '=',
    ) == Some(pairs[i]) by {
        text::lemma_cut(pairs[i].0, '=', pairs[i].1);
    }
    assert(connect::pairs_of(texts(pairs)) =~= pairs);
}

/// No version is unsupported exactly where no param gives an unsupported one.
proof fn lemma_none_unsupported(params: Seq<Seq<char>>)
    ensures
        connect::first_unsupported(params) is None <==> forall|i: int|
            0 <= i < params.len() ==> connect::unsupported(#[trigger] params[i]) is None,
    decreases params.len(),
{
    if params.len() > 0 {
        let init = params.drop_last();
        lemma_none_unsupported(init);
        if connect::first_unsupported(params) is None {
            assert forall|i: int| 0 <= i < params.len() implies connect::unsupported(
                #[trigger] params[i],
            ) is None by {
                if i < params.len() - 1 {
                    assert(init[i] == params[i]);
                }
            }
        } else if connect::first_unsupported(init) is Some {
            let i = choose|i: int|
                0 <= i < init.len() && connect::unsupported(#[trigger] init[i]) is Some;
            assert(connect::unsupported(params[i]) is Some);
        } else {
            assert(connect::unsupported(params[params.len() - 1]) is Some);
        }
    }
}

/// No param is faulty exactly where none is by itself.
proof fn lemma_none_faulty(params: Seq<Seq<char>>, versioned: bool)
    ensures
        connect::first_fault(params, versioned) is None <==> forall|i: int|
            0 <= i < params.len() ==> connect::fault(#[trigger] params[i], versioned) is None,
    decreases params.len(),
{
    if params.len() > 0 {
        let init = params.drop_last();
        lemma_none_faulty(init, versioned);
        if connect::first_fault(params, versioned) is None {
            assert forall|i: int| 0 <= i < params.len() implies connect::fault(
                #[trigger] params[i],
                versioned,
            ) is None by {
                if i < params.len() - 1 {
                    assert(init[i] == params[i]);
                }
            }
        } else if connect::first_fault(init, versioned) is Some {
            let i = choose|i: int|
                0 <= i < init.len() && connect::fault(#[trigger] init[i], versioned) is Some;
            assert(connect::fault(params[i], versioned) is Some);
        } else {
            assert(connect::fault(params[params.len() - 1], versioned) is Some);
        }
    }
}

/// The first fault is the fault of some param.
proof fn lemma_first_fault_from(params: Seq<Seq<char>>, versioned: bool)
    ensures
        connect::first_fault(params, versioned) matches Some(e) ==> exists|i: int|
            0 <= i < params.len() && connect::fault(#[trigger] params[i], versioned) == Some(e),
    decreases params.len(),
{
    if params.len() > 0 {
        let init = params.drop_last();
        lemma_first_fault_from(init, versioned);
        if let Some(e) = connect::first_fault(init, versioned) {
            let i = choose|i: int|
                0 <= i < init.len() && connect::fault(#[trigger] init[i], versioned) == Some(e);
            assert(connect::fault(params[i], versioned) == Some(e));
        } else {
            assert(connect::fault(params[params.len() - 1], versioned) == connect::first_fault(
                params,
                versioned,
            ));
        }
    }
}

/// Params without a fault are pairs, and none of them gives bad hex.
proof fn lemma_without_fault(params: Seq<Seq<char>>, versioned: bool)
    requires
        connect::first_fault(params, versioned) is None,
    ensures
        connect::all_pairs(params),
        forall|i: int|
            0 <= i < params.len() ==> connect::bad_hex(
                #[trigger] connect::pairs_of(params)[i],
            ) is None,
{
    lemma_none_faulty(params, versioned);
    assert forall|i: int| 0 <= i < params.len() implies text::cut(
        #[trigger] params[i],
        '=',
    ) is Some by {
        assert(connect::fault(params[i], versioned) is None);
    }
    assert forall|i: int| 0 <= i < params.len() implies connect::bad_hex(
        #[trigger] connect::pairs_of(params)[i],
    ) is None by {
        assert(connect::fault(params[i], versioned) is None);
    }
}

/// Pairs with other keys do not change the last value of a key.
proof fn lemma_last_value_skips(pairs: Seq<Pair>, more: Seq<Pair>, key: Seq<char>)
    requires
        forall|i: int| 0 <= i < more.len() ==> (#[trigger] more[i]).0 != key,
    ensures
        connect::last_value(pairs + more, key) == connect::last_value(pairs, key),
    decreases more.len(),
{
    if more.len() == 0 {
        assert(pairs + more =~= pairs);
    } else {
        assert(more[more.len() - 1].0 != key);
        let init = more.drop_last();
        assert forall|i: int| 0 <= i < init.len() implies (#[trigger] init[i]).0 != key by {
            assert(init[i] == more[i]);
        }
        lemma_last_value_skips(pairs, init, key);
        assert((pairs + more).drop_last() =~= pairs + init);
    }
}

/// The last value of a key is the value of a pair with that key.
proof fn lemma_last_value_from(pairs: Seq<Pair>, key: Seq<char>)
    ensures
        connect::last_value(pairs, key) matches Some(value) ==> pairs.contains((key, value)),
        connect::last_value(pairs, key) is None <==> forall|i: int|
            0 <= i < pairs.len() ==> (#[trigger] pairs[i]).0 != key,
    decreases pairs.len(),
{
    if pairs.len() > 0 {
        let init = pairs.drop_last();
        lemma_last_value_from(init, key);
        if pairs.last().0 == key {
            assert(pairs[pairs.len() - 1] == (key, pairs.last().1));
        } else {
            if let Some(value) = connect::last_value(init, key) {
                let i = choose|i: int| 0 <= i < init.len() && init[i] == (key, value);
                assert(pairs[i] == (key, value));
            } else {
                assert forall|i: int| 0 <= i < pairs.len() implies (#[trigger] pairs[i]).0
                    != key by {
                    if i < pairs.len() - 1 {
                        assert(init[i] == pairs[i]);
                    }
                }
            }
        }
    }
}

/// Pairs with unrecognized keys are all forwarded.
proof fn lemma_forwarded_all(pairs: Seq<Pair>)
    requires
        forall|i: int| 0 <= i < pairs.len() ==> !connect::is_recognized((#[trigger] pairs[i]).0),
    ensures
        connect::forwarded(pairs) == pairs,
    decreases pairs.len(),
{
    reveal(Seq::filter);
    if pairs.len() > 0 {
        let init = pairs.drop_last();
        assert forall|i: int| 0 <= i < init.len() implies !connect::is_recognized(
            (#[trigger] init[i]).0,
        ) by {
            assert(init[i] == pairs[i]);
        }
        lemma_forwarded_all(init);
        assert(!connect::is_recognized(pairs[pairs.len() - 1].0));
        assert(pairs =~= init.push(pairs.last()));
    }
}

/// The params that BWC writes itself hold no separator.
proof fn lemma_recognized_pairs(conn: ConnView)
    requires
        well_formed(conn),
    ensures
        forall|i: int|
            0 <= i < recognized_pairs(conn).len() ==> {
                &&& !(#[trigger] recognized_pairs(conn)[i]).0.contains('=')
                &&& !recognized_pairs(conn)[i].0.contains('&')
                &&& !recognized_pairs(conn)[i].1.contains('&')
            },
{
    reveal_strlit("v");
    reveal_strlit("wallet_pk");
    reveal_strlit("secret");
    reveal_strlit("token");
    reveal_strlit("1");
    reveal_strlit("2");
    hex::lemma_encoded_digits(conn.wallet_pk);
    hex::lemma_encoded_digits(conn.secret);
}

/// A param made of a key and a value holds no `&` where neither of them does.
proof fn lemma_pair_text(pair: Pair)
    requires
        !pair.0.contains('&'),
        !pair.1.contains('&'),
    ensures
        !pair_text(pair).contains('&'),
{
    let s = pair_text(pair);
    if s.contains('&') {
        let k = choose|k: int| 0 <= k < s.len() && s[k] == '&';
        if k < pair.0.len() {
            assert(pair.0[k] == '&');
        } else {
            assert(pair.1[k - pair.0.len() - 1] == '&');
        }
    }
}

/// Among the pairs that BWC writes itself, each key has the value written.
proof fn lemma_recognized_values(conn: ConnView)
    ensures
        connect::last_value(recognized_pairs(conn), "v"@) == Some(conn.version.decimal_chars()),
        connect::last_value(recognized_pairs(conn), "wallet_pk"@) == Some(
            hex::encoded(conn.wallet_pk),
        ),
        connect::last_value(recognized_pairs(conn), "secret"@) == Some(hex::encoded(conn.secret)),
        connect::last_value(recognized_pairs(conn), "token"@) == conn.token,
{
    connect::lemma_keys_differ();
    let own = recognized_pairs(conn);
    let v = ("v"@, conn.version.decimal_chars());
    let wallet_pk = ("wallet_pk"@, hex::encoded(conn.wallet_pk));
    let secret = ("secret"@, hex::encoded(conn.secret));
    let one = seq![v];
    let two = seq![v, wallet_pk];
    let three = seq![v, wallet_pk, secret];
    let none = Seq::<Pair>::empty();
    assert(one.drop_last() =~= none);
    assert(two.drop_last() =~= one);
    assert(three.drop_last() =~= two);
    assert(connect::last_value(none, "token"@) is None);
    assert(connect::last_value(one, "v"@) == Some(v.1));
    assert(connect::last_value(one, "token"@) is None);
    assert(connect::last_value(two, "v"@) == Some(v.1));
    assert(connect::last_value(two, "wallet_pk"@) == Some(wallet_pk.1));
    assert(connect::last_value(two, "token"@) is None);
    if let Some(token) = conn.token {
        assert(own.drop_last() =~= three);
        assert(connect::last_value(three, "v"@) == Some(v.1));
        assert(connect::last_value(three, "wallet_pk"@) == Some(wallet_pk.1));
        assert(connect::last_value(three, "secret"@) == Some(secret.1));
    } else {
        assert(own =~= three);
    }
}

/// None of the pairs that BWC writes itself is forwarded.
proof fn lemma_recognized_not_forwarded(conn: ConnView)
    ensures
        connect::forwarded(recognized_pairs(conn)) == Seq::<Pair>::empty(),
{
    let own = recognized_pairs(conn);
    let out = connect::forwarded(own);
    if out.len() > 0 {
        law_forwarded(own, out[0]);
        assert(out.contains(out[0]));
        let i = choose|i: int| 0 <= i < own.len() && own[i] == out[0];
        assert(connect::is_recognized(own[i].0));
    }
    assert(out =~= Seq::<Pair>::empty());
}

/// All pairs in the URI of `conn`.
spec fn pairs_in(conn: ConnView) -> Seq<Pair> {
    recognized_pairs(conn) + conn.relay_params
}

/// Each pair in the URI of `conn` is one that BWC writes itself or a relay
/// param.
proof fn lemma_pairs_in(conn: ConnView, i: int)
    requires
        0 <= i < pairs_in(conn).len(),
    ensures
        i < recognized_pairs(conn).len() ==> pairs_in(conn)[i] == recognized_pairs(conn)[i],
        i >= recognized_pairs(conn).len() ==> pairs_in(conn)[i] == conn.relay_params[i
            - recognized_pairs(conn).len()],
{
}

/// No param in the URI of `conn` is faulty.
proof fn lemma_no_fault(conn: ConnView, versioned: bool)
    requires
        well_formed(conn),
        connect::all_pairs(texts(pairs_in(conn))),
        connect::pairs_of(texts(pairs_in(conn))) == pairs_in(conn),
    ensures
        connect::first_fault(texts(pairs_in(conn)), versioned) is None,
{
    let pairs = pairs_in(conn);
    let params = texts(pairs);
    connect::lemma_keys_differ();
    hex::law_hex_round_trip(conn.wallet_pk);
    hex::law_hex_round_trip(conn.secret);
    assert forall|i: int| 0 <= i < params.len() implies connect::fault(
        #[trigger] params[i],
        versioned,
    ) is None by {
        assert(connect::pairs_of(params)[i] == pairs[i]);
        assert(text::cut(params[i], '=') == Some(pairs[i]));
        lemma_pairs_in(conn, i);
        if i >= recognized_pairs(conn).len() {
            assert(well_formed_pair(conn.relay_params[i - recognized_pairs(conn).len()]));
        }
    }
    lemma_none_faulty(params, versioned);
}

/// No version in the URI of `conn` is unknown.
proof fn lemma_no_unsupported(conn: ConnView)
    requires
        well_formed(conn),
        connect::all_pairs(texts(pairs_in(conn))),
        connect::pairs_of(texts(pairs_in(conn))) == pairs_in(conn),
    ensures
        connect::first_unsupported(texts(pairs_in(conn))) is None,
{
    let pairs = pairs_in(conn);
    let params = texts(pairs);
    law_version_round_trip(conn.version);
    connect::lemma_keys_differ();
    assert forall|i: int| 0 <= i < params.len() implies connect::unsupported(
        #[trigger] params[i],
    ) is None by {
        assert(connect::pairs_of(params)[i] == pairs[i]);
        assert(text::cut(params[i], '=') == Some(pairs[i]));
        lemma_pairs_in(conn, i);
        if i >= recognized_pairs(conn).len() {
            assert(well_formed_pair(conn.relay_params[i - recognized_pairs(conn).len()]));
        }
    }
    lemma_none_unsupported(params);
}

/// Only the relay params in the URI of `conn` are forwarded.
proof fn lemma_forwarded_in(conn: ConnView)
    requires
        well_formed(conn),
    ensures
        connect::forwarded(pairs_in(conn)) == conn.relay_params,
{
    let kept = |pair: Pair| !connect::is_recognized(pair.0);
    Seq::filter_distributes_over_add(recognized_pairs(conn), conn.relay_params, kept);
    assert forall|i: int| 0 <= i < conn.relay_params.len() implies !connect::is_recognized(
        (#[trigger] conn.relay_params[i]).0,
    ) by {
        assert(well_formed_pair(conn.relay_params[i]));
    }
    lemma_forwarded_all(conn.relay_params);
    lemma_recognized_not_forwarded(conn);
    assert(Seq::<Pair>::empty() + conn.relay_params =~= conn.relay_params);
}

/// A recognized key has the value that BWC writes itself.
proof fn lemma_value_in(conn: ConnView, key: Seq<char>)
    requires
        well_formed(conn),
        connect::is_recognized(key),
    ensures
        connect::last_value(pairs_in(conn), key) == connect::last_value(
            recognized_pairs(conn),
            key,
        ),
{
    assert forall|i: int| 0 <= i < conn.relay_params.len() implies (
    #[trigger] conn.relay_params[i]).0 != key by {
        assert(well_formed_pair(conn.relay_params[i]));
    }
    lemma_last_value_skips(recognized_pairs(conn), conn.relay_params, key);
}

/// Pairs whose values stand for the fields of `conn` come to `conn`.
proof fn lemma_parsed_values(
    conn: ConnView,
    pairs: Seq<Pair>,
    version: Seq<char>,
    wallet_pk: Seq<char>,
    secret: Seq<char>,
)
    requires
        connect::last_value(pairs, "v"@) == Some(version),
        connect::version_of(version) == Some(conn.version),
        connect::last_value(pairs, "wallet_pk"@) == Some(wallet_pk),
        hex::decoded(wallet_pk) == Ok::<Seq<u8>, hex::HexError>(conn.wallet_pk),
        connect::last_value(pairs, "secret"@) == Some(secret),
        hex::decoded(secret) == Ok::<Seq<u8>, hex::HexError>(conn.secret),
        connect::last_value(pairs, "token"@) == conn.token,
        connect::forwarded(pairs) == conn.relay_params,
    ensures
        connect::parsed_pairs(conn.relay, pairs) == Ok::<ConnView, ConnErrorView>(conn),
{
}

/// The pairs of a connection string come to that connection string.
proof fn lemma_parsed_pairs(conn: ConnView)
    requires
        well_formed(conn),
    ensures
        connect::parsed_pairs(conn.relay, pairs_in(conn)) == Ok::<ConnView, ConnErrorView>(conn),
{
    lemma_recognized_values(conn);
    lemma_value_in(conn, "v"@);
    lemma_value_in(conn, "wallet_pk"@);
    lemma_value_in(conn, "secret"@);
    lemma_value_in(conn, "token"@);
    lemma_forwarded_in(conn);
    law_version_round_trip(conn.version);
    hex::law_hex_round_trip(conn.wallet_pk);
    hex::law_hex_round_trip(conn.secret);
    lemma_parsed_values(
        conn,
        pairs_in(conn),
        conn.version.decimal_chars(),
        hex::encoded(conn.wallet_pk),
        hex::encoded(conn.secret),
    );
}

/// The query in the URI of `conn` comes apart into its pairs.
proof fn lemma_query_comes_apart(conn: ConnView)
    requires
        well_formed(conn),
    ensures
        text::pieces(text::joined(texts(pairs_in(conn)), '&'), '&') == texts(pairs_in(conn)),
        connect::all_pairs(texts(pairs_in(conn))),
        connect::pairs_of(texts(pairs_in(conn))) == pairs_in(conn),
{
    let pairs = pairs_in(conn);
    let params = texts(pairs);
    lemma_recognized_pairs(conn);
    assert forall|i: int| 0 <= i < pairs.len() implies {
        &&& !(#[trigger] pairs[i]).0.contains('=')
        &&& !pairs[i].0.contains('&')
        &&& !pairs[i].1.contains('&')
    } by {
        lemma_pairs_in(conn, i);
        if i >= recognized_pairs(conn).len() {
            assert(well_formed_pair(conn.relay_params[i - recognized_pairs(conn).len()]));
        }
    }
    assert forall|i: int| 0 <= i < params.len() implies !(#[trigger] params[i]).contains('&') by {
        lemma_pair_text(pairs[i]);
    }
    text::lemma_pieces_joined(params, '&');
    lemma_pairs_of_texts(pairs);
}

/// The URI of a well-formed connection string parses back to it.
proof fn lemma_uri_parses(conn: ConnView)
    requires
        well_formed(conn),
    ensures
        connect::parsed(connect::uri_of(conn)) == Ok::<ConnView, ConnErrorView>(conn),
{
    let query = text::joined(texts(pairs_in(conn)), '&');
    let rest = conn.relay.push('?') + query;
    let uri = connect::uri_of(conn);
    lemma_uri_of(conn);
    assert(uri == "bwc://"@ + rest);
    assert("bwc://"@.is_prefix_of(uri));
    assert(uri.skip("bwc://"@.len() as int) =~= rest);
    text::lemma_cut(conn.relay, '?', query);
    assert(connect::relay_and_query(uri) == Ok::<(Seq<char>, Seq<char>), ConnErrorView>(
        (conn.relay, query),
    ));
    lemma_query_comes_apart(conn);
    lemma_no_unsupported(conn);
    lemma_no_fault(conn, connect::gives_version(texts(pairs_in(conn))));
    lemma_parsed_pairs(conn);
}

/// The params of the query of an accepted URI.
pub open spec fn params_in(uri: Seq<char>) -> Seq<Seq<char>> {
    text::pieces((connect::relay_and_query(uri)->Ok_0).1, '&')
}

/// The value of each pair and its key stand in a param.
proof fn lemma_pair_parts(params: Seq<Seq<char>>, i: int)
    requires
        0 <= i < params.len(),
        connect::all_pairs(params),
        !params[i].contains('&'),
    ensures
        !connect::pairs_of(params)[i].0.contains('='),
        !connect::pairs_of(params)[i].0.contains('&'),
        !connect::pairs_of(params)[i].1.contains('&'),
{
    let param = params[i];
    let (key, value) = connect::pairs_of(params)[i];
    text::lemma_cut_parts(param, '=');
    assert(text::cut(param, '=') == Some((key, value)));
    if key.contains('&') {
        let k = choose|k: int| 0 <= k < key.len() && key[k] == '&';
        assert(param[k] == '&');
    }
    if value.contains('&') {
        let k = choose|k: int| 0 <= k < value.len() && value[k] == '&';
        assert(param[key.len() + 1 + k] == '&');
    }
}

/// What is forwarded is exactly the given pairs whose key BWC does not
/// recognize: none of them is dropped, and neither a token nor any other
/// recognized param is among them.
pub proof fn law_forwarded(pairs: Seq<Pair>, pair: Pair)
    ensures
        connect::forwarded(pairs).contains(pair) <==> pairs.contains(pair)
            && !connect::is_recognized(pair.0),
{
    let kept = |pair: Pair| !connect::is_recognized(pair.0);
    let out = pairs.filter(kept);
    if out.contains(pair) {
        pairs.lemma_filter_contains_rev(kept, pair);
        let i = choose|i: int| 0 <= i < out.len() && out[i] == pair;
        pairs.lemma_filter_pred(kept, i);
    }
    if pairs.contains(pair) && !connect::is_recognized(pair.0) {
        let i = choose|i: int| 0 <= i < pairs.len() && pairs[i] == pair;
        pairs.lemma_filter_contains(kept, i);
    }
}

/// Every accepted URI gives a connection string that the URI format can carry.
pub proof fn law_parsed_is_well_formed(uri: Seq<char>)
    requires
        connect::parsed(uri) is Ok,
    ensures
        well_formed(connect::parsed(uri)->Ok_0),
{
    let conn = connect::parsed(uri)->Ok_0;
    let rest = text::after_prefix(uri, "bwc://"@)->0;
    let params = params_in(uri);
    let pairs = connect::pairs_of(params);
    text::lemma_cut_parts(rest, '?');
    lemma_without_fault(params, connect::gives_version(params));
    text::lemma_pieces((connect::relay_and_query(uri)->Ok_0).1, '&');
    assert forall|i: int| 0 <= i < pairs.len() implies {
        &&& !(#[trigger] pairs[i]).0.contains('=')
        &&& !pairs[i].0.contains('&')
        &&& !pairs[i].1.contains('&')
    } by {
        lemma_pair_parts(params, i);
    }
    lemma_last_value_from(pairs, "token"@);
    assert forall|i: int| 0 <= i < conn.relay_params.len() implies well_formed_pair(
        #[trigger] conn.relay_params[i],
    ) by {
        law_forwarded(pairs, conn.relay_params[i]);
        assert(conn.relay_params.contains(conn.relay_params[i]));
    }
}

/// Parsing gives back what was rendered, for exactly the connection strings
/// that the URI format can carry.
pub proof fn law_uri_round_trip(conn: ConnView)
    ensures
        connect::parsed(connect::uri_of(conn)) == Ok::<ConnView, ConnErrorView>(conn)
            <==> well_formed(conn),
{
    if well_formed(conn) {
        lemma_uri_parses(conn);
    }
    if connect::parsed(connect::uri_of(conn)) == Ok::<ConnView, ConnErrorView>(conn) {
        law_parsed_is_well_formed(connect::uri_of(conn));
    }
}

/// The key of a wallet that puts it into a connection string reaches the client
/// that parses the string.
pub proof fn law_wallet_key_reaches_client(conn: ConnView, wallet_pk: PublicKey)
    requires
        well_formed(conn),
        conn.wallet_pk == wallet_pk@,
    ensures
        connect::parsed(connect::uri_of(conn)) is Ok,
        channel::public_key_of((connect::parsed(connect::uri_of(conn))->Ok_0).wallet_pk) == Ok::<
            Seq<u8>,
            MalformedKey,
        >(wallet_pk@),
{
    lemma_uri_parses(conn);
    channel::law_public_key_round_trip(wallet_pk);
}

/// Rendering what was parsed gives a URI that parses to the same.
pub proof fn law_parsed_renders(uri: Seq<char>)
    requires
        connect::parsed(uri) is Ok,
    ensures
        connect::parsed(connect::uri_of(connect::parsed(uri)->Ok_0)) == connect::parsed(uri),
{
    law_parsed_is_well_formed(uri);
    lemma_uri_parses(connect::parsed(uri)->Ok_0);
}

/// No two connection strings that the URI format can carry have the same URI.
pub proof fn law_uri_is_unambiguous(a: ConnView, b: ConnView)
    requires
        well_formed(a),
        well_formed(b),
        connect::uri_of(a) == connect::uri_of(b),
    ensures
        a == b,
{
    lemma_uri_parses(a);
    lemma_uri_parses(b);
}

/// A URI is refused for its version exactly where a `v` param, wherever it
/// stands, names an unknown one. What the other params hold makes no difference.
pub proof fn law_unknown_version_is_refused(uri: Seq<char>)
    requires
        connect::relay_and_query(uri) is Ok,
    ensures
        (connect::parsed(uri) matches Err(ConnErrorView::UnsupportedVersion(_))) <==> exists|
            i: int,
        |
            0 <= i < params_in(uri).len() && connect::unsupported(
                #[trigger] params_in(uri)[i],
            ) is Some,
{
    lemma_none_unsupported(params_in(uri));
    lemma_first_fault_from(params_in(uri), connect::gives_version(params_in(uri)));
}

/// Of the values of an accepted URI, the version is a known decimal number and
/// the key and the secret are the lowercase hex of their bytes.
pub proof fn law_accepted_values(uri: Seq<char>)
    requires
        connect::parsed(uri) is Ok,
    ensures
        ({
            let conn = connect::parsed(uri)->Ok_0;
            let pairs = connect::pairs_of(params_in(uri));
            &&& conn.relay == (connect::relay_and_query(uri)->Ok_0).0
            &&& connect::last_value(pairs, "v"@) == Some(conn.version.decimal_chars())
            &&& connect::last_value(pairs, "wallet_pk"@) == Some(hex::encoded(conn.wallet_pk))
            &&& connect::last_value(pairs, "secret"@) == Some(hex::encoded(conn.secret))
            &&& connect::last_value(pairs, "token"@) == conn.token
        }),
{
    let conn = connect::parsed(uri)->Ok_0;
    let params = params_in(uri);
    let pairs = connect::pairs_of(params);
    lemma_none_unsupported(params);
    lemma_without_fault(params, connect::gives_version(params));
    lemma_last_value_from(pairs, "v"@);
    lemma_last_value_from(pairs, "wallet_pk"@);
    lemma_last_value_from(pairs, "secret"@);
    let version = connect::last_value(pairs, "v"@)->0;
    let i = choose|i: int| 0 <= i < pairs.len() && pairs[i] == ("v"@, version);
    assert(connect::unsupported(params[i]) is None);
    assert(text::cut(params[i], '=') is Some);
    let wallet_pk = connect::last_value(pairs, "wallet_pk"@)->0;
    let i = choose|i: int| 0 <= i < pairs.len() && pairs[i] == ("wallet_pk"@, wallet_pk);
    assert(connect::bad_hex(pairs[i]) is None);
    hex::law_hex_is_canonical(wallet_pk);
    let secret = connect::last_value(pairs, "secret"@)->0;
    let i = choose|i: int| 0 <= i < pairs.len() && pairs[i] == ("secret"@, secret);
    assert(connect::bad_hex(pairs[i]) is None);
    hex::law_hex_is_canonical(secret);
}

/// Whether two refusals name the same cause. They may quote different values
/// where more than one param gives that cause.
pub open spec fn same_cause(a: ConnErrorView, b: ConnErrorView) -> bool {
    match (a, b) {
        (ConnErrorView::UnsupportedVersion(_), ConnErrorView::UnsupportedVersion(_)) => true,
        (ConnErrorView::BadHex(_), ConnErrorView::BadHex(_)) => true,
        _ => a == b,
    }
}

/// Whether `key` is given no two different values.
pub open spec fn one_value(pairs: Seq<Pair>, key: Seq<char>) -> bool {
    forall|i: int, j: int|
        0 <= i < pairs.len() && 0 <= j < pairs.len() && (#[trigger] pairs[i]).0 == key && (
        #[trigger] pairs[j]).0 == key ==> pairs[i].1 == pairs[j].1
}

/// Sequences with the same multiset hold the same elements.
proof fn lemma_same_elements<A>(a: Seq<A>, b: Seq<A>, x: A)
    requires
        a.to_multiset() == b.to_multiset(),
    ensures
        a.contains(x) <==> b.contains(x),
{
    broadcast use vstd::seq_lib::group_to_multiset_ensures;

    assert(a.contains(x) <==> a.to_multiset().count(x) > 0);
    assert(b.contains(x) <==> b.to_multiset().count(x) > 0);
}

/// The pairs of some params include those of the params in another order.
proof fn lemma_same_pairs(a: Seq<Seq<char>>, b: Seq<Seq<char>>, pair: Pair)
    requires
        a.to_multiset() == b.to_multiset(),
        connect::pairs_of(a).contains(pair),
    ensures
        connect::pairs_of(b).contains(pair),
{
    let i = choose|i: int| 0 <= i < connect::pairs_of(a).len() && connect::pairs_of(a)[i] == pair;
    lemma_same_elements(a, b, a[i]);
    assert(a.contains(a[i]));
    let j = choose|j: int| 0 <= j < b.len() && b[j] == a[i];
    assert(connect::pairs_of(b)[j] == pair);
}

/// A key has a value among some params exactly where it has one among the
/// params in another order, and has the same one where it is given one only.
proof fn lemma_same_value(a: Seq<Seq<char>>, b: Seq<Seq<char>>, key: Seq<char>)
    requires
        a.to_multiset() == b.to_multiset(),
    ensures
        connect::last_value(connect::pairs_of(a), key) is None <==> connect::last_value(
            connect::pairs_of(b),
            key,
        ) is None,
        one_value(connect::pairs_of(a), key) ==> connect::last_value(connect::pairs_of(a), key)
            == connect::last_value(connect::pairs_of(b), key),
{
    let pa = connect::pairs_of(a);
    let pb = connect::pairs_of(b);
    lemma_last_value_from(pa, key);
    lemma_last_value_from(pb, key);
    if let Some(value) = connect::last_value(pa, key) {
        lemma_same_pairs(a, b, (key, value));
    }
    if let Some(value) = connect::last_value(pb, key) {
        lemma_same_pairs(b, a, (key, value));
    }
}

/// What is forwarded of two lists of params is forwarded of each.
proof fn lemma_forwarded_concat(a: Seq<Seq<char>>, b: Seq<Seq<char>>)
    ensures
        connect::forwarded(connect::pairs_of(a + b)) == connect::forwarded(connect::pairs_of(a))
            + connect::forwarded(connect::pairs_of(b)),
{
    let kept = |pair: Pair| !connect::is_recognized(pair.0);
    assert(connect::pairs_of(a + b) =~= connect::pairs_of(a) + connect::pairs_of(b));
    Seq::filter_distributes_over_add(connect::pairs_of(a), connect::pairs_of(b), kept);
}

/// The same pairs are forwarded, whatever the order of the params.
proof fn lemma_same_forwarded(a: Seq<Seq<char>>, b: Seq<Seq<char>>)
    requires
        a.to_multiset() == b.to_multiset(),
    ensures
        connect::forwarded(connect::pairs_of(a)).to_multiset() == connect::forwarded(
            connect::pairs_of(b),
        ).to_multiset(),
    decreases a.len(),
{
    broadcast use vstd::seq_lib::group_to_multiset_ensures;

    assert(a.len() == a.to_multiset().len());
    assert(b.len() == b.to_multiset().len());
    if a.len() == 0 {
        assert(a =~= b);
    } else {
        let x = a.last();
        let init = a.drop_last();
        assert(a.contains(x));
        lemma_same_elements(a, b, x);
        let j = choose|j: int| 0 <= j < b.len() && b[j] == x;
        let left = b.take(j);
        let right = b.skip(j + 1);
        assert(a.remove(a.len() - 1) =~= init);
        assert(b.remove(j) =~= left + right);
        assert(init.to_multiset() == a.to_multiset().remove(x));
        assert((left + right).to_multiset() == b.to_multiset().remove(x));
        lemma_same_forwarded(init, left + right);
        assert(a =~= init + seq![x]);
        assert(b =~= left + (seq![x] + right));
        lemma_forwarded_concat(init, seq![x]);
        lemma_forwarded_concat(left, seq![x] + right);
        lemma_forwarded_concat(seq![x], right);
        lemma_forwarded_concat(left, right);
        let fi = connect::forwarded(connect::pairs_of(init));
        let fx = connect::forwarded(connect::pairs_of(seq![x]));
        let fl = connect::forwarded(connect::pairs_of(left));
        let fr = connect::forwarded(connect::pairs_of(right));
        vstd::seq_lib::lemma_multiset_commutative(fi, fx);
        vstd::seq_lib::lemma_multiset_commutative(fl, fx + fr);
        vstd::seq_lib::lemma_multiset_commutative(fx, fr);
        vstd::seq_lib::lemma_multiset_commutative(fl, fr);
        assert((fi + fx).to_multiset() =~= (fl + (fx + fr)).to_multiset());
    }
}

/// Whether two params are faulty for different causes. Which of them is reported
/// is then a matter of order.
pub open spec fn has_mixed_faults(params: Seq<Seq<char>>) -> bool {
    let versioned = connect::gives_version(params);
    exists|i: int, j: int|
        0 <= i < params.len() && 0 <= j < params.len() && (connect::fault(
            #[trigger] params[i],
            versioned,
        ) matches Some(x) && connect::fault(#[trigger] params[j], versioned) matches Some(y)
            && !same_cause(x, y))
}

/// Whether two lists of params in different orders come to the same. A field
/// whose param is given different values is left open, as the last one counts,
/// and so is which of two faults of different causes is reported, as the first
/// one counts.
pub open spec fn same_outcome(relay: Seq<char>, a: Seq<Seq<char>>, b: Seq<Seq<char>>) -> bool {
    match (connect::parsed_params(relay, a), connect::parsed_params(relay, b)) {
        (Ok(x), Ok(y)) => {
            let pairs = connect::pairs_of(a);
            &&& x.relay == y.relay
            &&& one_value(pairs, "v"@) ==> x.version == y.version
            &&& one_value(pairs, "wallet_pk"@) ==> x.wallet_pk == y.wallet_pk
            &&& one_value(pairs, "secret"@) ==> x.secret == y.secret
            &&& one_value(pairs, "token"@) ==> x.token == y.token
            &&& x.relay_params.to_multiset() == y.relay_params.to_multiset()
        },
        (Err(x), Err(y)) => connect::first_unsupported(a) is Some || !has_mixed_faults(a)
            ==> same_cause(x, y),
        _ => false,
    }
}

/// Params are order-independent.
pub proof fn law_params_are_order_independent(
    relay: Seq<char>,
    a: Seq<Seq<char>>,
    b: Seq<Seq<char>>,
)
    requires
        a.to_multiset() == b.to_multiset(),
    ensures
        same_outcome(relay, a, b),
{
    lemma_same_refusals(a, b);
    lemma_same_refusals(b, a);
    lemma_same_value(a, b, "v"@);
    lemma_same_value(a, b, "wallet_pk"@);
    lemma_same_value(a, b, "secret"@);
    lemma_same_value(a, b, "token"@);
    lemma_same_forwarded(a, b);
    if !has_mixed_faults(a) && connect::first_fault(a, connect::gives_version(a)) is Some {
        lemma_same_fault(a, b);
    }
}

/// Whatever stands among the params in another order stands among them.
proof fn lemma_found_again(a: Seq<Seq<char>>, b: Seq<Seq<char>>)
    requires
        a.to_multiset() == b.to_multiset(),
    ensures
        forall|j: int| 0 <= j < b.len() ==> a.contains(#[trigger] b[j]),
{
    assert forall|j: int| 0 <= j < b.len() implies a.contains(#[trigger] b[j]) by {
        assert(b.contains(b[j]));
        lemma_same_elements(a, b, b[j]);
    }
}

/// Params that give no cause for refusal by themselves give none in another
/// order, and a version that is given stays given.
proof fn lemma_same_refusals(a: Seq<Seq<char>>, b: Seq<Seq<char>>)
    requires
        a.to_multiset() == b.to_multiset(),
    ensures
        connect::first_unsupported(a) is None ==> connect::first_unsupported(b) is None,
        connect::gives_version(b) ==> connect::gives_version(a),
        forall|versioned: bool|
            connect::first_fault(a, versioned) is None ==> #[trigger] connect::first_fault(
                b,
                versioned,
            ) is None,
{
    lemma_none_unsupported(a);
    lemma_none_unsupported(b);
    lemma_found_again(a, b);
    if connect::gives_version(b) {
        let j = choose|j: int| 0 <= j < b.len() && connect::is_version(#[trigger] b[j]);
        let i = choose|i: int| 0 <= i < a.len() && a[i] == b[j];
        assert(connect::is_version(a[i]));
    }
    assert forall|versioned: bool|
        connect::first_fault(a, versioned) is None implies #[trigger] connect::first_fault(
        b,
        versioned,
    ) is None by {
        lemma_none_faulty(a, versioned);
        lemma_none_faulty(b, versioned);
    }
}

/// Where all faults have one cause, the first fault has that cause in every
/// order.
proof fn lemma_same_fault(a: Seq<Seq<char>>, b: Seq<Seq<char>>)
    requires
        a.to_multiset() == b.to_multiset(),
        !has_mixed_faults(a),
        connect::first_fault(a, connect::gives_version(a)) is Some,
        connect::first_fault(b, connect::gives_version(a)) is Some,
    ensures
        same_cause(
            connect::first_fault(a, connect::gives_version(a))->0,
            connect::first_fault(b, connect::gives_version(a))->0,
        ),
{
    let versioned = connect::gives_version(a);
    let x = connect::first_fault(a, versioned)->0;
    let y = connect::first_fault(b, versioned)->0;
    lemma_first_fault_from(a, versioned);
    lemma_first_fault_from(b, versioned);
    let i = choose|i: int|
        0 <= i < a.len() && connect::fault(#[trigger] a[i], versioned) == Some(x);
    let j = choose|j: int|
        0 <= j < b.len() && connect::fault(#[trigger] b[j], versioned) == Some(y);
    lemma_found_again(a, b);
    let k = choose|k: int| 0 <= k < a.len() && a[k] == b[j];
    assert(connect::fault(a[k], versioned) == Some(y));
}

/// The params that a URI carries for `conn`, in order.
pub open spec fn rendered_pairs(conn: ConnView) -> Seq<Pair> {
    seq![
        ("v"@, version_digit(conn.version)),
        ("wallet_pk"@, hex::encoded(conn.wallet_pk)),
        ("secret"@, hex::encoded(conn.secret)),
    ] + (match conn.token {
        Some(token) => seq![("token"@, token)],
        None => seq![],
    }) + conn.relay_params
}

/// A URI is `bwc://`, the relay, `?`, and the params joined by `&`: the
/// version, the wallet key and the secret, the token if there is one, and the
/// relay params.
pub proof fn law_rendered_as(conn: ConnView)
    ensures
        connect::uri_of(conn) == "bwc://"@ + conn.relay + "?"@ + text::joined(
            texts(rendered_pairs(conn)),
            '&',
        ),
{
    lemma_uri_of(conn);
    reveal_strlit("?");
    assert("?"@ =~= seq!['?']);
    assert(rendered_pairs(conn) =~= recognized_pairs(conn) + conn.relay_params);
    let query = text::joined(texts(rendered_pairs(conn)), '&');
    assert("bwc://"@ + (conn.relay.push('?') + query) =~= "bwc://"@ + conn.relay + "?"@ + query);
}

/// Which values name a version, and the number of each.
pub proof fn law_versions(s: Seq<char>, version: Version)
    ensures
        connect::version_of(s) == Some(version) <==> s == version_digit(version),
        version.decimal_chars() == version_digit(version),
        Version::V1.number() == 1,
        Version::V2.number() == 2,
        version_digit(version) == text::decimal_chars(version.number() as nat),
{
    reveal_strlit("1");
    reveal_strlit("2");
    assert("1"@[0] != "2"@[0]);
    assert("1"@ =~= seq!['1']);
    assert("2"@ =~= seq!['2']);
}

/// Whether `value` is the last that is given to `key`.
pub open spec fn is_last_value(pairs: Seq<Pair>, key: Seq<char>, value: Seq<char>) -> bool {
    exists|i: int|
        0 <= i < pairs.len() && #[trigger] pairs[i] == (key, value) && forall|j: int|
            i < j < pairs.len() ==> (#[trigger] pairs[j]).0 != key
}

/// Whether `key` is given no value.
pub open spec fn is_absent(pairs: Seq<Pair>, key: Seq<char>) -> bool {
    forall|i: int| 0 <= i < pairs.len() ==> (#[trigger] pairs[i]).0 != key
}

/// Whether a pair can stand in the query of an accepted URI.
pub open spec fn is_acceptable(pair: Pair) -> bool {
    &&& !pair.0.contains('=')
    &&& !pair.0.contains('&')
    &&& !pair.1.contains('&')
    &&& pair.0 == "v"@ ==> pair.1 == "1"@ || pair.1 == "2"@
    &&& pair.0 == "wallet_pk"@ || pair.0 == "secret"@ ==> hex::decoded(pair.1) is Ok
}

/// Whether `uri` is `bwc://<relay>?<key>=<value>&...` with these pairs, and
/// `conn` is what they say: the version, the key, the secret and the token are
/// the last ones given, and the pairs with other keys are forwarded.
pub open spec fn says(uri: Seq<char>, pairs: Seq<Pair>, conn: ConnView) -> bool {
    &&& pairs.len() > 0
    &&& uri == "bwc://"@ + conn.relay + "?"@ + text::joined(texts(pairs), '&')
    &&& !conn.relay.contains('?')
    &&& forall|i: int| 0 <= i < pairs.len() ==> is_acceptable(#[trigger] pairs[i])
    &&& is_last_value(pairs, "v"@, version_digit(conn.version))
    &&& is_last_value(pairs, "wallet_pk"@, hex::encoded(conn.wallet_pk))
    &&& is_last_value(pairs, "secret"@, hex::encoded(conn.secret))
    &&& match conn.token {
        Some(token) => is_last_value(pairs, "token"@, token),
        None => is_absent(pairs, "token"@),
    }
    &&& conn.relay_params == pairs.filter(|pair: Pair| !is_bwc_key(pair.0))
}

/// The last value of a key is the one that no later pair overrides.
proof fn lemma_last_value(pairs: Seq<Pair>, key: Seq<char>)
    ensures
        match connect::last_value(pairs, key) {
            Some(value) => is_last_value(pairs, key, value),
            None => is_absent(pairs, key),
        },
    decreases pairs.len(),
{
    if pairs.len() > 0 {
        let init = pairs.drop_last();
        let n = pairs.len() - 1;
        lemma_last_value(init, key);
        if pairs[n].0 == key {
            assert(pairs[n] == (key, pairs[n].1));
        } else {
            match connect::last_value(init, key) {
                Some(value) => {
                    let i = choose|i: int|
                        0 <= i < init.len() && #[trigger] init[i] == (key, value) && forall|j: int|
                            i < j < init.len() ==> (#[trigger] init[j]).0 != key;
                    assert(pairs[i] == (key, value));
                    assert forall|j: int| i < j < pairs.len() implies (
                    #[trigger] pairs[j]).0 != key by {
                        if j < n {
                            assert(pairs[j] == init[j]);
                        }
                    }
                },
                None => {
                    assert forall|j: int| 0 <= j < pairs.len() implies (
                    #[trigger] pairs[j]).0 != key by {
                        if j < n {
                            assert(pairs[j] == init[j]);
                        }
                    }
                },
            }
        }
    }
}

/// A key has one last value.
proof fn lemma_one_last_value(pairs: Seq<Pair>, key: Seq<char>, a: Seq<char>, b: Seq<char>)
    requires
        is_last_value(pairs, key, a),
        is_last_value(pairs, key, b),
    ensures
        a == b,
{
    let i = choose|i: int|
        0 <= i < pairs.len() && #[trigger] pairs[i] == (key, a) && forall|j: int|
            i < j < pairs.len() ==> (#[trigger] pairs[j]).0 != key;
    let k = choose|k: int|
        0 <= k < pairs.len() && #[trigger] pairs[k] == (key, b) && forall|j: int|
            k < j < pairs.len() ==> (#[trigger] pairs[j]).0 != key;
    assert(pairs[i].0 == key);
    assert(pairs[k].0 == key);
}

/// The last value of a key, found.
proof fn lemma_last_value_is(pairs: Seq<Pair>, key: Seq<char>, value: Seq<char>)
    requires
        is_last_value(pairs, key, value),
    ensures
        connect::last_value(pairs, key) == Some(value),
{
    lemma_last_value(pairs, key);
    let i = choose|i: int|
        0 <= i < pairs.len() && #[trigger] pairs[i] == (key, value) && forall|j: int|
            i < j < pairs.len() ==> (#[trigger] pairs[j]).0 != key;
    assert(pairs[i].0 == key);
    if let Some(found) = connect::last_value(pairs, key) {
        lemma_one_last_value(pairs, key, value, found);
    }
}

/// What is forwarded, by the four keys that are not.
proof fn lemma_forwarded_is(pairs: Seq<Pair>)
    ensures
        connect::forwarded(pairs) == pairs.filter(|pair: Pair| !is_bwc_key(pair.0)),
{
    let a = |pair: Pair| !connect::is_recognized(pair.0);
    let b = |pair: Pair| !is_bwc_key(pair.0);
    assert(a =~= b);
}

/// The relay and the query of a URI, put together again.
proof fn lemma_uri_parts(uri: Seq<char>)
    ensures
        match connect::relay_and_query(uri) {
            Ok((relay, query)) => !relay.contains('?') && uri == "bwc://"@ + relay + "?"@ + query,
            Err(ConnErrorView::NotBwcUri) => !"bwc://"@.is_prefix_of(uri),
            Err(ConnErrorView::MissingQuery) => "bwc://"@.is_prefix_of(uri) && !uri.skip(
                6,
            ).contains('?'),
            Err(_) => false,
        },
{
    reveal_strlit("bwc://");
    reveal_strlit("?");
    assert("?"@ =~= seq!['?']);
    text::law_after_prefix(uri, "bwc://"@);
    if let Some(rest) = text::after_prefix(uri, "bwc://"@) {
        text::law_cut(rest, '?');
        assert(uri.skip(6) =~= rest);
        if let Some((relay, query)) = text::cut(rest, '?') {
            assert(uri =~= "bwc://"@ + relay + "?"@ + query);
        }
    }
}

/// A URI comes apart where it was put together.
proof fn lemma_uri_comes_apart(relay: Seq<char>, params: Seq<Seq<char>>)
    requires
        !relay.contains('?'),
        params.len() > 0,
        forall|i: int| 0 <= i < params.len() ==> !(#[trigger] params[i]).contains('&'),
    ensures
        connect::parsed("bwc://"@ + relay + "?"@ + text::joined(params, '&'))
            == connect::parsed_params(relay, params),
{
    let query = text::joined(params, '&');
    let uri = "bwc://"@ + relay + "?"@ + query;
    reveal_strlit("?");
    assert("?"@ =~= seq!['?']);
    let rest = relay.push('?') + query;
    assert(uri =~= "bwc://"@ + rest);
    assert("bwc://"@.is_prefix_of(uri));
    assert(uri.skip("bwc://"@.len() as int) =~= rest);
    text::lemma_cut(relay, '?', query);
    text::lemma_pieces_joined(params, '&');
}

/// The pairs of params that are all pairs are what the params are made of.
proof fn lemma_texts_of_pairs(params: Seq<Seq<char>>)
    requires
        connect::all_pairs(params),
    ensures
        texts(connect::pairs_of(params)) == params,
{
    let pairs = connect::pairs_of(params);
    assert forall|i: int| 0 <= i < params.len() implies texts(pairs)[i] == params[i] by {
        assert(text::cut(params[i], '=') is Some);
        text::lemma_cut_parts(params[i], '=');
    }
    assert(texts(pairs) =~= params);
}

/// An accepted URI says what it is taken to say.
proof fn lemma_accepted_says(uri: Seq<char>)
    requires
        connect::parsed(uri) is Ok,
    ensures
        says(uri, connect::pairs_of(params_in(uri)), connect::parsed(uri)->Ok_0),
{
    let conn = connect::parsed(uri)->Ok_0;
    let params = params_in(uri);
    let pairs = connect::pairs_of(params);
    let query = (connect::relay_and_query(uri)->Ok_0).1;
    lemma_uri_parts(uri);
    text::law_pieces(query, '&');
    lemma_without_fault(params, connect::gives_version(params));
    lemma_texts_of_pairs(params);
    lemma_none_unsupported(params);
    assert forall|i: int| 0 <= i < pairs.len() implies is_acceptable(#[trigger] pairs[i]) by {
        lemma_pair_parts(params, i);
        assert(text::cut(params[i], '=') is Some);
        assert(connect::unsupported(params[i]) is None);
        assert(connect::bad_hex(pairs[i]) is None);
    }
    law_accepted_values(uri);
    law_versions("1"@, conn.version);
    lemma_last_value(pairs, "v"@);
    lemma_last_value(pairs, "wallet_pk"@);
    lemma_last_value(pairs, "secret"@);
    lemma_last_value(pairs, "token"@);
    lemma_forwarded_is(pairs);
}

/// What a URI says is what it is accepted as.
proof fn lemma_says_accepted(uri: Seq<char>, pairs: Seq<Pair>, conn: ConnView)
    requires
        says(uri, pairs, conn),
    ensures
        connect::parsed(uri) == Ok::<ConnView, ConnErrorView>(conn),
{
    let params = texts(pairs);
    assert forall|i: int| 0 <= i < pairs.len() implies {
        &&& !(#[trigger] pairs[i]).0.contains('=')
        &&& !pairs[i].0.contains('&')
        &&& !pairs[i].1.contains('&')
    } by {
        assert(is_acceptable(pairs[i]));
    }
    assert forall|i: int| 0 <= i < params.len() implies !(#[trigger] params[i]).contains('&') by {
        lemma_pair_text(pairs[i]);
    }
    lemma_uri_comes_apart(conn.relay, params);
    lemma_pairs_of_texts(pairs);
    let versioned = connect::gives_version(params);
    assert forall|i: int| 0 <= i < params.len() implies connect::fault(
        #[trigger] params[i],
        versioned,
    ) is None && connect::unsupported(params[i]) is None by {
        assert(is_acceptable(pairs[i]));
        assert(connect::pairs_of(params)[i] == pairs[i]);
        assert(text::cut(params[i], '=') == Some(pairs[i]));
    }
    lemma_none_faulty(params, versioned);
    lemma_none_unsupported(params);
    lemma_last_value_is(pairs, "v"@, version_digit(conn.version));
    lemma_last_value_is(pairs, "wallet_pk"@, hex::encoded(conn.wallet_pk));
    lemma_last_value_is(pairs, "secret"@, hex::encoded(conn.secret));
    match conn.token {
        Some(token) => lemma_last_value_is(pairs, "token"@, token),
        None => lemma_last_value_from(pairs, "token"@),
    }
    lemma_forwarded_is(pairs);
    law_versions(version_digit(conn.version), conn.version);
    hex::law_hex_round_trip(conn.wallet_pk);
    hex::law_hex_round_trip(conn.secret);
    lemma_parsed_values(
        conn,
        pairs,
        version_digit(conn.version),
        hex::encoded(conn.wallet_pk),
        hex::encoded(conn.secret),
    );
}

/// A URI is accepted as exactly what it says: it is `bwc://`, a relay without
/// `?`, `?`, and pairs joined by `&`, each acceptable, and `conn` holds the last
/// version, key, secret and token given and forwards all other pairs.
pub proof fn law_accepted_exactly(uri: Seq<char>, conn: ConnView)
    ensures
        connect::parsed(uri) == Ok::<ConnView, ConnErrorView>(conn) <==> exists|pairs: Seq<Pair>|
            says(uri, pairs, conn),
{
    if connect::parsed(uri) == Ok::<ConnView, ConnErrorView>(conn) {
        lemma_accepted_says(uri);
    }
    if exists|pairs: Seq<Pair>| says(uri, pairs, conn) {
        let pairs = choose|pairs: Seq<Pair>| says(uri, pairs, conn);
        lemma_says_accepted(uri, pairs, conn);
    }
}

/// Only a URI that starts with `bwc://` and holds a `?` after that is accepted,
/// with what stands between as the relay.
pub proof fn law_only_bwc_uris(uri: Seq<char>)
    requires
        connect::parsed(uri) is Ok,
    ensures
        ("bwc://"@ + (connect::parsed(uri)->Ok_0).relay + "?"@).is_prefix_of(uri),
        "bwc://"@.is_prefix_of(uri),
        !(connect::parsed(uri)->Ok_0).relay.contains('?'),
{
    let conn = connect::parsed(uri)->Ok_0;
    lemma_accepted_says(uri);
    let head = "bwc://"@ + conn.relay + "?"@;
    let query = text::joined(texts(connect::pairs_of(params_in(uri))), '&');
    assert(uri =~= head + query);
}

/// Whether a param is a `v` param with an unknown version.
pub open spec fn names_unknown(param: Seq<char>) -> bool {
    "v="@.is_prefix_of(param) && param.skip(2) != "1"@ && param.skip(2) != "2"@
}

/// Why a param is no hex, where it starts with `start`, which ends in `=`.
pub open spec fn hex_error_after(param: Seq<char>, start: Seq<char>) -> Option<hex::HexError> {
    if start.is_prefix_of(param) {
        match hex::decoded(param.skip(start.len() as int)) {
            Ok(_) => None,
            Err(e) => Some(e),
        }
    } else {
        None
    }
}

/// Whether a param holds `=`, and hex where it is a key or a secret.
pub open spec fn is_fine(param: Seq<char>) -> bool {
    &&& param.contains('=')
    &&& hex_error_after(param, "wallet_pk="@) is None
    &&& hex_error_after(param, "secret="@) is None
}

/// Whether `i` is the first param that is not fine.
pub open spec fn is_first_fault(params: Seq<Seq<char>>, i: int) -> bool {
    &&& 0 <= i < params.len()
    &&& !is_fine(params[i])
    &&& forall|j: int| 0 <= j < i ==> is_fine(#[trigger] params[j])
}

/// Whether a param starts with `start`.
pub open spec fn some_starts_with(params: Seq<Seq<char>>, start: Seq<char>) -> bool {
    exists|i: int| 0 <= i < params.len() && start.is_prefix_of(#[trigger] params[i])
}

/// Whether these params are a cause for `e`.
pub open spec fn is_cause(params: Seq<Seq<char>>, e: ConnErrorView) -> bool {
    let known = forall|i: int| 0 <= i < params.len() ==> !names_unknown(#[trigger] params[i]);
    let fine = forall|i: int| 0 <= i < params.len() ==> is_fine(#[trigger] params[i]);
    match e {
        ConnErrorView::NotBwcUri | ConnErrorView::MissingQuery => false,
        ConnErrorView::UnsupportedVersion(value) => exists|i: int|
            0 <= i < params.len() && names_unknown(#[trigger] params[i]) && params[i].skip(2)
                == value && forall|j: int| 0 <= j < i ==> !names_unknown(#[trigger] params[j]),
        ConnErrorView::MalformedParam => known && exists|i: int| #[trigger]
            is_first_fault(params, i) && !params[i].contains('='),
        ConnErrorView::BadHex(error) => known && exists|i: int| #[trigger]
            is_first_fault(params, i) && (hex_error_after(params[i], "secret="@) == Some(error) || (
            hex_error_after(params[i], "wallet_pk="@) == Some(error) && some_starts_with(
                params,
                "v="@,
            ))),
        ConnErrorView::MissingVersion => known && !some_starts_with(params, "v="@) && (fine
            || exists|i: int| #[trigger]
            is_first_fault(params, i) && hex_error_after(params[i], "wallet_pk="@) is Some),
        ConnErrorView::MissingWalletPk => known && fine && some_starts_with(params, "v="@)
            && !some_starts_with(params, "wallet_pk="@),
        ConnErrorView::MissingSecret => known && fine && some_starts_with(params, "v="@)
            && some_starts_with(params, "wallet_pk="@) && !some_starts_with(params, "secret="@),
    }
}

/// A param has a key exactly where it starts with the key and `=`, and its
/// value is the rest.
proof fn lemma_starts_with(param: Seq<char>, key: Seq<char>, start: Seq<char>)
    requires
        !key.contains('='),
        start == key.push('='),
    ensures
        (text::cut(param, '=') matches Some((k, v)) && k == key) <==> start.is_prefix_of(param),
        start.is_prefix_of(param) ==> text::cut(param, '=') == Some(
            (key, param.skip(start.len() as int)),
        ),
{
    text::lemma_cut_parts(param, '=');
    if let Some((k, v)) = text::cut(param, '=') {
        if k == key {
            assert(start =~= param.take(start.len() as int));
        }
    }
    if start.is_prefix_of(param) {
        let value = param.skip(start.len() as int);
        assert(param =~= key.push('=') + value);
        text::lemma_cut(key, '=', value);
    }
}

/// What a param is, by how it starts.
proof fn lemma_param(param: Seq<char>, versioned: bool)
    ensures
        connect::unsupported(param) is Some <==> names_unknown(param),
        names_unknown(param) ==> connect::unsupported(param) == Some(param.skip(2)),
        connect::is_version(param) <==> "v="@.is_prefix_of(param),
        connect::fault(param, versioned) is None <==> is_fine(param),
        match connect::fault(param, versioned) {
            None => true,
            Some(ConnErrorView::MalformedParam) => !param.contains('='),
            Some(ConnErrorView::BadHex(e)) => hex_error_after(param, "secret="@) == Some(e) || (
            versioned && hex_error_after(param, "wallet_pk="@) == Some(e)),
            Some(ConnErrorView::MissingVersion) => !versioned && hex_error_after(
                param,
                "wallet_pk="@,
            ) is Some,
            Some(_) => false,
        },
{
    reveal_strlit("v");
    reveal_strlit("v=");
    reveal_strlit("wallet_pk");
    reveal_strlit("wallet_pk=");
    reveal_strlit("secret");
    reveal_strlit("secret=");
    assert("v="@ =~= "v"@.push('='));
    assert("wallet_pk="@ =~= "wallet_pk"@.push('='));
    assert("secret="@ =~= "secret"@.push('='));
    connect::lemma_keys_differ();
    lemma_starts_with(param, "v"@, "v="@);
    lemma_starts_with(param, "wallet_pk"@, "wallet_pk="@);
    lemma_starts_with(param, "secret"@, "secret="@);
    text::lemma_cut_parts(param, '=');
}

/// The first unsupported version is the first in order.
proof fn lemma_first_unsupported_at(params: Seq<Seq<char>>)
    ensures
        connect::first_unsupported(params) matches Some(value) ==> exists|i: int|
            0 <= i < params.len() && connect::unsupported(#[trigger] params[i]) == Some(value)
                && forall|j: int|
                0 <= j < i ==> connect::unsupported(#[trigger] params[j]) is None,
    decreases params.len(),
{
    if params.len() > 0 {
        let init = params.drop_last();
        let n = params.len() - 1;
        lemma_first_unsupported_at(init);
        lemma_none_unsupported(init);
        if let Some(value) = connect::first_unsupported(init) {
            let i = choose|i: int|
                0 <= i < init.len() && connect::unsupported(#[trigger] init[i]) == Some(value)
                    && forall|j: int|
                    0 <= j < i ==> connect::unsupported(#[trigger] init[j]) is None;
            assert(connect::unsupported(params[i]) == Some(value));
            assert forall|j: int| 0 <= j < i implies connect::unsupported(
                #[trigger] params[j],
            ) is None by {
                assert(init[j] == params[j]);
            }
        } else if let Some(value) = connect::first_unsupported(params) {
            assert(connect::unsupported(params[n]) == Some(value));
            assert forall|j: int| 0 <= j < n implies connect::unsupported(
                #[trigger] params[j],
            ) is None by {
                assert(init[j] == params[j]);
            }
        }
    }
}

/// The first fault is the first in order.
proof fn lemma_first_fault_at(params: Seq<Seq<char>>, versioned: bool)
    ensures
        connect::first_fault(params, versioned) matches Some(e) ==> exists|i: int|
            0 <= i < params.len() && connect::fault(#[trigger] params[i], versioned) == Some(e)
                && forall|j: int|
                0 <= j < i ==> connect::fault(#[trigger] params[j], versioned) is None,
    decreases params.len(),
{
    if params.len() > 0 {
        let init = params.drop_last();
        let n = params.len() - 1;
        lemma_first_fault_at(init, versioned);
        lemma_none_faulty(init, versioned);
        if let Some(e) = connect::first_fault(init, versioned) {
            let i = choose|i: int|
                0 <= i < init.len() && connect::fault(#[trigger] init[i], versioned) == Some(e)
                    && forall|j: int|
                    0 <= j < i ==> connect::fault(#[trigger] init[j], versioned) is None;
            assert(connect::fault(params[i], versioned) == Some(e));
            assert forall|j: int| 0 <= j < i implies connect::fault(
                #[trigger] params[j],
                versioned,
            ) is None by {
                assert(init[j] == params[j]);
            }
        } else if let Some(e) = connect::first_fault(params, versioned) {
            assert(connect::fault(params[n], versioned) == Some(e));
            assert forall|j: int| 0 <= j < n implies connect::fault(
                #[trigger] params[j],
                versioned,
            ) is None by {
                assert(init[j] == params[j]);
            }
        }
    }
}

/// A key is given a value exactly where a param starts with it.
proof fn lemma_given(params: Seq<Seq<char>>, key: Seq<char>, start: Seq<char>)
    requires
        connect::all_pairs(params),
        !key.contains('='),
        start == key.push('='),
    ensures
        connect::last_value(connect::pairs_of(params), key) is Some <==> some_starts_with(
            params,
            start,
        ),
{
    let pairs = connect::pairs_of(params);
    lemma_last_value(pairs, key);
    if let Some(value) = connect::last_value(pairs, key) {
        let i = choose|i: int| 0 <= i < pairs.len() && #[trigger] pairs[i] == (key, value);
        assert(text::cut(params[i], '=') is Some);
        lemma_starts_with(params[i], key, start);
    }
    if some_starts_with(params, start) {
        let i = choose|i: int| 0 <= i < params.len() && start.is_prefix_of(#[trigger] params[i]);
        lemma_starts_with(params[i], key, start);
        assert(pairs[i].0 == key);
    }
}

/// Params are refused for what they hold.
proof fn lemma_cause(relay: Seq<char>, params: Seq<Seq<char>>)
    requires
        connect::parsed_params(relay, params) is Err,
    ensures
        is_cause(params, connect::parsed_params(relay, params)->Err_0),
{
    let e = connect::parsed_params(relay, params)->Err_0;
    let versioned = connect::gives_version(params);
    assert forall|i: int| 0 <= i < params.len() implies {
        &&& connect::unsupported(#[trigger] params[i]) is Some <==> names_unknown(params[i])
        &&& names_unknown(params[i]) ==> connect::unsupported(params[i]) == Some(
            params[i].skip(2),
        )
        &&& connect::is_version(params[i]) <==> "v="@.is_prefix_of(params[i])
        &&& connect::fault(params[i], versioned) is None <==> is_fine(params[i])
    } by {
        lemma_param(params[i], versioned);
    }
    lemma_none_unsupported(params);
    lemma_none_faulty(params, versioned);
    assert(versioned <==> some_starts_with(params, "v="@)) by {
        if versioned {
            let i = choose|i: int|
                0 <= i < params.len() && connect::is_version(#[trigger] params[i]);
            assert("v="@.is_prefix_of(params[i]));
        }
        if some_starts_with(params, "v="@) {
            let i = choose|i: int|
                0 <= i < params.len() && "v="@.is_prefix_of(#[trigger] params[i]);
            assert(connect::is_version(params[i]));
        }
    }
    if connect::first_unsupported(params) is Some {
        lemma_first_unsupported_at(params);
        let value = connect::first_unsupported(params)->0;
        let i = choose|i: int|
            0 <= i < params.len() && connect::unsupported(#[trigger] params[i]) == Some(value)
                && forall|j: int|
                0 <= j < i ==> connect::unsupported(#[trigger] params[j]) is None;
        assert(names_unknown(params[i]));
        assert forall|j: int| 0 <= j < i implies !names_unknown(#[trigger] params[j]) by {
            assert(connect::unsupported(params[j]) is None);
        }
    } else {
        assert forall|i: int| 0 <= i < params.len() implies !names_unknown(
            #[trigger] params[i],
        ) by {
            assert(connect::unsupported(params[i]) is None);
        }
        if connect::first_fault(params, versioned) is Some {
            lemma_first_fault_at(params, versioned);
            let i = choose|i: int|
                0 <= i < params.len() && connect::fault(#[trigger] params[i], versioned) == Some(e)
                    && forall|j: int|
                    0 <= j < i ==> connect::fault(#[trigger] params[j], versioned) is None;
            lemma_param(params[i], versioned);
            assert forall|j: int| 0 <= j < i implies is_fine(#[trigger] params[j]) by {
                assert(connect::fault(params[j], versioned) is None);
            }
            assert(is_first_fault(params, i));
        } else {
            lemma_without_fault(params, versioned);
            reveal_strlit("v");
            reveal_strlit("v=");
            reveal_strlit("wallet_pk");
            reveal_strlit("wallet_pk=");
            reveal_strlit("secret");
            reveal_strlit("secret=");
            assert("v="@ =~= "v"@.push('='));
            assert("wallet_pk="@ =~= "wallet_pk"@.push('='));
            assert("secret="@ =~= "secret"@.push('='));
            lemma_given(params, "v"@, "v="@);
            lemma_given(params, "wallet_pk"@, "wallet_pk="@);
            lemma_given(params, "secret"@, "secret="@);
        }
    }
}

/// A URI is refused only for a cause that it holds: it does not start with
/// `bwc://`; it holds no `?` after that; or, in this order, a `v` param names an
/// unknown version; the first param that is not fine is malformed or bad hex, or
/// is a wallet key without a version; or the version, the wallet key or the
/// secret is missing.
pub proof fn law_refused_for_a_cause(uri: Seq<char>)
    requires
        connect::parsed(uri) is Err,
    ensures
        match connect::parsed(uri)->Err_0 {
            ConnErrorView::NotBwcUri => !"bwc://"@.is_prefix_of(uri),
            ConnErrorView::MissingQuery => "bwc://"@.is_prefix_of(uri) && !uri.skip(6).contains(
                '?',
            ),
            e => exists|relay: Seq<char>, params: Seq<Seq<char>>|
                is_split(uri, relay, params) && is_cause(params, e),
        },
{
    lemma_uri_parts(uri);
    if let Ok((relay, query)) = connect::relay_and_query(uri) {
        let params = text::pieces(query, '&');
        text::law_pieces(query, '&');
        lemma_cause(relay, params);
        assert(is_split(uri, relay, params) && is_cause(params, connect::parsed(uri)->Err_0));
    }
}

/// Whether `uri` is made of `bwc://`, the relay, `?` and the params.
pub open spec fn is_split(uri: Seq<char>, relay: Seq<char>, params: Seq<Seq<char>>) -> bool {
    &&& uri == "bwc://"@ + relay + "?"@ + text::joined(params, '&')
    &&& !relay.contains('?')
    &&& params.len() > 0
    &&& forall|i: int| 0 <= i < params.len() ==> !(#[trigger] params[i]).contains('&')
}

/// What users are told.
pub proof fn law_messages(version: Seq<char>, e: hex::HexError)
    ensures
        ConnErrorView::NotBwcUri.message_chars() == "not a bwc:// URI"@,
        ConnErrorView::MissingQuery.message_chars() == "missing query"@,
        ConnErrorView::UnsupportedVersion(version).message_chars() == "UNSUPPORTED_VERSION: "@
            + version,
        ConnErrorView::MalformedParam.message_chars() == "malformed param"@,
        ConnErrorView::MissingVersion.message_chars() == "missing v"@,
        ConnErrorView::BadHex(e).message_chars() == "bad hex: "@ + e.name_chars(),
        ConnErrorView::MissingWalletPk.message_chars() == "missing wallet_pk"@,
        ConnErrorView::MissingSecret.message_chars() == "missing secret"@,
        hex::HexError::BadOutputLength.name_chars() == "BadOutputLength"@,
        hex::HexError::InvalidCharacter.name_chars() == "InvalidCharacter"@,
        hex::HexError::OddInputLength.name_chars() == "OddInputLength"@,
{
}

/// A view of a connection string holds each field as it is.
pub proof fn law_connection_view(conn: ConnString)
    ensures
        conn@.relay == conn.relay@,
        conn@.version == conn.version,
        conn@.wallet_pk == conn.wallet_pk@,
        conn@.secret == conn.secret@,
        match conn.token {
            Some(token) => conn@.token == Some(token@),
            None => conn@.token is None,
        },
        conn@.relay_params.len() == conn.relay_params@.len(),
        forall|i: int|
            0 <= i < conn.relay_params@.len() ==> (#[trigger] conn@.relay_params[i]) == (
                conn.relay_params@[i].0@,
                conn.relay_params@[i].1@,
            ),
{
}

/// A view of an error says of it what it is.
pub proof fn law_error_view(value: String, e: hex::HexError)
    ensures
        ConnError::NotBwcUri@ == ConnErrorView::NotBwcUri,
        ConnError::MissingQuery@ == ConnErrorView::MissingQuery,
        ConnError::UnsupportedVersion(value)@ == ConnErrorView::UnsupportedVersion(value@),
        ConnError::MalformedParam@ == ConnErrorView::MalformedParam,
        ConnError::MissingVersion@ == ConnErrorView::MissingVersion,
        ConnError::BadHex(e)@ == ConnErrorView::BadHex(e),
        ConnError::MissingWalletPk@ == ConnErrorView::MissingWalletPk,
        ConnError::MissingSecret@ == ConnErrorView::MissingSecret,
{
}

} // verus!
