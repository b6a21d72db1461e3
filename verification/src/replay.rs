//! Replay-protected requests.
//!
//! Inside its seal a request is `nonce(16) || timestamp(8) || body`. The nonce
//! is fresh; the timestamp is the send time in unix seconds, big-endian. The
//! wallet trusts its own clock only: it refuses a request whose timestamp is
//! too far from it, and a nonce that it has seen before. It forgets a nonce
//! once no copy of the request that carried it could pass for fresh.

use crate::channel::{self, HpkeFailure, OpenError, PrivateKey, PublicKey, SealError};
use crate::connect::INFO_REQUEST;
use crate::os;
use crate::rng;
use vstd::prelude::*;
use vstd::string::*;

verus! {

/// Length of a request's nonce.
pub const NONCE_LEN: usize = 16;

/// Length of a request's timestamp.
pub const TS_LEN: usize = 8;

/// How far a request's timestamp may be from the wallet's clock, in seconds.
pub const MAX_CLOCK_SKEW_SECS: u64 = 300;

/// The number that `bytes` stand for, the highest byte first.
pub open spec fn be_value(bytes: Seq<u8>) -> nat
    decreases bytes.len(),
{
    if bytes.len() == 0 {
        0
    } else {
        256 * be_value(bytes.drop_last()) + bytes.last() as nat
    }
}

/// The lowest `len` bytes of `n`, the highest byte first.
pub open spec fn be_bytes(n: nat, len: nat) -> Seq<u8>
    decreases len,
{
    if len == 0 {
        seq![]
    } else {
        be_bytes(n / 256, (len - 1) as nat).push((n % 256) as u8)
    }
}

/// `be_bytes` gives as many bytes as it is asked for.
proof fn lemma_be_bytes_len(n: nat, len: nat)
    ensures
        be_bytes(n, len).len() == len,
    decreases len,
{
    if len > 0 {
        lemma_be_bytes_len(n / 256, (len - 1) as nat);
    }
}

/// The eight bytes of a timestamp stand for it.
proof fn lemma_timestamp(n: u64)
    ensures
        be_bytes(n as nat, 8).len() == 8,
        be_value(be_bytes(n as nat, 8)) == n,
{
    lemma_be_bytes_len(n as nat, 8);
    lemma_be_value(n as nat, 8);
    reveal_with_fuel(high_part, 9);
}

/// What is left of `n` without its lowest `len` bytes.
spec fn high_part(n: nat, len: nat) -> nat
    decreases len,
{
    if len == 0 {
        n
    } else {
        high_part(n / 256, (len - 1) as nat)
    }
}

/// Bytes that hold the whole of a number stand for it.
proof fn lemma_be_value(n: nat, len: nat)
    ensures
        high_part(n, len) == 0 ==> be_value(be_bytes(n, len)) == n,
    decreases len,
{
    if len > 0 {
        lemma_be_value(n / 256, (len - 1) as nat);
        let init = be_bytes(n / 256, (len - 1) as nat);
        assert(be_bytes(n, len).drop_last() =~= init);
    }
}

/// Writes a timestamp.
fn timestamp_bytes(timestamp: u64) -> (out: [u8; 8])
    ensures
        out@ == be_bytes(timestamp as nat, 8),
{
    let mut out: [u8; 8] = [0; 8];
    let mut rest: u64 = timestamp;
    let mut i: usize = 8;
    proof {
        assert(be_bytes(rest as nat, 8) + out@.skip(8) =~= be_bytes(rest as nat, 8));
    }
    while i > 0
        invariant
            i <= 8,
            be_bytes(rest as nat, i as nat) + out@.skip(i as int) == be_bytes(timestamp as nat, 8),
        decreases i,
    {
        let ghost before = be_bytes(rest as nat, i as nat) + out@.skip(i as int);
        i = i - 1;
        out[i] = (rest % 256) as u8;
        proof {
            assert(before =~= be_bytes((rest / 256) as nat, i as nat) + out@.skip(i as int));
        }
        rest = rest / 256;
    }
    proof {
        assert(be_bytes(rest as nat, 0) + out@.skip(0) =~= out@);
    }
    out
}

/// Reads a timestamp.
fn read_timestamp(bytes: &[u8]) -> (timestamp: u64)
    requires
        bytes@.len() == 8,
    ensures
        timestamp == be_value(bytes@),
{
    proof {
        reveal_with_fuel(be_value, 9);
    }
    let high: u64 = bytes[3] as u64 + 256 * (bytes[2] as u64 + 256 * (bytes[1] as u64 + 256 * (
    bytes[0] as u64)));
    bytes[7] as u64 + 256 * (bytes[6] as u64 + 256 * (bytes[5] as u64 + 256 * (bytes[4] as u64 + 256
        * high)))
}

/// The plaintext of a request.
pub open spec fn framed(nonce: Seq<u8>, timestamp: u64, body: Seq<u8>) -> Seq<u8> {
    nonce + be_bytes(timestamp as nat, TS_LEN as nat) + body
}

/// The nonce of a request.
pub open spec fn nonce_of(payload: Seq<u8>) -> Seq<u8> {
    payload.take(NONCE_LEN as int)
}

/// The timestamp of a request.
pub open spec fn timestamp_of(payload: Seq<u8>) -> nat {
    be_value(payload.subrange(NONCE_LEN as int, NONCE_LEN + TS_LEN))
}

/// The body of a request.
pub open spec fn request_body(payload: Seq<u8>) -> Seq<u8> {
    payload.skip(NONCE_LEN + TS_LEN)
}

/// Frames the plaintext of a request: `nonce || timestamp || body`.
pub fn frame(nonce: &[u8; 16], timestamp: u64, body: &[u8]) -> (payload: Vec<u8>)
    ensures
        payload@ == framed(nonce@, timestamp, body@),
{
    let mut payload: Vec<u8> = Vec::new();
    payload.extend_from_slice(nonce);
    payload.extend_from_slice(&timestamp_bytes(timestamp));
    payload.extend_from_slice(body);
    proof {
        assert(payload@ =~= framed(nonce@, timestamp, body@));
    }
    payload
}

/// A framed request comes apart into what it was framed of.
pub proof fn law_frame_round_trip(nonce: Seq<u8>, timestamp: u64, body: Seq<u8>)
    requires
        nonce.len() == NONCE_LEN,
    ensures
        framed(nonce, timestamp, body).len() == NONCE_LEN + TS_LEN + body.len(),
        nonce_of(framed(nonce, timestamp, body)) == nonce,
        timestamp_of(framed(nonce, timestamp, body)) == timestamp,
        request_body(framed(nonce, timestamp, body)) == body,
{
    let payload = framed(nonce, timestamp, body);
    lemma_timestamp(timestamp);
    assert(nonce_of(payload) =~= nonce);
    assert(payload.subrange(NONCE_LEN as int, NONCE_LEN + TS_LEN) =~= be_bytes(
        timestamp as nat,
        8,
    ));
    assert(request_body(payload) =~= body);
}

/// Why a request is refused.
#[derive(Clone, Copy, Debug, PartialEq, Eq, Structural)]
pub enum RequestError {
    /// It is too short for a nonce and a timestamp.
    Malformed,
    /// Its timestamp is too far from the clock.
    ClockSkew,
    /// Its nonce was seen before.
    Replayed,
}

impl RequestError {
    /// The text that tells a user of the error.
    pub open spec fn message_chars(self) -> Seq<char> {
        match self {
            RequestError::Malformed => "malformed request"@,
            RequestError::ClockSkew => "clock skew: timestamp outside the freshness window"@,
            RequestError::Replayed => "replayed: nonce already seen this session"@,
        }
    }

    /// The text that tells a user of the error.
    pub fn message(self) -> (s: &'static str)
        ensures
            s@ == self.message_chars(),
    {
        match self {
            RequestError::Malformed => "malformed request",
            RequestError::ClockSkew => "clock skew: timestamp outside the freshness window",
            RequestError::Replayed => "replayed: nonce already seen this session",
        }
    }
}

/// A nonce and the time at which it was seen.
pub type Sighting = (Seq<u8>, u64);

/// Whether a nonce seen at `at` is still remembered at `now`: for as long as a
/// copy of its request could pass for fresh.
pub open spec fn is_remembered(at: u64, now: u64) -> bool {
    now - at <= 2 * MAX_CLOCK_SKEW_SECS
}

/// The sightings that are still remembered at `now`.
pub open spec fn remembered(seen: Seq<Sighting>, now: u64) -> Seq<Sighting> {
    seen.filter(|sighting: Sighting| is_remembered(sighting.1, now))
}

/// Whether `nonce` is among the sightings.
pub open spec fn has_nonce(seen: Seq<Sighting>, nonce: Seq<u8>) -> bool {
    exists|i: int| 0 <= i < seen.len() && (#[trigger] seen[i]).0 == nonce
}

/// Whether a timestamp is near enough to the clock.
pub open spec fn is_fresh(timestamp: nat, now: u64) -> bool {
    -MAX_CLOCK_SKEW_SECS <= now - timestamp <= MAX_CLOCK_SKEW_SECS
}

/// Why a request is refused at `now`, given the sightings remembered then.
pub open spec fn refusal(seen: Seq<Sighting>, now: u64, payload: Seq<u8>) -> Option<RequestError> {
    if payload.len() < NONCE_LEN + TS_LEN {
        Some(RequestError::Malformed)
    } else if !is_fresh(timestamp_of(payload), now) {
        Some(RequestError::ClockSkew)
    } else if has_nonce(seen, nonce_of(payload)) {
        Some(RequestError::Replayed)
    } else {
        None
    }
}

/// The sightings after a request at `now`: those still remembered, and its own
/// where it is not refused.
pub open spec fn after_request(seen: Seq<Sighting>, now: u64, payload: Seq<u8>) -> Seq<Sighting> {
    let kept = remembered(seen, now);
    match refusal(kept, now, payload) {
        Some(_) => kept,
        None => kept.push((nonce_of(payload), now)),
    }
}

/// Remembers the nonces of the requests that were let through.
pub struct ReplayGuard {
    seen: Vec<([u8; 16], u64)>,
}

impl View for ReplayGuard {
    type V = Seq<Sighting>;

    closed spec fn view(&self) -> Seq<Sighting> {
        sightings(self.seen@)
    }
}

/// What a list of nonces and times says.
pub open spec fn sightings(seen: Seq<([u8; 16], u64)>) -> Seq<Sighting> {
    Seq::new(seen.len(), |i: int| (seen[i].0@, seen[i].1))
}

/// Whether two nonces are the same.
fn same_nonce(a: &[u8; 16], b: &[u8]) -> (r: bool)
    requires
        b@.len() == 16,
    ensures
        r == (a@ == b@),
{
    let mut i: usize = 0;
    while i < 16
        invariant
            i <= 16,
            b@.len() == 16,
            forall|k: int| 0 <= k < i ==> a@[k] == b@[k],
        decreases 16 - i,
    {
        if a[i] != b[i] {
            return false;
        }
        i = i + 1;
    }
    proof {
        assert(a@ =~= b@);
    }
    true
}

/// The first 16 bytes of `bytes`.
fn first_bytes(bytes: &[u8]) -> (nonce: [u8; 16])
    requires
        bytes@.len() >= 16,
    ensures
        nonce@ == bytes@.take(16),
{
    let mut nonce: [u8; 16] = [0; 16];
    let mut i: usize = 0;
    while i < 16
        invariant
            i <= 16,
            bytes@.len() >= 16,
            forall|k: int| 0 <= k < i ==> nonce@[k] == bytes@[k],
        decreases 16 - i,
    {
        nonce[i] = bytes[i];
        i = i + 1;
    }
    proof {
        assert(nonce@ =~= bytes@.take(16));
    }
    nonce
}

impl ReplayGuard {
    /// A guard that has seen nothing.
    pub fn new() -> (r: Self)
        ensures
            r@ == Seq::<Sighting>::empty(),
    {
        let r = ReplayGuard { seen: Vec::new() };
        proof {
            assert(r@ =~= Seq::<Sighting>::empty());
        }
        r
    }

    /// Forgets each nonce of which no copy could pass for fresh at `now` or
    /// later.
    pub fn expire(&mut self, now: u64)
        ensures
            final(self)@ == remembered(old(self)@, now),
    {
        let ghost all = self@;
        let ghost kept_then = |sighting: Sighting| is_remembered(sighting.1, now);
        let mut kept: Vec<([u8; 16], u64)> = Vec::new();
        let mut i: usize = 0;
        proof {
            reveal(Seq::filter);
            assert(sightings(kept@) =~= remembered(all.take(0), now));
        }
        while i < self.seen.len()
            invariant
                i <= self.seen@.len(),
                all == sightings(self.seen@),
                sightings(kept@) == remembered(all.take(i as int), now),
                kept_then == (|sighting: Sighting| is_remembered(sighting.1, now)),
            decreases self.seen@.len() - i,
        {
            let (nonce, at) = self.seen[i];
            proof {
                assert(all.take(i + 1) =~= all.take(i as int).push((nonce@, at)));
                all.take(i as int).lemma_filter_push((nonce@, at), kept_then);
            }
            if now < at || now - at <= 2 * MAX_CLOCK_SKEW_SECS {
                let ghost before = sightings(kept@);
                kept.push((nonce, at));
                proof {
                    assert(sightings(kept@) =~= before.push((nonce@, at)));
                }
            }
            i = i + 1;
        }
        proof {
            assert(all.take(i as int) =~= all);
        }
        self.seen = kept;
    }

    /// Whether `nonce` was seen.
    fn has_seen(&self, nonce: &[u8; 16]) -> (r: bool)
        ensures
            r == has_nonce(self@, nonce@),
    {
        let mut i: usize = 0;
        while i < self.seen.len()
            invariant
                i <= self.seen@.len(),
                forall|k: int| 0 <= k < i ==> (#[trigger] self@[k]).0 != nonce@,
            decreases self.seen@.len() - i,
        {
            if same_nonce(&self.seen[i].0, nonce) {
                proof {
                    assert(self@[i as int].0 == nonce@);
                }
                return true;
            }
            i = i + 1;
        }
        false
    }

    /// Lets a request through, and gives its body, or refuses it. A request
    /// that is let through is remembered.
    pub fn accept(&mut self, now: u64, payload: &[u8]) -> (r: Result<Vec<u8>, RequestError>)
        ensures
            final(self)@ == after_request(old(self)@, now, payload@),
            match r {
                Ok(body) => {
                    &&& refusal(remembered(old(self)@, now), now, payload@) is None
                    &&& body@ == request_body(payload@)
                },
                Err(e) => refusal(remembered(old(self)@, now), now, payload@) == Some(e),
            },
            r matches Ok(body) ==> payload@.len() >= 24 && body@ == payload@.skip(24),
    {
        self.expire(now);
        let ghost kept = self@;
        if payload.len() < NONCE_LEN + TS_LEN {
            return Err(RequestError::Malformed);
        }
        let nonce: [u8; 16] = first_bytes(payload);
        let timestamp: u64 = read_timestamp(
            vstd::slice::slice_subrange(payload, NONCE_LEN, NONCE_LEN + TS_LEN),
        );
        if (if now < timestamp {
            timestamp - now
        } else {
            now - timestamp
        }) > MAX_CLOCK_SKEW_SECS {
            return Err(RequestError::ClockSkew);
        }
        if self.has_seen(&nonce) {
            return Err(RequestError::Replayed);
        }
        self.seen.push((nonce, now));
        proof {
            assert(self@ =~= kept.push((nonce@, now)));
        }
        let body: &[u8] = vstd::slice::slice_subrange(payload, NONCE_LEN + TS_LEN, payload.len());
        proof {
            assert(body@ =~= request_body(payload@));
        }
        let mut out: Vec<u8> = Vec::new();
        out.extend_from_slice(body);
        proof {
            assert(out@ =~= request_body(payload@));
        }
        Ok(out)
    }
}

/// Why a sealed request is refused.
#[derive(Clone, Copy, Debug, PartialEq, Eq, Structural)]
pub enum ReceiveError {
    /// The message does not open.
    Open(OpenError),
    /// The request in it is refused.
    Request(RequestError),
}

impl ReceiveError {
    /// The text that tells a user of the error.
    pub open spec fn message_chars(self) -> Seq<char> {
        match self {
            ReceiveError::Open(e) => e.message_chars(),
            ReceiveError::Request(e) => e.message_chars(),
        }
    }

    /// The text that tells a user of the error.
    pub fn message(self) -> (s: String)
        ensures
            s@ == self.message_chars(),
    {
        match self {
            ReceiveError::Open(e) => e.message(),
            ReceiveError::Request(e) => e.message().to_owned(),
        }
    }
}

/// Whether `wire` is the request with `nonce`, `timestamp` and `body`, sealed
/// with the ephemeral key made of `ikm`, and opens to that request.
pub open spec fn is_sealed_request(
    nonce: Seq<u8>,
    ikm: Seq<u8>,
    sender: (Seq<u8>, Seq<u8>),
    recipient_pk: Seq<u8>,
    psk: Seq<u8>,
    timestamp: u64,
    body: Seq<u8>,
    wire: Seq<u8>,
) -> bool {
    let payload = framed(nonce, timestamp, body);
    let parts = channel::sealed_parts(ikm, sender, recipient_pk, psk, INFO_REQUEST@, payload);
    &&& nonce.len() == NONCE_LEN
    &&& ikm.len() == 32
    &&& channel::sealed(ikm, sender, recipient_pk, psk, INFO_REQUEST@, payload) == Ok::<
        Seq<u8>,
        SealError,
    >(wire)
    &&& channel::splits_into(wire, parts)
    &&& channel::opens_to(wire, sender, recipient_pk, psk, INFO_REQUEST@, payload)
}

/// Seals a request of the client to the wallet, with a fresh nonce.
///
/// To a wallet key that was generated it fails only where the system gives no
/// randomness.
pub fn seal_request(
    sender: (&PrivateKey, &PublicKey),
    recipient_pk: &PublicKey,
    psk: &[u8],
    timestamp: u64,
    body: &[u8],
) -> (r: Result<Vec<u8>, SealError>)
    requires
        channel::is_sealable(psk@, NONCE_LEN + TS_LEN + body@.len()),
    ensures
        match r {
            Ok(wire) => {
                &&& wire@.len() == channel::KEM_PUBLIC_KEY_LEN + NONCE_LEN + TS_LEN + body@.len()
                    + channel::TAG_LEN
                &&& exists|nonce: Seq<u8>, ikm: Seq<u8>|
                    is_sealed_request(
                        nonce,
                        ikm,
                        (sender.0@, sender.1@),
                        recipient_pk@,
                        psk@,
                        timestamp,
                        body@,
                        wire@,
                    )
                &&& exists|nonce: Seq<u8>, ikm: Seq<u8>|
                    nonce.len() == 16 && os::is_drawn(nonce) && ikm.len() == 32 && os::is_drawn(ikm)
                        && #[trigger] channel::hpke_sealed(
                        ikm,
                        sender.0@,
                        sender.1@,
                        recipient_pk@,
                        psk@,
                        channel::PSK_ID@,
                        INFO_REQUEST@,
                        framed(nonce, timestamp, body@),
                        Seq::empty(),
                    ) == Ok::<(Seq<u8>, Seq<u8>), HpkeFailure>((wire@.take(32), wire@.skip(32)))
            },
            Err(SealError::Rng(e)) => os::is_failure(e),
            Err(e) => {
                &&& e == SealError::SenderSetup(HpkeFailure::EncapError)
                &&& !channel::is_generated(recipient_pk@)
                &&& exists|nonce: Seq<u8>, ikm: Seq<u8>|
                    nonce.len() == 16 && os::is_drawn(nonce) && ikm.len() == 32 && os::is_drawn(ikm)
                        && #[trigger] channel::hpke_sealed(
                        ikm,
                        sender.0@,
                        sender.1@,
                        recipient_pk@,
                        psk@,
                        channel::PSK_ID@,
                        INFO_REQUEST@,
                        framed(nonce, timestamp, body@),
                        Seq::empty(),
                    ) is Err
            },
        },
{
    match rng::random_bytes::<NONCE_LEN>() {
        Ok(nonce) => {
            let payload: Vec<u8> = frame(&nonce, timestamp, body);
            proof {
                law_frame_round_trip(nonce@, timestamp, body@);
            }
            let r: Result<Vec<u8>, SealError> = channel::seal(
                sender,
                recipient_pk,
                psk,
                INFO_REQUEST,
                payload.as_slice(),
            );
            proof {
                if let Ok(wire) = &r {
                    let from = (sender.0@, sender.1@);
                    let ikm = choose|ikm: Seq<u8>|
                        ikm.len() == 32 && #[trigger] channel::sealed(
                            ikm,
                            from,
                            recipient_pk@,
                            psk@,
                            INFO_REQUEST@,
                            payload@,
                        ) == Ok::<Seq<u8>, SealError>(wire@) && channel::splits_into(
                            wire@,
                            channel::sealed_parts(
                                ikm,
                                from,
                                recipient_pk@,
                                psk@,
                                INFO_REQUEST@,
                                payload@,
                            ),
                        );
                    assert(is_sealed_request(
                        nonce@,
                        ikm,
                        from,
                        recipient_pk@,
                        psk@,
                        timestamp,
                        body@,
                        wire@,
                    ));
                }
            }
            r
        },
        Err(e) => Err(SealError::Rng(e)),
    }
}

/// Opens a request that the wallet received at `now`, and gives its body,
/// where the guard lets it through.
pub fn open_request(
    guard: &mut ReplayGuard,
    now: u64,
    recipient_sk: &PrivateKey,
    sender_pk: &PublicKey,
    psk: &[u8],
    wire: &[u8],
) -> (r: Result<Vec<u8>, ReceiveError>)
    requires
        psk@.len() > 0 ==> channel::is_openable_len(wire@.len() - channel::KEM_PUBLIC_KEY_LEN),
    ensures
        match channel::opened(recipient_sk@, sender_pk@, psk@, INFO_REQUEST@, wire@) {
            Ok(payload) => {
                &&& final(guard)@ == after_request(old(guard)@, now, payload)
                &&& match refusal(remembered(old(guard)@, now), now, payload) {
                    None => r matches Ok(body) && body@ == request_body(payload),
                    Some(e) => r matches Err(given) && given == ReceiveError::Request(e),
                }
            },
            Err(e) => {
                &&& final(guard)@ == remembered(old(guard)@, now)
                &&& r matches Err(given) && given == ReceiveError::Open(e)
            },
        },
{
    match channel::open(recipient_sk, sender_pk, psk, INFO_REQUEST, wire) {
        Ok(payload) => match guard.accept(now, payload.as_slice()) {
            Ok(body) => Ok(body),
            Err(e) => Err(ReceiveError::Request(e)),
        },
        Err(e) => {
            guard.expire(now);
            Err(ReceiveError::Open(e))
        },
    }
}

/// A fresh request whose nonce was not seen is let through with its body.
pub proof fn law_fresh_request_is_accepted(
    seen: Seq<Sighting>,
    now: u64,
    nonce: Seq<u8>,
    timestamp: u64,
    body: Seq<u8>,
)
    requires
        nonce.len() == NONCE_LEN,
        is_fresh(timestamp as nat, now),
        !has_nonce(seen, nonce),
    ensures
        refusal(remembered(seen, now), now, framed(nonce, timestamp, body)) is None,
        request_body(framed(nonce, timestamp, body)) == body,
{
    let kept = remembered(seen, now);
    law_frame_round_trip(nonce, timestamp, body);
    if has_nonce(kept, nonce) {
        let i = choose|i: int| 0 <= i < kept.len() && (#[trigger] kept[i]).0 == nonce;
        assert(kept.contains(kept[i]));
        seen.lemma_filter_contains_rev(
            |sighting: Sighting| is_remembered(sighting.1, now),
            kept[i],
        );
    }
}

/// What the wallet receives: the time, and the payload of a message that opens.
pub type Arrival = (u64, Option<Seq<u8>>);

/// The sightings after one arrival.
pub open spec fn after_arrival(seen: Seq<Sighting>, arrival: Arrival) -> Seq<Sighting> {
    match arrival.1 {
        Some(payload) => after_request(seen, arrival.0, payload),
        None => remembered(seen, arrival.0),
    }
}

/// The sightings after some arrivals, one after another.
pub open spec fn after_arrivals(seen: Seq<Sighting>, arrivals: Seq<Arrival>) -> Seq<Sighting>
    decreases arrivals.len(),
{
    if arrivals.len() == 0 {
        seen
    } else {
        after_arrival(after_arrivals(seen, arrivals.drop_last()), arrivals.last())
    }
}

/// Whether the clock does not run backwards from `start` over the arrivals to
/// `end`.
pub open spec fn in_order(start: u64, arrivals: Seq<Arrival>, end: u64) -> bool {
    &&& start <= end
    &&& forall|i: int| 0 <= i < arrivals.len() ==> start <= (#[trigger] arrivals[i]).0 <= end
    &&& forall|i: int, j: int|
        0 <= i <= j < arrivals.len() ==> (#[trigger] arrivals[i]).0 <= (#[trigger] arrivals[j]).0
}

/// A sighting that is remembered stays.
proof fn lemma_stays(seen: Seq<Sighting>, sighting: Sighting, arrival: Arrival)
    requires
        seen.contains(sighting),
        is_remembered(sighting.1, arrival.0),
    ensures
        after_arrival(seen, arrival).contains(sighting),
{
    let kept_then = |sighting: Sighting| is_remembered(sighting.1, arrival.0);
    let kept = seen.filter(kept_then);
    let i = choose|i: int| 0 <= i < seen.len() && seen[i] == sighting;
    seen.lemma_filter_contains(kept_then, i);
    let k = choose|k: int| 0 <= k < kept.len() && kept[k] == sighting;
    let after = after_arrival(seen, arrival);
    assert(after[k] == sighting);
}

/// A sighting stays over all arrivals at which it is remembered.
proof fn lemma_stays_over(
    seen: Seq<Sighting>,
    sighting: Sighting,
    arrivals: Seq<Arrival>,
    end: u64,
)
    requires
        seen.contains(sighting),
        in_order(sighting.1, arrivals, end),
        is_remembered(sighting.1, end),
    ensures
        after_arrivals(seen, arrivals).contains(sighting),
    decreases arrivals.len(),
{
    if arrivals.len() > 0 {
        let init = arrivals.drop_last();
        let last = arrivals[arrivals.len() - 1];
        assert forall|i: int| 0 <= i < init.len() implies sighting.1 <= (
        #[trigger] init[i]).0 <= end by {
            assert(init[i] == arrivals[i]);
        }
        assert forall|i: int, j: int| 0 <= i <= j < init.len() implies (#[trigger] init[i]).0 <= (
        #[trigger] init[j]).0 by {
            assert(init[i] == arrivals[i]);
            assert(init[j] == arrivals[j]);
        }
        lemma_stays_over(seen, sighting, init, end);
        lemma_stays(after_arrivals(seen, init), sighting, last);
    }
}

/// A request that was let through is never let through again, whatever arrives
/// in between and however long it takes, where the clock does not run
/// backwards. Only its nonce and its timestamp matter.
pub proof fn law_no_replay(
    seen: Seq<Sighting>,
    first: u64,
    payload: Seq<u8>,
    arrivals: Seq<Arrival>,
    second: u64,
    copy: Seq<u8>,
)
    requires
        refusal(remembered(seen, first), first, payload) is None,
        in_order(first, arrivals, second),
        nonce_of(copy) == nonce_of(payload),
        timestamp_of(copy) == timestamp_of(payload),
    ensures
        refusal(
            remembered(after_arrivals(after_request(seen, first, payload), arrivals), second),
            second,
            copy,
        ) is Some,
{
    if is_remembered(first, second) {
        let sighting = (nonce_of(payload), first);
        let start = after_request(seen, first, payload);
        assert(start[start.len() - 1] == sighting);
        lemma_stays_over(start, sighting, arrivals, second);
        let now = after_arrivals(start, arrivals);
        lemma_stays(now, sighting, (second, None));
        let kept = remembered(now, second);
        let k = choose|k: int| 0 <= k < kept.len() && kept[k] == sighting;
        assert(kept[k].0 == nonce_of(copy));
    }
}

/// The number in the eight bytes of `payload` after the first 16, the highest
/// byte first.
pub open spec fn seconds_in(payload: Seq<u8>) -> int {
    0x100_0000_0000_0000 * payload[16] + 0x1_0000_0000_0000 * payload[17] + 0x100_0000_0000
        * payload[18] + 0x1_0000_0000 * payload[19] + 0x100_0000 * payload[20] + 0x1_0000
        * payload[21] + 0x100 * payload[22] + payload[23]
}

/// A timestamp is read big-endian.
proof fn lemma_seconds_in(payload: Seq<u8>)
    requires
        payload.len() >= 24,
    ensures
        timestamp_of(payload) == seconds_in(payload),
{
    reveal_with_fuel(be_value, 9);
    let t = payload.subrange(16, 24);
    assert(t.len() == 8);
    assert forall|k: int| 0 <= k < 8 implies t[k] == payload[16 + k] by {}
}

/// Where the nonce, the timestamp and the body of a framed request stand.
pub proof fn law_frame_layout(nonce: Seq<u8>, timestamp: u64, body: Seq<u8>)
    requires
        nonce.len() == 16,
    ensures
        framed(nonce, timestamp, body).len() == 24 + body.len(),
        framed(nonce, timestamp, body).take(16) == nonce,
        seconds_in(framed(nonce, timestamp, body)) == timestamp,
        framed(nonce, timestamp, body).skip(24) == body,
{
    let payload = framed(nonce, timestamp, body);
    law_frame_round_trip(nonce, timestamp, body);
    lemma_seconds_in(payload);
    assert(payload.take(16) =~= nonce);
    assert(payload.skip(24) =~= body);
}

/// What the parts of a request are.
pub proof fn law_request_parts(payload: Seq<u8>)
    requires
        payload.len() >= 24,
    ensures
        nonce_of(payload) == payload.take(16),
        timestamp_of(payload) == seconds_in(payload),
        request_body(payload) == payload.skip(24),
{
    lemma_seconds_in(payload);
}

/// What is remembered of earlier sightings: exactly those of the last 600
/// seconds, and those ahead of the clock.
pub proof fn law_remembered(seen: Seq<Sighting>, now: u64, sighting: Sighting)
    ensures
        remembered(seen, now).contains(sighting) <==> seen.contains(sighting) && now <= sighting.1
            + 600,
{
    let kept_then = |sighting: Sighting| is_remembered(sighting.1, now);
    let kept = seen.filter(kept_then);
    if kept.contains(sighting) {
        seen.lemma_filter_contains_rev(kept_then, sighting);
        let i = choose|i: int| 0 <= i < kept.len() && kept[i] == sighting;
        seen.lemma_filter_pred(kept_then, i);
    }
    if seen.contains(sighting) && now <= sighting.1 + 600 {
        let i = choose|i: int| 0 <= i < seen.len() && seen[i] == sighting;
        seen.lemma_filter_contains(kept_then, i);
    }
}

/// A nonce is among the sightings exactly where it was seen at some time.
proof fn lemma_has_nonce(seen: Seq<Sighting>, nonce: Seq<u8>)
    ensures
        has_nonce(seen, nonce) <==> exists|at: u64| seen.contains((nonce, at)),
{
    if has_nonce(seen, nonce) {
        let i = choose|i: int| 0 <= i < seen.len() && (#[trigger] seen[i]).0 == nonce;
        assert(seen.contains((nonce, seen[i].1)));
    }
    if exists|at: u64| seen.contains((nonce, at)) {
        let at = choose|at: u64| seen.contains((nonce, at));
        let i = choose|i: int| 0 <= i < seen.len() && seen[i] == (nonce, at);
        assert(seen[i].0 == nonce);
    }
}

/// When the guard refuses a request, and for what: one under 24 bytes as
/// malformed, one whose timestamp is more than 300 seconds from the clock for
/// the skew, and one whose nonce was seen within the last 600 seconds as
/// replayed, in this order. It refuses no other.
pub proof fn law_refused_exactly(seen: Seq<Sighting>, now: u64, payload: Seq<u8>)
    ensures
        refusal(remembered(seen, now), now, payload) == Some(RequestError::Malformed)
            <==> payload.len() < 24,
        refusal(remembered(seen, now), now, payload) == Some(RequestError::ClockSkew)
            <==> payload.len() >= 24 && (now > seconds_in(payload) + 300 || seconds_in(payload)
            > now + 300),
        refusal(remembered(seen, now), now, payload) == Some(RequestError::Replayed)
            <==> payload.len() >= 24 && now <= seconds_in(payload) + 300 && seconds_in(payload)
            <= now + 300 && exists|at: u64|
            #![trigger seen.contains((payload.take(16), at))]
            seen.contains((payload.take(16), at)) && now <= at + 600,
{
    let kept = remembered(seen, now);
    let nonce = payload.take(16);
    lemma_has_nonce(kept, nonce);
    if payload.len() >= 24 {
        lemma_seconds_in(payload);
    }
    if exists|at: u64| kept.contains((nonce, at)) {
        let at = choose|at: u64| kept.contains((nonce, at));
        law_remembered(seen, now, (nonce, at));
        assert(seen.contains((nonce, at)) && now <= at + 600);
    }
    if exists|at: u64|
        #![trigger seen.contains((nonce, at))]
        seen.contains((nonce, at)) && now <= at + 600 {
        let at = choose|at: u64|
            #![trigger seen.contains((nonce, at))]
            seen.contains((nonce, at)) && now <= at + 600;
        law_remembered(seen, now, (nonce, at));
        assert(kept.contains((nonce, at)));
    }
}

/// What the guard remembers after a request: what it did before, but for
/// sightings more than 600 seconds old, and the request's own nonce where it
/// was let through.
pub proof fn law_remembered_after(
    seen: Seq<Sighting>,
    now: u64,
    payload: Seq<u8>,
    sighting: Sighting,
)
    ensures
        after_request(seen, now, payload).contains(sighting) <==> (seen.contains(sighting) && now
            <= sighting.1 + 600) || (refusal(remembered(seen, now), now, payload) is None
            && sighting == (payload.take(16), now)),
{
    let kept = remembered(seen, now);
    let after = after_request(seen, now, payload);
    law_remembered(seen, now, sighting);
    if kept.contains(sighting) {
        let i = choose|i: int| 0 <= i < kept.len() && kept[i] == sighting;
        assert(after[i] == sighting);
    }
    if refusal(kept, now, payload) is None {
        assert(after[kept.len() as int] == (payload.take(16), now));
        if after.contains(sighting) {
            let i = choose|i: int| 0 <= i < after.len() && after[i] == sighting;
            if i < kept.len() {
                assert(kept[i] == sighting);
            }
        }
    }
}

/// What users are told.
pub proof fn law_messages(open: OpenError, request: RequestError)
    ensures
        RequestError::Malformed.message_chars() == "malformed request"@,
        RequestError::ClockSkew.message_chars()
            == "clock skew: timestamp outside the freshness window"@,
        RequestError::Replayed.message_chars() == "replayed: nonce already seen this session"@,
        ReceiveError::Open(open).message_chars() == open.message_chars(),
        ReceiveError::Request(request).message_chars() == request.message_chars(),
{
}

} // verus!
