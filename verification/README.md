# hpke-demo

One-shot, mutually authenticated messages between a client and a wallet through
an untrusted relay, over HPKE (RFC 9180). The library is written in Verus: its
functions state what they return, and Verus proves it from what is taken to hold
of the calls into other crates. Of random bytes nothing is stated.

- `src/connect.rs`: the `bwc://` connection string that a wallet hands out.
- `src/connect_laws.rs`: what holds of connection strings. Parsing undoes
  rendering, params are order-independent, an unknown version is refused
  whatever else the string holds, and a token is never forwarded.
- `src/channel.rs`: sealing and opening, X25519 HPKE in AuthPSK mode. What is
  sealed to a key opens with the private key generated with it.
- `src/replay.rs`: the framing of requests and the guard that lets no request
  through twice.
- `src/rng.rs`: OS randomness.
- `src/hex.rs`, `src/text.rs`: lowercase hex and string slices.
- `app/`: the library for callers that use `anyhow`, or that stop where there is
  no randomness.

Cryptography is the `hpke` crate's, hex the `lexe-hex` crate's, randomness the
`getrandom` crate's. Each call into one of them stands in a function of its own
marked `external_body`, or behind an `assume_specification`. Its doc comment says
what is taken to hold of the call, and the proofs rest on that.
