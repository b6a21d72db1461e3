//! OS randomness, and how the `hpke` crate is handed it.

use crate::os;
use hpke::rand_core::{CryptoRng, RngCore};
use vstd::prelude::*;

verus! {

/// The error of the `getrandom` crate, which is only told from success.
#[verifier::external_type_specification]
#[verifier::external_body]
pub struct ExGetrandomError(getrandom::Error);

/// `getrandom::fill` overwrites a slice with random bytes from the system or
/// fails. The slice keeps its length. An empty one is filled at once, with no
/// call to the system. Nothing is said of the bytes: they are random.
pub assume_specification[ getrandom::fill ](dest: &mut [u8]) -> (r: Result<(), getrandom::Error>)
    ensures
        final(dest)@.len() == old(dest)@.len(),
        old(dest)@.len() == 0 ==> r is Ok,
;

/// The system gave no randomness.
#[derive(Clone, Copy, Debug, PartialEq, Eq, Structural)]
pub struct RngError;

impl RngError {
    /// The text that tells a user of the error.
    pub open spec fn message_chars(self) -> Seq<char> {
        "OS RNG failure"@
    }

    /// The text that tells a user of the error.
    pub fn message(self) -> (s: &'static str)
        ensures
            s@ == self.message_chars(),
    {
        "OS RNG failure"
    }
}

/// The number that `bytes` stand for, the lowest byte first.
pub open spec fn le_value(bytes: Seq<u8>) -> nat
    decreases bytes.len(),
{
    if bytes.len() == 0 {
        0
    } else {
        bytes.first() as nat + 256 * le_value(bytes.drop_first())
    }
}

/// The number that four bytes stand for, the lowest byte first.
pub fn le_u32(bytes: [u8; 4]) -> (n: u32)
    ensures
        n == le_value(bytes@),
{
    proof {
        reveal_with_fuel(le_value, 5);
    }
    bytes[0] as u32 + 256 * (bytes[1] as u32 + 256 * (bytes[2] as u32 + 256 * (bytes[3] as u32)))
}

/// The number that eight bytes stand for, the lowest byte first.
pub fn le_u64(bytes: [u8; 8]) -> (n: u64)
    ensures
        n == le_value(bytes@),
{
    proof {
        reveal_with_fuel(le_value, 9);
    }
    let high: u64 = bytes[4] as u64 + 256 * (bytes[5] as u64 + 256 * (bytes[6] as u64 + 256 * (
    bytes[7] as u64)));
    bytes[0] as u64 + 256 * (bytes[1] as u64 + 256 * (bytes[2] as u64 + 256 * (bytes[3] as u64 + 256
        * high)))
}

/// Tells of a failure of the system, whatever its cause.
pub fn reported(outcome: Result<(), getrandom::Error>) -> (r: Result<(), RngError>)
    ensures
        r is Ok <==> outcome is Ok,
{
    match outcome {
        Ok(()) => Ok(()),
        Err(_) => Err(RngError),
    }
}

/// The bytes of a buffer that the system filled, or its failure to do so.
pub fn delivered<const N: usize>(outcome: Result<(), RngError>, buffer: [u8; N]) -> (r: Result<
    [u8; N],
    RngError,
>)
    ensures
        match outcome {
            Ok(()) => r == Ok::<[u8; N], RngError>(buffer),
            Err(e) => r == Err::<[u8; N], RngError>(e),
        },
{
    match outcome {
        Ok(()) => Ok(buffer),
        Err(e) => Err(e),
    }
}

/// The number that four random bytes stand for, or the failure to draw them.
pub fn drawn_u32(draw: Result<[u8; 4], RngError>) -> (r: Result<u32, RngError>)
    ensures
        match draw {
            Ok(bytes) => r matches Ok(n) && n == le_value(bytes@),
            Err(e) => r == Err::<u32, RngError>(e),
        },
{
    match draw {
        Ok(bytes) => Ok(le_u32(bytes)),
        Err(e) => Err(e),
    }
}

/// The number that eight random bytes stand for, or the failure to draw them.
pub fn drawn_u64(draw: Result<[u8; 8], RngError>) -> (r: Result<u64, RngError>)
    ensures
        match draw {
            Ok(bytes) => r matches Ok(n) && n == le_value(bytes@),
            Err(e) => r == Err::<u64, RngError>(e),
        },
{
    match draw {
        Ok(bytes) => Ok(le_u64(bytes)),
        Err(e) => Err(e),
    }
}

/// The random number generator of the operating system.
pub struct OsRng;

impl OsRng {
    /// Overwrites `dst` with random bytes. An empty `dst` never fails.
    pub fn fill_bytes(&mut self, dst: &mut [u8]) -> (r: Result<(), RngError>)
        ensures
            final(dst)@.len() == old(dst)@.len(),
            old(dst)@.len() == 0 ==> r is Ok,
            match r {
                Ok(()) => os::is_drawn(final(dst)@),
                Err(e) => os::is_failure(e),
            },
    {
        os::fill(dst)
    }

    /// A random `u32`: the little-endian value of four random bytes.
    pub fn next_u32(&mut self) -> (r: Result<u32, RngError>)
        ensures
            match r {
                Ok(n) => exists|bytes: Seq<u8>|
                    bytes.len() == 4 && os::is_drawn(bytes) && n == #[trigger] le_value(bytes),
                Err(e) => os::is_failure(e),
            },
    {
        let mut bytes: [u8; 4] = [0; 4];
        let outcome: Result<(), RngError> = self.fill_bytes(&mut bytes);
        drawn_u32(delivered(outcome, bytes))
    }

    /// A random `u64`: the little-endian value of eight random bytes.
    pub fn next_u64(&mut self) -> (r: Result<u64, RngError>)
        ensures
            match r {
                Ok(n) => exists|bytes: Seq<u8>|
                    bytes.len() == 8 && os::is_drawn(bytes) && n == #[trigger] le_value(bytes),
                Err(e) => os::is_failure(e),
            },
    {
        let mut bytes: [u8; 8] = [0; 8];
        let outcome: Result<(), RngError> = self.fill_bytes(&mut bytes);
        drawn_u64(delivered(outcome, bytes))
    }
}

/// `N` random bytes from the system. Nothing fails for an `N` of zero.
pub fn random_bytes<const N: usize>() -> (r: Result<[u8; N], RngError>)
    ensures
        N == 0 ==> r is Ok,
        match r {
            Ok(bytes) => os::is_drawn(bytes@),
            Err(e) => os::is_failure(e),
        },
{
    let mut out: [u8; N] = [0; N];
    let outcome: Result<(), RngError> = os::fill(&mut out);
    delivered(outcome, out)
}

/// 32 random bytes, drawn before they are used: the amount that the X25519 KEM
/// makes a key of. A call that takes its randomness from here fails for want of
/// randomness neither halfway nor at all, and depends on these bytes alone.
/// Zeros follow once all of them are used, so no such call may ask for more.
pub struct Drawn {
    bytes: [u8; 32],
    used: usize,
}

impl View for Drawn {
    type V = Seq<u8>;

    /// The bytes that are not used yet.
    closed spec fn view(&self) -> Seq<u8> {
        self.bytes@.skip(self.used as int)
    }
}

/// The first `n` of `bytes`, and zeros where there are fewer.
pub open spec fn padded(bytes: Seq<u8>, n: nat) -> Seq<u8> {
    Seq::new(
        n,
        |i: int|
            if i < bytes.len() {
                bytes[i]
            } else {
                0
            },
    )
}

/// What is left of `bytes` after the first `n`.
pub open spec fn after(bytes: Seq<u8>, n: nat) -> Seq<u8> {
    if n <= bytes.len() {
        bytes.skip(n as int)
    } else {
        seq![]
    }
}

impl Drawn {
    #[verifier::type_invariant]
    spec fn within(self) -> bool {
        self.used <= 32
    }

    /// Bytes to be used in their order.
    pub fn new(bytes: [u8; 32]) -> (r: Self)
        ensures
            r@ == bytes@,
    {
        let r = Drawn { bytes, used: 0 };
        proof {
            assert(r@ =~= bytes@);
        }
        r
    }

    /// Uses the next byte.
    fn next(&mut self) -> (b: u8)
        ensures
            b == padded(old(self)@, 1)[0],
            final(self)@ == after(old(self)@, 1),
    {
        proof {
            use_type_invariant(&*self);
        }
        let ghost before = self@;
        let b: u8 = if self.used < 32 {
            let b: u8 = self.bytes[self.used];
            self.used = self.used + 1;
            b
        } else {
            0
        };
        proof {
            assert(self@ =~= after(before, 1));
        }
        b
    }
}

impl CryptoRng for Drawn {

}

impl RngCore for Drawn {
    fn next_u32(&mut self) -> (n: u32)
        ensures
            n == le_value(padded(old(self)@, 4)),
            final(self)@ == after(old(self)@, 4),
    {
        let mut bytes: [u8; 4] = [0; 4];
        self.fill_bytes(&mut bytes);
        le_u32(bytes)
    }

    fn next_u64(&mut self) -> (n: u64)
        ensures
            n == le_value(padded(old(self)@, 8)),
            final(self)@ == after(old(self)@, 8),
    {
        let mut bytes: [u8; 8] = [0; 8];
        self.fill_bytes(&mut bytes);
        le_u64(bytes)
    }

    fn fill_bytes(&mut self, dst: &mut [u8])
        ensures
            final(dst)@ == padded(old(self)@, old(dst)@.len()),
            final(self)@ == after(old(self)@, old(dst)@.len()),
    {
        let ghost all = self@;
        let n: usize = dst.len();
        let mut i: usize = 0;
        proof {
            assert(after(all, 0) =~= all);
        }
        while i < n
            invariant
                n == dst@.len(),
                n == old(dst)@.len(),
                i <= n,
                self@ == after(all, i as nat),
                forall|k: int| 0 <= k < i ==> dst@[k] == padded(all, n as nat)[k],
            decreases n - i,
        {
            let b: u8 = self.next();
            dst[i] = b;
            proof {
                assert(self@ =~= after(all, (i + 1) as nat));
            }
            i = i + 1;
        }
        proof {
            assert(dst@ =~= padded(all, n as nat));
        }
    }
}

/// What four and eight bytes stand for: each byte counts 256 times as much as
/// the one before it.
pub proof fn law_little_endian(a: Seq<u8>, b: Seq<u8>)
    requires
        a.len() == 4,
        b.len() == 8,
    ensures
        le_value(a) == a[0] + 0x100 * a[1] + 0x1_0000 * a[2] + 0x100_0000 * a[3],
        le_value(b) == b[0] + 0x100 * b[1] + 0x1_0000 * b[2] + 0x100_0000 * b[3] + 0x1_0000_0000
            * b[4] + 0x100_0000_0000 * b[5] + 0x1_0000_0000_0000 * b[6] + 0x100_0000_0000_0000
            * b[7],
{
    reveal_with_fuel(le_value, 9);
}

/// Drawn bytes are used in their order, each once.
pub proof fn law_drawn_in_order(bytes: Seq<u8>, n: nat)
    requires
        n <= bytes.len(),
    ensures
        padded(bytes, n) == bytes.take(n as int),
        padded(bytes, n) + after(bytes, n) == bytes,
{
    assert(padded(bytes, n) =~= bytes.take(n as int));
    assert(padded(bytes, n) + after(bytes, n) =~= bytes);
}

} // verus!
