//! The one place where randomness is asked of the system.
//!
//! What the system gives is open: any bytes, or a failure. What is not open is
//! whether it was asked. The body of [`is_draw`] is hidden from the other
//! modules, so there only a call of [`fill`] shows it of some bytes or of a
//! failure. A function that states it of what it uses or reports has therefore
//! drawn those bytes, or met with that failure, and made neither up.

use crate::rng::{self, RngError};
use vstd::prelude::*;

verus! {

/// What an answer of `getrandom::fill`, and the buffer it leaves, come to.
spec fn comes_to(answer: Result<(), getrandom::Error>, buffer: Seq<u8>) -> Result<
    Seq<u8>,
    RngError,
> {
    match answer {
        Ok(()) => Ok(buffer),
        Err(_) => Err(RngError),
    }
}

/// Whether `draw` is what an answer of the system came to.
pub closed spec fn is_draw(draw: Result<Seq<u8>, RngError>) -> bool {
    exists|answer: Result<(), getrandom::Error>, buffer: Seq<u8>|
        draw == #[trigger] comes_to(answer, buffer)
}

/// Whether the system gave these bytes.
pub open spec fn is_drawn(bytes: Seq<u8>) -> bool {
    is_draw(Ok(bytes))
}

/// Whether the system failed to give any.
pub open spec fn is_failure(e: RngError) -> bool {
    is_draw(Err(e))
}

/// Overwrites `dst` with random bytes of the system. An empty `dst` never fails.
pub fn fill(dst: &mut [u8]) -> (r: Result<(), RngError>)
    ensures
        final(dst)@.len() == old(dst)@.len(),
        old(dst)@.len() == 0 ==> r is Ok,
        match r {
            Ok(()) => is_drawn(final(dst)@),
            Err(e) => is_failure(e),
        },
{
    let answer: Result<(), getrandom::Error> = getrandom::fill(dst);
    proof {
        let draw = comes_to(answer, dst@);
        assert(is_draw(draw));
    }
    rng::reported(answer)
}

} // verus!
