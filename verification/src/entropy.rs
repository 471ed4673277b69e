//! Randomness from the operating system.

use vstd::prelude::*;

verus! {

/// The operating system gave no randomness.
#[derive(Debug, Clone, Copy, PartialEq, Eq, Structural)]
pub struct EntropyUnavailable {
    /// The code of the failure, as `getrandom::Error::code` gives it: that of the
    /// operating system, or one that `getrandom` defines. It is never 0.
    pub code: u32,
}

/// Fills a buffer with random bytes, or gives the code of the failure.
///
/// Calls `getrandom::getrandom`, and `getrandom::Error::code` on its error. It
/// claims that the buffer keeps its length, that an empty buffer always
/// succeeds, and that a code is not 0. Which bytes the buffer holds afterwards,
/// whether a buffer with room is filled and which code a failure has is left
/// open.
#[verifier::external_body]
fn fill_random(dest: &mut [u8]) -> (r: Result<(), u32>)
    ensures
        final(dest)@.len() == old(dest)@.len(),
        old(dest)@.len() == 0 ==> r is Ok,
        r matches Err(code) ==> code != 0,
{
    match getrandom::getrandom(dest) {
        Ok(()) => Ok(()),
        Err(e) => Err(e.code().get()),
    }
}

/// What a draw gives: the bytes of the buffer if it was filled, the code of the
/// failure otherwise.
pub fn drawn_array<const N: usize>(filled: Result<(), u32>, buf: [u8; N]) -> (r: Result<
    [u8; N],
    EntropyUnavailable,
>)
    ensures
        match filled {
            Ok(()) => r == Ok::<[u8; N], EntropyUnavailable>(buf),
            Err(code) => r == Err::<[u8; N], EntropyUnavailable>(EntropyUnavailable { code }),
        },
{
    match filled {
        Ok(()) => Ok(buf),
        Err(code) => Err(EntropyUnavailable { code }),
    }
}

/// Random bytes from the operating system, if it gives any. Where none are
/// asked for, it is not needed.
pub(crate) fn random_array<const N: usize>() -> (r: Result<[u8; N], EntropyUnavailable>)
    ensures
        N == 0 ==> r is Ok,
        r matches Err(e) ==> e.code != 0,
{
    let mut buf: [u8; N] = [0; N];
    let filled = fill_random(&mut buf);
    drawn_array(filled, buf)
}

} // verus!
