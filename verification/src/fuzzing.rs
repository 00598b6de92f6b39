//! The decisions of programs that try out decoders on arbitrary data.

use vstd::prelude::*;

use crate::error::{ImageError, IoErrorKind, LimitErrorKind};

verus! {

/// The largest image, in bytes, that two decoders are compared on.
pub const MAX_OUTPUT_BYTES: u64 = 100_000_000;

/// What to do after an attempt to decode data that arrives bit by bit.
#[derive(Clone, Copy, Debug, PartialEq, Eq, Structural)]
pub enum NextAttempt {
    /// The attempt succeeded: go on with what comes next.
    Proceed,
    /// Try again once this many bytes have arrived.
    Retry(usize),
    /// Stop.
    Stop,
}

/// How the results of two decoders on the same data compare.
#[derive(Clone, Copy, Debug, PartialEq, Eq, Structural)]
pub enum Verdict {
    /// Both failed, or both gave the same bytes.
    Agree,
    /// Both succeeded, with different bytes.
    DifferentImages,
    /// One succeeded and the other did not.
    DifferentOutcomes,
}

/// Whether an error says that the data ended too early.
pub open spec fn ended_early(error: ImageError) -> bool {
    error == ImageError::IoError(IoErrorKind::UnexpectedEof)
}

/// Checks whether an error says that the data ended too early.
pub fn is_unexpected_eof(err: &ImageError) -> (is: bool)
    ensures
        is == ended_early(*err),
{
    match err {
        ImageError::IoError(kind) => *kind == IoErrorKind::UnexpectedEof,
        _ => false,
    }
}

/// What follows an attempt that had `available` of `len` bytes.
pub open spec fn next_attempt(
    result: Result<(), ImageError>,
    available: int,
    len: int,
) -> NextAttempt {
    match result {
        Ok(()) => NextAttempt::Proceed,
        Err(error) => if ended_early(error) && available < len {
            NextAttempt::Retry((available + 1) as usize)
        } else {
            NextAttempt::Stop
        },
    }
}

/// Decides what follows an attempt: an attempt that wants more data is made again with one byte
/// more, as long as there is one.
pub fn after_attempt(result: Result<(), ImageError>, available: usize, len: usize) -> (next:
    NextAttempt)
    ensures
        next == next_attempt(result, available as int, len as int),
{
    match result {
        Ok(()) => NextAttempt::Proceed,
        Err(error) => {
            if !is_unexpected_eof(&error) || available >= len {
                NextAttempt::Stop
            } else {
                NextAttempt::Retry(available + 1)
            }
        },
    }
}

/// Checks whether an image of this size may be decoded, where `max_alloc` is the limit on its
/// size, if there is one.
pub fn within_limit(total_bytes: u64, max_alloc: Option<u64>) -> (within: bool)
    ensures
        within == (max_alloc matches Some(limit) ==> total_bytes <= limit),
{
    match max_alloc {
        Some(limit) => total_bytes <= limit,
        None => true,
    }
}

/// Makes the buffer that an image is decoded into, where the image is not too large.
pub fn output_buffer(total_bytes: u64) -> (result: Result<Vec<u8>, ImageError>)
    ensures
        match result {
            Ok(buf) => {
                &&& total_bytes <= MAX_OUTPUT_BYTES
                &&& buf@ == Seq::new(total_bytes as nat, |i: int| 0u8)
            },
            Err(error) => {
                &&& total_bytes > MAX_OUTPUT_BYTES
                &&& error == ImageError::Limits(LimitErrorKind::InsufficientMemory)
            },
        },
{
    if total_bytes > MAX_OUTPUT_BYTES {
        return Err(ImageError::Limits(LimitErrorKind::InsufficientMemory));
    }
    Ok(vec![0u8; total_bytes as usize])
}

/// How two results compare.
pub open spec fn verdict(
    first: Result<Seq<u8>, ImageError>,
    second: Result<Seq<u8>, ImageError>,
) -> Verdict {
    match (first, second) {
        (Ok(a), Ok(b)) => if a == b {
            Verdict::Agree
        } else {
            Verdict::DifferentImages
        },
        (Err(_), Err(_)) => Verdict::Agree,
        _ => Verdict::DifferentOutcomes,
    }
}

/// The bytes of a result.
pub open spec fn bytes_of(result: Result<Vec<u8>, ImageError>) -> Result<Seq<u8>, ImageError> {
    match result {
        Ok(bytes) => Ok(bytes@),
        Err(error) => Err(error),
    }
}

/// Compares the results of two decoders on the same data.
pub fn compare_results(
    first: &Result<Vec<u8>, ImageError>,
    second: &Result<Vec<u8>, ImageError>,
) -> (comparison: Verdict)
    ensures
        comparison == verdict(bytes_of(*first), bytes_of(*second)),
{
    match (first, second) {
        (Ok(a), Ok(b)) => if same_bytes(a, b) {
            Verdict::Agree
        } else {
            Verdict::DifferentImages
        },
        (Err(_), Err(_)) => Verdict::Agree,
        _ => Verdict::DifferentOutcomes,
    }
}

/// Checks whether two vectors hold the same bytes.
fn same_bytes(a: &Vec<u8>, b: &Vec<u8>) -> (same: bool)
    ensures
        same == (a@ == b@),
{
    if a.len() != b.len() {
        return false;
    }
    let mut i: usize = 0;
    while i < a.len()
        invariant
            a.len() == b.len(),
            i <= a.len(),
            forall|j: int| 0 <= j < i ==> a@[j] == b@[j],
        decreases a.len() - i,
    {
        if a[i] != b[i] {
            return false;
        }
        i = i + 1;
    }
    assert(a@ =~= b@);
    true
}

/// Attempts end: every one that is made again has a byte more, and none has more than there are.
pub proof fn lemma_attempts_end(result: Result<(), ImageError>, available: int, len: int)
    requires
        0 <= available,
        len <= usize::MAX,
    ensures
        next_attempt(result, available, len) matches NextAttempt::Retry(more) ==> available < more
            <= len,
{
}

/// The order of two results does not matter, and a result agrees with itself.
pub proof fn lemma_verdict_is_symmetric(
    first: Result<Seq<u8>, ImageError>,
    second: Result<Seq<u8>, ImageError>,
)
    ensures
        verdict(first, second) == verdict(second, first),
        first == second ==> verdict(first, second) == Verdict::Agree,
{
}

/// An attempt is made again with just one byte more, and only where it wanted more data and there
/// is some; one that succeeded goes on, and every other one stops. No other error than an early
/// end of the data counts as one.
pub proof fn lemma_next_attempt(result: Result<(), ImageError>, available: int, len: int, more: usize)
    requires
        0 <= available,
        len <= usize::MAX,
    ensures
        next_attempt(result, available, len) == NextAttempt::Proceed <==> result is Ok,
        next_attempt(result, available, len) == NextAttempt::Retry(more) <==> available < len
            && more == available + 1 && result == Err::<(), _>(
            ImageError::IoError(IoErrorKind::UnexpectedEof),
        ),
        available >= len && result is Err ==> next_attempt(result, available, len)
            == NextAttempt::Stop,
        result is Err && result != Err::<(), _>(ImageError::IoError(IoErrorKind::UnexpectedEof))
            ==> next_attempt(result, available, len) == NextAttempt::Stop,
{
}

/// Two results agree just where both failed, with whatever errors, or both gave the same bytes;
/// they differ in outcome just where only one failed.
pub proof fn lemma_verdict(
    first: Result<Seq<u8>, ImageError>,
    second: Result<Seq<u8>, ImageError>,
)
    ensures
        verdict(first, second) == Verdict::Agree <==> (first is Err && second is Err) || (first is Ok
            && first == second),
        verdict(first, second) == Verdict::DifferentOutcomes <==> (first is Ok) != (second is Ok),
        verdict(first, second) == Verdict::DifferentImages <==> first is Ok && second is Ok && first
            != second,
{
}

/// The bytes of a result are those that it holds, and its error is its own.
pub proof fn lemma_bytes_of(result: Result<Vec<u8>, ImageError>)
    ensures
        match bytes_of(result) {
            Ok(bytes) => result matches Ok(held) && held@ == bytes,
            Err(error) => result == Err::<Vec<u8>, _>(error),
        },
{
}

} // verus!
