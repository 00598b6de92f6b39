//! Seeking in data that is in memory.

use vstd::prelude::*;

verus! {

/// Where to seek to.
#[derive(Clone, Copy, Debug, PartialEq, Eq, Structural)]
pub enum SeekFrom {
    /// To this many bytes behind the start.
    Start(u64),
    /// To this many bytes behind the end.
    End(i64),
    /// To this many bytes behind the current position.
    Current(i64),
}

/// The place that a seek names, counted from the start.
pub open spec fn named_place(from: SeekFrom, len: int, position: int) -> int {
    match from {
        SeekFrom::Start(offset) => offset as int,
        SeekFrom::End(offset) => len + offset,
        SeekFrom::Current(offset) => position + offset,
    }
}

/// The position that a seek names, where there is one.
pub open spec fn target(from: SeekFrom, len: int, position: int) -> Option<u64> {
    let place = named_place(from, len, position);
    if 0 <= place <= u64::MAX {
        Some(place as u64)
    } else {
        None
    }
}

/// Computes the position that a seek names.
pub fn seek_target(from: SeekFrom, len: usize, position: u64) -> (place: Option<u64>)
    ensures
        place == target(from, len as int, position as int),
{
    match from {
        SeekFrom::Start(offset) => Some(offset),
        SeekFrom::End(offset) => (len as u64).checked_add_signed(offset),
        SeekFrom::Current(offset) => position.checked_add_signed(offset),
    }
}

/// A seek from the start ends where it says. One from the end or from the position ends where a
/// seek from the start does that counts the bytes before, unless there is no such place.
pub proof fn lemma_seek_places(len: int, position: int, offset: i64, place: u64)
    requires
        0 <= len <= u64::MAX,
        0 <= position <= u64::MAX,
    ensures
        target(SeekFrom::Start(place), len, position) == Some(place),
        target(SeekFrom::End(offset), len, position) == Some(place) <==> place == len + offset,
        target(SeekFrom::Current(offset), len, position) == Some(place) <==> place == position
            + offset,
        target(SeekFrom::End(offset), len, position) is None <==> len + offset < 0 || len + offset
            > u64::MAX,
        target(SeekFrom::Current(offset), len, position) is None <==> position + offset < 0
            || position + offset > u64::MAX,
        target(SeekFrom::Current(0), len, position) == Some(position as u64),
        target(SeekFrom::End(0), len, position) == Some(len as u64),
{
}

/// Two seeks from the position add up to one.
pub proof fn lemma_seeks_add_up(len: int, position: u64, first: i64, second: i64)
    requires
        i64::MIN <= first + second <= i64::MAX,
        target(SeekFrom::Current(first), len, position as int) is Some,
    ensures
        target(
            SeekFrom::Current(second),
            len,
            target(SeekFrom::Current(first), len, position as int)->0 as int,
        ) == target(SeekFrom::Current((first + second) as i64), len, position as int),
{
}

} // verus!
