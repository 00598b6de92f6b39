//! A cursor that does not leave its data.

use vstd::prelude::*;

use crate::color_map::copy_bytes;
use crate::error::IoErrorKind;
use crate::seek::{self, seek_target, SeekFrom};

verus! {

/// A cursor which errors when seeking out of bounds, instead of silently accepting.
pub struct StrictCursor<'a> {
    pub data: &'a [u8],
    pub position: u64,
}

impl<'a> StrictCursor<'a> {
    /// The bytes from the position on; none where it lies behind the data.
    pub open spec fn shown(&self) -> Seq<u8> {
        if self.position <= self.data@.len() {
            self.data@.skip(self.position as int)
        } else {
            Seq::empty()
        }
    }

    /// The cursor at another position.
    pub open spec fn at(self, position: int) -> StrictCursor<'a> {
        StrictCursor { position: position as u64, ..self }
    }

    /// A cursor at the start of the data.
    pub fn new(data: &'a [u8]) -> (cursor: Self)
        ensures
            cursor.data@ == data@,
            cursor.position == 0,
    {
        StrictCursor { data, position: 0 }
    }

    /// Reads as many bytes as there are and as `buf` has room for.
    pub fn read(&mut self, buf: &mut [u8]) -> (result: Result<usize, IoErrorKind>)
        ensures
            ({
                let shown = old(self).shown();
                let n = if shown.len() <= old(buf)@.len() {
                    shown.len() as int
                } else {
                    old(buf)@.len() as int
                };
                &&& result == Ok::<usize, IoErrorKind>(n as usize)
                &&& final(buf)@ == shown.take(n) + old(buf)@.skip(n)
                &&& *final(self) == old(self).at(old(self).position + n)
            }),
    {
        let shown = self.fill_buf();
        let to_read = if shown.len() <= buf.len() {
            shown.len()
        } else {
            buf.len()
        };
        let (front, _) = buf.split_at_mut(to_read);
        copy_bytes(vstd::slice::slice_subrange(shown, 0, to_read), front);
        assert(self.data.len() == self.data@.len());
        self.position = self.position + to_read as u64;
        Ok(to_read)
    }

    /// Shows the bytes from the position on.
    pub fn fill_buf(&self) -> (shown: &'a [u8])
        ensures
            shown@ == self.shown(),
    {
        let len = self.data.len();
        if self.position <= len as u64 {
            vstd::slice::slice_subrange(self.data, self.position as usize, len)
        } else {
            vstd::slice::slice_subrange(self.data, len, len)
        }
    }

    /// Marks bytes as read.
    pub fn consume(&mut self, amount: usize)
        requires
            old(self).position + amount <= u64::MAX,
        ensures
            *final(self) == old(self).at(old(self).position + amount),
    {
        self.position = self.position + amount as u64;
    }

    /// Moves to another position. Where that lies behind the data, the cursor moves there and
    /// reports an unexpected end.
    pub fn seek(&mut self, style: SeekFrom) -> (result: Result<u64, IoErrorKind>)
        ensures
            match seek::target(style, old(self).data@.len() as int, old(self).position as int) {
                Some(position) => {
                    &&& result == if position > old(self).data@.len() {
                        Err(IoErrorKind::UnexpectedEof)
                    } else {
                        Ok(position)
                    }
                    &&& *final(self) == old(self).at(position as int)
                },
                None => {
                    &&& result == Err::<u64, _>(IoErrorKind::InvalidInput)
                    &&& *final(self) == *old(self)
                },
            },
    {
        match seek_target(style, self.data.len(), self.position) {
            Some(position) => {
                self.position = position;
                if position > self.data.len() as u64 {
                    Err(IoErrorKind::UnexpectedEof)
                } else {
                    Ok(position)
                }
            },
            None => Err(IoErrorKind::InvalidInput),
        }
    }
}

/// After some of the bytes that a cursor shows are read, it shows the others.
pub proof fn lemma_read_on(cursor: StrictCursor, n: nat)
    requires
        cursor.data@.len() <= u64::MAX,
        n <= cursor.shown().len(),
    ensures
        cursor.at(cursor.position + n).shown() == cursor.shown().skip(n as int),
{
    assert(cursor.at(cursor.position + n).shown() =~= cursor.shown().skip(n as int));
}

/// What a cursor shows is all that follows its position: the bytes before it and those that it
/// shows are the data. Behind the data it shows nothing.
pub proof fn lemma_shown_in_place(cursor: StrictCursor)
    ensures
        cursor.position <= cursor.data@.len() ==> cursor.data@ == cursor.data@.take(
            cursor.position as int,
        ) + cursor.shown() && cursor.position + cursor.shown().len() == cursor.data@.len(),
        cursor.position >= cursor.data@.len() <==> cursor.shown().len() == 0,
{
    if cursor.position <= cursor.data@.len() {
        assert(cursor.data@ =~= cursor.data@.take(cursor.position as int) + cursor.shown());
    }
}

/// Moving a cursor changes its position alone.
pub proof fn lemma_at(cursor: StrictCursor, position: u64)
    ensures
        cursor.at(position as int).position == position,
        cursor.at(position as int).data == cursor.data,
{
}

} // verus!
