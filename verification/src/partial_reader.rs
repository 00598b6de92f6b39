//! A reader over data that arrives bit by bit.

use vstd::prelude::*;

use crate::color_map::copy_bytes;
use crate::error::IoErrorKind;
use crate::seek::{self, seek_target, SeekFrom};

verus! {

/// A reader that simulates partial data availability for testing resumable decoding. It wraps a
/// byte slice and limits how many bytes can be read before it reports an unexpected end.
pub struct PartialReader<'a> {
    pub data: &'a [u8],
    pub position: u64,
    /// How many bytes of the data have arrived.
    pub available_bytes: usize,
}

impl<'a> PartialReader<'a> {
    /// No more bytes have arrived than there are.
    pub open spec fn wf(&self) -> bool {
        self.available_bytes <= self.data@.len()
    }

    /// The bytes that have arrived and are not read.
    pub open spec fn shown(&self) -> Result<Seq<u8>, IoErrorKind> {
        if self.position >= self.available_bytes {
            Err(IoErrorKind::UnexpectedEof)
        } else {
            Ok(self.data@.subrange(self.position as int, self.available_bytes as int))
        }
    }

    /// The reader at another position.
    pub open spec fn at(self, position: int) -> PartialReader<'a> {
        PartialReader { position: position as u64, ..self }
    }

    /// A reader at the start of the data.
    pub fn new(data: &'a [u8], available_bytes: usize) -> (reader: Self)
        ensures
            reader.data@ == data@,
            reader.position == 0,
            reader.available_bytes == available_bytes,
    {
        PartialReader { data, position: 0, available_bytes }
    }

    /// Lets more or fewer bytes have arrived.
    pub fn set_available(&mut self, available_bytes: usize)
        ensures
            *final(self) == (PartialReader { available_bytes, ..*old(self) }),
    {
        self.available_bytes = available_bytes;
    }

    /// Reads as many bytes as there are and as `buf` has room for.
    pub fn read(&mut self, buf: &mut [u8]) -> (result: Result<usize, IoErrorKind>)
        requires
            old(self).wf(),
        ensures
            match old(self).shown() {
                Ok(shown) => {
                    let n = if shown.len() <= old(buf)@.len() {
                        shown.len() as int
                    } else {
                        old(buf)@.len() as int
                    };
                    &&& result == Ok::<usize, IoErrorKind>(n as usize)
                    &&& final(buf)@ == shown.take(n) + old(buf)@.skip(n)
                    &&& *final(self) == old(self).at(old(self).position + n)
                },
                Err(error) => {
                    &&& result == Err::<usize, _>(error)
                    &&& final(buf)@ == old(buf)@
                    &&& *final(self) == *old(self)
                },
            },
    {
        let shown = match self.fill_buf() {
            Ok(shown) => shown,
            Err(error) => return Err(error),
        };
        let to_read = if shown.len() <= buf.len() {
            shown.len()
        } else {
            buf.len()
        };
        let (front, _) = buf.split_at_mut(to_read);
        copy_bytes(vstd::slice::slice_subrange(shown, 0, to_read), front);
        self.position = self.position + to_read as u64;
        Ok(to_read)
    }

    /// Shows the bytes that have arrived and are not read.
    pub fn fill_buf(&self) -> (result: Result<&'a [u8], IoErrorKind>)
        requires
            self.wf(),
        ensures
            match result {
                Ok(shown) => self.shown() == Ok::<_, IoErrorKind>(shown@),
                Err(error) => self.shown() == Err::<Seq<u8>, _>(error),
            },
    {
        if self.position >= self.available_bytes as u64 {
            return Err(IoErrorKind::UnexpectedEof);
        }
        Ok(vstd::slice::slice_subrange(self.data, self.position as usize, self.available_bytes))
    }

    /// Marks bytes as read.
    pub fn consume(&mut self, amt: usize)
        requires
            old(self).position + amt <= u64::MAX,
        ensures
            *final(self) == old(self).at(old(self).position + amt),
    {
        self.position = self.position + amt as u64;
    }

    /// Moves to another position, which may lie behind the data.
    pub fn seek(&mut self, pos: SeekFrom) -> (result: Result<u64, IoErrorKind>)
        ensures
            match seek::target(pos, old(self).data@.len() as int, old(self).position as int) {
                Some(position) => {
                    &&& result == Ok::<_, IoErrorKind>(position)
                    &&& *final(self) == old(self).at(position as int)
                },
                None => {
                    &&& result == Err::<u64, _>(IoErrorKind::InvalidInput)
                    &&& *final(self) == *old(self)
                },
            },
    {
        match seek_target(pos, self.data.len(), self.position) {
            Some(position) => {
                self.position = position;
                Ok(position)
            },
            None => Err(IoErrorKind::InvalidInput),
        }
    }
}

/// After some of the bytes that a reader shows are read, it shows the others.
pub proof fn lemma_read_on(reader: PartialReader, n: nat)
    requires
        reader.wf(),
        reader.shown() matches Ok(shown) && n <= shown.len(),
    ensures
        ({
            let shown = reader.shown()->Ok_0;
            reader.at(reader.position + n).shown() == if n < shown.len() {
                Ok(shown.skip(n as int))
            } else {
                Err(IoErrorKind::UnexpectedEof)
            }
        }),
{
    let shown = reader.shown()->Ok_0;
    if n < shown.len() {
        assert(reader.at(reader.position + n).shown()->Ok_0 =~= shown.skip(n as int));
    }
}

/// When more bytes arrive, a reader still shows those that it showed before.
pub proof fn lemma_bytes_arrive(reader: PartialReader, available_bytes: usize)
    requires
        reader.wf(),
        reader.available_bytes <= available_bytes <= reader.data@.len(),
        reader.shown() is Ok,
    ensures
        ({
            let shown = reader.shown()->Ok_0;
            let later = (PartialReader { available_bytes, ..reader }).shown();
            later matches Ok(more) && shown == more.take(shown.len() as int)
        }),
{
    let shown = reader.shown()->Ok_0;
    let more = (PartialReader { available_bytes, ..reader }).shown()->Ok_0;
    assert(shown =~= more.take(shown.len() as int));
}

/// What a reader shows stands in the data between the bytes before its position and those that
/// have not arrived; it shows nothing, and says so, just where there is nothing in between.
pub proof fn lemma_shown_in_place(reader: PartialReader)
    requires
        reader.wf(),
    ensures
        reader.shown() == Err::<Seq<u8>, _>(IoErrorKind::UnexpectedEof) <==> reader.position
            >= reader.available_bytes,
        reader.shown() is Err ==> reader.shown() == Err::<Seq<u8>, _>(IoErrorKind::UnexpectedEof),
        reader.shown() matches Ok(shown) ==> {
            &&& shown.len() > 0
            &&& reader.position + shown.len() == reader.available_bytes
            &&& reader.data@ == reader.data@.take(reader.position as int) + shown
                + reader.data@.skip(reader.available_bytes as int)
        },
{
    if reader.shown() is Ok {
        let shown = reader.shown()->Ok_0;
        assert(reader.data@ =~= reader.data@.take(reader.position as int) + shown
            + reader.data@.skip(reader.available_bytes as int));
    }
}

/// Moving a reader changes its position alone.
pub proof fn lemma_at(reader: PartialReader, position: u64)
    ensures
        reader.at(position as int).position == position,
        reader.at(position as int).data == reader.data,
        reader.at(position as int).available_bytes == reader.available_bytes,
{
}

} // verus!
