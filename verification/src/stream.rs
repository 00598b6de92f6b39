//! Run-length decoding from a reader that shows its bytes piece by piece.
//!
//! The caller owns the reader. It asks [`RleStream::plan`] what to do with the bytes
//! that the reader shows, hands bytes to [`RleStream::advance`], and tells the reader
//! how many of them were used.

use vstd::prelude::*;

use crate::color_map::PixelExpander;
use crate::error::{DecodingError, ImageError, IoErrorKind};
use crate::rle::{self, try_decode_rle_slice, NextRequest, RleOutcome};

verus! {

/// How far an image has come.
#[derive(Clone, Copy, Debug, PartialEq, Eq, Structural)]
pub struct RleStream {
    /// How many bytes at the front of the image are complete.
    pub filled: usize,
    /// How many bytes it takes to go on.
    pub min_wanted: usize,
}

/// What to do with the bytes that the reader shows.
#[derive(Clone, Copy, Debug, PartialEq, Eq, Structural)]
pub enum FillPlan {
    /// Stop: the image is complete.
    Finished,
    /// Read exactly this many bytes, and decode those.
    ReadExact(usize),
    /// Decode the bytes that the reader shows.
    Decode,
}

/// What became of the bytes that were decoded.
#[derive(Clone, Copy, Debug, PartialEq, Eq, Structural)]
pub enum Progress {
    /// This many bytes were used, and the image is complete.
    Done(usize),
    /// This many bytes were used, and more are needed.
    Used(usize),
}

/// The number of bytes that a request asks for, where it asks for any.
pub open spec fn wanted(request: NextRequest) -> usize {
    match request {
        NextRequest::KnownSize(size) => size,
        _ => 1,
    }
}

/// What an image decoder answers once the reader has no bytes left.
pub open spec fn final_answer(outcome: RleOutcome, room: nat) -> Result<(), ImageError> {
    match outcome.end {
        Ok(NextRequest::Done) => Ok(()),
        Ok(NextRequest::Boundary) => if outcome.written.len() == room {
            Ok(())
        } else {
            Err(ImageError::Decoding(DecodingError::UnexpectedEof))
        },
        Ok(NextRequest::KnownSize(_)) => Err(ImageError::IoError(IoErrorKind::UnexpectedEof)),
        Err(error) => Err(ImageError::Decoding(error)),
    }
}

impl RleStream {
    /// The first `filled` bytes of the image are what the bytes `used` so far decode to,
    /// those bytes end with a packet, and the number of bytes that are wanted is right for
    /// the bytes `ahead`.
    pub open spec fn tracks(
        self,
        e: PixelExpander,
        used: Seq<u8>,
        ahead: Seq<u8>,
        image: Seq<u8>,
    ) -> bool {
        let outcome = rle::decode_packets(e, used, image.len());
        &&& outcome.end == Ok::<_, DecodingError>(NextRequest::Boundary)
        &&& self.filled == outcome.written.len()
        &&& image.take(self.filled as int) == outcome.written
        &&& self.min_wanted == 1 || {
            &&& ahead.len() > 0
            &&& self.min_wanted == rle::packet_size(ahead[0], e.raw_bytes_per_pixel as nat)
        }
    }

    /// What to do when the reader shows `available` bytes of an image of `image_len` bytes.
    pub open spec fn planned(self, available: int, image_len: int) -> Result<
        FillPlan,
        DecodingError,
    > {
        if available == 0 {
            if self.filled == image_len {
                Ok(FillPlan::Finished)
            } else {
                Err(DecodingError::UnexpectedEof)
            }
        } else if available < self.min_wanted {
            Ok(FillPlan::ReadExact(self.min_wanted))
        } else {
            Ok(FillPlan::Decode)
        }
    }

    /// The state before the first byte.
    pub fn new() -> (stream: Self)
        ensures
            stream.filled == 0,
            stream.min_wanted == 1,
    {
        RleStream { filled: 0, min_wanted: 1 }
    }

    /// Decides what to do when the reader shows `available` bytes, none meaning that it
    /// has come to its end.
    pub fn plan(&self, available: usize, image_len: usize) -> (plan: Result<
        FillPlan,
        DecodingError,
    >)
        ensures
            plan == self.planned(available as int, image_len as int),
    {
        if available == 0 {
            if self.filled == image_len {
                Ok(FillPlan::Finished)
            } else {
                Err(DecodingError::UnexpectedEof)
            }
        } else if available < self.min_wanted {
            Ok(FillPlan::ReadExact(self.min_wanted))
        } else {
            Ok(FillPlan::Decode)
        }
    }

    /// Decodes the bytes that come next into the part of the image that is not complete.
    pub fn advance(&mut self, expander: &PixelExpander, bytes: &[u8], image: &mut [u8]) -> (result:
        Result<Progress, DecodingError>)
        requires
            old(self).filled <= old(image)@.len(),
            rle::decodable(
                *expander,
                bytes@,
                (old(image)@.len() - old(self).filled) as nat,
            ),
        ensures
            ({
                let filled = old(self).filled as int;
                let outcome = rle::decode_packets(
                    *expander,
                    bytes@,
                    (old(image)@.len() - filled) as nat,
                );
                &&& final(image)@ == old(image)@.take(filled) + outcome.written + old(image)@.skip(
                    filled + outcome.written.len(),
                )
                &&& match outcome.end {
                    Ok(request) => {
                        &&& result == Ok::<_, DecodingError>(
                            if request == NextRequest::Done {
                                Progress::Done(outcome.used as usize)
                            } else {
                                Progress::Used(outcome.used as usize)
                            },
                        )
                        &&& final(self).filled == filled + outcome.written.len()
                        &&& final(self).min_wanted == wanted(request)
                        &&& 1 <= final(self).min_wanted <= 513
                    },
                    Err(error) => {
                        &&& result == Err::<Progress, _>(error)
                        &&& *final(self) == *old(self)
                    },
                }
            }),
    {
        let filled = self.filled;
        let ghost before = image@;
        let ghost outcome = rle::decode_packets(*expander, bytes@, (before.len() - filled) as nat);
        proof {
            rle::lemma_outcome(*expander, bytes@, (before.len() - filled) as nat);
            assert(before.skip(filled as int).skip(outcome.written.len() as int) == before.skip(
                filled + outcome.written.len(),
            ));
        }
        let image_len = image.len();
        let (_, output) = image.split_at_mut(filled);
        match try_decode_rle_slice(bytes, output, expander) {
            Ok((unused, tail, request)) => {
                self.filled = image_len - tail.len();
                let used = bytes.len() - unused.len();
                match request {
                    NextRequest::KnownSize(size) => {
                        self.min_wanted = size;
                        Ok(Progress::Used(used))
                    },
                    NextRequest::Boundary => {
                        self.min_wanted = 1;
                        Ok(Progress::Used(used))
                    },
                    NextRequest::Done => {
                        self.min_wanted = 1;
                        Ok(Progress::Done(used))
                    },
                }
            },
            Err(error) => Err(error),
        }
    }
}

/// Before the first byte the state is true to whatever the reader has.
pub proof fn lemma_stream_starts(e: PixelExpander, ahead: Seq<u8>, image: Seq<u8>)
    ensures
        (RleStream { filled: 0, min_wanted: 1 }).tracks(e, Seq::empty(), ahead, image),
{
    assert(image.take(0) =~= Seq::<u8>::empty());
}

/// Where the bytes that were decoded end with a packet, the next bytes are decoded however few
/// the reader shows.
pub proof fn lemma_boundary_is_ready(stream: RleStream, outcome: RleOutcome, available: int, len: int)
    requires
        outcome.end == Ok::<_, DecodingError>(NextRequest::Boundary),
        available > 0,
    ensures
        stepped(stream, outcome).planned(available, len) == Ok::<_, DecodingError>(
            FillPlan::Decode,
        ),
{
}

/// What is done with the bytes that a reader shows. Its end is fine just where the image is
/// complete; bytes are decoded at once where they are as many as are wanted, and where they are
/// fewer just as many as are wanted are read.
pub proof fn lemma_plans(stream: RleStream, available: int, len: int, n: usize)
    ensures
        stream.planned(available, len) == Ok::<_, DecodingError>(FillPlan::Finished)
            <==> available == 0 && stream.filled == len,
        stream.planned(available, len) == Err::<FillPlan, _>(DecodingError::UnexpectedEof)
            <==> available == 0 && stream.filled != len,
        stream.planned(available, len) == Ok::<_, DecodingError>(FillPlan::Decode) <==> available
            != 0 && available >= stream.min_wanted,
        stream.planned(available, len) == Ok::<_, DecodingError>(FillPlan::ReadExact(n))
            <==> available != 0 && available < stream.min_wanted && n == stream.min_wanted,
{
}

/// After a cut packet its whole length is wanted, and else a first byte.
pub proof fn lemma_wanted(size: usize)
    ensures
        wanted(NextRequest::KnownSize(size)) == size,
        wanted(NextRequest::Boundary) == 1,
        wanted(NextRequest::Done) == 1,
{
}

/// The state after the bytes that come next are decoded with the given outcome.
pub open spec fn stepped(stream: RleStream, outcome: RleOutcome) -> RleStream {
    RleStream {
        filled: (stream.filled + outcome.written.len()) as usize,
        min_wanted: wanted(outcome.end->Ok_0),
    }
}

/// The image after the bytes that come next are decoded with the given outcome.
pub open spec fn painted(stream: RleStream, outcome: RleOutcome, image: Seq<u8>) -> Seq<u8> {
    image.take(stream.filled as int) + outcome.written + image.skip(
        stream.filled + outcome.written.len(),
    )
}

/// A reader may show its bytes in pieces of any length. However many of them are
/// decoded in one go, the state stays true to the bytes that were used, an image that
/// is complete is the one that all the bytes decode to at once, and an error is the
/// one that they give at once.
pub proof fn lemma_pieces(
    stream: RleStream,
    e: PixelExpander,
    used: Seq<u8>,
    ahead: Seq<u8>,
    n: nat,
    image: Seq<u8>,
)
    requires
        rle::decodable(e, used, image.len()),
        rle::decodable(e, ahead.take(n as int), (image.len() - stream.filled) as nat),
        image.len() <= usize::MAX,
        stream.tracks(e, used, ahead, image),
        n <= ahead.len(),
    ensures
        ({
            let room = (image.len() - stream.filled) as nat;
            let outcome = rle::decode_packets(e, ahead.take(n as int), room);
            let all = rle::decode_packets(e, used + ahead, image.len());
            let next = painted(stream, outcome, image);
            match outcome.end {
                Ok(NextRequest::Done) => {
                    &&& all.end == outcome.end
                    &&& all.written == next
                },
                Err(_) => {
                    &&& all.end == outcome.end
                    &&& all.written == next.take((stream.filled + outcome.written.len()) as int)
                },
                Ok(_) => {
                    let part = outcome.used as int;
                    stepped(stream, outcome).tracks(
                        e,
                        used + ahead.take(part),
                        ahead.skip(part),
                        next,
                    )
                },
            }
        }),
{
    let room = (image.len() - stream.filled) as nat;
    let bytes = ahead.take(n as int);
    let outcome = rle::decode_packets(e, bytes, room);
    let before = rle::decode_packets(e, used, image.len());
    let next = painted(stream, outcome, image);
    rle::lemma_outcome(e, used, image.len());
    rle::lemma_outcome(e, bytes, room);
    assert(used.skip(used.len() as int) + ahead =~= ahead);
    rle::lemma_resume(e, used, ahead, image.len());
    rle::lemma_resume(e, bytes, ahead.skip(n as int), room);
    assert(bytes + ahead.skip(n as int) =~= ahead);
    assert(next.take((stream.filled + outcome.written.len()) as int) =~= before.written
        + outcome.written);
    match outcome.end {
        Ok(NextRequest::Done) => {
            assert(next =~= before.written + outcome.written);
        },
        Err(_) => {},
        Ok(_) => {
            let part = outcome.used as int;
            rle::lemma_used_part(e, bytes, room);
            assert(bytes.take(part) =~= ahead.take(part));
            rle::lemma_resume(e, used, ahead.take(part), image.len());
            assert(used.skip(used.len() as int) + ahead.take(part) =~= ahead.take(part));
            if outcome.used < n {
                assert(bytes.skip(part)[0] == ahead.skip(part)[0]);
            }
        },
    }
}

/// Where the state wants a whole packet and gets it, nothing of it is left over.
pub proof fn lemma_exact_read_is_used(
    stream: RleStream,
    e: PixelExpander,
    used: Seq<u8>,
    ahead: Seq<u8>,
    image: Seq<u8>,
)
    requires
        rle::decodable(
            e,
            ahead.take(stream.min_wanted as int),
            (image.len() - stream.filled) as nat,
        ),
        image.len() <= usize::MAX,
        stream.tracks(e, used, ahead, image),
        1 < stream.min_wanted <= ahead.len(),
    ensures
        ({
            let room = (image.len() - stream.filled) as nat;
            let outcome = rle::decode_packets(e, ahead.take(stream.min_wanted as int), room);
            outcome.end is Ok ==> outcome.used == stream.min_wanted
        }),
{
    let packet = ahead.take(stream.min_wanted as int);
    rle::lemma_one_packet(e, packet, (image.len() - stream.filled) as nat);
}

/// Where the reader ends, so does decoding: with the error for a cut packet where a
/// packet has begun, else as the planner says.
pub proof fn lemma_reader_ends(
    stream: RleStream,
    e: PixelExpander,
    used: Seq<u8>,
    ahead: Seq<u8>,
    image: Seq<u8>,
)
    requires
        rle::decodable(e, used, image.len()),
        image.len() <= usize::MAX,
        stream.tracks(e, used, ahead, image),
        ahead.len() < stream.min_wanted,
    ensures
        ({
            let all = rle::decode_packets(e, used + ahead, image.len());
            &&& all.written == image.take(stream.filled as int)
            &&& final_answer(all, image.len()) == if ahead.len() > 0 {
                Err(ImageError::IoError(IoErrorKind::UnexpectedEof))
            } else if stream.filled == image.len() {
                Ok(())
            } else {
                Err(ImageError::Decoding(DecodingError::UnexpectedEof))
            }
        }),
{
    let room = (image.len() - stream.filled) as nat;
    rle::lemma_outcome(e, used, image.len());
    rle::lemma_resume(e, used, ahead, image.len());
    assert(used.skip(used.len() as int) + ahead =~= ahead);
    let before = rle::decode_packets(e, used, image.len());
    assert(before.written + Seq::<u8>::empty() =~= before.written);
    if ahead.len() == 0 {
        assert(used + ahead =~= used);
    }
}

/// How many bytes a reader shows that has `left` bytes and shows no more than `piece` at a time.
pub open spec fn shown(piece: nat, left: nat) -> nat {
    if left == 0 {
        0
    } else if piece == 0 {
        1
    } else if piece <= left {
        piece
    } else {
        left
    }
}

/// What one turn of decoding from a reader comes to.
pub enum Turn {
    /// Decoding ends with this result, and this is the image.
    End(Result<(), ImageError>, Seq<u8>),
    /// Decoding goes on with this state, this many bytes are used, and this is the image.
    Next(RleStream, nat, Seq<u8>),
}

/// What decoding comes to when a reader that has the bytes `ahead` shows no more than `piece` of
/// them.
pub open spec fn turn(
    e: PixelExpander,
    stream: RleStream,
    ahead: Seq<u8>,
    image: Seq<u8>,
    piece: nat,
) -> Turn {
    let available = shown(piece, ahead.len());
    let plan = stream.planned(available as int, image.len() as int);
    let n = match plan {
        Ok(FillPlan::ReadExact(wanted)) => wanted as nat,
        _ => available,
    };
    match plan {
        Err(error) => Turn::End(Err(ImageError::Decoding(error)), image),
        Ok(FillPlan::Finished) => Turn::End(Ok(()), image),
        Ok(_) => if ahead.len() < n {
            Turn::End(Err(ImageError::IoError(IoErrorKind::UnexpectedEof)), image)
        } else {
            let room = (image.len() - stream.filled) as nat;
            let outcome = rle::decode_packets(e, ahead.take(n as int), room);
            let next = painted(stream, outcome, image);
            match outcome.end {
                Err(error) => Turn::End(Err(ImageError::Decoding(error)), next),
                Ok(NextRequest::Done) => Turn::End(Ok(()), next),
                Ok(_) => Turn::Next(stepped(stream, outcome), outcome.used, next),
            }
        },
    }
}

/// What decoding comes to from a reader that has the bytes `ahead` and shows them in pieces no
/// longer than `pieces` says, and what the image is then; nothing where it takes more pieces.
pub open spec fn run(
    e: PixelExpander,
    stream: RleStream,
    ahead: Seq<u8>,
    image: Seq<u8>,
    pieces: Seq<nat>,
) -> Option<(Result<(), ImageError>, Seq<u8>)>
    decreases pieces.len(),
{
    if pieces.len() == 0 {
        None
    } else {
        match turn(e, stream, ahead, image, pieces[0]) {
            Turn::End(result, decoded) => Some((result, decoded)),
            Turn::Next(next, used, painted) => run(
                e,
                next,
                ahead.skip(used as int),
                painted,
                pieces.drop_first(),
            ),
        }
    }
}

/// How many pieces it may take to decode the bytes that are left.
pub open spec fn pieces_needed(stream: RleStream, left: nat) -> nat {
    if stream.min_wanted == 1 {
        2 * left + 2
    } else {
        2 * left + 1
    }
}

/// Where all the bytes can be decoded, so can those that were used and any that come next.
proof fn lemma_parts_decodable(
    stream: RleStream,
    e: PixelExpander,
    used: Seq<u8>,
    ahead: Seq<u8>,
    n: nat,
    image: Seq<u8>,
)
    requires
        rle::decodable(e, used + ahead, image.len()),
        stream.tracks(e, used, ahead, image),
        n <= ahead.len(),
    ensures
        rle::decodable(e, used, image.len()),
        rle::decodable(e, ahead.take(n as int), (image.len() - stream.filled) as nat),
{
    if !e.fits() {
        if used.len() > 0 {
            assert((used + ahead)[0] == used[0]);
        } else {
            assert(used + ahead =~= ahead);
        }
    }
}

/// A turn ends with what all the bytes decode to at once, or it keeps the state true and moves on.
proof fn lemma_turn(
    stream: RleStream,
    e: PixelExpander,
    used: Seq<u8>,
    ahead: Seq<u8>,
    image: Seq<u8>,
    piece: nat,
)
    requires
        rle::decodable(e, used + ahead, image.len()),
        image.len() <= usize::MAX,
        stream.tracks(e, used, ahead, image),
    ensures
        ({
            let all = rle::decode_packets(e, used + ahead, image.len());
            let end = all.written.len() as int;
            match turn(e, stream, ahead, image, piece) {
                Turn::End(result, decoded) => {
                    &&& result == final_answer(all, image.len())
                    &&& decoded == all.written + image.skip(end)
                },
                Turn::Next(next, part, painted) => {
                    &&& part <= ahead.len()
                    &&& next.tracks(
                        e,
                        used + ahead.take(part as int),
                        ahead.skip(part as int),
                        painted,
                    )
                    &&& painted.len() == image.len()
                    &&& painted.skip(end) == image.skip(end)
                    &&& part > 0 || (stream.min_wanted == 1 && next.min_wanted > 1)
                },
            }
        }),
{
    let all = rle::decode_packets(e, used + ahead, image.len());
    let available = shown(piece, ahead.len());
    let plan = stream.planned(available as int, image.len() as int);
    let n = match plan {
        Ok(FillPlan::ReadExact(wanted)) => wanted as nat,
        _ => available,
    };
    lemma_parts_decodable(stream, e, used, ahead, 0, image);
    rle::lemma_outcome(e, used, image.len());
    if available == 0 || ahead.len() < n {
        if ahead.len() > 0 {
            rle::lemma_packet_size(ahead[0], e.raw_bytes_per_pixel as nat);
        }
        lemma_reader_ends(stream, e, used, ahead, image);
        assert(image =~= all.written + image.skip(all.written.len() as int));
    } else {
        let room = (image.len() - stream.filled) as nat;
        let outcome = rle::decode_packets(e, ahead.take(n as int), room);
        let next = painted(stream, outcome, image);
        lemma_parts_decodable(stream, e, used, ahead, n, image);
        rle::lemma_outcome(e, ahead.take(n as int), room);
        rle::lemma_outcome(e, used + ahead, image.len());
        lemma_pieces(stream, e, used, ahead, n, image);
        if stream.min_wanted > 1 {
            lemma_whole_packet_moves_on(stream, e, used, ahead, n, image);
        }
        lemma_written_grows(stream, e, used, ahead, n, image);
        assert(next.skip(all.written.len() as int) =~= image.skip(all.written.len() as int));
        if outcome.end is Err || outcome.end->Ok_0 == NextRequest::Done {
            assert(next =~= all.written + image.skip(all.written.len() as int));
        }
    }
}

/// Decoding from a reader comes to the same whatever the pieces in which the reader shows its
/// bytes, namely to what all the bytes decode to at once, and it comes to an end.
pub proof fn lemma_any_pieces(
    stream: RleStream,
    e: PixelExpander,
    used: Seq<u8>,
    ahead: Seq<u8>,
    image: Seq<u8>,
    pieces: Seq<nat>,
)
    requires
        rle::decodable(e, used + ahead, image.len()),
        image.len() <= usize::MAX,
        stream.tracks(e, used, ahead, image),
    ensures
        pieces.len() >= pieces_needed(stream, ahead.len()) ==> run(
            e,
            stream,
            ahead,
            image,
            pieces,
        ) is Some,
        ({
            let all = rle::decode_packets(e, used + ahead, image.len());
            run(e, stream, ahead, image, pieces) matches Some((result, decoded)) ==> {
                &&& result == final_answer(all, image.len())
                &&& decoded == all.written + image.skip(all.written.len() as int)
            }
        }),
    decreases pieces.len(),
{
    if pieces.len() > 0 {
        lemma_turn(stream, e, used, ahead, image, pieces[0]);
        if let Turn::Next(next, part, painted) = turn(e, stream, ahead, image, pieces[0]) {
            let front = used + ahead.take(part as int);
            assert(front + ahead.skip(part as int) =~= used + ahead);
            lemma_any_pieces(
                next,
                e,
                front,
                ahead.skip(part as int),
                painted,
                pieces.drop_first(),
            );
        }
    }
}

/// Once the bytes of a whole packet are there, some are used.
proof fn lemma_whole_packet_moves_on(
    stream: RleStream,
    e: PixelExpander,
    used: Seq<u8>,
    ahead: Seq<u8>,
    n: nat,
    image: Seq<u8>,
)
    requires
        rle::decodable(e, used + ahead, image.len()),
        stream.tracks(e, used, ahead, image),
        1 < stream.min_wanted <= n <= ahead.len(),
    ensures
        ({
            let room = (image.len() - stream.filled) as nat;
            let outcome = rle::decode_packets(e, ahead.take(n as int), room);
            outcome.end is Ok ==> outcome.used > 0
        }),
{
    lemma_parts_decodable(stream, e, used, ahead, n, image);
    rle::lemma_packet_size(ahead[0], e.raw_bytes_per_pixel as nat);
    assert(ahead.take(n as int)[0] == ahead[0]);
}

/// All the bytes decode to no less than the first of them.
proof fn lemma_written_grows(
    stream: RleStream,
    e: PixelExpander,
    used: Seq<u8>,
    ahead: Seq<u8>,
    n: nat,
    image: Seq<u8>,
)
    requires
        rle::decodable(e, used + ahead, image.len()),
        stream.tracks(e, used, ahead, image),
        n <= ahead.len(),
    ensures
        ({
            let room = (image.len() - stream.filled) as nat;
            let outcome = rle::decode_packets(e, ahead.take(n as int), room);
            let all = rle::decode_packets(e, used + ahead, image.len());
            all.written.len() >= stream.filled + outcome.written.len()
        }),
{
    let room = (image.len() - stream.filled) as nat;
    let bytes = ahead.take(n as int);
    lemma_parts_decodable(stream, e, used, ahead, n, image);
    rle::lemma_outcome(e, used, image.len());
    rle::lemma_resume(e, used, ahead, image.len());
    assert(used.skip(used.len() as int) + ahead =~= ahead);
    rle::lemma_resume(e, bytes, ahead.skip(n as int), room);
    assert(bytes + ahead.skip(n as int) =~= ahead);
}

/// Decodes the pixels of an image from packets that are all in memory.
pub fn decode_rle(input: &[u8], expander: &PixelExpander, image: &mut [u8]) -> (result: Result<
    (),
    ImageError,
>)
    requires
        rle::decodable(*expander, input@, old(image)@.len()),
    ensures
        ({
            let outcome = rle::decode_packets(*expander, input@, old(image)@.len());
            &&& result == final_answer(outcome, old(image)@.len())
            &&& final(image)@ == outcome.written + old(image)@.skip(outcome.written.len() as int)
        }),
        final(image)@.len() == old(image)@.len(),
{
    let mut stream = RleStream::new();
    let mut rest: &[u8] = input;
    let ghost mut used: Seq<u8> = Seq::empty();
    let ghost e = *expander;
    let ghost before = image@;
    let ghost all = rle::decode_packets(e, input@, before.len());
    proof {
        assert(used + rest@ =~= input@);
        assert(image@.take(0) =~= Seq::<u8>::empty());
        assert(image@.skip(0) =~= before.skip(0));
    }
    loop
        invariant
            rle::decodable(e, used, before.len()),
            rle::decodable(e, rest@, (before.len() - stream.filled) as nat),
            e == *expander,
            before == old(image)@,
            image@.len() == before.len(),
            all == rle::decode_packets(e, input@, before.len()),
            used + rest@ == input@,
            stream.filled <= before.len(),
            stream.tracks(e, used, rest@, image@),
            image@.skip(stream.filled as int) == before.skip(stream.filled as int),
        decreases rest@.len(), if stream.min_wanted == 1 { 1int } else { 0int },
    {
        let ghost earlier = image@;
        match stream.plan(rest.len(), image.len()) {
            Err(error) => {
                proof {
                    rle::lemma_outcome(e, used, image@.len());
                    lemma_reader_ends(stream, e, used, rest@, image@);
                    assert(image@ =~= all.written + before.skip(all.written.len() as int));
                }
                return Err(ImageError::Decoding(error));
            },
            Ok(FillPlan::Finished) => {
                proof {
                    lemma_reader_ends(stream, e, used, rest@, image@);
                    assert(image@ =~= all.written + before.skip(all.written.len() as int));
                }
                return Ok(());
            },
            Ok(FillPlan::ReadExact(_)) => {
                // A slice shows all the bytes that it has.
                proof {
                    lemma_reader_ends(stream, e, used, rest@, image@);
                    assert(image@ =~= all.written + before.skip(all.written.len() as int));
                }
                return Err(ImageError::IoError(IoErrorKind::UnexpectedEof));
            },
            Ok(FillPlan::Decode) => {},
        }
        proof {
            let room = (image@.len() - stream.filled) as nat;
            assert(rest@.take(rest@.len() as int) =~= rest@);
            rle::lemma_outcome(e, rest@, room);
            lemma_pieces(stream, e, used, rest@, rest@.len(), image@);
        }
        let ghost outcome = rle::decode_packets(
            e,
            rest@,
            (image@.len() - stream.filled) as nat,
        );
        let ghost next_filled = stream.filled + outcome.written.len();
        proof {
            let filled = stream.filled as int;
            let more = outcome.written.len() as int;
            assert(earlier.skip(filled).skip(more) =~= earlier.skip(next_filled));
            assert(before.skip(filled).skip(more) =~= before.skip(next_filled));
        }
        match stream.advance(expander, rest, image) {
            Err(error) => {
                proof {
                    assert(image@ =~= all.written + before.skip(all.written.len() as int));
                }
                return Err(ImageError::Decoding(error));
            },
            Ok(Progress::Done(_)) => {
                proof {
                    assert(before.skip(before.len() as int) =~= Seq::<u8>::empty());
                    assert(image@ =~= all.written + before.skip(all.written.len() as int));
                }
                return Ok(());
            },
            Ok(Progress::Used(n)) => {
                let (front, next) = rest.split_at(n);
                proof {
                    assert(front@ == rest@.take(n as int));
                    assert(next@ == rest@.skip(n as int));
                    assert((used + front@) + next@ =~= input@);
                    used = used + front@;
                    assert(image@.skip(next_filled as int) =~= before.skip(next_filled as int));
                }
                rest = next;
            },
        }
    }
}

} // verus!
