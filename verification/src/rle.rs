//! Run-length encoded pixels.
//!
//! The pixels of an encoded image come in packets. The first byte of a packet holds
//! a count less one in its low seven bits. Where the high bit is set, one raw pixel
//! follows, which is repeated that often; else that many raw pixels follow.

use vstd::prelude::*;

use crate::color_map::{copy_bytes, PixelExpander};
use crate::error::DecodingError;

verus! {

/// What the decoder needs before it can go on.
#[derive(Clone, Copy, Debug, PartialEq, Eq, Structural)]
pub enum NextRequest {
    /// The next packet is this long, its first byte included; for TGA that is never
    /// more than `128 * 4 + 1` bytes.
    KnownSize(usize),
    /// The next packet has not begun, so its first byte is needed.
    Boundary,
    /// The image is complete.
    Done,
}

/// How many pixels the packet with this first byte stands for.
pub open spec fn packet_count(head: u8) -> nat {
    head as nat % 128 + 1
}

/// Whether the packet with this first byte repeats one pixel.
pub open spec fn packet_repeats(head: u8) -> bool {
    head >= 128
}

/// The length of the packet with this first byte, where a raw pixel has `raw` bytes.
pub open spec fn packet_size(head: u8, raw: nat) -> nat {
    if packet_repeats(head) {
        1 + raw
    } else {
        1 + packet_count(head) * raw
    }
}

/// One pixel, `count` times over.
pub open spec fn repeated(pixel: Seq<u8>, count: nat) -> Seq<u8> {
    Seq::new(count * pixel.len(), |k: int| pixel[k % pixel.len() as int])
}

/// The raw pixels that a packet stands for.
pub open spec fn packet_pixels(packet: Seq<u8>) -> Seq<u8> {
    if packet_repeats(packet[0]) {
        repeated(packet.drop_first(), packet_count(packet[0]))
    } else {
        packet.drop_first()
    }
}

/// What decoding a stretch of packets comes to.
pub struct RleOutcome {
    /// The pixels that are written.
    pub written: Seq<u8>,
    /// How many bytes make up the packets that are decoded whole.
    pub used: nat,
    /// Why decoding stops.
    pub end: Result<NextRequest, DecodingError>,
}

impl RleOutcome {
    /// The outcome when this one follows upon packets of `used` bytes that hold the
    /// pixels `written`.
    pub open spec fn after(self, written: Seq<u8>, used: nat) -> RleOutcome {
        RleOutcome { written: written + self.written, used: used + self.used, end: self.end }
    }
}

/// Decodes packets from the front of `input` into an image that lacks `room` bytes.
pub open spec fn decode_packets(e: PixelExpander, input: Seq<u8>, room: nat) -> RleOutcome
    decreases input.len(),
{
    if input.len() == 0 {
        RleOutcome { written: Seq::empty(), used: 0, end: Ok(NextRequest::Boundary) }
    } else {
        let count = packet_count(input[0]);
        let size = packet_size(input[0], e.raw_bytes_per_pixel as nat);
        if input.len() < size {
            RleOutcome {
                written: Seq::empty(),
                used: 0,
                end: Ok(NextRequest::KnownSize(size as usize)),
            }
        } else if room < count * e.out_size() {
            RleOutcome { written: Seq::empty(), used: 0, end: Err(DecodingError::RleOverflow) }
        } else {
            let raw = packet_pixels(input.take(size as int));
            if e.colored(raw, count) < count {
                RleOutcome {
                    written: e.colors(raw, e.colored(raw, count)),
                    used: 0,
                    end: Err(DecodingError::InvalidColorMapIndex),
                }
            } else if room == count * e.out_size() {
                RleOutcome { written: e.colors(raw, count), used: size, end: Ok(NextRequest::Done) }
            } else {
                decode_packets(
                    e,
                    input.skip(size as int),
                    (room - count * e.out_size()) as nat,
                ).after(e.colors(raw, count), size)
            }
        }
    }
}

/// Whether decoding stops before it comes to a pixel.
pub open spec fn stops_at_once(e: PixelExpander, input: Seq<u8>, room: nat) -> bool {
    ||| input.len() < 1
    ||| input.len() < packet_size(input[0], e.raw_bytes_per_pixel as nat)
    ||| room < packet_count(input[0]) * e.out_size()
}

/// Whether no pixel has to be put where it does not fit.
pub open spec fn decodable(e: PixelExpander, input: Seq<u8>, room: nat) -> bool {
    e.sized() && (e.fits() || stops_at_once(e, input, room))
}

/// Checks that no pixel has to be put where it does not fit.
pub fn is_decodable(expander: &PixelExpander, input: &[u8], room: usize) -> (result: bool)
    requires
        expander.sized(),
    ensures
        result == decodable(*expander, input@, room as nat),
{
    if expander.is_fitting() || input.len() == 0 {
        return true;
    }
    let head = input[0];
    let raw_size = expander.raw_bytes_per_pixel;
    let out_size = expander.output_bytes_per_pixel;
    proof {
        assert((head & 0x7f) == head % 128) by (bit_vector);
        assert((head & 0x80 != 0) == (head >= 128)) by (bit_vector);
    }
    let count: usize = (head & 0x7f) as usize + 1;
    assert(count * raw_size <= 512 && count * out_size <= 512) by (nonlinear_arith)
        requires
            count <= 128,
            raw_size <= 4,
            out_size <= 4,
    ;
    let size = if head & 0x80 != 0 {
        1 + raw_size
    } else {
        1 + count * raw_size
    };
    input.len() < size || room < count * out_size
}

/// What follows can be put together in any order.
proof fn lemma_after_after(
    outcome: RleOutcome,
    written: Seq<u8>,
    used: nat,
    before_written: Seq<u8>,
    before_used: nat,
)
    ensures
        outcome.after(written, used).after(before_written, before_used) == outcome.after(
            before_written + written,
            before_used + used,
        ),
{
    assert(before_written + (written + outcome.written) =~= (before_written + written)
        + outcome.written);
}

/// A packet is at least two bytes long and at most one and 128 pixels of four bytes.
pub proof fn lemma_packet_size(head: u8, raw: nat)
    requires
        1 <= raw <= 4,
    ensures
        1 <= packet_count(head) <= 128,
        2 <= packet_size(head, raw) <= 513,
        packet_size(head, raw) == 513 <==> head == 0x7f && raw == 4,
{
    let count = packet_count(head);
    assert(count <= count * raw <= 512) by (nonlinear_arith)
        requires
            1 <= raw <= 4,
            count <= 128,
    ;
    assert(count * raw == 512 <==> count == 128 && raw == 4) by (nonlinear_arith)
        requires
            1 <= raw <= 4,
            count <= 128,
    ;
}

/// Every pixel of a repeated pixel is that pixel.
proof fn lemma_repeated_pixel(e: PixelExpander, pixel: Seq<u8>, count: nat, i: nat)
    requires
        e.sized(),
        pixel.len() == e.raw_bytes_per_pixel,
        i < count,
    ensures
        e.raw_pixel(repeated(pixel, count), i as int) == pixel,
{
    let b = pixel.len() as int;
    assert(0 <= i * b && (i + 1) * b <= count * b && (i + 1) * b == i * b + b) by (nonlinear_arith)
        requires
            i < count,
            b >= 1,
    ;
    assert forall|j: int| 0 <= j < b implies #[trigger] e.raw_pixel(
        repeated(pixel, count),
        i as int,
    )[j] == pixel[j] by {
        vstd::arithmetic::div_mod::lemma_mod_multiples_vanish(i as int, j, b);
        vstd::arithmetic::div_mod::lemma_small_mod(j as nat, b as nat);
        assert(b * i + j == i * b + j) by (nonlinear_arith);
    }
    assert(e.raw_pixel(repeated(pixel, count), i as int) =~= pixel);
}

/// The colors of a repeated pixel are its color, as often as it is repeated.
proof fn lemma_repeated_colors(e: PixelExpander, pixel: Seq<u8>, count: nat, n: nat)
    requires
        e.fits(),
        pixel.len() == e.raw_bytes_per_pixel,
        n <= count,
    ensures
        e.color(pixel) matches Some(color) ==> {
            &&& e.colored(repeated(pixel, count), n) == n
            &&& e.colors(repeated(pixel, count), n) == repeated(color, n)
        },
        e.color(pixel) is None ==> e.colored(repeated(pixel, count), n) == 0,
    decreases n,
{
    if n > 0 {
        let m = (n - 1) as nat;
        lemma_repeated_colors(e, pixel, count, m);
        lemma_repeated_pixel(e, pixel, count, m);
        e.lemma_color_len(pixel);
        if let Some(color) = e.color(pixel) {
            let b = color.len() as int;
            assert(n * b == m * b + b) by (nonlinear_arith)
                requires
                    n == m + 1,
            ;
            assert(m * b >= 0) by (nonlinear_arith)
                requires
                    b >= 0,
            ;
            assert forall|k: int| m * b <= k < n * b implies color[k - m * b] == #[trigger] repeated(
                color,
                n,
            )[k] by {
                let j = k - m * b;
                vstd::arithmetic::div_mod::lemma_mod_multiples_vanish(m as int, j, b);
                vstd::arithmetic::div_mod::lemma_small_mod(j as nat, b as nat);
                assert(b * m + j == k) by (nonlinear_arith)
                    requires
                        j == k - m * b,
                ;
            }
            assert(repeated(color, m) + color =~= repeated(color, n));
        }
    }
}

/// Writes one color to every pixel of `out`.
fn fill_pixels(color: &[u8], out: &mut [u8], count: usize)
    requires
        color.len() > 0,
        old(out)@.len() == count * color@.len(),
    ensures
        final(out)@ == repeated(color@, count as nat),
{
    let mut i: usize = 0;
    while i < out.len()
        invariant
            color.len() > 0,
            i <= out.len(),
            out@.len() == count * color@.len(),
            forall|k: int| 0 <= k < i ==> out@[k] == color@[k % color@.len() as int],
        decreases out.len() - i,
    {
        out[i] = color[i % color.len()];
        i = i + 1;
    }
}

/// Decodes packets from the front of `input`, and says what it needs to go on.
///
/// Gives back the bytes that it did not use and the part of `output` that it did not
/// fill. Where the input ends between two packets it asks for the next
/// [`NextRequest::Boundary`]; where it ends inside one, for the exact number of bytes
/// that the packet takes.
#[verifier::rlimit(30)]
pub fn try_decode_rle_slice<'a, 'b>(
    input: &'a [u8],
    output: &'b mut [u8],
    expander: &PixelExpander,
) -> (result: Result<(&'a [u8], &'b mut [u8], NextRequest), DecodingError>)
    requires
        decodable(*expander, input@, old(output)@.len()),
    ensures
        ({
            let outcome = decode_packets(*expander, input@, old(output)@.len());
            match result {
                Ok((unused, tail, request)) => {
                    &&& outcome.end == Ok::<_, DecodingError>(request)
                    &&& unused@ == input@.skip(outcome.used as int)
                    &&& tail@ == old(output)@.skip(outcome.written.len() as int)
                    &&& final(output)@ == outcome.written + final(tail)@
                },
                Err(error) => {
                    &&& outcome.end == Err::<NextRequest, _>(error)
                    &&& final(output)@ == outcome.written + old(output)@.skip(
                        outcome.written.len() as int,
                    )
                },
            }
        }),
{
    let raw_size = expander.raw_bytes_per_pixel;
    let out_size = expander.output_bytes_per_pixel;
    let ghost e = *expander;
    let ghost whole = decode_packets(e, input@, output@.len());
    let ghost before = output@;
    let ghost mut written: Seq<u8> = Seq::empty();
    let ghost mut used: nat = 0;
    let mut rest: &'a [u8] = input;
    let mut tail: &'b mut [u8] = output;
    proof {
        assert(rest@ == input@.skip(0));
        assert(tail@ == before.skip(0));
        assert(decode_packets(e, rest@, tail@.len()).after(written, used).written =~= whole.written);
    }
    while rest.len() > 0
        invariant
            decodable(e, rest@, tail@.len()),
            e == *expander,
            raw_size == e.raw_bytes_per_pixel,
            out_size == e.out_size(),
            before == old(output)@,
            whole == decode_packets(e, input@, before.len()),
            used <= input@.len(),
            written.len() <= before.len(),
            rest@ == input@.skip(used as int),
            tail@ == before.skip(written.len() as int),
            whole == decode_packets(e, rest@, tail@.len()).after(written, used),
            after_borrow(output)@ == written + final(tail)@,
        decreases rest@.len(),
    {
        let head = rest[0];
        let ghost packet_len = packet_size(head, raw_size as nat);
        let ghost here = tail@;
        proof {
            assert((head & 0x7f) == head % 128 && (head & 0x7f) < 128) by (bit_vector);
            assert((head & 0x80 != 0) == (head >= 128)) by (bit_vector);
            lemma_packet_size(head, raw_size as nat);
        }
        let count: usize = (head & 0x7f) as usize + 1;
        let ghost raw = packet_pixels(rest@.take(packet_len as int));
        assert(count == packet_count(head));
        assert(count * raw_size <= 512 && count * out_size <= 512) by (nonlinear_arith)
            requires
                count <= 128,
                raw_size <= 4,
                out_size <= 4,
        ;
        if head & 0x80 != 0 {
            if rest.len() < 1 + raw_size {
                return Ok((rest, tail, NextRequest::KnownSize(1 + raw_size)));
            }
            let (packet, next_rest) = rest.split_at(1 + raw_size);
            let (_, raw_pixel) = packet.split_at(1);
            if tail.len() < out_size * count {
                return Err(DecodingError::RleOverflow);
            }
            proof {
                assert(raw_pixel@ == rest@.take(packet_len as int).drop_first());
                lemma_repeated_colors(e, raw_pixel@, count as nat, count as nat);
                e.lemma_color_len(raw_pixel@);
            }
            let (run, next_tail) = tail.split_at_mut(out_size * count);
            match expander.lookup(raw_pixel) {
                Some(color) => fill_pixels(color, run, count),
                None => {
                    assert(run@ + next_tail@ == here);
                    return Err(DecodingError::InvalidColorMapIndex);
                },
            }
            rest = next_rest;
            tail = next_tail;
        } else {
            if rest.len() < 1 + count * raw_size {
                return Ok((rest, tail, NextRequest::KnownSize(1 + count * raw_size)));
            }
            let (packet, next_rest) = rest.split_at(1 + count * raw_size);
            let (_, raw_pixels) = packet.split_at(1);
            if tail.len() < out_size * count {
                return Err(DecodingError::RleOverflow);
            }
            let (run, next_tail) = tail.split_at_mut(out_size * count);
            proof {
                assert(raw_pixels@ == raw);
                e.lemma_equally_many(raw_pixels@.len(), run@.len(), count as nat);
                e.lemma_colored_prefix(raw, count as nat);
                let k = e.colored(raw, count as nat);
                assert(k * raw_size <= count * raw_size && k * out_size <= count * out_size)
                    by (nonlinear_arith)
                    requires
                        k <= count,
                ;
                e.lemma_colors_len(raw, k);
                assert(run@.skip((k * out_size) as int) + next_tail@ == here.skip(
                    (k * out_size) as int,
                ));
            }
            match expander.expand_pixels(raw_pixels, run) {
                Ok(()) => {},
                Err(error) => return Err(error),
            }
            rest = next_rest;
            tail = next_tail;
        }
        proof {
            e.lemma_colors_len(raw, count as nat);
            let next = decode_packets(e, rest@, tail@.len());
            lemma_after_after(next, e.colors(raw, count as nat), packet_len, written, used);
            written = written + e.colors(raw, count as nat);
            used = used + packet_len;
            assert(rest@ == input@.skip(used as int));
            assert(tail@ == before.skip(written.len() as int));
        }
        if tail.len() == 0 {
            return Ok((rest, tail, NextRequest::Done));
        }
    }
    Ok((rest, tail, NextRequest::Boundary))
}

/// Decoding stays within the input and within the image. It ends with the image just
/// where it fills it, between packets just where it has used up the input, and inside
/// a packet only where the rest of the input is too short for that packet.
pub proof fn lemma_outcome(e: PixelExpander, input: Seq<u8>, room: nat)
    requires
        decodable(e, input, room),
    ensures
        ({
            let outcome = decode_packets(e, input, room);
            let unused = input.skip(outcome.used as int);
            &&& outcome.used <= input.len()
            &&& outcome.written.len() <= room
            &&& match outcome.end {
                Ok(NextRequest::Done) => outcome.written.len() == room && room > 0,
                Ok(NextRequest::Boundary) => {
                    &&& outcome.used == input.len()
                    &&& outcome.written.len() < room || (room == 0 && input.len() == 0)
                },
                Ok(NextRequest::KnownSize(size)) => {
                    &&& 0 < unused.len() < size <= 513
                    &&& size == packet_size(unused[0], e.raw_bytes_per_pixel as nat)
                },
                Err(_) => true,
            }
        }),
    decreases input.len(),
{
    if input.len() > 0 {
        let count = packet_count(input[0]);
        let size = packet_size(input[0], e.raw_bytes_per_pixel as nat);
        lemma_packet_size(input[0], e.raw_bytes_per_pixel as nat);
        assert(input.skip(0) == input);
        if input.len() >= size && room >= count * e.out_size() {
            let raw = packet_pixels(input.take(size as int));
            lemma_packet_colors(e, input);
            if e.colored(raw, count) == count && room > count * e.out_size() {
                let rest = input.skip(size as int);
                let left = (room - count * e.out_size()) as nat;
                lemma_outcome(e, rest, left);
                let used = decode_packets(e, rest, left).used;
                assert(input.skip((size + used) as int) == rest.skip(used as int));
            }
        }
    }
}

/// The colors of a whole packet fill as many pixels as have one.
proof fn lemma_packet_colors(e: PixelExpander, input: Seq<u8>)
    requires
        e.fits(),
        input.len() > 0,
        input.len() >= packet_size(input[0], e.raw_bytes_per_pixel as nat),
    ensures
        ({
            let count = packet_count(input[0]);
            let size = packet_size(input[0], e.raw_bytes_per_pixel as nat);
            let raw = packet_pixels(input.take(size as int));
            let k = e.colored(raw, count);
            &&& k <= count
            &&& e.colors(raw, k).len() == k * e.out_size()
            &&& k * e.out_size() <= count * e.out_size()
            &&& 0 < count * e.out_size()
        }),
{
    let count = packet_count(input[0]);
    let size = packet_size(input[0], e.raw_bytes_per_pixel as nat);
    let raw = packet_pixels(input.take(size as int));
    let k = e.colored(raw, count);
    e.lemma_colored_prefix(raw, count);
    let b = e.raw_bytes_per_pixel as int;
    let out = e.out_size() as int;
    assert(k * b <= count * b && k * out <= count * out && 0 < count * out) by (nonlinear_arith)
        requires
            0 <= k <= count,
            1 <= count,
            1 <= b,
            1 <= out,
    ;
    e.lemma_colors_len(raw, k);
}

/// It does not matter where the input is cut: decoding a first part, and then the
/// bytes that it left unused together with a second part, comes to the same as
/// decoding both parts at once.
pub proof fn lemma_resume(e: PixelExpander, first: Seq<u8>, second: Seq<u8>, room: nat)
    requires
        decodable(e, first, room),
    ensures
        ({
            let outcome = decode_packets(e, first, room);
            let unused = first.skip(outcome.used as int);
            decode_packets(e, first + second, room) == match outcome.end {
                Ok(NextRequest::Done) | Err(_) => outcome,
                _ => decode_packets(
                    e,
                    unused + second,
                    (room - outcome.written.len()) as nat,
                ).after(outcome.written, outcome.used),
            }
        }),
    decreases first.len(),
{
    let both = first + second;
    let outcome = decode_packets(e, first, room);
    if first.len() == 0 {
        assert(first.skip(0) + second =~= both);
        lemma_after_nothing(decode_packets(e, both, room));
    } else {
        let count = packet_count(first[0]);
        let size = packet_size(first[0], e.raw_bytes_per_pixel as nat);
        lemma_packet_size(first[0], e.raw_bytes_per_pixel as nat);
        if first.len() < size {
            assert(first.skip(0) + second =~= both);
            lemma_after_nothing(decode_packets(e, both, room));
        } else {
            assert(both.take(size as int) =~= first.take(size as int));
            let raw = packet_pixels(first.take(size as int));
            if e.fits() {
                lemma_packet_colors(e, first);
            }
            if room > count * e.out_size() && e.colored(raw, count) == count {
                let rest = first.skip(size as int);
                let left = (room - count * e.out_size()) as nat;
                let next = decode_packets(e, rest, left);
                assert(both.skip(size as int) =~= rest + second);
                lemma_resume(e, rest, second, left);
                lemma_outcome(e, rest, left);
                assert(first.skip((size + next.used) as int) =~= rest.skip(next.used as int));
                lemma_after_after(
                    decode_packets(
                        e,
                        rest.skip(next.used as int) + second,
                        (left - next.written.len()) as nat,
                    ),
                    next.written,
                    next.used,
                    e.colors(raw, count),
                    size,
                );
            }
        }
    }
}

/// The packets that were decoded whole decode to the same on their own, and end
/// between packets.
pub proof fn lemma_used_part(e: PixelExpander, input: Seq<u8>, room: nat)
    requires
        decodable(e, input, room),
    ensures
        ({
            let outcome = decode_packets(e, input, room);
            match outcome.end {
                Ok(NextRequest::Done) | Err(_) => true,
                _ => decode_packets(e, input.take(outcome.used as int), room) == (RleOutcome {
                    written: outcome.written,
                    used: outcome.used,
                    end: Ok(NextRequest::Boundary),
                }),
            }
        }),
    decreases input.len(),
{
    let outcome = decode_packets(e, input, room);
    if input.len() > 0 {
        let count = packet_count(input[0]);
        let size = packet_size(input[0], e.raw_bytes_per_pixel as nat);
        lemma_packet_size(input[0], e.raw_bytes_per_pixel as nat);
        lemma_outcome(e, input, room);
        if input.len() >= size {
            let raw = packet_pixels(input.take(size as int));
            if room > count * e.out_size() && e.colored(raw, count) >= count {
                let rest = input.skip(size as int);
                let left = (room - count * e.out_size()) as nat;
                lemma_used_part(e, rest, left);
                lemma_outcome(e, rest, left);
                let next = decode_packets(e, rest, left);
                let part = input.take(outcome.used as int);
                assert(part.take(size as int) =~= input.take(size as int));
                assert(part.skip(size as int) =~= rest.take(next.used as int));
            }
        }
    }
}

/// Nothing before an outcome leaves it as it is.
proof fn lemma_after_nothing(outcome: RleOutcome)
    ensures
        outcome.after(Seq::empty(), 0) == outcome,
{
    assert(Seq::<u8>::empty() + outcome.written =~= outcome.written);
}

/// The first byte of a packet is enough to learn how long the packet is, and that
/// many bytes are enough to decode it: nothing is left of them, nor is more asked for.
pub proof fn lemma_one_packet(e: PixelExpander, packet: Seq<u8>, room: nat)
    requires
        decodable(e, packet, room),
        packet.len() > 0,
        packet.len() == packet_size(packet[0], e.raw_bytes_per_pixel as nat),
    ensures
        decode_packets(e, packet.take(1), room).end == Ok::<_, DecodingError>(
            NextRequest::KnownSize(packet.len() as usize),
        ),
        ({
            let outcome = decode_packets(e, packet, room);
            match outcome.end {
                Ok(request) => outcome.used == packet.len() && (request == NextRequest::Boundary
                    || request == NextRequest::Done),
                Err(_) => true,
            }
        }),
{
    lemma_packet_size(packet[0], e.raw_bytes_per_pixel as nat);
    assert(packet.take(1)[0] == packet[0]);
    reveal_with_fuel(decode_packets, 2);
}

/// A packet that repeats a pixel fills the image as the packet does that holds the
/// pixel as often, whatever packets follow.
pub proof fn lemma_run_as_copies(
    e: PixelExpander,
    run: Seq<u8>,
    copies: Seq<u8>,
    rest: Seq<u8>,
    room: nat,
)
    requires
        e.fits(),
        run.len() == 1 + e.raw_bytes_per_pixel,
        packet_repeats(run[0]),
        copies == seq![(run[0] - 128) as u8] + repeated(run.drop_first(), packet_count(run[0])),
    ensures
        decode_packets(e, run + rest, room).written == decode_packets(
            e,
            copies + rest,
            room,
        ).written,
        decode_packets(e, run + rest, room).end == decode_packets(e, copies + rest, room).end,
{
    let raw = e.raw_bytes_per_pixel as nat;
    let count = packet_count(run[0]);
    assert(copies[0] == run[0] - 128);
    assert(packet_count(copies[0]) == count);
    assert(copies.len() == packet_size(copies[0], raw));
    assert((run + rest).take(run.len() as int) =~= run);
    assert((copies + rest).take(copies.len() as int) =~= copies);
    assert((run + rest).skip(run.len() as int) =~= rest);
    assert((copies + rest).skip(copies.len() as int) =~= rest);
    assert(copies.drop_first() =~= repeated(run.drop_first(), count));
}

} // verus!
