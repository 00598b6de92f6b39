//! Run-length packets as an encoder makes them, and what becomes of them.

use vstd::prelude::*;

use crate::color_map::{self, PixelExpander};
use crate::error::{DecodingError, ImageError, IoErrorKind};
use crate::laws;
use crate::rle::{self, NextRequest};
use crate::stream;

verus! {

/// What an encoder puts into a packet.
pub enum Packet {
    /// One raw pixel, this many times over.
    Run(nat, Seq<u8>),
    /// Raw pixels, each on its own.
    Raw(Seq<Seq<u8>>),
}

impl Packet {
    /// There are between 1 and 128 pixels, of `raw` bytes each.
    pub open spec fn valid(self, raw: nat) -> bool {
        match self {
            Packet::Run(count, pixel) => 1 <= count <= 128 && pixel.len() == raw,
            Packet::Raw(pixels) => 1 <= pixels.len() <= 128 && color_map::all_of_len(pixels, raw),
        }
    }

    /// The bytes that the packet is written as.
    pub open spec fn bytes(self) -> Seq<u8> {
        match self {
            Packet::Run(count, pixel) => seq![(127 + count) as u8] + pixel,
            Packet::Raw(pixels) => seq![(pixels.len() - 1) as u8] + color_map::joined(pixels),
        }
    }

    /// The raw pixels that the packet stands for.
    pub open spec fn pixels(self) -> Seq<Seq<u8>> {
        match self {
            Packet::Run(count, pixel) => Seq::new(count, |i: int| pixel),
            Packet::Raw(pixels) => pixels,
        }
    }
}

/// The colors of raw pixels that all have one.
pub open spec fn colors_of(e: PixelExpander, pixels: Seq<Seq<u8>>) -> Seq<Seq<u8>> {
    Seq::new(pixels.len(), |i: int| e.color(pixels[i])->0)
}

/// Whether all of these raw pixels have a color.
pub open spec fn all_have_colors(e: PixelExpander, pixels: Seq<Seq<u8>>) -> bool {
    forall|i: int| 0 <= i < pixels.len() ==> e.color(#[trigger] pixels[i]) is Some
}

/// Whether all packets hold pixels of `raw` bytes.
pub open spec fn all_valid(packets: Seq<Packet>, raw: nat) -> bool {
    forall|i: int| 0 <= i < packets.len() ==> (#[trigger] packets[i]).valid(raw)
}

/// The bytes of packets, one after the other.
pub open spec fn stream_bytes(packets: Seq<Packet>) -> Seq<u8>
    decreases packets.len(),
{
    if packets.len() == 0 {
        Seq::empty()
    } else {
        packets[0].bytes() + stream_bytes(packets.drop_first())
    }
}

/// The raw pixels of packets, one after the other.
pub open spec fn stream_pixels(packets: Seq<Packet>) -> Seq<Seq<u8>>
    decreases packets.len(),
{
    if packets.len() == 0 {
        Seq::empty()
    } else {
        packets[0].pixels() + stream_pixels(packets.drop_first())
    }
}

/// A repeated pixel is that pixel joined to itself.
proof fn lemma_repeated_joined(pixel: Seq<u8>, count: nat)
    requires
        pixel.len() > 0,
    ensures
        rle::repeated(pixel, count) == color_map::joined(Seq::new(count, |i: int| pixel)),
    decreases count,
{
    let pieces = Seq::new(count, |i: int| pixel);
    let b = pixel.len() as int;
    color_map::lemma_joined(pieces, pixel.len());
    let whole = color_map::joined(pieces);
    assert forall|k: int| 0 <= k < count * b implies whole[k] == rle::repeated(pixel, count)[k] by {
        crate::orientation::lemma_block(k, b, k / b);
        let i = k / b;
        assert(i < count) by (nonlinear_arith)
            requires
                i * b <= k,
                k < count * b,
                b > 0,
        ;
        assert(0 <= i * b && (i + 1) * b == i * b + b && (i + 1) * b <= count * b)
            by (nonlinear_arith)
            requires
                0 <= i,
                i + 1 <= count,
                b > 0,
        ;
        assert(whole.subrange(i * b, (i + 1) * b) == pieces[i]);
        assert(whole.subrange(i * b, (i + 1) * b)[k - i * b] == whole[k]);
    }
    assert(rle::repeated(pixel, count) =~= whole);
}

/// The first byte of a packet names its pixels and its length.
proof fn lemma_head(packet: Packet, rest: Seq<u8>, raw: nat)
    requires
        1 <= raw <= 4,
        packet.valid(raw),
    ensures
        ({
            let input = packet.bytes() + rest;
            let size = rle::packet_size(input[0], raw);
            &&& input[0] == packet.bytes()[0]
            &&& rle::packet_count(input[0]) == packet.pixels().len()
            &&& size == packet.bytes().len()
            &&& input.take(size as int) == packet.bytes()
            &&& input.skip(size as int) == rest
            &&& rle::packet_pixels(packet.bytes()) == color_map::joined(packet.pixels())
            &&& color_map::all_of_len(packet.pixels(), raw)
        }),
{
    let input = packet.bytes() + rest;
    match packet {
        Packet::Run(count, pixel) => {
            lemma_repeated_joined(pixel, count);
            assert(packet.bytes().drop_first() =~= pixel);
        },
        Packet::Raw(pixels) => {
            color_map::lemma_joined(pixels, raw);
            assert(packet.bytes().drop_first() =~= color_map::joined(pixels));
        },
    }
    assert(input.take(packet.bytes().len() as int) =~= packet.bytes());
    assert(input.skip(packet.bytes().len() as int) =~= rest);
}

/// The colors of the first pixels of many are the colors of those.
proof fn lemma_joined_colors(e: PixelExpander, pixels: Seq<Seq<u8>>, k: nat)
    requires
        e.fits(),
        color_map::all_of_len(pixels, e.raw_bytes_per_pixel as nat),
        k <= pixels.len(),
        all_have_colors(e, pixels.take(k as int)),
    ensures
        e.colored(color_map::joined(pixels), k) == k,
        e.colors(color_map::joined(pixels), k) == color_map::joined(
            colors_of(e, pixels.take(k as int)),
        ),
    decreases k,
{
    let raw = color_map::joined(pixels);
    let part = pixels.take(k as int);
    if k > 0 {
        let m = (k - 1) as nat;
        let front = pixels.take(m as int);
        assert forall|i: int| 0 <= i < front.len() implies e.color(#[trigger] front[i]) is Some by {
            assert(front[i] == part[i]);
        }
        lemma_joined_colors(e, pixels, m);
        color_map::lemma_joined(pixels, e.raw_bytes_per_pixel as nat);
        assert(e.raw_pixel(raw, m as int) == pixels[m as int]);
        assert(part[m as int] == pixels[m as int]);
        assert(colors_of(e, part).drop_last() =~= colors_of(e, front));
    }
}

/// What becomes of a packet. It is too many where it holds more pixels than there is room for; it
/// ends decoding at the first pixel that has no color, the colors before that one being written;
/// else it writes the color of every one of its pixels, which completes the image where they fill
/// it, and decoding goes on behind the packet where they do not.
pub proof fn lemma_packet_decodes(
    e: PixelExpander,
    packet: Packet,
    rest: Seq<u8>,
    room: nat,
    bad: int,
)
    requires
        e.fits(),
        packet.valid(e.raw_bytes_per_pixel as nat),
    ensures
        ({
            let pixels = packet.pixels();
            let needed = pixels.len() * e.output_bytes_per_pixel;
            let outcome = rle::decode_packets(e, packet.bytes() + rest, room);
            &&& needed > room ==> {
                &&& outcome.end == Err::<NextRequest, _>(DecodingError::RleOverflow)
                &&& outcome.written.len() == 0
                &&& outcome.used == 0
            }
            &&& needed <= room && 0 <= bad < pixels.len() && e.color(pixels[bad]) is None
                && all_have_colors(e, pixels.take(bad)) ==> {
                &&& outcome.end == Err::<NextRequest, _>(DecodingError::InvalidColorMapIndex)
                &&& outcome.written == color_map::joined(colors_of(e, pixels.take(bad)))
                &&& outcome.used == 0
            }
            &&& needed == room && all_have_colors(e, pixels) ==> {
                &&& outcome.end == Ok::<_, DecodingError>(NextRequest::Done)
                &&& outcome.written == color_map::joined(colors_of(e, pixels))
                &&& outcome.used == packet.bytes().len()
            }
            &&& needed < room && all_have_colors(e, pixels) ==> {
                let next = rle::decode_packets(e, rest, (room - needed) as nat);
                &&& outcome.end == next.end
                &&& outcome.written == color_map::joined(colors_of(e, pixels)) + next.written
                &&& outcome.used == packet.bytes().len() + next.used
            }
        }),
{
    let pixels = packet.pixels();
    let n = pixels.len();
    let raw = color_map::joined(pixels);
    lemma_head(packet, rest, e.raw_bytes_per_pixel as nat);
    e.lemma_colored_prefix(raw, n);
    if all_have_colors(e, pixels) {
        assert(pixels.take(n as int) =~= pixels);
        lemma_joined_colors(e, pixels, n);
    }
    if 0 <= bad < n && e.color(pixels[bad]) is None && all_have_colors(e, pixels.take(bad)) {
        lemma_joined_colors(e, pixels, bad as nat);
        color_map::lemma_joined(pixels, e.raw_bytes_per_pixel as nat);
        assert(e.raw_pixel(raw, bad) == pixels[bad]);
        e.lemma_colored_stops(raw, bad as nat, n);
    }
}

/// No bytes are a boundary between packets. Where a packet is cut, however much is missing and
/// however little room there is, nothing of it is used, and just its whole length is asked for.
pub proof fn lemma_cut_packet(e: PixelExpander, packet: Packet, len: int, room: nat)
    requires
        e.sized(),
        packet.valid(e.raw_bytes_per_pixel as nat),
        0 <= len < packet.bytes().len(),
    ensures
        ({
            let outcome = rle::decode_packets(e, packet.bytes().take(len), room);
            &&& outcome.written.len() == 0
            &&& outcome.used == 0
            &&& outcome.end == Ok::<_, DecodingError>(
                if len == 0 {
                    NextRequest::Boundary
                } else {
                    NextRequest::KnownSize(packet.bytes().len() as usize)
                },
            )
        }),
{
    lemma_head(packet, Seq::empty(), e.raw_bytes_per_pixel as nat);
    assert(packet.bytes() + Seq::<u8>::empty() =~= packet.bytes());
}

/// All input has a packet at its front, or is part of one: the bytes of a packet mean that packet
/// and no other.
pub proof fn lemma_packet_at_front(input: Seq<u8>, raw: nat) -> (packet: Packet)
    requires
        1 <= raw <= 4,
        input.len() > 0,
    ensures
        packet.valid(raw),
        packet is Run <==> input[0] >= 128,
        packet.pixels().len() == (input[0] & 0x7f) + 1,
        if input.len() >= packet.bytes().len() {
            input == packet.bytes() + input.skip(packet.bytes().len() as int)
        } else {
            input == packet.bytes().take(input.len() as int)
        },
{
    let head = input[0];
    assert((head & 0x7f) == head % 128) by (bit_vector);
    let count = head as nat % 128 + 1;
    let longer = input + Seq::new(raw * count, |i: int| 0u8);
    assert(raw <= raw * count) by (nonlinear_arith)
        requires
            count >= 1,
    ;
    if head >= 128 {
        let packet = Packet::Run(count, longer.subrange(1, (1 + raw) as int));
        assert(packet.bytes() =~= longer.take((1 + raw) as int));
        if input.len() >= 1 + raw {
            assert(input =~= packet.bytes() + input.skip((1 + raw) as int));
        } else {
            assert(input =~= packet.bytes().take(input.len() as int));
        }
        packet
    } else {
        assert(1 + count * raw <= longer.len()) by (nonlinear_arith)
            requires
                longer.len() == input.len() + raw * count,
                input.len() >= 1,
        ;
        let body = longer.subrange(1, (1 + count * raw) as int);
        let pixels = Seq::new(count, |i: int| body.subrange(i * raw, (i + 1) * raw));
        lemma_pieces_of(body, raw, count);
        let packet = Packet::Raw(pixels);
        assert(color_map::all_of_len(pixels, raw)) by {
            assert forall|i: int| 0 <= i < count implies (#[trigger] pixels[i]).len() == raw by {
                assert(0 <= i * raw <= (i + 1) * raw <= count * raw && (i + 1) * raw == i * raw
                    + raw) by (nonlinear_arith)
                    requires
                        0 <= i,
                        i + 1 <= count,
                ;
            }
        }
        let size = (1 + count * raw) as int;
        assert(packet.bytes() =~= longer.take(size));
        if input.len() >= size {
            assert(input =~= packet.bytes() + input.skip(size));
        } else {
            assert(input =~= packet.bytes().take(input.len() as int));
        }
        packet
    }
}

/// Bytes are the pieces that they are cut into.
pub proof fn lemma_pieces_of(bytes: Seq<u8>, len: nat, count: nat)
    requires
        bytes.len() == count * len,
    ensures
        color_map::joined(
            Seq::new(count, |i: int| bytes.subrange(i * len, (i + 1) * len)),
        ) == bytes,
    decreases count,
{
    let pieces = Seq::new(count, |i: int| bytes.subrange(i * len, (i + 1) * len));
    if count > 0 {
        let m = (count - 1) as nat;
        assert(0 <= m * len && count * len == m * len + len && (m + 1) * len == count * len)
            by (nonlinear_arith)
            requires
                count == m + 1,
        ;
        let front = bytes.take((m * len) as int);
        let front_pieces = Seq::new(m, |i: int| front.subrange(i * len, (i + 1) * len));
        lemma_pieces_of(front, len, m);
        assert forall|i: int| 0 <= i < m implies #[trigger] front_pieces[i]
            == pieces.drop_last()[i] by {
            assert(0 <= i * len <= (i + 1) * len <= m * len) by (nonlinear_arith)
                requires
                    0 <= i,
                    i + 1 <= m,
            ;
            assert(front.subrange(i * len, (i + 1) * len) =~= bytes.subrange(
                i * len,
                (i + 1) * len,
            ));
        }
        assert(pieces.drop_last() =~= front_pieces);
        assert(color_map::joined(pieces) =~= bytes);
    } else {
        assert(count * len == 0) by (nonlinear_arith)
            requires
                count == 0,
        ;
        assert(color_map::joined(pieces) =~= bytes);
    }
}

/// The colors of two stretches of pixels are those of the one and those of the other.
proof fn lemma_colors_of_concat(e: PixelExpander, first: Seq<Seq<u8>>, second: Seq<Seq<u8>>)
    ensures
        color_map::joined(colors_of(e, first + second)) == color_map::joined(colors_of(e, first))
            + color_map::joined(colors_of(e, second)),
        all_have_colors(e, first + second) <==> all_have_colors(e, first) && all_have_colors(
            e,
            second,
        ),
{
    let both = first + second;
    assert(colors_of(e, both) =~= colors_of(e, first) + colors_of(e, second));
    color_map::lemma_joined_concat(colors_of(e, first), colors_of(e, second));
    if all_have_colors(e, both) {
        assert forall|i: int| 0 <= i < first.len() implies e.color(#[trigger] first[i]) is Some by {
            assert(both[i] == first[i]);
        }
        assert forall|i: int| 0 <= i < second.len() implies e.color(
            #[trigger] second[i],
        ) is Some by {
            assert(both[first.len() + i] == second[i]);
        }
    }
}

/// What an encoder has put into packets comes out again: packets that hold as many pixels as there
/// is room for complete the image with the colors of just those pixels, in their order, whatever
/// follows them; where they hold fewer, decoding goes on behind them.
pub proof fn lemma_packets_decode(e: PixelExpander, packets: Seq<Packet>, rest: Seq<u8>, room: nat)
    requires
        e.fits(),
        packets.len() > 0,
        all_valid(packets, e.raw_bytes_per_pixel as nat),
        all_have_colors(e, stream_pixels(packets)),
    ensures
        ({
            let pixels = stream_pixels(packets);
            let needed = pixels.len() * e.output_bytes_per_pixel;
            let outcome = rle::decode_packets(e, stream_bytes(packets) + rest, room);
            &&& needed > 0
            &&& needed == room ==> {
                &&& outcome.end == Ok::<_, DecodingError>(NextRequest::Done)
                &&& outcome.written == color_map::joined(colors_of(e, pixels))
                &&& outcome.used == stream_bytes(packets).len()
            }
            &&& needed < room ==> {
                let next = rle::decode_packets(e, rest, (room - needed) as nat);
                &&& outcome.end == next.end
                &&& outcome.written == color_map::joined(colors_of(e, pixels)) + next.written
                &&& outcome.used == stream_bytes(packets).len() + next.used
            }
        }),
    decreases packets.len(),
{
    let tail = packets.drop_first();
    let first = packets[0].pixels();
    let others = stream_pixels(tail);
    let out = e.output_bytes_per_pixel as int;
    let following = stream_bytes(tail) + rest;
    assert(packets[0].valid(e.raw_bytes_per_pixel as nat));
    assert(stream_bytes(packets) + rest =~= packets[0].bytes() + following);
    lemma_colors_of_concat(e, first, others);
    lemma_packet_decodes(e, packets[0], following, room, 0);
    assert((first.len() + others.len()) * out == first.len() * out + others.len() * out)
        by (nonlinear_arith);
    assert(first.len() * out > 0) by (nonlinear_arith)
        requires
            first.len() >= 1,
            out >= 1,
    ;
    if tail.len() > 0 {
        assert(all_valid(tail, e.raw_bytes_per_pixel as nat)) by {
            assert forall|i: int| 0 <= i < tail.len() implies (#[trigger] tail[i]).valid(
                e.raw_bytes_per_pixel as nat,
            ) by {
                assert(tail[i] == packets[i + 1]);
            }
        }
        if first.len() * out < room {
            lemma_packets_decode(e, tail, rest, (room - first.len() * out) as nat);
            let next = rle::decode_packets(
                e,
                rest,
                (room - first.len() * out - others.len() * out) as nat,
            );
            assert(color_map::joined(colors_of(e, first)) + (color_map::joined(
                colors_of(e, others),
            ) + next.written) =~= (color_map::joined(colors_of(e, first)) + color_map::joined(
                colors_of(e, others),
            )) + next.written);
        } else {
            lemma_packets_decode(e, tail, rest, 0);
        }
    } else {
        assert(others.len() * out == 0) by (nonlinear_arith)
            requires
                others.len() == 0,
        ;
        assert(following =~= rest);
        assert(color_map::joined(colors_of(e, others)) =~= Seq::<u8>::empty());
        assert(stream_bytes(packets) =~= packets[0].bytes());
        assert(color_map::joined(colors_of(e, first)) + Seq::<u8>::empty() =~= color_map::joined(
            colors_of(e, first),
        ));
    }
}

/// How decoding an image ends. Packets that hold all of its pixels complete it, whatever follows.
/// Where they hold fewer, and nothing follows, the packets end too early; where part of a packet
/// follows, the data do; a packet that holds more pixels than are missing is too many, and a pixel
/// without a color has an invalid index. In every case the image holds the colors of all pixels
/// before, in their order.
pub proof fn lemma_answers(
    e: PixelExpander,
    packets: Seq<Packet>,
    packet: Packet,
    cut: int,
    bad: int,
    rest: Seq<u8>,
    room: nat,
)
    requires
        e.fits(),
        all_valid(packets, e.raw_bytes_per_pixel as nat),
        all_have_colors(e, stream_pixels(packets)),
        packet.valid(e.raw_bytes_per_pixel as nat),
        0 < cut < packet.bytes().len(),
        0 <= bad,
    ensures
        ({
            let bytes = stream_bytes(packets);
            let out = e.output_bytes_per_pixel as int;
            let needed = stream_pixels(packets).len() * out;
            let colors = color_map::joined(colors_of(e, stream_pixels(packets)));
            let more = packet.pixels();
            let whole = rle::decode_packets(e, bytes + rest, room);
            let ended = rle::decode_packets(e, bytes, room);
            let torn = rle::decode_packets(e, bytes + packet.bytes().take(cut), room);
            let longer = rle::decode_packets(e, bytes + packet.bytes() + rest, room);
            &&& needed == room && (room > 0 || rest.len() == 0) ==> {
                &&& stream::final_answer(whole, room) == Ok::<(), ImageError>(())
                &&& whole.written == colors
            }
            &&& needed < room ==> {
                &&& stream::final_answer(ended, room) == Err::<(), _>(
                    ImageError::Decoding(DecodingError::UnexpectedEof),
                )
                &&& ended.written == colors
            }
            &&& needed < room || packets.len() == 0 ==> {
                &&& stream::final_answer(torn, room) == Err::<(), _>(
                    ImageError::IoError(IoErrorKind::UnexpectedEof),
                )
                &&& torn.written == colors
            }
            &&& (needed < room || packets.len() == 0) && room < needed + more.len() * out ==> {
                &&& stream::final_answer(longer, room) == Err::<(), _>(
                    ImageError::Decoding(DecodingError::RleOverflow),
                )
                &&& longer.written == colors
            }
            &&& needed + more.len() * out <= room && bad < more.len() && e.color(more[bad]) is None
                && all_have_colors(e, more.take(bad)) ==> {
                &&& stream::final_answer(longer, room) == Err::<(), _>(
                    ImageError::Decoding(DecodingError::InvalidColorMapIndex),
                )
                &&& longer.written == colors + color_map::joined(colors_of(e, more.take(bad)))
            }
        }),
{
    let bytes = stream_bytes(packets);
    let out = e.output_bytes_per_pixel as int;
    let needed = stream_pixels(packets).len() * out;
    let colors = color_map::joined(colors_of(e, stream_pixels(packets)));
    let none = Seq::<u8>::empty();
    let part = packet.bytes().take(cut);
    let following = packet.bytes() + rest;
    let left = (room - needed) as nat;
    assert(bytes + none =~= bytes);
    assert(bytes + packet.bytes() + rest =~= bytes + following);
    assert(packet.pixels().len() * out > 0) by (nonlinear_arith)
        requires
            packet.pixels().len() >= 1,
            out >= 1,
    ;
    rle::lemma_outcome(e, bytes, room);
    lemma_cut_packet(e, packet, cut, left);
    lemma_packet_decodes(e, packet, rest, left, bad);
    assert(rle::decode_packets(e, part, left).written =~= none);
    if packets.len() == 0 {
        assert(needed == 0) by (nonlinear_arith)
            requires
                needed == stream_pixels(packets).len() * out,
                stream_pixels(packets).len() == 0,
        ;
        assert(bytes + rest =~= rest);
        assert(bytes + part =~= part);
        assert(bytes + following =~= following);
        assert(colors =~= none);
        assert(none + color_map::joined(colors_of(e, packet.pixels().take(bad)))
            =~= color_map::joined(colors_of(e, packet.pixels().take(bad))));
        if packet.pixels().len() * out > left {
            assert(rle::decode_packets(e, following, left).written =~= none);
        }
    } else {
        lemma_packets_decode(e, packets, rest, room);
        lemma_packets_decode(e, packets, none, room);
        lemma_packets_decode(e, packets, part, room);
        lemma_packets_decode(e, packets, following, room);
        assert(colors + none =~= colors);
        if packet.pixels().len() * out > left {
            assert(rle::decode_packets(e, following, left).written =~= none);
        }
    }
}

/// What an encoder has put into packets are the raw pixels that they stand for, whatever follows.
pub proof fn lemma_stream_is_packed(packets: Seq<Packet>, rest: Seq<u8>, raw: nat)
    requires
        1 <= raw <= 4,
        packets.len() > 0,
        all_valid(packets, raw),
    ensures
        laws::packed_exactly(stream_bytes(packets) + rest, raw, stream_pixels(packets).len()),
        laws::unpacked(stream_bytes(packets) + rest, raw, stream_pixels(packets).len())
            == color_map::joined(stream_pixels(packets)),
        color_map::all_of_len(stream_pixels(packets), raw),
        stream_pixels(packets).len() > 0,
    decreases packets.len(),
{
    let tail = packets.drop_first();
    let first = packets[0].pixels();
    let others = stream_pixels(tail);
    let following = stream_bytes(tail) + rest;
    assert(packets[0].valid(raw));
    assert(stream_bytes(packets) + rest =~= packets[0].bytes() + following);
    lemma_head(packets[0], following, raw);
    color_map::lemma_joined_concat(first, others);
    if tail.len() > 0 {
        assert(all_valid(tail, raw)) by {
            assert forall|i: int| 0 <= i < tail.len() implies (#[trigger] tail[i]).valid(raw) by {
                assert(tail[i] == packets[i + 1]);
            }
        }
        lemma_stream_is_packed(tail, rest, raw);
    } else {
        assert(first + others =~= first);
    }
}

/// Where colors do not fit, input can be decoded just where decoding stops before it comes to a
/// pixel: where there is no whole packet, or one that holds more pixels than there is room for.
/// Where they fit, all input can be decoded.
pub proof fn lemma_decodable(e: PixelExpander, packet: Packet, cut: int, rest: Seq<u8>, room: nat)
    requires
        e.sized(),
        packet.valid(e.raw_bytes_per_pixel as nat),
        0 <= cut < packet.bytes().len(),
    ensures
        e.fits() ==> rle::decodable(e, rest, room),
        rle::decodable(e, packet.bytes().take(cut), room),
        rle::decodable(e, packet.bytes() + rest, room) <==> e.fits() || packet.pixels().len()
            * e.output_bytes_per_pixel > room,
{
    lemma_head(packet, rest, e.raw_bytes_per_pixel as nat);
}

/// The colors of a packet are as long as its pixels, and the packet fits into a few bytes.
pub proof fn lemma_one_packet_len(e: PixelExpander, packet: Packet)
    requires
        e.fits(),
        packet.valid(e.raw_bytes_per_pixel as nat),
        all_have_colors(e, packet.pixels()),
    ensures
        color_map::joined(colors_of(e, packet.pixels())).len() == packet.pixels().len()
            * e.output_bytes_per_pixel,
        2 <= packet.bytes().len() <= 513,
{
    let pixels = packet.pixels();
    lemma_head(packet, Seq::empty(), e.raw_bytes_per_pixel as nat);
    rle::lemma_packet_size(
        (packet.bytes() + Seq::<u8>::empty())[0],
        e.raw_bytes_per_pixel as nat,
    );
    assert forall|i: int| 0 <= i < pixels.len() implies (#[trigger] colors_of(e, pixels)[i]).len()
        == e.output_bytes_per_pixel by {
        assert(e.color(pixels[i]) is Some);
        e.lemma_color_len(pixels[i]);
    }
    color_map::lemma_joined(colors_of(e, pixels), e.output_bytes_per_pixel as nat);
}

} // verus!
