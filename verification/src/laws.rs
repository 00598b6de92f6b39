//! What holds of the decoder as a whole.

use vstd::prelude::*;

use crate::color_map::{self, PixelExpander};
use crate::decoder::{self, TgaDecoder};
use crate::error::{DecodingError, ImageError, LimitErrorKind};
use crate::header::Header;
use crate::orientation;
use crate::rle::{self, NextRequest};

verus! {

/// The first `n` raw pixels that packets stand for.
pub open spec fn unpacked(input: Seq<u8>, raw: nat, n: nat) -> Seq<u8>
    decreases input.len(),
{
    let count = rle::packet_count(input[0]);
    let size = rle::packet_size(input[0], raw);
    if input.len() == 0 || input.len() < size || n < count {
        Seq::empty()
    } else if n == count {
        rle::packet_pixels(input.take(size as int))
    } else {
        rle::packet_pixels(input.take(size as int)) + unpacked(
            input.skip(size as int),
            raw,
            (n - count) as nat,
        )
    }
}

/// Whether `input` begins with whole packets that hold `n` pixels between them, no packet reaching
/// beyond the last of them. For no pixels at all that means no bytes.
pub open spec fn packed_exactly(input: Seq<u8>, raw: nat, n: nat) -> bool
    decreases input.len(),
{
    let count = rle::packet_count(input[0]);
    let size = rle::packet_size(input[0], raw);
    if n == 0 {
        input.len() == 0
    } else if input.len() == 0 || input.len() < size || n < count {
        false
    } else {
        n == count || packed_exactly(input.skip(size as int), raw, (n - count) as nat)
    }
}

/// All of `n` raw pixels have a color just where each of them has one.
pub proof fn lemma_all_colored(e: PixelExpander, raw: Seq<u8>, n: nat)
    ensures
        e.colored(raw, n) <= n,
        e.colored(raw, n) == n <==> forall|i: int|
            0 <= i < n ==> (#[trigger] e.color(e.raw_pixel(raw, i))) is Some,
    decreases n,
{
    if n > 0 {
        let m = (n - 1) as nat;
        lemma_all_colored(e, raw, m);
        if e.colored(raw, n) == n {
            assert forall|i: int| 0 <= i < n implies (#[trigger] e.color(
                e.raw_pixel(raw, i),
            )) is Some by {
                if i == m {
                }
            }
        } else if e.colored(raw, m) == m {
            assert(e.color(e.raw_pixel(raw, m as int)) is None);
        } else {
            let i = choose|i: int| 0 <= i < m && (#[trigger] e.color(e.raw_pixel(raw, i))) is None;
            assert(0 <= i < n && e.color(e.raw_pixel(raw, i)) is None);
        }
    }
}

/// Pixels that are colors already stay as they are.
proof fn lemma_colors_are_pixels(e: PixelExpander, raw: Seq<u8>, n: nat)
    requires
        e.fits(),
        e.color_map is None,
        n * e.raw_bytes_per_pixel <= raw.len(),
    ensures
        e.colored(raw, n) == n,
        e.colors(raw, n) == raw.take((n * e.raw_bytes_per_pixel) as int),
    decreases n,
{
    if n > 0 {
        let m = (n - 1) as nat;
        let size = e.raw_bytes_per_pixel as int;
        assert(n * size == m * size + size && 0 <= m * size) by (nonlinear_arith)
            requires
                n == m + 1,
                size >= 1,
        ;
        lemma_colors_are_pixels(e, raw, m);
        assert(e.colors(raw, n) =~= raw.take(n * size));
    } else {
        assert(e.colors(raw, n) =~= raw.take(0));
    }
}

/// The colors of two stretches of pixels are those of the first and then those of the second.
proof fn lemma_colors_concat(e: PixelExpander, first: Seq<u8>, second: Seq<u8>, n: nat, m: nat)
    requires
        e.fits(),
        first.len() == n * e.raw_bytes_per_pixel,
        second.len() == m * e.raw_bytes_per_pixel,
        e.colored(first, n) == n,
        e.colored(second, m) == m,
    ensures
        e.colored(first + second, n + m) == n + m,
        e.colors(first + second, n + m) == e.colors(first, n) + e.colors(second, m),
    decreases n + m,
{
    let size = e.raw_bytes_per_pixel as int;
    let both = first + second;
    if m > 0 {
        let k = (m - 1) as nat;
        let shorter = second.take(k * size);
        assert(m * size == k * size + size && 0 <= k * size && (n + k) * size == n * size + k * size
            && (n + k + 1) * size == n * size + m * size && 0 <= n * size) by (nonlinear_arith)
            requires
                m == k + 1,
                size >= 1,
        ;
        e.lemma_colored_prefix(second, k);
        lemma_colored_prefix_of(e, second, shorter, k);
        lemma_colors_concat(e, first, shorter, n, k);
        assert(first + shorter =~= both.take((first + shorter).len() as int));
        lemma_colored_prefix_of(e, both, first + shorter, n + k);
        assert(e.raw_pixel(both, (n + k) as int) =~= e.raw_pixel(second, k as int));
        assert((n + m - 1) as nat == n + k);
        assert(e.colors(first, n) + (e.colors(second, k) + e.color(
            e.raw_pixel(second, k as int),
        )->0) =~= (e.colors(first, n) + e.colors(second, k)) + e.color(
            e.raw_pixel(second, k as int),
        )->0);
    } else {
        assert(both =~= first) by {
            assert(m * size == 0) by (nonlinear_arith)
                requires
                    m == 0,
            ;
        }
        assert(e.colors(first, n) + e.colors(second, 0) =~= e.colors(first, n));
    }
}

/// Pixels are colored by themselves, whatever comes after.
proof fn lemma_colored_prefix_of(e: PixelExpander, raw: Seq<u8>, part: Seq<u8>, n: nat)
    requires
        part.len() == n * e.raw_bytes_per_pixel,
        part.len() <= raw.len(),
        part == raw.take(part.len() as int),
    ensures
        forall|k: nat| k <= n ==> #[trigger] e.colored(part, k) == e.colored(raw, k),
        forall|k: nat| k <= n ==> #[trigger] e.colors(part, k) == e.colors(raw, k),
{
    assert forall|k: nat| k <= n implies #[trigger] e.colored(part, k) == e.colored(raw, k) by {
        lemma_colored_prefix_at(e, raw, part, n, k);
    }
    assert forall|k: nat| k <= n implies #[trigger] e.colors(part, k) == e.colors(raw, k) by {
        lemma_colored_prefix_at(e, raw, part, n, k);
    }
}

proof fn lemma_colored_prefix_at(e: PixelExpander, raw: Seq<u8>, part: Seq<u8>, n: nat, k: nat)
    requires
        part.len() == n * e.raw_bytes_per_pixel,
        part.len() <= raw.len(),
        part == raw.take(part.len() as int),
        k <= n,
    ensures
        e.colored(part, k) == e.colored(raw, k),
        e.colors(part, k) == e.colors(raw, k),
    decreases k,
{
    if k > 0 {
        let m = (k - 1) as nat;
        let size = e.raw_bytes_per_pixel as int;
        lemma_colored_prefix_at(e, raw, part, n, m);
        assert(0 <= m * size && (m + 1) * size <= n * size && m * size <= (m + 1) * size)
            by (nonlinear_arith)
            requires
                0 <= m,
                m + 1 <= n,
                size >= 0,
        ;
        assert(e.raw_pixel(part, m as int) =~= e.raw_pixel(raw, m as int));
    }
}

/// A stream of packets that completes an image writes the colors of the raw pixels that the
/// packets stand for.
pub proof fn lemma_unpacked(e: PixelExpander, input: Seq<u8>, n: nat)
    requires
        e.fits(),
        rle::decode_packets(e, input, n * e.out_size()).end == Ok::<_, DecodingError>(
            NextRequest::Done,
        ),
    ensures
        ({
            let raw = unpacked(input, e.raw_bytes_per_pixel as nat, n);
            &&& packed_exactly(input, e.raw_bytes_per_pixel as nat, n)
            &&& raw.len() == n * e.raw_bytes_per_pixel
            &&& e.colored(raw, n) == n
            &&& e.colors(raw, n) == rle::decode_packets(e, input, n * e.out_size()).written
        }),
    decreases input.len(),
{
    let size = rle::packet_size(input[0], e.raw_bytes_per_pixel as nat);
    let count = rle::packet_count(input[0]);
    let out = e.out_size() as int;
    let raw_size = e.raw_bytes_per_pixel as int;
    let pixels = rle::packet_pixels(input.take(size as int));
    rle::lemma_packet_size(input[0], e.raw_bytes_per_pixel as nat);
    e.lemma_colored_prefix(pixels, count);
    assert(n * out < count * out <==> n < count) by (nonlinear_arith)
        requires
            out >= 1,
    ;
    assert(n * out == count * out <==> n == count) by (nonlinear_arith)
        requires
            out >= 1,
    ;
    assert(pixels.len() == count * raw_size);
    if n > count {
        let m = (n - count) as nat;
        assert(m * out == n * out - count * out && m * raw_size == n * raw_size - count * raw_size)
            by (nonlinear_arith)
            requires
                m == n - count,
        ;
        lemma_unpacked(e, input.skip(size as int), m);
        lemma_colors_concat(
            e,
            pixels,
            unpacked(input.skip(size as int), e.raw_bytes_per_pixel as nat, m),
            count,
            m,
        );
    }
}

/// Two stretches of pixels all have colors just where those of the first and those of the second do.
proof fn lemma_colored_both(e: PixelExpander, first: Seq<u8>, second: Seq<u8>, n: nat, m: nat)
    requires
        e.fits(),
        first.len() == n * e.raw_bytes_per_pixel,
        second.len() == m * e.raw_bytes_per_pixel,
    ensures
        e.colored(first + second, n + m) == n + m <==> e.colored(first, n) == n && e.colored(
            second,
            m,
        ) == m,
{
    let size = e.raw_bytes_per_pixel as int;
    let both = first + second;
    if e.colored(first, n) == n && e.colored(second, m) == m {
        lemma_colors_concat(e, first, second, n, m);
    } else if e.colored(both, n + m) == n + m {
        lemma_all_colored(e, both, n + m);
        assert forall|i: int| 0 <= i < n implies (#[trigger] e.color(
            e.raw_pixel(first, i),
        )) is Some by {
            assert(0 <= i * size <= (i + 1) * size <= n * size) by (nonlinear_arith)
                requires
                    0 <= i < n,
                    0 <= size,
            ;
            assert(e.raw_pixel(first, i) =~= e.raw_pixel(both, i));
        }
        assert forall|i: int| 0 <= i < m implies (#[trigger] e.color(
            e.raw_pixel(second, i),
        )) is Some by {
            assert(0 <= i * size <= (i + 1) * size <= m * size && (n + i) * size == n * size + i
                * size && (n + i + 1) * size == n * size + (i + 1) * size && 0 <= n * size)
                by (nonlinear_arith)
                requires
                    0 <= i < m,
                    0 <= n,
                    0 <= size,
            ;
            assert(e.raw_pixel(second, i) =~= e.raw_pixel(both, n + i));
        }
        lemma_all_colored(e, first, n);
        lemma_all_colored(e, second, m);
    }
}

/// Packets that hold just the pixels of an image complete it, unless one of the raw pixels that
/// they stand for has no color.
pub proof fn lemma_packed_exactly(e: PixelExpander, input: Seq<u8>, n: nat)
    requires
        e.fits(),
        n > 0,
        packed_exactly(input, e.raw_bytes_per_pixel as nat, n),
    ensures
        ({
            let raw = unpacked(input, e.raw_bytes_per_pixel as nat, n);
            &&& raw.len() == n * e.raw_bytes_per_pixel
            &&& rle::decode_packets(e, input, n * e.out_size()).end == if e.colored(raw, n) == n {
                Ok(NextRequest::Done)
            } else {
                Err(DecodingError::InvalidColorMapIndex)
            }
        }),
    decreases input.len(),
{
    let raw_size = e.raw_bytes_per_pixel as int;
    let size = rle::packet_size(input[0], raw_size as nat);
    let count = rle::packet_count(input[0]);
    let out = e.out_size() as int;
    let pixels = rle::packet_pixels(input.take(size as int));
    rle::lemma_packet_size(input[0], raw_size as nat);
    e.lemma_colored_prefix(pixels, count);
    assert(n * out >= count * out && (n * out == count * out <==> n == count)) by (nonlinear_arith)
        requires
            out >= 1,
            n >= count,
    ;
    assert(pixels.len() == count * raw_size);
    if n > count {
        let m = (n - count) as nat;
        let rest = input.skip(size as int);
        assert(m * out == n * out - count * out && m * raw_size == n * raw_size - count * raw_size)
            by (nonlinear_arith)
            requires
                m == n - count,
        ;
        lemma_packed_exactly(e, rest, m);
        lemma_colored_both(e, pixels, unpacked(rest, raw_size as nat, m), count, m);
    }
}

/// The pixel with number `i` of an image in reading order is the one that is stored for it.
proof fn lemma_oriented_raw_pixel(
    e: PixelExpander,
    raw: Seq<u8>,
    image_desc: u8,
    w: int,
    h: int,
    x: int,
    y: int,
)
    requires
        e.sized(),
        raw.len() == w * h * e.raw_bytes_per_pixel,
        0 <= x < w,
        0 <= y < h,
    ensures
        ({
            let from_x = orientation::stored_column(image_desc, w, x);
            let from_y = orientation::stored_row(image_desc, h, y);
            let size = e.raw_bytes_per_pixel as int;
            let ordered = orientation::oriented(raw, image_desc, w, h, size);
            &&& e.raw_pixel(ordered, y * w + x) == e.raw_pixel(raw, from_y * w + from_x)
            &&& 0 <= from_y * w + from_x < w * h
            &&& 0 <= y * w + x < w * h
        }),
{
    let size = e.raw_bytes_per_pixel as int;
    let from_x = orientation::stored_column(image_desc, w, x);
    let from_y = orientation::stored_row(image_desc, h, y);
    let ordered = orientation::oriented(raw, image_desc, w, h, size);
    let to = y * w + x;
    let from = from_y * w + from_x;
    orientation::lemma_pixel_at(w, h, 1, x, y, 0);
    orientation::lemma_pixel_at(w, h, 1, from_x, from_y, 0);
    assert(0 <= to * size && to * size + size == (to + 1) * size && (to + 1) * size <= w * h * size)
        by (nonlinear_arith)
        requires
            0 <= to < w * h,
            size >= 1,
    ;
    assert(0 <= from * size && from * size + size == (from + 1) * size && (from + 1) * size <= w * h
        * size) by (nonlinear_arith)
        requires
            0 <= from < w * h,
            size >= 1,
    ;
    assert forall|b: int| 0 <= b < size implies #[trigger] e.raw_pixel(ordered, to)[b]
        == e.raw_pixel(raw, from)[b] by {
        orientation::lemma_oriented_pixel(raw, image_desc, w, h, size, x, y, b);
    }
    assert(e.raw_pixel(ordered, to) =~= e.raw_pixel(raw, from));
}

/// It does not matter whether pixels are put into reading order before or after they get their
/// colors.
pub proof fn lemma_order_and_color(e: PixelExpander, raw: Seq<u8>, image_desc: u8, w: int, h: int)
    requires
        e.fits(),
        0 < w,
        0 < h,
        raw.len() == w * h * e.raw_bytes_per_pixel,
        e.colored(raw, (w * h) as nat) == w * h,
    ensures
        ({
            let ordered = orientation::oriented(raw, image_desc, w, h, e.raw_bytes_per_pixel as int);
            let colors = e.colors(raw, (w * h) as nat);
            &&& e.colored(ordered, (w * h) as nat) == w * h
            &&& e.colors(ordered, (w * h) as nat) == orientation::oriented(
                colors,
                image_desc,
                w,
                h,
                e.out_size() as int,
            )
        }),
{
    assert(0 < w * h) by (nonlinear_arith)
        requires
            0 < w,
            0 < h,
    ;
    let n = (w * h) as nat;
    let raw_size = e.raw_bytes_per_pixel as int;
    let out = e.out_size() as int;
    let ordered = orientation::oriented(raw, image_desc, w, h, raw_size);
    let colors = e.colors(raw, n);
    lemma_all_colored(e, raw, n);
    assert forall|i: int| 0 <= i < n implies (#[trigger] e.color(
        e.raw_pixel(ordered, i),
    )) is Some by {
        let (x, y, b) = orientation::lemma_byte_of_pixel(w, h, 1, i);
        lemma_oriented_raw_pixel(e, raw, image_desc, w, h, x, y);
    }
    lemma_all_colored(e, ordered, n);
    e.lemma_colors_len(raw, n);
    e.lemma_colors_len(ordered, n);
    let left = e.colors(ordered, n);
    let right = orientation::oriented(colors, image_desc, w, h, out);
    assert forall|k: int| 0 <= k < n * out implies left[k] == right[k] by {
        let (x, y, b) = orientation::lemma_byte_of_pixel(w, h, out, k);
        let from_x = orientation::stored_column(image_desc, w, x);
        let from_y = orientation::stored_row(image_desc, h, y);
        lemma_oriented_raw_pixel(e, raw, image_desc, w, h, x, y);
        color_map::lemma_color_in_place(e, ordered, n, y * w + x, b);
        color_map::lemma_color_in_place(e, raw, n, from_y * w + from_x, b);
        orientation::lemma_oriented_pixel(colors, image_desc, w, h, out, x, y, b);
    }
    assert(left =~= right);
}

/// An image that is stored without encoding is decoded just where all its pixels have a color,
/// and then to their colors in reading order.
pub proof fn lemma_stored_image<R>(decoder: TgaDecoder<R>, data: Seq<u8>, buf: Seq<u8>)
    requires
        decoder.wf(),
        decoder.expander().fits(),
        !decoder.image_type.has_packets(),
        buf.len() == decoder.image_len(),
        data.len() >= decoder.raw_len(),
    ensures
        ({
            let e = decoder.expander();
            let n = decoder.pixels() as nat;
            let ordered = decoder.in_reading_order(
                data.take(decoder.raw_len()),
                decoder.raw_bytes_per_pixel as int,
            );
            &&& decoder.decoded(data, buf).0 == if e.colored(ordered, n) == n {
                Ok(())
            } else {
                Err(ImageError::Decoding(DecodingError::InvalidColorMapIndex))
            }
            &&& decoder.decoded(data, buf).0 is Ok ==> decoder.decoded(data, buf).1
                == decoder.in_rgb_order(e.colors(ordered, n))
        }),
{
    let e = decoder.expander();
    let n = decoder.pixels() as nat;
    let raw_size = decoder.raw_bytes_per_pixel as int;
    let size = decoder.color_type.channels() as int;
    let len = decoder.raw_len();
    assert(0 <= decoder.pixels()) by (nonlinear_arith)
        requires
            decoder.pixels() == decoder.width * decoder.height,
    ;
    assert(0 <= n * raw_size <= n * size) by (nonlinear_arith)
        requires
            0 <= n,
            0 <= raw_size <= size,
    ;
    let pixels = data.take(len);
    let laid = pixels + buf.skip(len);
    assert(laid.take(len) =~= pixels);
    assert(laid.skip(len) =~= buf.skip(len));
    let placed = decoder.ordered_raw(laid);
    let ordered = decoder.in_reading_order(pixels, raw_size);
    assert(placed.take(len) =~= ordered);
    if decoder.color_map is None {
        lemma_colors_are_pixels(e, ordered, n);
        assert(placed =~= e.colors(ordered, n));
    } else {
        e.lemma_colors_len(ordered, n);
        if e.colored(ordered, n) == n {
            assert(e.painted(ordered, n, placed) =~= e.colors(ordered, n));
        }
    }
}

/// Pixels in reading order all have colors just where the stored ones do.
pub proof fn lemma_order_keeps_colored(e: PixelExpander, raw: Seq<u8>, image_desc: u8, w: int, h: int)
    requires
        e.fits(),
        0 < w,
        0 < h,
        raw.len() == w * h * e.raw_bytes_per_pixel,
    ensures
        ({
            let ordered = orientation::oriented(raw, image_desc, w, h, e.raw_bytes_per_pixel as int);
            e.colored(ordered, (w * h) as nat) == w * h <==> e.colored(raw, (w * h) as nat) == w * h
        }),
{
    let size = e.raw_bytes_per_pixel as int;
    let ordered = orientation::oriented(raw, image_desc, w, h, size);
    orientation::lemma_oriented_twice(raw, image_desc, w, h, size);
    if e.colored(raw, (w * h) as nat) == w * h {
        lemma_order_and_color(e, raw, image_desc, w, h);
    } else if e.colored(ordered, (w * h) as nat) == w * h {
        lemma_order_and_color(e, ordered, image_desc, w, h);
    }
}

/// Run-length encoding does not change an image: packets that hold just its pixels decode, or fail
/// to, as the raw pixels do that they stand for, and where they decode the images are the same.
/// Neither how the pixels are split into packets nor what the buffers held before shows.
pub proof fn lemma_encoding_is_transparent<R, S>(
    encoded: TgaDecoder<R>,
    plain: TgaDecoder<S>,
    packets: Seq<u8>,
    buf: Seq<u8>,
    other: Seq<u8>,
)
    requires
        encoded.wf(),
        plain.wf(),
        encoded.image_type.has_packets(),
        !plain.image_type.has_packets(),
        encoded.expander().alike(&plain.expander()),
        encoded.expander().fits() || encoded.pixels() == 0,
        encoded.width == plain.width,
        encoded.height == plain.height,
        encoded.color_type == plain.color_type,
        encoded.header.image_desc == plain.header.image_desc,
        buf.len() == encoded.image_len(),
        other.len() == buf.len(),
        packed_exactly(
            packets,
            encoded.raw_bytes_per_pixel as nat,
            encoded.pixels() as nat,
        ),
    ensures
        ({
            let raw = unpacked(
                packets,
                encoded.raw_bytes_per_pixel as nat,
                encoded.pixels() as nat,
            );
            let (result, image) = encoded.decoded(packets, buf);
            let (plain_result, plain_image) = plain.decoded(raw, other);
            &&& raw.len() == plain.raw_len()
            &&& result is Ok <==> plain_result is Ok
            &&& result == plain_result
            &&& result is Ok ==> image == plain_image
        }),
{
    let e = encoded.expander();
    let w = encoded.width as int;
    let h = encoded.height as int;
    assert(0 <= w * h && (w * h > 0 ==> w > 0 && h > 0)) by (nonlinear_arith)
        requires
            0 <= w,
            0 <= h,
    ;
    let n = (w * h) as nat;
    let raw = unpacked(packets, e.raw_bytes_per_pixel as nat, n);
    if n == 0 {
        let (result, image) = encoded.decoded(packets, buf);
        let (plain_result, plain_image) = plain.decoded(raw, other);
        assert(image =~= plain_image);
    } else {
        let ordered = plain.in_reading_order(raw, plain.raw_bytes_per_pixel as int);
        let outcome = rle::decode_packets(e, packets, buf.len());
        lemma_packed_exactly(e, packets, n);
        lemma_order_keeps_colored(e, raw, encoded.header.image_desc, w, h);
        assert(raw.take(plain.raw_len()) =~= raw);
        lemma_stored_image(plain, raw, other);
        e.lemma_alike(&plain.expander(), ordered, n);
        if e.colored(raw, n) == n {
            lemma_unpacked(e, packets, n);
            lemma_order_and_color(e, raw, encoded.header.image_desc, w, h);
            rle::lemma_outcome(e, packets, buf.len());
            assert(outcome.written + buf.skip(outcome.written.len() as int) =~= outcome.written);
        }
    }
}

/// The colors of an image that has a color map only where it uses one fit into the decoded image,
/// and what is stored for a pixel takes no more space than the pixel.
pub proof fn lemma_checked_image_fits<R>(
    decoder: TgaDecoder<R>,
    header: Header,
    map_bytes: Seq<u8>,
)
    requires
        decoder::header_check(header) is Ok,
        decoder::color_map_size(header) == Ok::<int, ImageError>(map_bytes.len() as int),
        decoder.describes(header, map_bytes),
        decoder.wf(),
        header.map_type != 1 || header.kind().has_color_map(),
    ensures
        decoder.expander().fits(),
        decoder.raw_fits(),
        decoder.raw_len() <= decoder.image_len(),
{
    let pixels = decoder.pixels();
    let raw = decoder.raw_bytes_per_pixel as int;
    let out = decoder.color_type.channels() as int;
    assert(pixels >= 0) by (nonlinear_arith)
        requires
            pixels == decoder.width * decoder.height,
    ;
    assert(pixels * raw <= pixels * out) by (nonlinear_arith)
        requires
            pixels >= 0,
            raw <= out,
    ;
}

/// A file whose pixels are run-length encoded and the file that stores them plainly, with the same
/// header but for the image type and with the same color map, are both read or both fail alike,
/// and give the same image, unless there is no memory to read the one that stores them plainly.
pub proof fn lemma_encoded_counterpart(
    encoded: TgaDecoder<&[u8]>,
    plain: TgaDecoder<&[u8]>,
    map_bytes: Seq<u8>,
    before: Seq<u8>,
    result: Result<(), ImageError>,
    after: Seq<u8>,
    plain_before: Seq<u8>,
    plain_result: Result<(), ImageError>,
    plain_after: Seq<u8>,
)
    requires
        encoded.wf(),
        plain.wf(),
        encoded.describes(encoded.header, map_bytes),
        plain.describes(plain.header, map_bytes),
        decoder::header_check(encoded.header) is Ok,
        decoder::color_map_size(encoded.header) == Ok::<int, ImageError>(map_bytes.len() as int),
        encoded.header.map_type == 1 ==> encoded.image_type.has_color_map(),
        plain.header == (Header { image_type: plain.header.image_type, ..encoded.header }),
        encoded.image_type.has_packets(),
        !plain.image_type.has_packets(),
        encoded.image_type.has_color() == plain.image_type.has_color(),
        encoded.image_type.has_color_map() == plain.image_type.has_color_map(),
        packed_exactly(
            encoded.r@,
            encoded.raw_bytes_per_pixel as nat,
            encoded.pixels() as nat,
        ),
        plain.r@ == unpacked(
            encoded.r@,
            encoded.raw_bytes_per_pixel as nat,
            encoded.pixels() as nat,
        ),
        before.len() == encoded.image_len(),
        plain_before.len() == plain.image_len(),
        encoded.image_read(before, result, after),
        plain.image_read(plain_before, plain_result, plain_after),
        plain_result != Err::<(), _>(ImageError::Limits(LimitErrorKind::InsufficientMemory)),
    ensures
        result is Ok <==> plain_result is Ok,
        result == plain_result,
        result is Ok ==> after == plain_after,
{
    lemma_checked_image_fits(encoded, encoded.header, map_bytes);
    lemma_encoding_is_transparent(encoded, plain, encoded.r@, before, plain_before);
}

/// Swapping red and blue twice restores the pixels.
pub proof fn lemma_red_blue_twice(s: Seq<u8>, size: int)
    requires
        3 <= size <= 4,
        s.len() as int % size == 0,
    ensures
        decoder::red_blue_swapped(decoder::red_blue_swapped(s, size), size) == s,
{
    let once = decoder::red_blue_swapped(s, size);
    let twice = decoder::red_blue_swapped(once, size);
    assert forall|k: int| 0 <= k < s.len() implies twice[k] == s[k] by {
        let p = k / size;
        let b = k % size;
        orientation::lemma_block(k, size, p);
        orientation::lemma_block(s.len() as int, size, p);
        assert((p + 1) * size == p * size + size) by (nonlinear_arith);
        if b == 0 {
            orientation::lemma_in_block(p, size, 2);
        } else if b == 2 {
            orientation::lemma_in_block(p, size, 0);
        }
    }
    assert(twice =~= s);
}

/// What is decoded is as long as the buffer that it is decoded into, also where decoding fails
/// half way.
pub proof fn lemma_decoded_len<R>(decoder: TgaDecoder<R>, data: Seq<u8>, buf: Seq<u8>)
    requires
        decoder.wf(),
        if decoder.image_type.has_packets() {
            rle::decodable(decoder.expander(), data, buf.len())
        } else {
            decoder.raw_fits()
        },
        buf.len() == decoder.image_len(),
    ensures
        decoder.decoded(data, buf).1.len() == buf.len(),
{
    let e = decoder.expander();
    let n = decoder.pixels();
    let raw = decoder.raw_bytes_per_pixel as int;
    let out = decoder.color_type.channels() as int;
    if decoder.image_type.has_packets() {
        rle::lemma_outcome(e, data, buf.len());
    } else {
        assert(0 <= n) by (nonlinear_arith)
            requires
                n == decoder.width * decoder.height,
        ;
        assert(0 <= n * raw <= n * out) by (nonlinear_arith)
            requires
                0 <= n,
                0 <= raw,
                n == 0 || raw <= out,
        ;
        if data.len() >= decoder.raw_len() && decoder.color_map is Some {
            let laid = data.take(decoder.raw_len()) + buf.skip(decoder.raw_len());
            let ordered = decoder.ordered_raw(laid);
            let stored = ordered.take(decoder.raw_len());
            let k = e.colored(stored, n as nat);
            e.lemma_colored_prefix(stored, n as nat);
            assert(k * raw <= n * raw && k * out <= n * out) by (nonlinear_arith)
                requires
                    0 <= k <= n,
                    0 <= raw,
                    0 <= out,
            ;
            e.lemma_colors_len(stored, k);
        }
    }
}

/// What a buffer held before does not show in the image that is decoded into it.
pub proof fn lemma_buffer_is_overwritten<R>(
    decoder: TgaDecoder<R>,
    data: Seq<u8>,
    buf: Seq<u8>,
    other: Seq<u8>,
)
    requires
        decoder.wf(),
        decoder.expander().fits() || buf.len() == 0,
        buf.len() == decoder.image_len(),
        other.len() == buf.len(),
        decoder.decoded(data, buf).0 is Ok,
    ensures
        decoder.decoded(data, other) == decoder.decoded(data, buf),
{
    let e = decoder.expander();
    if buf.len() == 0 {
        assert(buf =~= other);
    } else if decoder.image_type.has_packets() {
        rle::lemma_outcome(e, data, buf.len());
        let outcome = rle::decode_packets(e, data, buf.len());
        assert(buf.skip(outcome.written.len() as int) =~= other.skip(outcome.written.len() as int));
    } else {
        lemma_stored_image(decoder, data, buf);
        lemma_stored_image(decoder, data, other);
    }
}

/// What follows the pixels of an image in a file does not show in the image.
pub proof fn lemma_trailing_bytes<R>(
    decoder: TgaDecoder<R>,
    data: Seq<u8>,
    more: Seq<u8>,
    buf: Seq<u8>,
)
    requires
        decoder.wf(),
        decoder.image_type.has_packets() ==> {
            &&& rle::decodable(decoder.expander(), data, buf.len())
            &&& buf.len() > 0
        },
        buf.len() == decoder.image_len(),
        decoder.decoded(data, buf).0 is Ok,
    ensures
        decoder.decoded(data + more, buf) == decoder.decoded(data, buf),
{
    let e = decoder.expander();
    if decoder.image_type.has_packets() {
        rle::lemma_outcome(e, data, buf.len());
        rle::lemma_resume(e, data, more, buf.len());
    } else {
        let len = decoder.raw_len();
        assert(len >= 0) by (nonlinear_arith)
            requires
                len == decoder.width * decoder.height * decoder.raw_bytes_per_pixel,
        ;
        assert((data + more).take(len) =~= data.take(len));
    }
}

/// What follows the color map of a file does not show in its decoder.
pub proof fn lemma_opening_needs_no_pixels(data: Seq<u8>, more: Seq<u8>)
    requires
        decoder::opening(data) is Ok,
    ensures
        decoder::opening(data + more) is Ok,
        Header::of_bytes(data + more) == Header::of_bytes(data),
        decoder::pixels_start(data + more) == decoder::pixels_start(data),
        (data + more).subrange(
            decoder::map_start(data),
            decoder::pixels_start(data),
        ) == data.subrange(decoder::map_start(data), decoder::pixels_start(data)),
{
    let header = Header::of_bytes(data);
    assert(Header::of_bytes(data + more) == header);
    assert(header.map_entry_bytes() * header.map_length >= 0) by (nonlinear_arith)
        requires
            header.map_entry_bytes() >= 0,
            header.map_length >= 0,
    ;
    assert((data + more).subrange(
        decoder::map_start(data),
        decoder::pixels_start(data),
    ) =~= data.subrange(decoder::map_start(data), decoder::pixels_start(data)));
}

/// A channel of a pixel in the order red, green, blue, alpha is the one that is stored for it.
proof fn lemma_channel_at<R>(decoder: TgaDecoder<R>, s: Seq<u8>, n: int, i: int, channel: int)
    requires
        s.len() == n * decoder.color_type.channels(),
        0 <= i < n,
        0 <= channel < decoder.color_type.channels(),
    ensures
        ({
            let size = decoder.color_type.channels() as int;
            let stored = if decoder.color_type.is_rgb() && channel < 3 {
                2 - channel
            } else {
                channel
            };
            decoder.in_rgb_order(s)[i * size + channel] == s[i * size + stored]
        }),
{
    let size = decoder.color_type.channels() as int;
    assert(0 <= i * size && i * size + size <= n * size) by (nonlinear_arith)
        requires
            0 <= i,
            i + 1 <= n,
            0 <= size,
    ;
    orientation::lemma_in_block(i, size, channel);
}

/// A pixel of the decoded image is the color of what the file holds in the column and the row in
/// which the pixel is stored, with blue and red in each other's place.
#[verifier::rlimit(40)]
pub proof fn lemma_decoded_pixel<R>(
    decoder: TgaDecoder<R>,
    data: Seq<u8>,
    buf: Seq<u8>,
    x: int,
    y: int,
    channel: int,
)
    requires
        decoder.wf(),
        decoder.expander().fits(),
        !decoder.image_type.has_packets(),
        buf.len() == decoder.image_len(),
        decoder.decoded(data, buf).0 is Ok,
        0 <= x < decoder.width,
        0 <= y < decoder.height,
        0 <= channel < decoder.color_type.channels(),
    ensures
        ({
            let e = decoder.expander();
            let w = decoder.width as int;
            let size = decoder.color_type.channels() as int;
            let desc = decoder.header.image_desc;
            let from_x = orientation::stored_column(desc, w, x);
            let from_y = orientation::stored_row(desc, decoder.height as int, y);
            let stored = if decoder.color_type.is_rgb() && channel < 3 {
                2 - channel
            } else {
                channel
            };
            let color = e.color(e.raw_pixel(data, from_y * w + from_x));
            &&& color is Some
            &&& decoder.decoded(data, buf).1[orientation::pixel_at(x, y, w, size) + channel]
                == color->0[stored]
        }),
{
    let e = decoder.expander();
    let w = decoder.width as int;
    let h = decoder.height as int;
    let size = decoder.color_type.channels() as int;
    let raw_size = decoder.raw_bytes_per_pixel as int;
    let desc = decoder.header.image_desc;
    let len = decoder.raw_len();
    let from_x = orientation::stored_column(desc, w, x);
    let from_y = orientation::stored_row(desc, h, y);
    let stored = if decoder.color_type.is_rgb() && channel < 3 {
        2 - channel
    } else {
        channel
    };
    assert(0 < w * h) by (nonlinear_arith)
        requires
            0 < w,
            0 < h,
    ;
    let n = (w * h) as nat;
    assert(0 <= n * raw_size <= n * size) by (nonlinear_arith)
        requires
            0 <= n,
            0 <= raw_size <= size,
    ;
    let pixels = data.take(len);
    let ordered = orientation::oriented(pixels, desc, w, h, raw_size);
    lemma_stored_image(decoder, data, buf);
    lemma_all_colored(e, ordered, n);
    lemma_oriented_raw_pixel(e, pixels, desc, w, h, x, y);
    color_map::lemma_color_in_place(e, ordered, n, y * w + x, stored);
    let from = from_y * w + from_x;
    assert(0 <= from * raw_size <= (from + 1) * raw_size <= n * raw_size) by (nonlinear_arith)
        requires
            0 <= from < n,
            0 <= raw_size,
    ;
    assert(e.raw_pixel(pixels, from) =~= e.raw_pixel(data, from));
    e.lemma_colors_len(ordered, n);
    lemma_channel_at(decoder, e.colors(ordered, n), n as int, y * w + x, channel);
}

} // verus!
