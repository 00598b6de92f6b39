//! Files from their bytes to the pixels of the image.

use vstd::prelude::*;

use crate::color::{ColorType, ExtendedColorType};
use crate::color_map;
use crate::decoder::{self, TgaDecoder};
use crate::error::{
    DecodingError, ImageError, IoErrorKind, LimitErrorKind, UnsupportedErrorKind,
};
use crate::header::{self, Header, ImageType};
use crate::laws;
use crate::orientation;
use crate::packets::{self, Packet};
use crate::rle;
use crate::stream;

verus! {

/// Whether an image of this type has colors: 1 and 9 have them in a color map, 2 and 10 in their
/// pixels.
pub open spec fn colored_type(code: u8) -> bool {
    code == 1 || code == 2 || code == 9 || code == 10
}

/// A header passes just where pixels have 8, 16, 24 or 32 bits and 0 or 8 of them for alpha and,
/// for an image that uses its color map, where there is one of type 1 and indices have 8 or 16 bits
/// and no more than colors have. The first of these that fails names the error.
pub proof fn lemma_header_check(h: Header)
    ensures
        ({
            let result = decoder::header_check(h);
            let alpha = h.image_desc & 0x0f;
            let bits_known = (h.pixel_depth == 8 || h.pixel_depth == 16 || h.pixel_depth == 24
                || h.pixel_depth == 32) && (alpha == 0 || alpha == 8);
            let mapped = h.image_type == 1 || h.image_type == 9;
            &&& !bits_known <==> result == Err::<(), _>(
                ImageError::Unsupported(
                    UnsupportedErrorKind::Color(ExtendedColorType::Unknown(h.pixel_depth)),
                ),
            )
            &&& bits_known && mapped && h.map_type != 1 <==> result == Err::<(), _>(
                ImageError::Decoding(DecodingError::ColorMapType),
            )
            &&& bits_known && mapped && h.map_type == 1 && h.pixel_depth >= 24 <==> result == Err::<
                (),
                _,
            >(ImageError::Decoding(DecodingError::ColorMapIndexSize))
            &&& bits_known && mapped && h.map_type == 1 && h.pixel_depth <= 16 && h.pixel_depth
                > h.map_entry_size <==> result == Err::<(), _>(
                ImageError::Unsupported(UnsupportedErrorKind::IndicesLargerThanPixels),
            )
            &&& bits_known && (!mapped || h.map_type == 1 && h.pixel_depth <= 16 && h.pixel_depth
                <= h.map_entry_size) <==> result is Ok
        }),
{
    header::lemma_alpha_bits(h, h);
    header::lemma_image_types(h.image_type);
}

/// A color map of type 1 takes as many bytes for an entry as hold its bits, which must be two,
/// three or four, and as many entries as the header says. Of no other type is there a color map.
pub proof fn lemma_color_map_size(h: Header, bytes: int)
    requires
        8 * bytes - 8 < h.map_entry_size <= 8 * bytes,
    ensures
        h.map_type != 1 ==> decoder::color_map_size(h) == Ok::<int, ImageError>(0),
        h.map_type == 1 && 2 <= bytes <= 4 ==> decoder::color_map_size(h) == Ok::<int, ImageError>(
            bytes * h.map_length,
        ),
        h.map_type == 1 && !(2 <= bytes <= 4) ==> decoder::color_map_size(h) == Err::<int, _>(
            ImageError::Unsupported(UnsupportedErrorKind::ColorMapEntrySize),
        ),
{
    header::lemma_bits_to_bytes(h);
    assert(h.map_entry_bytes() == bytes);
}

/// The bits of a pixel are those of an entry where there is a color map, and else those that are
/// stored. Color images of 32 bits, with or without 8 for alpha, are decoded to `Rgba8`, those of
/// 24 without alpha to `Rgb8`; gray ones of 16 bits with 8 for alpha to `La8`, and those of 8 bits
/// to `L8`, also where all are alpha, which is kept in mind. More alpha bits than there are bits
/// are an error of their own, and no other bits are known.
pub proof fn lemma_layout(h: Header)
    ensures
        ({
            let layout = decoder::color_layout(h);
            let color = colored_type(h.image_type);
            let alpha = h.image_desc & 0x0f;
            let bits = if h.map_type == 1 {
                h.map_entry_size
            } else {
                h.pixel_depth
            };
            &&& layout matches Ok((color_type, original)) ==> {
                &&& 8 * color_type.channels() == bits
                &&& color_type.is_rgb() <==> color
                &&& original is Some ==> original == Some(ExtendedColorType::A8)
                &&& original is Some <==> bits == alpha
            }
            &&& color && bits == 32 && (alpha == 0 || alpha == 8) <==> layout == Ok::<
                (ColorType, Option<ExtendedColorType>),
                ImageError,
            >((ColorType::Rgba8, None))
            &&& color && bits == 24 && alpha == 0 <==> layout == Ok::<
                (ColorType, Option<ExtendedColorType>),
                ImageError,
            >((ColorType::Rgb8, None))
            &&& !color && bits == 16 && alpha == 8 <==> layout == Ok::<
                (ColorType, Option<ExtendedColorType>),
                ImageError,
            >((ColorType::La8, None))
            &&& !color && bits == 8 && alpha == 0 <==> layout == Ok::<
                (ColorType, Option<ExtendedColorType>),
                ImageError,
            >((ColorType::L8, None))
            &&& !color && bits == 8 && alpha == 8 <==> layout == Ok::<
                (ColorType, Option<ExtendedColorType>),
                ImageError,
            >((ColorType::L8, Some(ExtendedColorType::A8)))
            &&& bits < alpha <==> layout == Err::<(ColorType, Option<ExtendedColorType>), _>(
                ImageError::Decoding(DecodingError::TooManyAlphaBits),
            )
            &&& layout is Err && bits >= alpha ==> layout == Err::<
                (ColorType, Option<ExtendedColorType>),
                _,
            >(
                ImageError::Unsupported(
                    UnsupportedErrorKind::Color(ExtendedColorType::Unknown(h.pixel_depth)),
                ),
            )
        }),
{
    header::lemma_alpha_bits(h, h);
    header::lemma_image_types(h.image_type);
}

/// The layout of decoded pixels depends on the bits of a pixel and on whether the image has colors,
/// and on nothing else in the header. In particular it is the same for an image and for its
/// run-length encoded counterpart, and so is whether the header passes, and the color map.
pub proof fn lemma_layout_is_shared(h: Header, other: Header)
    ensures
        (h.map_type == 1 <==> other.map_type == 1) && h.map_entry_size == other.map_entry_size
            && h.pixel_depth == other.pixel_depth && h.image_desc & 0x0f == other.image_desc & 0x0f
            && colored_type(h.image_type) == colored_type(other.image_type)
            ==> decoder::color_layout(h) == decoder::color_layout(other),
        1 <= h.image_type <= 3 && other == (Header { image_type: (h.image_type + 8) as u8, ..h })
            ==> {
            &&& decoder::color_layout(h) == decoder::color_layout(other)
            &&& decoder::header_check(h) == decoder::header_check(other)
            &&& decoder::color_map_size(h) == decoder::color_map_size(other)
        },
{
    header::lemma_alpha_bits(h, other);
    header::lemma_image_types(h.image_type);
    header::lemma_image_types(other.image_type);
}

/// A file is its header, its identification, its color map and its pixels, one after the other.
/// Opening it finds each of them, whatever the identification and the pixels hold, and comes to
/// what its header comes to.
pub proof fn lemma_file_parts(h: Header, id: Seq<u8>, map: Seq<u8>, pixels: Seq<u8>)
    requires
        id.len() == h.id_length,
        h.map_type == 1 ==> map.len() == (h.map_entry_size + 7) / 8 * h.map_length,
        h.map_type != 1 ==> map.len() == 0,
    ensures
        ({
            let data = h.to_bytes() + id + map + pixels;
            &&& Header::of_bytes(data) == h
            &&& decoder::opening(data) == if decoder::header_check(h) is Err {
                decoder::header_check(h)
            } else if h.map_type == 1 && (h.map_entry_size <= 8 || h.map_entry_size > 32) {
                Err(ImageError::Unsupported(UnsupportedErrorKind::ColorMapEntrySize))
            } else {
                match decoder::color_layout(h) {
                    Ok(_) => Ok(()),
                    Err(error) => Err(error),
                }
            }
            &&& decoder::opening(data) is Ok ==> {
                &&& decoder::map_start(data) == 18 + id.len()
                &&& decoder::pixels_start(data) == 18 + id.len() + map.len()
                &&& data.subrange(decoder::map_start(data), decoder::pixels_start(data)) == map
                &&& data.skip(decoder::pixels_start(data)) == pixels
            }
        }),
{
    let data = h.to_bytes() + id + map + pixels;
    header::lemma_header_is_read_back(h, id + map + pixels);
    assert(data =~= h.to_bytes() + (id + map + pixels));
    let bytes = (h.map_entry_size + 7) / 8;
    lemma_color_map_size(h, bytes);
    if decoder::opening(data) is Ok {
        assert(data.subrange(decoder::map_start(data), decoder::pixels_start(data)) =~= map);
        assert(data.skip(decoder::pixels_start(data)) =~= pixels);
    }
}

/// A file that ends before its pixels begin, though its header is sound, ends unexpectedly, and so
/// does one that ends within its header.
pub proof fn lemma_cut_file(h: Header, id: Seq<u8>, map: Seq<u8>, len: int)
    requires
        id.len() == h.id_length,
        h.map_type == 1 ==> map.len() == (h.map_entry_size + 7) / 8 * h.map_length,
        h.map_type != 1 ==> map.len() == 0,
        0 <= len < 18 + id.len() + map.len(),
    ensures
        ({
            let data = (h.to_bytes() + id + map).take(len);
            &&& len < 18 ==> decoder::opening(data) == Err::<(), _>(
                ImageError::IoError(IoErrorKind::UnexpectedEof),
            )
            &&& len >= 18 ==> decoder::opening(data) == if decoder::header_check(h) is Err {
                decoder::header_check(h)
            } else if len >= 18 + id.len() && (h.map_entry_size <= 8 || h.map_entry_size > 32) {
                Err(ImageError::Unsupported(UnsupportedErrorKind::ColorMapEntrySize))
            } else {
                Err(ImageError::IoError(IoErrorKind::UnexpectedEof))
            }
        }),
{
    let whole = h.to_bytes() + id + map;
    let data = whole.take(len);
    header::lemma_header_is_read_back(h, Seq::empty());
    let bytes = (h.map_entry_size + 7) / 8;
    lemma_color_map_size(h, bytes);
    if len >= 18 {
        header::lemma_header_is_read_back(h, data.skip(18));
        assert(data =~= h.to_bytes() + data.skip(18));
    }
}

/// A decoder for a header has its fields from there: the size of the image, the bytes of a stored
/// pixel, and a color map just where the image uses one, with the bytes that the file has for it.
pub proof fn lemma_described<R>(decoder: TgaDecoder<R>, h: Header, map: Seq<u8>)
    requires
        decoder.describes(h, map),
    ensures
        decoder.header == h,
        decoder.width == h.image_width,
        decoder.height == h.image_height,
        8 * decoder.raw_bytes_per_pixel - 8 < h.pixel_depth <= 8 * decoder.raw_bytes_per_pixel,
        decoder.image_type == ImageType::of_code(h.image_type),
        decoder::color_layout(h) == Ok::<_, ImageError>(
            (decoder.color_type, decoder.original_color_type),
        ),
        decoder.color_map is Some <==> h.image_type == 1 || h.image_type == 9,
        decoder.color_map matches Some(colors) ==> {
            &&& colors.start_offset == h.map_origin
            &&& 8 * colors.entry_size - 8 < h.map_entry_size <= 8 * colors.entry_size
            &&& colors.bytes@ == map
        },
        decoder.pixels() == h.image_width * h.image_height,
        decoder.image_len() == h.image_width * h.image_height * decoder.color_type.channels(),
        decoder.raw_len() == h.image_width * h.image_height * decoder.raw_bytes_per_pixel,
{
    header::lemma_bits_to_bytes(h);
    header::lemma_image_types(h.image_type);
}

/// Pixels fit where the color map, if there is one that the image does not use, has entries of as
/// many bits as the pixels.
proof fn lemma_pixels_fit<R>(decoder: TgaDecoder<R>, h: Header, map: Seq<u8>)
    requires
        decoder::header_check(h) is Ok,
        decoder::color_map_size(h) == Ok::<int, ImageError>(map.len() as int),
        decoder.describes(h, map),
        decoder.wf(),
        h.map_type == 1 ==> h.image_type == 1 || h.image_type == 9 || h.map_entry_size
            == h.pixel_depth,
    ensures
        decoder.expander().fits(),
        decoder.raw_fits(),
{
    lemma_layout(h);
    header::lemma_image_types(h.image_type);
    lemma_described(decoder, h, map);
}

/// The index that a raw pixel of one or two bytes holds.
pub open spec fn index_of(pixel: Seq<u8>) -> int {
    if pixel.len() == 1 {
        pixel[0] as int
    } else {
        pixel[0] + 256 * pixel[1]
    }
}

/// Where the color of a raw pixel begins in the bytes of the color map.
pub open spec fn color_start(h: Header, pixel: Seq<u8>) -> int {
    h.map_origin + (h.map_entry_size + 7) / 8 * index_of(pixel)
}

/// The color map has all the bytes of the color of a raw pixel.
pub open spec fn in_map(h: Header, map: Seq<u8>, pixel: Seq<u8>) -> bool {
    color_start(h, pixel) + (h.map_entry_size + 7) / 8 <= map.len()
}

/// The bytes hold the raw pixels of an image with this header: one after the other, or in packets
/// where the image is run-length encoded.
pub open spec fn holds(
    data: Seq<u8>,
    h: Header,
    pixels: Seq<Seq<u8>>,
    packets: Seq<Packet>,
    rest: Seq<u8>,
) -> bool {
    let raw = ((h.pixel_depth + 7) / 8) as nat;
    if 9 <= h.image_type <= 11 {
        &&& packets.len() > 0
        &&& packets::all_valid(packets, raw)
        &&& packets::stream_pixels(packets) == pixels
        &&& data == packets::stream_bytes(packets) + rest
    } else {
        &&& color_map::all_of_len(pixels, raw)
        &&& data == color_map::joined(pixels) + rest
    }
}

/// The color of a raw pixel: what the color map holds for its index, or the pixel itself.
proof fn lemma_color<R>(decoder: TgaDecoder<R>, h: Header, map: Seq<u8>, pixel: Seq<u8>)
    requires
        decoder.describes(h, map),
        decoder.wf(),
        pixel.len() == decoder.raw_bytes_per_pixel,
    ensures
        ({
            let color = decoder.expander().color(pixel);
            if h.image_type == 1 || h.image_type == 9 {
                &&& color is Some <==> in_map(h, map, pixel)
                &&& color matches Some(bytes) ==> bytes == map.subrange(
                    color_start(h, pixel),
                    color_start(h, pixel) + (h.map_entry_size + 7) / 8,
                )
            } else {
                color == Some(pixel)
            }
        }),
{
    header::lemma_image_types(h.image_type);
    if let Some(colors) = decoder.color_map {
        color_map::lemma_little_endian(pixel);
        assert(colors.entry(index_of(pixel)) == decoder.expander().color(pixel));
    }
}

/// The decoder that reads the same pixels where they are stored plainly.
spec fn plain_counterpart<R>(decoder: TgaDecoder<R>) -> TgaDecoder<R> {
    TgaDecoder {
        image_type: if decoder.image_type.has_color_map() {
            ImageType::RawColorMap
        } else {
            ImageType::RawTrueColor
        },
        ..decoder
    }
}

/// Decoding packets comes to what decoding their pixels comes to.
proof fn lemma_packets_as_pixels<R>(
    decoder: TgaDecoder<R>,
    packets: Seq<Packet>,
    rest: Seq<u8>,
    buf: Seq<u8>,
)
    requires
        decoder.wf(),
        decoder.expander().fits(),
        decoder.image_type.has_packets(),
        packets.len() > 0,
        packets::all_valid(packets, decoder.raw_bytes_per_pixel as nat),
        packets::stream_pixels(packets).len() == decoder.pixels(),
        buf.len() == decoder.image_len(),
    ensures
        ({
            let plain = plain_counterpart(decoder);
            let raw = color_map::joined(packets::stream_pixels(packets));
            let encoded = decoder.decoded(packets::stream_bytes(packets) + rest, buf);
            &&& plain.wf()
            &&& !plain.image_type.has_packets()
            &&& plain.expander() == decoder.expander()
            &&& encoded.0 == plain.decoded(raw, buf).0
            &&& encoded.0 is Ok ==> encoded == plain.decoded(raw, buf)
        }),
{
    let plain = plain_counterpart(decoder);
    packets::lemma_stream_is_packed(packets, rest, decoder.raw_bytes_per_pixel as nat);
    laws::lemma_encoding_is_transparent(
        decoder,
        plain,
        packets::stream_bytes(packets) + rest,
        buf,
        buf,
    );
}

/// All pixels have colors just where each index is one that the color map has.
proof fn lemma_all_in_map<R>(
    decoder: TgaDecoder<R>,
    h: Header,
    map: Seq<u8>,
    pixels: Seq<Seq<u8>>,
    rest: Seq<u8>,
)
    requires
        decoder.describes(h, map),
        decoder.wf(),
        color_map::all_of_len(pixels, decoder.raw_bytes_per_pixel as nat),
    ensures
        decoder.expander().colored(color_map::joined(pixels), pixels.len()) == pixels.len() <==> ((
        h.image_type == 1 || h.image_type == 9) ==> forall|i: int|
            0 <= i < pixels.len() ==> in_map(h, map, #[trigger] pixels[i])),
{
    let e = decoder.expander();
    let raw = color_map::joined(pixels);
    let n = pixels.len();
    color_map::lemma_joined(pixels, decoder.raw_bytes_per_pixel as nat);
    laws::lemma_all_colored(e, raw, n);
    assert forall|i: int| 0 <= i < n implies (e.color(e.raw_pixel(raw, i)) is Some <==> ((
    h.image_type == 1 || h.image_type == 9) ==> in_map(h, map, #[trigger] pixels[i]))) by {
        lemma_color(decoder, h, map, pixels[i]);
        assert(e.raw_pixel(raw, i) == pixels[i]);
    }
    if e.colored(raw, n) == n {
        assert forall|i: int|
            0 <= i < n && (h.image_type == 1 || h.image_type == 9) implies in_map(
            h,
            map,
            #[trigger] pixels[i],
        ) by {
            assert(e.color(e.raw_pixel(raw, i)) is Some);
        }
    } else {
        let i = choose|i: int| 0 <= i < n && (#[trigger] e.color(e.raw_pixel(raw, i))) is None;
        assert(e.raw_pixel(raw, i) == pixels[i]);
    }
}

/// A file that has all its pixels is read, whether they are run-length encoded or not and whatever
/// follows them, unless it uses a color map that lacks the color of one of them.
pub proof fn lemma_file_is_read<R>(
    decoder: TgaDecoder<R>,
    h: Header,
    map: Seq<u8>,
    pixels: Seq<Seq<u8>>,
    packets: Seq<Packet>,
    rest: Seq<u8>,
    data: Seq<u8>,
    buf: Seq<u8>,
)
    requires
        decoder::header_check(h) is Ok,
        decoder::color_map_size(h) == Ok::<int, ImageError>(map.len() as int),
        decoder.describes(h, map),
        decoder.wf(),
        h.map_type == 1 ==> h.image_type == 1 || h.image_type == 9 || h.map_entry_size
            == h.pixel_depth,
        pixels.len() == h.image_width * h.image_height,
        holds(data, h, pixels, packets, rest),
        buf.len() == decoder.image_len(),
    ensures
        decoder.decoded(data, buf).0 == if (h.image_type == 1 || h.image_type == 9) && exists|i: int|
            0 <= i < pixels.len() && !in_map(h, map, #[trigger] pixels[i]) {
            Err(ImageError::Decoding(DecodingError::InvalidColorMapIndex))
        } else {
            Ok(())
        },
{
    let raw = color_map::joined(pixels);
    let size = decoder.raw_bytes_per_pixel as int;
    let n = pixels.len();
    header::lemma_image_types(h.image_type);
    lemma_pixels_fit(decoder, h, map);
    if 9 <= h.image_type <= 11 {
        packets::lemma_stream_is_packed(packets, rest, size as nat);
        lemma_packets_as_pixels(decoder, packets, rest, buf);
        lemma_plain_result(plain_counterpart(decoder), pixels, Seq::empty(), buf);
        assert(raw + Seq::<u8>::empty() =~= raw);
    } else {
        lemma_plain_result(decoder, pixels, rest, buf);
    }
    lemma_all_in_map(decoder, h, map, pixels, rest);
}

/// Pixels that are stored plainly are read just where all of them have colors.
proof fn lemma_plain_result<R>(
    decoder: TgaDecoder<R>,
    pixels: Seq<Seq<u8>>,
    rest: Seq<u8>,
    buf: Seq<u8>,
)
    requires
        decoder.wf(),
        decoder.expander().fits(),
        !decoder.image_type.has_packets(),
        pixels.len() == decoder.pixels(),
        color_map::all_of_len(pixels, decoder.raw_bytes_per_pixel as nat),
        buf.len() == decoder.image_len(),
    ensures
        decoder.decoded(color_map::joined(pixels) + rest, buf).0 == if decoder.expander().colored(
            color_map::joined(pixels),
            pixels.len(),
        ) == pixels.len() {
            Ok(())
        } else {
            Err(ImageError::Decoding(DecodingError::InvalidColorMapIndex))
        },
{
    let raw = color_map::joined(pixels);
    let w = decoder.width as int;
    let h = decoder.height as int;
    color_map::lemma_joined(pixels, decoder.raw_bytes_per_pixel as nat);
    assert((raw + rest).take(decoder.raw_len()) =~= raw);
    laws::lemma_stored_image(decoder, raw + rest, buf);
    assert(w * h > 0 ==> w > 0 && h > 0) by (nonlinear_arith)
        requires
            w >= 0,
            h >= 0,
    ;
    if w * h > 0 {
        laws::lemma_order_keeps_colored(
            decoder.expander(),
            raw,
            decoder.header.image_desc,
            w,
            h,
        );
    }
}

/// A pixel of an image whose pixels are stored plainly is the color of the one that is stored for
/// it.
proof fn lemma_plain_pixel<R>(
    decoder: TgaDecoder<R>,
    pixels: Seq<Seq<u8>>,
    rest: Seq<u8>,
    buf: Seq<u8>,
    x: int,
    y: int,
    channel: int,
)
    requires
        decoder.wf(),
        decoder.expander().fits(),
        !decoder.image_type.has_packets(),
        pixels.len() == decoder.pixels(),
        color_map::all_of_len(pixels, decoder.raw_bytes_per_pixel as nat),
        buf.len() == decoder.image_len(),
        decoder.decoded(color_map::joined(pixels) + rest, buf).0 is Ok,
        0 <= x < decoder.width,
        0 <= y < decoder.height,
        0 <= channel < decoder.color_type.channels(),
    ensures
        ({
            let w = decoder.width as int;
            let desc = decoder.header.image_desc;
            let from_x = orientation::stored_column(desc, w, x);
            let from_y = orientation::stored_row(desc, decoder.height as int, y);
            let color = decoder.expander().color(pixels[from_y * w + from_x]);
            let stored = if decoder.color_type.is_rgb() && channel < 3 {
                2 - channel
            } else {
                channel
            };
            let image = decoder.decoded(color_map::joined(pixels) + rest, buf).1;
            &&& 0 <= from_y * w + from_x < pixels.len()
            &&& image.len() == buf.len()
            &&& color is Some
            &&& image[(y * w + x) * decoder.color_type.channels() + channel] == color->0[stored]
        }),
{
    let w = decoder.width as int;
    let desc = decoder.header.image_desc;
    let size = decoder.raw_bytes_per_pixel as int;
    let from_x = orientation::stored_column(desc, w, x);
    let from_y = orientation::stored_row(desc, decoder.height as int, y);
    let from = from_y * w + from_x;
    let raw = color_map::joined(pixels);
    orientation::lemma_pixel_at(w, decoder.height as int, 1, from_x, from_y, 0);
    laws::lemma_decoded_pixel(decoder, raw + rest, buf, x, y, channel);
    laws::lemma_decoded_len(decoder, raw + rest, buf);
    color_map::lemma_joined(pixels, size as nat);
    assert(0 <= from * size <= (from + 1) * size <= pixels.len() * size) by (nonlinear_arith)
        requires
            0 <= from < pixels.len(),
            0 <= size,
    ;
    assert(decoder.expander().raw_pixel(raw + rest, from) =~= raw.subrange(
        from * size,
        (from + 1) * size,
    ));
}

/// A pixel of an image is the color of the one that is stored for it, be it in a packet or not.
#[verifier::rlimit(40)]
proof fn lemma_held_pixel<R>(
    decoder: TgaDecoder<R>,
    pixels: Seq<Seq<u8>>,
    packets: Seq<Packet>,
    rest: Seq<u8>,
    data: Seq<u8>,
    buf: Seq<u8>,
    x: int,
    y: int,
    channel: int,
)
    requires
        decoder.wf(),
        decoder.expander().fits(),
        pixels.len() == decoder.pixels(),
        if decoder.image_type.has_packets() {
            &&& packets.len() > 0
            &&& packets::all_valid(packets, decoder.raw_bytes_per_pixel as nat)
            &&& packets::stream_pixels(packets) == pixels
            &&& data == packets::stream_bytes(packets) + rest
        } else {
            &&& color_map::all_of_len(pixels, decoder.raw_bytes_per_pixel as nat)
            &&& data == color_map::joined(pixels) + rest
        },
        buf.len() == decoder.image_len(),
        decoder.decoded(data, buf).0 is Ok,
        0 <= x < decoder.width,
        0 <= y < decoder.height,
        0 <= channel < decoder.color_type.channels(),
    ensures
        color_map::all_of_len(pixels, decoder.raw_bytes_per_pixel as nat),
        ({
            let w = decoder.width as int;
            let desc = decoder.header.image_desc;
            let from_x = orientation::stored_column(desc, w, x);
            let from_y = orientation::stored_row(desc, decoder.height as int, y);
            let color = decoder.expander().color(pixels[from_y * w + from_x]);
            let stored = if decoder.color_type.is_rgb() && channel < 3 {
                2 - channel
            } else {
                channel
            };
            let image = decoder.decoded(data, buf).1;
            &&& 0 <= from_y * w + from_x < pixels.len()
            &&& image.len() == buf.len()
            &&& color is Some
            &&& image[(y * w + x) * decoder.color_type.channels() + channel] == color->0[stored]
        }),
{
    if decoder.image_type.has_packets() {
        let none = Seq::<u8>::empty();
        packets::lemma_stream_is_packed(packets, rest, decoder.raw_bytes_per_pixel as nat);
        lemma_packets_as_pixels(decoder, packets, rest, buf);
        assert(color_map::joined(pixels) + none =~= color_map::joined(pixels));
        lemma_plain_pixel(plain_counterpart(decoder), pixels, none, buf, x, y, channel);
    } else {
        lemma_plain_pixel(decoder, pixels, rest, buf, x, y, channel);
    }
}

/// Every byte of the image that a file is read to. The pixel in column `x` and row `y` is the one
/// that is stored in that column, from the right where bit 4 of the descriptor is set, and in that
/// row, from the bottom where bit 5 is clear. Its bytes are those of its color, which stand in the
/// color map where the image uses one and else in the pixel itself; in a color they stand as blue,
/// green, red and alpha, and in the image as red, green, blue and alpha.
pub proof fn lemma_file_pixel<R>(
    decoder: TgaDecoder<R>,
    h: Header,
    map: Seq<u8>,
    pixels: Seq<Seq<u8>>,
    packets: Seq<Packet>,
    rest: Seq<u8>,
    data: Seq<u8>,
    buf: Seq<u8>,
    x: int,
    y: int,
    channel: int,
)
    requires
        decoder::header_check(h) is Ok,
        decoder::color_map_size(h) == Ok::<int, ImageError>(map.len() as int),
        decoder.describes(h, map),
        decoder.wf(),
        h.map_type == 1 ==> h.image_type == 1 || h.image_type == 9 || h.map_entry_size
            == h.pixel_depth,
        pixels.len() == h.image_width * h.image_height,
        holds(data, h, pixels, packets, rest),
        buf.len() == decoder.image_len(),
        decoder.decoded(data, buf).0 is Ok,
        0 <= x < h.image_width,
        0 <= y < h.image_height,
        0 <= channel < decoder.color_type.channels(),
    ensures
        ({
            let size = decoder.color_type.channels() as int;
            let from_x = if h.image_desc & 0x10 != 0 {
                h.image_width - 1 - x
            } else {
                x
            };
            let from_y = if h.image_desc & 0x20 == 0 {
                h.image_height - 1 - y
            } else {
                y
            };
            let pixel = pixels[from_y * h.image_width + from_x];
            let place = if colored_type(h.image_type) && channel < 3 {
                2 - channel
            } else {
                channel
            };
            &&& decoder.decoded(data, buf).1.len() == buf.len()
            &&& decoder.decoded(data, buf).1[(y * h.image_width + x) * size + channel] == if
                h.image_type == 1 || h.image_type == 9 {
                map[color_start(h, pixel) + place]
            } else {
                pixel[place]
            }
        }),
{
    let w = h.image_width as int;
    let desc = h.image_desc;
    header::lemma_image_types(h.image_type);
    lemma_pixels_fit(decoder, h, map);
    orientation::lemma_corner(desc, desc);
    lemma_layout(h);
    let from_x = orientation::stored_column(desc, w, x);
    let from_y = orientation::stored_row(desc, h.image_height as int, y);
    lemma_held_pixel(decoder, pixels, packets, rest, data, buf, x, y, channel);
    lemma_color(decoder, h, map, pixels[from_y * w + from_x]);
}

/// The channels of a pixel are put into the order red, green, blue, alpha: of every pixel of a color
/// image the first byte and the third change places, also of a last one whose fourth is missing.
/// Nothing else moves, and nothing at all in a gray image.
pub proof fn lemma_channel_order<R>(decoder: TgaDecoder<R>, s: Seq<u8>, pixel: int, channel: int)
    requires
        0 <= pixel,
        0 <= channel < decoder.color_type.channels(),
        pixel * decoder.color_type.channels() + channel < s.len(),
    ensures
        ({
            let start = pixel * decoder.color_type.channels();
            let rgb = decoder.color_type == ColorType::Rgb8 || decoder.color_type
                == ColorType::Rgba8;
            &&& decoder.in_rgb_order(s).len() == s.len()
            &&& decoder.in_rgb_order(s)[start + channel] == if rgb && channel == 0 {
                s[start + 2]
            } else if rgb && channel == 2 {
                s[start]
            } else {
                s[start + channel]
            }
        }),
{
    orientation::lemma_in_block(pixel, decoder.color_type.channels() as int, channel);
}

/// Pixels that are stored plainly must all be there: where some bytes are missing, the file ends
/// unexpectedly and the buffer stays as it is. Where they are there and there is no color map, they
/// are put into order at the front of the buffer, and the channels of the whole buffer too.
pub proof fn lemma_stored_pixels<R>(decoder: TgaDecoder<R>, data: Seq<u8>, buf: Seq<u8>)
    requires
        decoder.wf(),
        !decoder.image_type.has_packets(),
    ensures
        ({
            let w = decoder.width as int;
            let h = decoder.height as int;
            let raw = decoder.raw_bytes_per_pixel as int;
            let len = w * h * raw;
            let ordered = orientation::oriented(
                data.take(len),
                decoder.header.image_desc,
                w,
                h,
                raw,
            );
            &&& data.len() < len ==> decoder.decoded(data, buf) == (
                Err::<(), _>(ImageError::IoError(IoErrorKind::UnexpectedEof)),
                buf,
            )
            &&& data.len() >= len && decoder.color_map is None && len <= buf.len()
                ==> decoder.decoded(data, buf) == (
                Ok::<(), ImageError>(()),
                decoder.in_rgb_order(ordered + buf.skip(len)),
            )
        }),
{
    let len = decoder.raw_len();
    assert(len >= 0) by (nonlinear_arith)
        requires
            len == decoder.width * decoder.height * decoder.raw_bytes_per_pixel,
    ;
    if data.len() >= len && len <= buf.len() {
        let laid = data.take(len) + buf.skip(len);
        assert(laid.take(len) =~= data.take(len));
        assert(laid.skip(len) =~= buf.skip(len));
    }
}

/// Where stored indices are read and one has no color, the colors of those before it, in reading
/// order, are in the buffer, and behind them what was there when they were looked up: the indices
/// in that order, and behind those what the buffer held before.
pub proof fn lemma_stored_indices_fail<R>(
    decoder: TgaDecoder<R>,
    data: Seq<u8>,
    buf: Seq<u8>,
    bad: int,
    i: int,
    b: int,
)
    requires
        decoder.wf(),
        decoder.color_map is Some,
        !decoder.image_type.has_packets(),
        data.len() >= decoder.raw_len(),
        buf.len() == decoder.image_len(),
        0 <= bad < decoder.pixels(),
        0 <= i,
        0 <= b < decoder.color_type.channels(),
        i * decoder.color_type.channels() + b < buf.len(),
        ({
            let e = decoder.expander();
            let raw = decoder.raw_bytes_per_pixel as int;
            let ordered = orientation::oriented(
                data.take(decoder.raw_len()),
                decoder.header.image_desc,
                decoder.width as int,
                decoder.height as int,
                raw,
            );
            &&& e.color(ordered.subrange(bad * raw, (bad + 1) * raw)) is None
            &&& forall|j: int|
                0 <= j < bad ==> (#[trigger] e.color(
                    ordered.subrange(j * raw, (j + 1) * raw),
                )) is Some
        }),
    ensures
        ({
            let e = decoder.expander();
            let raw = decoder.raw_bytes_per_pixel as int;
            let len = decoder.raw_len();
            let ordered = orientation::oriented(
                data.take(len),
                decoder.header.image_desc,
                decoder.width as int,
                decoder.height as int,
                raw,
            );
            let k = i * decoder.color_type.channels() + b;
            let (result, after) = decoder.decoded(data, buf);
            &&& result == Err::<(), _>(ImageError::Decoding(DecodingError::InvalidColorMapIndex))
            &&& after.len() == buf.len()
            &&& after[k] == if i < bad {
                e.color(ordered.subrange(i * raw, (i + 1) * raw))->0[b]
            } else if k < len {
                ordered[k]
            } else {
                buf[k]
            }
        }),
{
    let e = decoder.expander();
    let raw = decoder.raw_bytes_per_pixel as int;
    let out = decoder.color_type.channels() as int;
    let n = decoder.pixels() as nat;
    let len = decoder.raw_len();
    assert(0 <= n * raw <= n * out) by (nonlinear_arith)
        requires
            0 <= n,
            0 <= raw <= out,
    ;
    let ordered = orientation::oriented(
        data.take(len),
        decoder.header.image_desc,
        decoder.width as int,
        decoder.height as int,
        raw,
    );
    let laid = data.take(len) + buf.skip(len);
    assert(laid.take(len) =~= data.take(len));
    assert(laid.skip(len) =~= buf.skip(len));
    let placed = decoder.ordered_raw(laid);
    assert(placed.take(len) =~= ordered);
    assert forall|j: int| 0 <= j < bad implies (#[trigger] e.color(
        e.raw_pixel(ordered, j),
    )) is Some by {
        assert(e.color(ordered.subrange(j * raw, (j + 1) * raw)) is Some);
    }
    laws::lemma_all_colored(e, ordered, bad as nat);
    e.lemma_colored_stops(ordered, bad as nat, n);
    color_map::lemma_painted(e, ordered, n, placed, i, b);
}

/// Where packets do not complete an image, reading it fails as decoding the packets does, and the
/// buffer holds the pixels that they wrote, in the order of the file, and behind them what it held
/// before.
pub proof fn lemma_packets_fail<R>(decoder: TgaDecoder<R>, data: Seq<u8>, buf: Seq<u8>)
    requires
        decoder.image_type.has_packets(),
        stream::final_answer(
            rle::decode_packets(decoder.expander(), data, buf.len()),
            buf.len(),
        ) is Err,
    ensures
        ({
            let outcome = rle::decode_packets(decoder.expander(), data, buf.len());
            &&& decoder.decoded(data, buf).0 == stream::final_answer(outcome, buf.len())
            &&& decoder.decoded(data, buf).1 == outcome.written + buf.skip(
                outcome.written.len() as int,
            )
        }),
{
}

/// An image can be read just where its pixels fit into the buffer, one by one where they come in
/// packets, and where it has columns or does not need its rows turned, unless reading fails before.
pub proof fn lemma_readable(decoder: TgaDecoder<&[u8]>)
    ensures
        ({
            let rows = decoder.header.image_desc & 0x20 != 0 || decoder.height <= 1 || decoder.width
                > 0;
            &&& decoder.rows_fit() <==> rows
            &&& decoder.raw_fits() <==> decoder.width * decoder.height == 0
                || decoder.raw_bytes_per_pixel <= decoder.color_type.channels()
            &&& !decoder.image_type.has_packets() ==> (decoder.readable() <==> rows
                && decoder.raw_fits())
            &&& decoder.image_type.has_packets() ==> (decoder.readable() <==> (rows
                || decoder.r@.len() > 0) && rle::decodable(
                decoder.expander(),
                decoder.r@,
                (decoder.width * decoder.height * decoder.color_type.channels()) as nat,
            ))
        }),
{
    orientation::lemma_corner(decoder.header.image_desc, decoder.header.image_desc);
}

/// Reading an image comes to what its bytes decode to, and to nothing else but a lack of memory,
/// which only the copy of stored indices can run into.
pub proof fn lemma_image_read(
    decoder: TgaDecoder<&[u8]>,
    before: Seq<u8>,
    result: Result<(), ImageError>,
    after: Seq<u8>,
)
    requires
        decoder.image_read(before, result, after),
    ensures
        result != Err::<(), _>(ImageError::Limits(LimitErrorKind::InsufficientMemory)) ==> (
            result,
            after,
        ) == decoder.decoded(decoder.r@, before),
        decoder.image_type.has_packets() || decoder.color_map is None || decoder.r@.len()
            < decoder.width * decoder.height * decoder.raw_bytes_per_pixel || decoder.width
            * decoder.height * decoder.raw_bytes_per_pixel == 0 ==> (result, after)
            == decoder.decoded(decoder.r@, before),
{
}

} // verus!
