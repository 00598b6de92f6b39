//! What callers can rely on, told from the arguments of calls to their results.

use vstd::prelude::*;

use crate::color::{ColorType, ExtendedColorType};
use crate::color_map::{self, ColorMap, PixelExpander};
use crate::decoder::{self, TgaDecoder};
use crate::error::{
    DecodingError, ImageError, IoErrorKind, LimitErrorKind, UnsupportedErrorKind,
};
use crate::files;
use crate::fuzzing::{self, NextAttempt, Verdict};
use crate::header::{self, Header, ImageType};
use crate::orientation::{self, TgaOrientation};
use crate::packets::{self, Packet};
use crate::partial_reader::PartialReader;
use crate::rle;
use crate::seek::SeekFrom;
use crate::stream::{self, FillPlan, Progress, RleStream};
use crate::strict_cursor::StrictCursor;

verus! {

/// The bits of a decoded pixel: those of an entry where there is a color map, else those that are
/// stored.
pub open spec fn pixel_bits(h: Header) -> u8 {
    if h.map_type == 1 {
        h.map_entry_size
    } else {
        h.pixel_depth
    }
}

/// Whether a file with this header can be opened.
pub open spec fn supported(h: Header) -> bool {
    let alpha = h.image_desc & 0x0f;
    let bits = pixel_bits(h);
    &&& h.pixel_depth == 8 || h.pixel_depth == 16 || h.pixel_depth == 24 || h.pixel_depth == 32
    &&& h.image_type == 1 || h.image_type == 9 ==> {
        &&& h.map_type == 1
        &&& h.pixel_depth <= 16
        &&& h.pixel_depth <= h.map_entry_size
    }
    &&& h.map_type == 1 ==> 8 < h.map_entry_size <= 32
    &&& if files::colored_type(h.image_type) {
        (bits == 32 && (alpha == 0 || alpha == 8)) || (bits == 24 && alpha == 0)
    } else {
        (bits == 16 && alpha == 8) || (bits == 8 && (alpha == 0 || alpha == 8))
    }
}

/// Opening a file succeeds just where its header is supported, whatever its identification and its
/// pixels hold. The decoder then has the size from the header, the color map, where the image uses
/// one, and the pixels; a decoded pixel has a byte for every eight of its bits.
pub proof fn lemma_file_is_opened<'a>(
    file: &'a [u8],
    h: Header,
    id: Seq<u8>,
    map: Seq<u8>,
    pixels: Seq<u8>,
    result: Result<TgaDecoder<&'a [u8]>, ImageError>,
)
    requires
        file@ == h.to_bytes() + id + map + pixels,
        id.len() == h.id_length,
        h.map_type == 1 ==> map.len() == (h.map_entry_size + 7) / 8 * h.map_length,
        h.map_type != 1 ==> map.len() == 0,
        call_ensures(TgaDecoder::<&'a [u8]>::new, (file,), result),
    ensures
        result is Ok <==> supported(h),
        result matches Err(error) ==> error == if decoder::header_check(h) is Err {
            decoder::header_check(h)->Err_0
        } else if h.map_type == 1 && (h.map_entry_size <= 8 || h.map_entry_size > 32) {
            ImageError::Unsupported(UnsupportedErrorKind::ColorMapEntrySize)
        } else {
            decoder::color_layout(h)->Err_0
        },
        result matches Ok(decoder) ==> {
            &&& decoder.wf()
            &&& decoder.describes(h, map)
            &&& decoder.r@ == pixels
            &&& decoder.header == h
            &&& decoder.width == h.image_width
            &&& decoder.height == h.image_height
            &&& 8 * decoder.raw_bytes_per_pixel == h.pixel_depth
            &&& 8 * decoder.color_type.channels() == pixel_bits(h)
            &&& decoder.image_type == ImageType::of_code(h.image_type)
            &&& match decoder.color_map {
                Some(colors) => {
                    &&& h.image_type == 1 || h.image_type == 9
                    &&& colors.start_offset == h.map_origin
                    &&& 8 * colors.entry_size == h.map_entry_size
                    &&& colors.bytes@ == map
                },
                None => h.image_type != 1 && h.image_type != 9,
            }
        },
{
    files::lemma_file_parts(h, id, map, pixels);
    files::lemma_header_check(h);
    files::lemma_layout(h);
    header::lemma_image_types(h.image_type);
    if let Ok(decoder) = result {
        files::lemma_described(decoder, h, map);
    }
}

/// A file that ends before its pixels begin is not opened, and the error is that the data ended too
/// early, unless it ends behind its header and that is not sound.
pub proof fn lemma_cut_file_is_not_opened<'a>(
    file: &'a [u8],
    h: Header,
    id: Seq<u8>,
    map: Seq<u8>,
    result: Result<TgaDecoder<&'a [u8]>, ImageError>,
)
    requires
        file@ == (h.to_bytes() + id + map).take(file@.len() as int),
        file@.len() < 18 + id.len() + map.len(),
        id.len() == h.id_length,
        h.map_type == 1 ==> map.len() == (h.map_entry_size + 7) / 8 * h.map_length,
        h.map_type != 1 ==> map.len() == 0,
        call_ensures(TgaDecoder::<&'a [u8]>::new, (file,), result),
    ensures
        result is Err,
        file@.len() < 18 || supported(h) ==> result == Err::<TgaDecoder<&'a [u8]>, _>(
            ImageError::IoError(IoErrorKind::UnexpectedEof),
        ),
{
    files::lemma_cut_file(h, id, map, file@.len() as int);
    files::lemma_header_check(h);
}

/// Every byte of the image that a file is read to, from the bytes of the file. What the
/// identification holds, what follows the pixels, whether they are run-length encoded and what the
/// buffer held before does not show.
pub proof fn lemma_file_gives_image<'a>(
    file: &'a [u8],
    h: Header,
    id: Seq<u8>,
    map: Seq<u8>,
    pixels: Seq<Seq<u8>>,
    packets: Seq<Packet>,
    rest: Seq<u8>,
    data: Seq<u8>,
    decoder: TgaDecoder<&'a [u8]>,
    buf: &mut [u8],
    result: Result<(), ImageError>,
    x: int,
    y: int,
    channel: int,
)
    requires
        file@ == h.to_bytes() + id + map + data,
        id.len() == h.id_length,
        h.map_type == 1 ==> map.len() == (h.map_entry_size + 7) / 8 * h.map_length,
        h.map_type != 1 ==> map.len() == 0,
        h.map_type == 1 ==> h.image_type == 1 || h.image_type == 9 || h.map_entry_size
            == h.pixel_depth,
        pixels.len() == h.image_width * h.image_height,
        files::holds(data, h, pixels, packets, rest),
        call_ensures(
            TgaDecoder::<&'a [u8]>::new,
            (file,),
            Ok::<TgaDecoder<&'a [u8]>, ImageError>(decoder),
        ),
        call_ensures(TgaDecoder::<&'a [u8]>::read_image, (decoder, buf), result),
        old(buf)@.len() == decoder.image_len(),
        result != Err::<(), _>(ImageError::Limits(LimitErrorKind::InsufficientMemory)),
        0 <= x < h.image_width,
        0 <= y < h.image_height,
        0 <= channel < decoder.color_type.channels(),
    ensures
        result == if (h.image_type == 1 || h.image_type == 9) && exists|i: int|
            0 <= i < pixels.len() && !files::in_map(h, map, #[trigger] pixels[i]) {
            Err(ImageError::Decoding(DecodingError::InvalidColorMapIndex))
        } else {
            Ok(())
        },
        result is Ok ==> {
            let size = pixel_bits(h) as int / 8;
            let from_x = if h.image_desc & 0x10 != 0 {
                h.image_width - 1 - x
            } else {
                x
            };
            let from_y = if h.image_desc & 0x20 == 0 {
                h.image_height - 1 - y
            } else {
                y
            };
            let pixel = pixels[from_y * h.image_width + from_x];
            let place = if files::colored_type(h.image_type) && channel < 3 {
                2 - channel
            } else {
                channel
            };
            final(buf)@[(y * h.image_width + x) * size + channel] == if h.image_type == 1
                || h.image_type == 9 {
                map[files::color_start(h, pixel) + place]
            } else {
                pixel[place]
            }
        },
{
    let opened = Ok::<TgaDecoder<&'a [u8]>, ImageError>(decoder);
    lemma_file_is_opened(file, h, id, map, data, opened);
    files::lemma_file_parts(h, id, map, data);
    files::lemma_color_map_size(h, (h.map_entry_size + 7) / 8);
    files::lemma_image_read(decoder, old(buf)@, result, final(buf)@);
    files::lemma_file_is_read(decoder, h, map, pixels, packets, rest, data, old(buf)@);
    if result is Ok {
        files::lemma_file_pixel(
            decoder,
            h,
            map,
            pixels,
            packets,
            rest,
            data,
            old(buf)@,
            x,
            y,
            channel,
        );
    }
}

/// A decoder says how large the image is and how its pixels are laid out.
pub proof fn lemma_decoder_describes_image<R>(
    decoder: &TgaDecoder<R>,
    dimensions: (u32, u32),
    total: u64,
    color: ColorType,
    original: ExtendedColorType,
    stored: usize,
)
    requires
        decoder.wf(),
        call_ensures(TgaDecoder::<R>::dimensions, (decoder,), dimensions),
        call_ensures(TgaDecoder::<R>::total_bytes, (decoder,), total),
        call_ensures(TgaDecoder::<R>::color_type, (decoder,), color),
        call_ensures(TgaDecoder::<R>::original_color_type, (decoder,), original),
        call_ensures(TgaDecoder::<R>::stored_len, (decoder,), stored),
    ensures
        dimensions == (decoder.width as u32, decoder.height as u32),
        color == decoder.color_type,
        total == dimensions.0 * dimensions.1 * color.channels(),
        stored == dimensions.0 * dimensions.1 * decoder.raw_bytes_per_pixel,
        decoder.original_color_type matches Some(other) ==> original == other,
        decoder.original_color_type is None ==> {
            &&& original == ExtendedColorType::L8 <==> color == ColorType::L8
            &&& original == ExtendedColorType::La8 <==> color == ColorType::La8
            &&& original == ExtendedColorType::Rgb8 <==> color == ColorType::Rgb8
            &&& original == ExtendedColorType::Rgba8 <==> color == ColorType::Rgba8
        },
{
}

/// The corner that a descriptor names is on the right just where bit 4 is set and at the bottom just
/// where bit 5 is clear, so descriptors that differ in other bits name the same.
pub proof fn lemma_orientation_is_read(
    value: u8,
    other: u8,
    corner: TgaOrientation,
    other_corner: TgaOrientation,
)
    requires
        call_ensures(TgaOrientation::from_image_desc_byte, (value,), corner),
        call_ensures(TgaOrientation::from_image_desc_byte, (other,), other_corner),
    ensures
        corner == TgaOrientation::TopRight || corner == TgaOrientation::BottomRight <==> value & 0x10
            != 0,
        corner == TgaOrientation::BottomLeft || corner == TgaOrientation::BottomRight <==> value
            & 0x20 == 0,
        value & 0x30 == other & 0x30 ==> corner == other_corner,
{
    orientation::lemma_corner(value, other);
}

/// A color map gives the colors that its bytes are made of, by their number, and no others.
pub proof fn lemma_color_is_got<'a>(
    map: &'a ColorMap,
    before: Seq<u8>,
    colors: Seq<Seq<u8>>,
    rest: Seq<u8>,
    index: usize,
    color: Option<&'a [u8]>,
)
    requires
        color_map::all_of_len(colors, map.entry_size as nat),
        before.len() == map.start_offset,
        rest.len() < map.entry_size,
        map.bytes@ == before + color_map::joined(colors) + rest,
        call_ensures(ColorMap::get, (map, index), color),
    ensures
        color is Some <==> index < colors.len(),
        color matches Some(bytes) ==> bytes@ == colors[index as int],
{
    color_map::lemma_entries(*map, before, colors, rest, index as int);
}

/// The layout for a header follows from its bits and from whether the image has colors.
pub proof fn lemma_layout_is_chosen(
    h: &Header,
    result: Result<(ColorType, Option<ExtendedColorType>), ImageError>,
)
    requires
        call_ensures(decoder::choose_color_type, (h,), result),
    ensures
        ({
            let alpha = h.image_desc & 0x0f;
            let bits = pixel_bits(*h);
            &&& result is Ok <==> if files::colored_type(h.image_type) {
                (bits == 32 && (alpha == 0 || alpha == 8)) || (bits == 24 && alpha == 0)
            } else {
                (bits == 16 && alpha == 8) || (bits == 8 && (alpha == 0 || alpha == 8))
            }
            &&& result matches Ok((color, original)) ==> {
                &&& 8 * color.channels() == bits
                &&& original == if alpha == bits {
                    Some(ExtendedColorType::A8)
                } else {
                    None
                }
            }
            &&& result matches Err(error) ==> error == if bits < alpha {
                ImageError::Decoding(DecodingError::TooManyAlphaBits)
            } else {
                ImageError::Unsupported(
                    UnsupportedErrorKind::Color(ExtendedColorType::Unknown(h.pixel_depth)),
                )
            }
        }),
{
    files::lemma_layout(*h);
}

/// Packets that hold just the pixels of an image are decoded to their colors, in order, whatever
/// follows them.
pub proof fn lemma_packets_are_decoded(
    input: &[u8],
    e: &PixelExpander,
    packets: Seq<Packet>,
    rest: Seq<u8>,
    image: &mut [u8],
    result: Result<(), ImageError>,
)
    requires
        e.fits(),
        packets.len() > 0,
        packets::all_valid(packets, e.raw_bytes_per_pixel as nat),
        packets::all_have_colors(*e, packets::stream_pixels(packets)),
        input@ == packets::stream_bytes(packets) + rest,
        old(image)@.len() == packets::stream_pixels(packets).len() * e.output_bytes_per_pixel,
        call_ensures(stream::decode_rle, (input, e, image), result),
    ensures
        result is Ok,
        final(image)@ == color_map::joined(
            packets::colors_of(*e, packets::stream_pixels(packets)),
        ),
{
    packets::lemma_packets_decode(*e, packets, rest, old(image)@.len());
    rle::lemma_outcome(*e, input@, old(image)@.len());
    let written = rle::decode_packets(*e, input@, old(image)@.len()).written;
    assert(written + old(image)@.skip(written.len() as int) =~= written);
}

/// A stream that is given a whole packet uses just that packet and writes the colors of its pixels
/// behind what it has written, and it is done where that completes the image. Given part of
/// a packet it uses nothing and wants the whole.
pub proof fn lemma_stream_advances(
    stream: &mut RleStream,
    e: &PixelExpander,
    bytes: &[u8],
    image: &mut [u8],
    packet: Packet,
    result: Result<Progress, DecodingError>,
)
    requires
        e.fits(),
        packet.valid(e.raw_bytes_per_pixel as nat),
        packets::all_have_colors(*e, packet.pixels()),
        old(stream).filled <= old(image)@.len(),
        call_ensures(RleStream::advance, (stream, e, bytes, image), result),
    ensures
        ({
            let filled = old(stream).filled as int;
            let colors = color_map::joined(packets::colors_of(*e, packet.pixels()));
            let end = filled + packet.pixels().len() * e.output_bytes_per_pixel;
            &&& bytes@ == packet.bytes() && end == old(image)@.len() ==> {
                &&& result == Ok::<_, DecodingError>(Progress::Done(bytes@.len() as usize))
                &&& final(stream).filled == end
                &&& final(image)@ == old(image)@.take(filled) + colors
            }
            &&& bytes@ == packet.bytes() && end < old(image)@.len() ==> {
                &&& result == Ok::<_, DecodingError>(Progress::Used(bytes@.len() as usize))
                &&& final(stream).filled == end
                &&& final(stream).min_wanted == 1
                &&& final(image)@ == old(image)@.take(filled) + colors + old(image)@.skip(end)
            }
            &&& 0 < bytes@.len() < packet.bytes().len() && bytes@ == packet.bytes().take(
                bytes@.len() as int,
            ) ==> {
                &&& result == Ok::<_, DecodingError>(Progress::Used(0))
                &&& final(stream).filled == filled
                &&& final(stream).min_wanted == packet.bytes().len()
                &&& final(image)@ == old(image)@
            }
        }),
{
    let filled = old(stream).filled as int;
    let room = (old(image)@.len() - filled) as nat;
    let none = Seq::<u8>::empty();
    let colors = color_map::joined(packets::colors_of(*e, packet.pixels()));
    assert(packet.bytes() + none =~= packet.bytes());
    packets::lemma_packet_decodes(*e, packet, none, room, 0);
    assert(colors + none =~= colors);
    packets::lemma_one_packet_len(*e, packet);
    if 0 < bytes@.len() < packet.bytes().len() {
        packets::lemma_cut_packet(*e, packet, bytes@.len() as int, room);
    }
    let outcome = rle::decode_packets(*e, bytes@, room);
    if bytes@ == packet.bytes() && filled + packet.pixels().len() * e.output_bytes_per_pixel
        == old(image)@.len() {
        assert(final(image)@ =~= old(image)@.take(filled) + colors);
    }
    if 0 < bytes@.len() < packet.bytes().len() && bytes@ == packet.bytes().take(
        bytes@.len() as int,
    ) {
        assert(outcome.written =~= none);
        assert(final(image)@ =~= old(image)@);
    }
}

/// The bytes of a header are read to that header, whatever follows, and fewer bytes are not.
pub proof fn lemma_header_is_read(
    bytes: &[u8],
    header: Header,
    rest: Seq<u8>,
    result: Result<Header, ImageError>,
)
    requires
        call_ensures(Header::from_bytes, (bytes,), result),
    ensures
        bytes@ == header.to_bytes() + rest ==> result == Ok::<_, ImageError>(header),
        bytes@.len() < 18 ==> result == Err::<Header, _>(
            ImageError::IoError(IoErrorKind::UnexpectedEof),
        ),
{
    header::lemma_header_is_read_back(header, rest);
}

/// A partial reader reads as many bytes as it is asked for and has, from where it is on, and then
/// goes on where it stopped: two reads give what stands one after the other in the data. It has
/// nothing to give, and says so, just where no byte has arrived behind its position; then nothing
/// changes.
pub proof fn lemma_partial_reads<'a>(
    reader: &mut PartialReader<'a>,
    buf: &mut [u8],
    result: Result<usize, IoErrorKind>,
    next_reader: &mut PartialReader<'a>,
    next_buf: &mut [u8],
    next_result: Result<usize, IoErrorKind>,
)
    requires
        old(reader).available_bytes <= old(reader).data@.len(),
        *old(next_reader) == *final(reader),
        call_ensures(PartialReader::<'a>::read, (reader, buf), result),
        call_ensures(PartialReader::<'a>::read, (next_reader, next_buf), next_result),
    ensures
        ({
            let data = old(reader).data@;
            let start = old(reader).position as int;
            let left = old(reader).available_bytes - start;
            &&& result is Err <==> left <= 0
            &&& result matches Err(error) ==> {
                &&& error == IoErrorKind::UnexpectedEof
                &&& *final(reader) == *old(reader)
                &&& final(buf)@ == old(buf)@
            }
            &&& result matches Ok(n) ==> {
                &&& n == left && n <= old(buf)@.len() || n == old(buf)@.len() && n < left
                &&& final(buf)@ == data.subrange(start, start + n) + old(buf)@.skip(n as int)
                &&& final(reader).data@ == data
                &&& final(reader).available_bytes == old(reader).available_bytes
                &&& final(reader).position == start + n
                &&& next_result matches Ok(m) ==> data.subrange(start, start + n + m) == final(buf)@.take(n as int) + final(next_buf)@.take(m as int)
            }
        }),
{
    if let Ok(n) = result {
        let data = old(reader).data@;
        let start = old(reader).position as int;
        assert(final(buf)@ =~= data.subrange(start, start + n) + old(buf)@.skip(n as int));
        if let Ok(m) = next_result {
            assert(data.subrange(start, start + n + m) =~= final(buf)@.take(n as int) + final(next_buf)@.take(m as int));
        }
    }
}

/// What a partial reader shows is what it would read, and marking bytes as read leaves the others.
pub proof fn lemma_partial_shows<'a>(
    reader: &mut PartialReader<'a>,
    result: Result<&'a [u8], IoErrorKind>,
    amount: usize,
    next_result: Result<&'a [u8], IoErrorKind>,
)
    requires
        old(reader).available_bytes <= old(reader).data@.len(),
        call_ensures(PartialReader::<'a>::fill_buf, (&*old(reader),), result),
        call_ensures(PartialReader::<'a>::consume, (reader, amount), ()),
        old(reader).position + amount <= u64::MAX,
        call_ensures(PartialReader::<'a>::fill_buf, (&*final(reader),), next_result),
    ensures
        final(reader).position == old(reader).position + amount,
        result is Err <==> old(reader).position >= old(reader).available_bytes,
        result matches Err(error) ==> error == IoErrorKind::UnexpectedEof && next_result is Err,
        result matches Ok(shown) ==> {
            &&& shown@ == old(reader).data@.subrange(
                old(reader).position as int,
                old(reader).available_bytes as int,
            )
            &&& next_result matches Ok(left) ==> left@ == shown@.skip(amount as int)
            &&& next_result is Err <==> amount >= shown@.len()
        },
{
    if result is Ok && next_result is Ok {
        assert(next_result->Ok_0@ =~= result->Ok_0@.skip(amount as int));
    }
}

/// A partial reader seeks to the place that a seek names, counted from the start, from the end of
/// all data or from where it is, and stays where it is where there is no such place.
pub proof fn lemma_partial_seeks<'a>(
    reader: &mut PartialReader<'a>,
    pos: SeekFrom,
    result: Result<u64, IoErrorKind>,
)
    requires
        call_ensures(PartialReader::<'a>::seek, (reader, pos), result),
    ensures
        ({
            let place = match pos {
                SeekFrom::Start(offset) => offset as int,
                SeekFrom::End(offset) => old(reader).data@.len() + offset,
                SeekFrom::Current(offset) => old(reader).position + offset,
            };
            &&& result is Ok <==> 0 <= place <= u64::MAX
            &&& result matches Ok(position) ==> position == place && final(reader).position == place
            &&& result matches Err(error) ==> error == IoErrorKind::InvalidInput && final(reader).position == old(reader).position
            &&& final(reader).data@ == old(reader).data@
            &&& final(reader).available_bytes == old(reader).available_bytes
        }),
{
}

/// A partial reader begins at the start, and as many bytes have arrived as were named last.
pub proof fn lemma_partial_starts<'a>(
    data: &'a [u8],
    available: usize,
    reader: PartialReader<'a>,
    later: &mut PartialReader<'a>,
    more: usize,
)
    requires
        call_ensures(PartialReader::<'a>::new, (data, available), reader),
        *old(later) == reader,
        call_ensures(PartialReader::<'a>::set_available, (later, more), ()),
    ensures
        reader.data@ == data@ && reader.position == 0 && reader.available_bytes == available,
        final(later).data@ == data@ && final(later).position == 0 && final(later).available_bytes
            == more,
{
}

/// A strict cursor reads as many bytes as it is asked for and has, from where it is on, and then
/// goes on where it stopped; behind the data it reads none.
pub proof fn lemma_strict_reads<'a>(
    cursor: &mut StrictCursor<'a>,
    buf: &mut [u8],
    result: Result<usize, IoErrorKind>,
    next_cursor: &mut StrictCursor<'a>,
    next_buf: &mut [u8],
    next_result: Result<usize, IoErrorKind>,
)
    requires
        old(cursor).data@.len() <= u64::MAX,
        old(buf)@.len() <= usize::MAX,
        old(next_buf)@.len() <= usize::MAX,
        *old(next_cursor) == *final(cursor),
        call_ensures(StrictCursor::<'a>::read, (cursor, buf), result),
        call_ensures(StrictCursor::<'a>::read, (next_cursor, next_buf), next_result),
    ensures
        ({
            let data = old(cursor).data@;
            let start = old(cursor).position as int;
            let left = data.len() - start;
            let n = result->Ok_0;
            let m = next_result->Ok_0;
            &&& result is Ok && next_result is Ok
            &&& left <= 0 ==> n == 0
            &&& left > 0 ==> n == left && n <= old(buf)@.len() || n == old(buf)@.len() && n < left
            &&& final(cursor).data@ == data
            &&& final(cursor).position == start + n
            &&& left <= 0 ==> final(buf)@ == old(buf)@
            &&& left > 0 ==> {
                &&& final(buf)@ == data.subrange(start, start + n) + old(buf)@.skip(n as int)
                &&& data.subrange(start, start + n + m) == final(buf)@.take(n as int) + final(next_buf)@.take(m as int)
            }
        }),
{
    let data = old(cursor).data@;
    let start = old(cursor).position as int;
    let n = result->Ok_0;
    let m = next_result->Ok_0;
    if start < data.len() {
        assert(final(buf)@ =~= data.subrange(start, start + n) + old(buf)@.skip(n as int));
        assert(data.subrange(start, start + n + m) =~= final(buf)@.take(n as int) + final(next_buf)@.take(m as int));
    } else {
        assert(final(buf)@ =~= old(buf)@);
    }
}

/// What a strict cursor shows is all that follows, and marking bytes as read leaves the others.
pub proof fn lemma_strict_shows<'a>(
    cursor: &mut StrictCursor<'a>,
    shown: &'a [u8],
    amount: usize,
    left: &'a [u8],
)
    requires
        call_ensures(StrictCursor::<'a>::fill_buf, (&*old(cursor),), shown),
        call_ensures(StrictCursor::<'a>::consume, (cursor, amount), ()),
        old(cursor).position + amount <= u64::MAX,
        call_ensures(StrictCursor::<'a>::fill_buf, (&*final(cursor),), left),
    ensures
        final(cursor).position == old(cursor).position + amount,
        old(cursor).position <= old(cursor).data@.len() ==> shown@ == old(cursor).data@.skip(
            old(cursor).position as int,
        ),
        old(cursor).position > old(cursor).data@.len() ==> shown@.len() == 0,
        amount <= shown@.len() ==> left@ == shown@.skip(amount as int),
        amount > shown@.len() ==> left@.len() == 0,
{
    if amount <= shown@.len() {
        assert(left@ =~= shown@.skip(amount as int));
    }
}

/// A strict cursor begins at the start of the data, and moves to the place that a seek names. Where
/// that lies behind the data it moves there and fails; where there is no such place it fails and
/// stays.
pub proof fn lemma_strict_seeks<'a>(
    data: &'a [u8],
    first: StrictCursor<'a>,
    cursor: &mut StrictCursor<'a>,
    pos: SeekFrom,
    result: Result<u64, IoErrorKind>,
)
    requires
        call_ensures(StrictCursor::<'a>::new, (data,), first),
        call_ensures(StrictCursor::<'a>::seek, (cursor, pos), result),
    ensures
        first.data@ == data@ && first.position == 0,
        ({
            let len = old(cursor).data@.len();
            let place = match pos {
                SeekFrom::Start(offset) => offset as int,
                SeekFrom::End(offset) => len + offset,
                SeekFrom::Current(offset) => old(cursor).position + offset,
            };
            &&& final(cursor).data@ == old(cursor).data@
            &&& 0 <= place <= len && len <= u64::MAX ==> result == Ok::<_, IoErrorKind>(
                place as u64,
            ) && final(cursor).position == place
            &&& len < place <= u64::MAX ==> result == Err::<u64, _>(IoErrorKind::UnexpectedEof)
                && final(cursor).position == place
            &&& place < 0 || place > u64::MAX ==> result == Err::<u64, _>(
                IoErrorKind::InvalidInput,
            ) && final(cursor).position == old(cursor).position
        }),
{
}

/// An attempt goes on where it succeeded, is made again with one byte more where it wanted more and
/// there is one, and else stops.
pub proof fn lemma_attempts(
    result: Result<(), ImageError>,
    available: usize,
    len: usize,
    next: NextAttempt,
)
    requires
        call_ensures(fuzzing::after_attempt, (result, available, len), next),
    ensures
        result is Ok <==> next == NextAttempt::Proceed,
        next is Retry <==> available < len && result == Err::<(), _>(
            ImageError::IoError(IoErrorKind::UnexpectedEof),
        ),
        next matches NextAttempt::Retry(more) ==> more == available + 1,
{
}

/// Two results agree just where both failed or both gave the same bytes, and which comes first does
/// not matter.
pub proof fn lemma_comparison(
    first: &Result<Vec<u8>, ImageError>,
    second: &Result<Vec<u8>, ImageError>,
    verdict: Verdict,
    swapped: Verdict,
)
    requires
        call_ensures(fuzzing::compare_results, (first, second), verdict),
        call_ensures(fuzzing::compare_results, (second, first), swapped),
    ensures
        verdict == swapped,
        verdict == Verdict::DifferentOutcomes <==> (*first is Ok) != (*second is Ok),
        *first is Err && *second is Err ==> verdict == Verdict::Agree,
        *first is Ok && *second is Ok ==> (verdict == Verdict::Agree <==> first->Ok_0@
            == second->Ok_0@),
        *first is Ok && *second is Ok ==> (verdict == Verdict::DifferentImages <==> first->Ok_0@
            != second->Ok_0@),
{
}

/// A larger image is not within a limit that a smaller one exceeds, and every image is where there
/// is no limit; a buffer for an image is as long as the image and zero, up to a hundred million
/// bytes.
pub proof fn lemma_limits(
    total: u64,
    limit: u64,
    within: bool,
    unlimited: bool,
    buffer: Result<Vec<u8>, ImageError>,
)
    requires
        call_ensures(fuzzing::within_limit, (total, Some(limit)), within),
        call_ensures(fuzzing::within_limit, (total, None::<u64>), unlimited),
        call_ensures(fuzzing::output_buffer, (total,), buffer),
    ensures
        within <==> total <= limit,
        unlimited,
        buffer is Ok <==> total <= 100_000_000,
        buffer matches Ok(bytes) ==> bytes@.len() == total && forall|i: int|
            0 <= i < total ==> bytes@[i] == 0,
        buffer matches Err(error) ==> error == ImageError::Limits(
            LimitErrorKind::InsufficientMemory,
        ),
{
}

/// An early end of the data is what a reader reports as such, and nothing else.
pub proof fn lemma_early_end(error: &ImageError, is: bool)
    requires
        call_ensures(fuzzing::is_unexpected_eof, (error,), is),
    ensures
        is <==> *error == ImageError::IoError(IoErrorKind::UnexpectedEof),
{
}

/// Turning whole rows upside down and mirroring them moves the pixel in column `x` and row `y` to
/// the opposite row and to the opposite column.
pub proof fn lemma_rows_and_columns(
    flipped: &mut [u8],
    flopped: &mut [u8],
    width: usize,
    height: usize,
    bpp: usize,
    stride: usize,
    x: int,
    y: int,
    b: int,
)
    requires
        bpp > 0,
        stride == width * bpp,
        old(flipped)@.len() == height * stride,
        old(flopped)@.len() == height * stride,
        0 <= x < width,
        0 <= y < height,
        0 <= b < bpp,
        call_ensures(orientation::flip_rows, (flipped, stride, height), ()),
        call_ensures(orientation::flop_rows, (flopped, width, bpp), ()),
    ensures
        final(flipped)@[y * stride + x * bpp + b] == old(flipped)@[(height - 1 - y) * stride + x
            * bpp + b],
        final(flopped)@[y * stride + x * bpp + b] == old(flopped)@[y * stride + (width - 1 - x)
            * bpp + b],
{
    let c = x * bpp + b;
    orientation::lemma_pixel_at(width as int, height as int, bpp as int, x, y, b);
    assert((y * width + x) * bpp == y * stride + x * bpp) by (nonlinear_arith)
        requires
            stride == width * bpp,
    ;
    assert(height as int / 2 * stride <= height * stride && (y + 1) * stride <= height * stride)
        by (nonlinear_arith)
        requires
            stride >= 0,
            y + 1 <= height,
            height >= 0,
    ;
    orientation::lemma_in_block(height as int, stride as int, 0);
    orientation::lemma_rows_exchange(old(flipped)@, stride as int, height as int, y, c);
    orientation::lemma_pixels_exchange(old(flopped)@, width as int, bpp as int, y, x, b);
}

/// Putting pixels into order moves the pixel that is stored in a column and a row, counted from the
/// corner that the descriptor names, to that column and row from the top left corner.
pub proof fn lemma_order_is_fixed<R>(
    decoder: &TgaDecoder<R>,
    pixels: &mut [u8],
    bpp: usize,
    x: int,
    y: int,
    b: int,
)
    requires
        bpp > 0,
        old(pixels)@.len() == decoder.width * decoder.height * bpp,
        0 <= x < decoder.width,
        0 <= y < decoder.height,
        0 <= b < bpp,
        call_ensures(TgaDecoder::<R>::fixup_orientation, (decoder, pixels, bpp), ()),
    ensures
        ({
            let desc = decoder.header.image_desc;
            let from_x = if desc & 0x10 != 0 {
                decoder.width - 1 - x
            } else {
                x
            };
            let from_y = if desc & 0x20 == 0 {
                decoder.height - 1 - y
            } else {
                y
            };
            final(pixels)@[(y * decoder.width + x) * bpp + b] == old(pixels)@[(from_y
                * decoder.width + from_x) * bpp + b]
        }),
{
    orientation::lemma_pixel_moves(
        old(pixels)@,
        decoder.header.image_desc,
        decoder.width as int,
        decoder.height as int,
        bpp as int,
        x,
        y,
        b,
    );
}

/// Reversing the encoding exchanges the first and the third byte of every pixel of a color image,
/// moves nothing else, and leaves gray images alone.
pub proof fn lemma_encoding_is_reversed<R>(
    decoder: &TgaDecoder<R>,
    pixels: &mut [u8],
    pixel: int,
    channel: int,
)
    requires
        call_ensures(TgaDecoder::<R>::reverse_encoding_in_output, (decoder, pixels), ()),
        0 <= pixel,
        0 <= channel < decoder.color_type.channels(),
        pixel * decoder.color_type.channels() + channel < old(pixels)@.len(),
    ensures
        ({
            let start = pixel * decoder.color_type.channels();
            let rgb = decoder.color_type == ColorType::Rgb8 || decoder.color_type
                == ColorType::Rgba8;
            &&& final(pixels)@.len() == old(pixels)@.len()
            &&& final(pixels)@[start + channel] == old(pixels)@[start + if rgb && channel <= 2 {
                2 - channel
            } else {
                channel
            }]
        }),
{
    files::lemma_channel_order(*decoder, old(pixels)@, pixel, channel);
}

/// A raw pixel is expanded to its color: to the one with its number where there is a color map, or
/// not at all where the map has none, and to itself where there is no map.
pub proof fn lemma_pixel_is_expanded(
    e: &PixelExpander,
    before: Seq<u8>,
    colors: Seq<Seq<u8>>,
    rest: Seq<u8>,
    index: nat,
    raw: &[u8],
    out: &mut [u8],
    result: Result<(), DecodingError>,
)
    requires
        e.fits(),
        raw@.len() == e.raw_bytes_per_pixel,
        old(out)@.len() == e.output_bytes_per_pixel,
        e.color_map matches Some(map) ==> {
            &&& index < if e.raw_bytes_per_pixel == 1 { 256nat } else { 65536nat }
            &&& raw@ == color_map::index_pixel(index, e.raw_bytes_per_pixel as nat)
            &&& color_map::all_of_len(colors, map.entry_size as nat)
            &&& before.len() == map.start_offset
            &&& rest.len() < map.entry_size
            &&& map.bytes@ == before + color_map::joined(colors) + rest
        },
        call_ensures(PixelExpander::expand_pixel, (e, raw, out), result),
    ensures
        e.color_map is None ==> result is Ok && final(out)@ == raw@,
        e.color_map is Some && index < colors.len() ==> result is Ok && final(out)@
            == colors[index as int],
        e.color_map is Some && index >= colors.len() ==> final(out)@ == old(out)@ && result == Err::<
            (),
            _,
        >(DecodingError::InvalidColorMapIndex),
{
    color_map::lemma_color_of_pixel(*e, before, colors, rest, index, raw@);
}

/// Indices are expanded into the places of their pixels, as far as there are both, up to the first
/// that has no color; behind that the output stays as it is.
pub proof fn lemma_indices_are_expanded<R>(
    decoder: &TgaDecoder<R>,
    input: &[u8],
    output: &mut [u8],
    map: &ColorMap,
    result: Result<(), ImageError>,
    i: int,
    b: int,
)
    requires
        decoder.raw_bytes_per_pixel == 1 || decoder.raw_bytes_per_pixel == 2,
        map.wf(),
        0 <= i,
        0 <= b < map.entry_size,
        (i + 1) * decoder.raw_bytes_per_pixel <= input@.len(),
        (i + 1) * map.entry_size <= old(output)@.len(),
        call_ensures(TgaDecoder::<R>::expand_color_map, (decoder, input, output, map), result),
    ensures
        ({
            let size = decoder.raw_bytes_per_pixel as int;
            let index = files::index_of(input@.subrange(i * size, (i + 1) * size));
            let start = map.start_offset + map.entry_size * index;
            &&& final(output)@.len() == old(output)@.len()
            &&& result is Ok ==> {
                &&& start + map.entry_size <= map.bytes@.len()
                &&& final(output)@[i * map.entry_size + b] == map.bytes@[start + b]
            }
            &&& result is Err ==> result == Err::<(), _>(
                ImageError::Decoding(DecodingError::InvalidColorMapIndex),
            )
        }),
{
    let size = decoder.raw_bytes_per_pixel as int;
    let e = PixelExpander {
        raw_bytes_per_pixel: decoder.raw_bytes_per_pixel,
        output_bytes_per_pixel: map.entry_size,
        color_map: Some(map),
    };
    let n = e.pixel_pairs(input@.len(), old(output)@.len());
    e.lemma_pixel_pairs(input@.len(), old(output)@.len(), n);
    e.lemma_pixel_pairs(input@.len(), old(output)@.len(), (i + 1) as nat);
    color_map::lemma_painted(e, input@, n, old(output)@, i, b);
    assert(i * size + size == (i + 1) * size && 0 <= i * size) by (nonlinear_arith)
        requires
            0 <= i,
            size >= 1,
    ;
    let pixel = input@.subrange(i * size, (i + 1) * size);
    color_map::lemma_little_endian(pixel);
    assert(e.color(pixel) == map.entry(files::index_of(pixel)));
    assert(map.entry_size * files::index_of(pixel) >= 0) by (nonlinear_arith)
        requires
            files::index_of(pixel) >= 0,
    ;
}

/// What a header is checked for before the rest of the file is read.
pub proof fn lemma_header_is_checked(
    h: &Header,
    result: Result<(), ImageError>,
    map_len: Result<usize, ImageError>,
)
    requires
        call_ensures(decoder::check_header, (h,), result),
        call_ensures(decoder::color_map_len, (h,), map_len),
    ensures
        ({
            let alpha = h.image_desc & 0x0f;
            let mapped = h.image_type == 1 || h.image_type == 9;
            &&& result is Ok <==> (h.pixel_depth == 8 || h.pixel_depth == 16 || h.pixel_depth == 24
                || h.pixel_depth == 32) && (alpha == 0 || alpha == 8) && (mapped ==> h.map_type == 1
                && h.pixel_depth <= 16 && h.pixel_depth <= h.map_entry_size)
            &&& map_len is Err <==> h.map_type == 1 && !(8 < h.map_entry_size <= 32)
            &&& map_len matches Ok(len) ==> len == if h.map_type == 1 {
                (h.map_entry_size + 7) / 8 * h.map_length
            } else {
                0
            }
            &&& map_len matches Err(error) ==> error == ImageError::Unsupported(
                UnsupportedErrorKind::ColorMapEntrySize,
            )
        }),
{
    files::lemma_header_check(*h);
    files::lemma_color_map_size(*h, (h.map_entry_size + 7) / 8);
}

/// Codes stand for image types: 9 to 11 for those that are run-length encoded, 1 and 9 for those
/// that use a color map, and these, 2 and 10 for those that have colors.
pub proof fn lemma_image_type_is_known(
    code: u8,
    kind: ImageType,
    color: bool,
    mapped: bool,
    encoded: bool,
)
    requires
        call_ensures(ImageType::new, (code,), kind),
        call_ensures(ImageType::is_color, (kind,), color),
        call_ensures(ImageType::is_color_mapped, (kind,), mapped),
        call_ensures(ImageType::is_encoded, (kind,), encoded),
    ensures
        color <==> files::colored_type(code),
        mapped <==> code == 1 || code == 9,
        encoded <==> 9 <= code <= 11,
{
    header::lemma_image_types(code);
}

/// A stream begins with nothing written and wants a first byte. It plans to stop at the end of the
/// reader, to decode what the reader shows where that is as much as it wants, and else to read just
/// as much as it wants.
pub proof fn lemma_stream_plans(
    first: RleStream,
    stream: &RleStream,
    available: usize,
    image_len: usize,
    plan: Result<FillPlan, DecodingError>,
)
    requires
        call_ensures(RleStream::new, (), first),
        call_ensures(RleStream::plan, (stream, available, image_len), plan),
    ensures
        first.filled == 0 && first.min_wanted == 1,
        plan == if available == 0 && stream.filled == image_len {
            Ok(FillPlan::Finished)
        } else if available == 0 {
            Err(DecodingError::UnexpectedEof)
        } else if available >= stream.min_wanted {
            Ok(FillPlan::Decode)
        } else {
            Ok(FillPlan::ReadExact(stream.min_wanted))
        },
{
}

/// A boxed decoder reads what the decoder in the box reads.
pub proof fn lemma_boxed_reads_alike<'a>(
    decoder: TgaDecoder<&'a [u8]>,
    boxed: Box<TgaDecoder<&'a [u8]>>,
    buf: &mut [u8],
    result: Result<(), ImageError>,
    boxed_buf: &mut [u8],
    boxed_result: Result<(), ImageError>,
)
    requires
        *boxed == decoder,
        old(buf)@ == old(boxed_buf)@,
        call_ensures(TgaDecoder::<&'a [u8]>::read_image, (decoder, buf), result),
        call_ensures(
            TgaDecoder::<&'a [u8]>::read_image_boxed,
            (boxed, boxed_buf),
            boxed_result,
        ),
        result != Err::<(), _>(ImageError::Limits(LimitErrorKind::InsufficientMemory)),
        boxed_result != Err::<(), _>(ImageError::Limits(LimitErrorKind::InsufficientMemory)),
    ensures
        result == boxed_result,
        final(buf)@ == final(boxed_buf)@,
{
}

} // verus!
