//! The decoder for TGA images.

use vstd::prelude::*;

use crate::color::{ColorType, ExtendedColorType};
use crate::color_map::{self, ColorMap, PixelExpander};
use crate::error::{DecodingError, ImageError, IoErrorKind, LimitErrorKind, UnsupportedErrorKind};
use crate::header::{Header, ImageType, HEADER_SIZE};
use crate::orientation::{self, flip_rows, flop_rows, TgaOrientation};
use crate::rle;
use crate::stream::{self, decode_rle};

verus! {

/// The representation of a TGA decoder.
pub struct TgaDecoder<R> {
    /// Where the pixels are read from.
    pub r: R,
    pub width: usize,
    pub height: usize,
    /// The number of bytes in the raw input data for each pixel. If a color map is used, this
    /// is the number of bytes for each color map index.
    pub raw_bytes_per_pixel: usize,
    pub image_type: ImageType,
    pub color_type: ColorType,
    /// What the pixels were before they were decoded, where `color_type` does not say it.
    pub original_color_type: Option<ExtendedColorType>,
    pub header: Header,
    /// The colors of a color mapped image.
    pub color_map: Option<ColorMap>,
}

/// The error for pixels that have as many bits as the header says, and no known layout.
pub open spec fn unknown_color(header: Header) -> ImageError {
    ImageError::Unsupported(
        UnsupportedErrorKind::Color(ExtendedColorType::Unknown(header.pixel_depth)),
    )
}

/// Whether the fields of a header that are known before the color map is read make sense.
pub open spec fn header_check(header: Header) -> Result<(), ImageError> {
    let depth = header.pixel_depth;
    let alpha = header.alpha_bits();
    if !(depth == 8 || depth == 16 || depth == 24 || depth == 32) || !(alpha == 0 || alpha == 8) {
        Err(unknown_color(header))
    } else if header.kind().has_color_map() && header.map_type != 1 {
        Err(ImageError::Decoding(DecodingError::ColorMapType))
    } else if header.kind().has_color_map() && depth > 16 {
        Err(ImageError::Decoding(DecodingError::ColorMapIndexSize))
    } else if header.kind().has_color_map() && depth > header.map_entry_size {
        Err(ImageError::Unsupported(UnsupportedErrorKind::IndicesLargerThanPixels))
    } else {
        Ok(())
    }
}

/// The number of bytes that the color map takes in the file.
pub open spec fn color_map_size(header: Header) -> Result<int, ImageError> {
    if header.map_type != 1 {
        Ok(0)
    } else if header.map_entry_bytes() < 2 || header.map_entry_bytes() > 4 {
        Err(ImageError::Unsupported(UnsupportedErrorKind::ColorMapEntrySize))
    } else {
        Ok(header.map_entry_bytes() * header.map_length)
    }
}

/// The number of bits of a pixel once it is decoded.
pub open spec fn total_pixel_bits(header: Header) -> int {
    if header.map_type == 1 {
        header.map_entry_size as int
    } else {
        header.pixel_depth as int
    }
}

/// The layout of decoded pixels, and what they were before where that differs.
pub open spec fn color_layout(header: Header) -> Result<
    (ColorType, Option<ExtendedColorType>),
    ImageError,
> {
    let alpha = header.alpha_bits();
    let other = total_pixel_bits(header) - alpha;
    if other < 0 {
        Err(ImageError::Decoding(DecodingError::TooManyAlphaBits))
    } else if header.kind().has_color() {
        if other + alpha == 32 && (alpha == 0 || alpha == 8) {
            Ok((ColorType::Rgba8, None))
        } else if other == 24 && alpha == 0 {
            Ok((ColorType::Rgb8, None))
        } else {
            Err(unknown_color(header))
        }
    } else {
        if other == 8 && alpha == 8 {
            Ok((ColorType::La8, None))
        } else if other == 8 && alpha == 0 {
            Ok((ColorType::L8, None))
        } else if other == 0 && alpha == 8 {
            Ok((ColorType::L8, Some(ExtendedColorType::A8)))
        } else {
            Err(unknown_color(header))
        }
    }
}

/// Checks the fields of a header that are known before the color map is read.
pub fn check_header(header: &Header) -> (result: Result<(), ImageError>)
    ensures
        result == header_check(*header),
{
    let depth = header.pixel_depth;
    let alpha = header.num_alpha_bits();
    let image_type = ImageType::new(header.image_type);
    if !(depth == 8 || depth == 16 || depth == 24 || depth == 32) || !(alpha == 0 || alpha == 8) {
        return Err(
            ImageError::Unsupported(UnsupportedErrorKind::Color(ExtendedColorType::Unknown(depth))),
        );
    }
    if image_type.is_color_mapped() {
        if header.map_type != 1 {
            return Err(ImageError::Decoding(DecodingError::ColorMapType));
        } else if !(depth == 8 || depth == 16) {
            return Err(ImageError::Decoding(DecodingError::ColorMapIndexSize));
        } else if depth > header.map_entry_size {
            return Err(ImageError::Unsupported(UnsupportedErrorKind::IndicesLargerThanPixels));
        }
    }
    Ok(())
}

/// Computes how many bytes the color map takes in the file.
pub fn color_map_len(header: &Header) -> (result: Result<usize, ImageError>)
    ensures
        match result {
            Ok(len) => color_map_size(*header) == Ok::<int, ImageError>(len as int),
            Err(error) => color_map_size(*header) == Err::<int, ImageError>(error),
        },
{
    if header.map_type != 1 {
        return Ok(0);
    }
    let entry_size: usize = (header.map_entry_size as usize + 7) / 8;
    if !(entry_size == 2 || entry_size == 3 || entry_size == 4) {
        return Err(ImageError::Unsupported(UnsupportedErrorKind::ColorMapEntrySize));
    }
    let entries: usize = header.map_length as usize;
    assert(entry_size * entries <= 4 * 65535) by (nonlinear_arith)
        requires
            entry_size <= 4,
            entries <= 65535,
    ;
    Ok(entry_size * entries)
}

/// Determines the layout of decoded pixels.
pub fn choose_color_type(header: &Header) -> (result: Result<
    (ColorType, Option<ExtendedColorType>),
    ImageError,
>)
    ensures
        result == color_layout(*header),
{
    let alpha = header.num_alpha_bits();
    let total = if header.map_type == 1 {
        header.map_entry_size
    } else {
        header.pixel_depth
    };
    let other = match total.checked_sub(alpha) {
        Some(other) => other,
        None => return Err(ImageError::Decoding(DecodingError::TooManyAlphaBits)),
    };
    match (alpha, other, ImageType::new(header.image_type).is_color()) {
        // Colors are stored as BGR and BGRA; `reverse_encoding_in_output` sets that right.
        (0, 32, true) => Ok((ColorType::Rgba8, None)),
        (8, 24, true) => Ok((ColorType::Rgba8, None)),
        (0, 24, true) => Ok((ColorType::Rgb8, None)),
        (8, 8, false) => Ok((ColorType::La8, None)),
        (0, 8, false) => Ok((ColorType::L8, None)),
        // An image of alpha alone is treated as shades of gray.
        (8, 0, false) => Ok((ColorType::L8, Some(ExtendedColorType::A8))),
        _ => Err(
            ImageError::Unsupported(
                UnsupportedErrorKind::Color(ExtendedColorType::Unknown(header.pixel_depth)),
            ),
        ),
    }
}

/// The pixels `s` with the first and the third byte of every pixel of `size` bytes in each
/// other's place.
pub open spec fn red_blue_swapped(s: Seq<u8>, size: int) -> Seq<u8> {
    Seq::new(
        s.len(),
        |k: int|
            if k % size == 0 {
                s[k + 2]
            } else if k % size == 2 {
                s[k - 2]
            } else {
                s[k]
            },
    )
}

impl<R> TgaDecoder<R> {
    /// What holds of every decoder: the fields are within what a header can name, there is a
    /// color map just where the image type asks for one, its entries are pixels of the
    /// output, and indices take no more space than the colors that they stand for.
    pub open spec fn wf(&self) -> bool {
        &&& self.width <= u16::MAX
        &&& self.height <= u16::MAX
        &&& 1 <= self.raw_bytes_per_pixel <= 4
        &&& self.image_type.has_color_map() <==> self.color_map is Some
        &&& self.color_map matches Some(map) ==> {
            &&& map.wf()
            &&& map.entry_size == self.color_type.channels()
            &&& self.raw_bytes_per_pixel <= 2
            &&& self.raw_bytes_per_pixel <= map.entry_size
        }
    }

    /// The decoder is the one for this header, and has its color map from these bytes.
    pub open spec fn describes(&self, header: Header, map_bytes: Seq<u8>) -> bool {
        &&& self.header == header
        &&& self.width == header.image_width
        &&& self.height == header.image_height
        &&& self.raw_bytes_per_pixel == header.raw_bytes()
        &&& self.image_type == header.kind()
        &&& color_layout(header) == Ok::<_, ImageError>((self.color_type, self.original_color_type))
        &&& match self.color_map {
            Some(map) => {
                &&& header.kind().has_color_map()
                &&& map.start_offset == header.map_origin
                &&& map.entry_size == header.map_entry_bytes()
                &&& map.bytes@ == map_bytes
            },
            None => !header.kind().has_color_map(),
        }
    }

    /// How raw pixels become pixels of the output.
    pub open spec fn expander(&self) -> PixelExpander<'_> {
        PixelExpander {
            raw_bytes_per_pixel: self.raw_bytes_per_pixel,
            output_bytes_per_pixel: self.color_type.channels() as usize,
            color_map: match &self.color_map {
                Some(map) => Some(map),
                None => None,
            },
        }
    }

    /// The number of pixels.
    pub open spec fn pixels(&self) -> int {
        self.width * self.height
    }

    /// The number of bytes of the decoded image.
    pub open spec fn image_len(&self) -> int {
        self.pixels() * self.color_type.channels()
    }

    /// The number of bytes of the pixels as they are stored without encoding.
    pub open spec fn raw_len(&self) -> int {
        self.pixels() * self.raw_bytes_per_pixel
    }

    /// Pixels that are stored without encoding fit into the decoded image.
    pub open spec fn raw_fits(&self) -> bool {
        self.pixels() == 0 || self.raw_bytes_per_pixel <= self.color_type.channels()
    }

    /// Rows that are to be put in reverse order are not empty.
    pub open spec fn rows_fit(&self) -> bool {
        TgaOrientation::described_by(self.header.image_desc).is_bottom() && self.height > 1
            ==> self.width > 0
    }

    /// The pixels `s` with their channels in the order red, green, blue, alpha.
    pub open spec fn in_rgb_order(&self, s: Seq<u8>) -> Seq<u8> {
        if self.color_type.is_rgb() {
            red_blue_swapped(s, self.color_type.channels() as int)
        } else {
            s
        }
    }

    /// The pixels `s` of `bpp` bytes from the top left corner on.
    pub open spec fn in_reading_order(&self, s: Seq<u8>, bpp: int) -> Seq<u8> {
        orientation::oriented(
            s,
            self.header.image_desc,
            self.width as int,
            self.height as int,
            bpp,
        )
    }

    /// The image whose decoded packets are `image`.
    pub open spec fn finished_encoded(&self, image: Seq<u8>) -> Seq<u8> {
        self.in_rgb_order(self.in_reading_order(image, self.color_type.channels() as int))
    }

    /// What is in a buffer, whose front holds the stored pixels, once they are in order.
    pub open spec fn ordered_raw(&self, buf: Seq<u8>) -> Seq<u8> {
        self.in_reading_order(buf.take(self.raw_len()), self.raw_bytes_per_pixel as int)
            + buf.skip(self.raw_len())
    }

    /// What becomes of a buffer whose front holds the stored pixels.
    pub open spec fn finished_raw(&self, buf: Seq<u8>) -> (Result<(), ImageError>, Seq<u8>) {
        let ordered = self.ordered_raw(buf);
        if self.color_map is None {
            (Ok(()), self.in_rgb_order(ordered))
        } else {
            let raw = ordered.take(self.raw_len());
            let n = self.pixels() as nat;
            let painted = self.expander().painted(raw, n, ordered);
            if self.expander().colored(raw, n) == n {
                (Ok(()), self.in_rgb_order(painted))
            } else {
                (Err(ImageError::Decoding(DecodingError::InvalidColorMapIndex)), painted)
            }
        }
    }

    /// What becomes of a buffer when the image is read from `data`.
    pub open spec fn decoded(&self, data: Seq<u8>, buf: Seq<u8>) -> (
        Result<(), ImageError>,
        Seq<u8>,
    ) {
        if self.image_type.has_packets() {
            let outcome = rle::decode_packets(self.expander(), data, buf.len());
            let image = outcome.written + buf.skip(outcome.written.len() as int);
            match stream::final_answer(outcome, buf.len()) {
                Ok(()) => (Ok(()), self.finished_encoded(image)),
                Err(error) => (Err(error), image),
            }
        } else if data.len() < self.raw_len() {
            (Err(ImageError::IoError(IoErrorKind::UnexpectedEof)), buf)
        } else {
            self.finished_raw(data.take(self.raw_len()) + buf.skip(self.raw_len()))
        }
    }

    /// Makes a decoder from a header that was checked and from the bytes of its color map.
    pub fn from_parts(r: R, header: Header, map_bytes: Vec<u8>) -> (result: Result<
        TgaDecoder<R>,
        ImageError,
    >)
        requires
            header_check(header) is Ok,
            color_map_size(header) == Ok::<int, ImageError>(map_bytes@.len() as int),
        ensures
            match result {
                Ok(decoder) => {
                    &&& decoder.r == r
                    &&& decoder.describes(header, map_bytes@)
                    &&& decoder.wf()
                },
                Err(error) => color_layout(header) == Err::<
                    (ColorType, Option<ExtendedColorType>),
                    _,
                >(error),
            },
    {
        let image_type = ImageType::new(header.image_type);
        let color_map = if image_type.is_color_mapped() {
            // A color map that the image does not use is not kept.
            Some(
                ColorMap {
                    start_offset: header.map_origin as usize,
                    entry_size: (header.map_entry_size as usize + 7) / 8,
                    bytes: map_bytes,
                },
            )
        } else {
            None
        };
        match choose_color_type(&header) {
            Ok((color_type, original_color_type)) => Ok(
                TgaDecoder {
                    r,
                    width: header.image_width as usize,
                    height: header.image_height as usize,
                    raw_bytes_per_pixel: (header.pixel_depth as usize + 7) / 8,
                    image_type,
                    color_type,
                    original_color_type,
                    header,
                    color_map,
                },
            ),
            Err(error) => Err(error),
        }
    }

    /// Expands indices into the colors that they stand for, as many as fit.
    pub fn expand_color_map(
        &self,
        input: &[u8],
        output: &mut [u8],
        color_map: &ColorMap,
    ) -> (result: Result<(), ImageError>)
        requires
            self.raw_bytes_per_pixel == 1 || self.raw_bytes_per_pixel == 2,
            color_map.wf(),
        ensures
            final(output)@.len() == old(output)@.len(),
            ({
                let e = PixelExpander {
                    raw_bytes_per_pixel: self.raw_bytes_per_pixel,
                    output_bytes_per_pixel: color_map.entry_size,
                    color_map: Some(color_map),
                };
                let n = e.pixel_pairs(input@.len(), old(output)@.len());
                &&& final(output)@ == e.painted(input@, n, old(output)@)
                &&& result == if e.colored(input@, n) == n {
                    Ok(())
                } else {
                    Err(ImageError::Decoding(DecodingError::InvalidColorMapIndex))
                }
            }),
    {
        let expander = PixelExpander {
            raw_bytes_per_pixel: self.raw_bytes_per_pixel,
            output_bytes_per_pixel: color_map.entry_size,
            color_map: Some(color_map),
        };
        match expander.expand_pixels(input, output) {
            Ok(()) => Ok(()),
            Err(error) => Err(ImageError::Decoding(error)),
        }
    }

    /// Reverses from BGR encoding to RGB encoding.
    ///
    /// TGA files are stored in the BGRA encoding. This function swaps the blue and red bytes
    /// of the pixels of a color image.
    pub fn reverse_encoding_in_output(&self, pixels: &mut [u8])
        requires
            self.color_type.is_rgb() ==> {
                let rest = old(pixels)@.len() as int % self.color_type.channels() as int;
                rest == 0 || rest == 3
            },
        ensures
            final(pixels)@ == self.in_rgb_order(old(pixels)@),
    {
        if !(self.color_type == ColorType::Rgb8 || self.color_type == ColorType::Rgba8) {
            return ;
        }
        let size: usize = self.color_type.bytes_per_pixel() as usize;
        let ghost before = pixels@;
        let ghost mut b: int = 0;
        let mut start: usize = 0;
        while start < pixels.len()
            invariant
                3 <= size <= 4,
                pixels.len() == before.len(),
                before.len() as int % size as int == 0 || before.len() as int % size as int == 3,
                start == b * size || start == before.len(),
                start <= before.len(),
                b >= 0,
                forall|k: int|
                    0 <= k < start ==> pixels@[k] == red_blue_swapped(before, size as int)[k],
                forall|k: int| start <= k < before.len() ==> pixels@[k] == before[k],
            decreases before.len() - start,
        {
            let rest = pixels.len() - start;
            let ghost next: int = if rest < size {
                before.len() as int
            } else {
                start + size
            };
            proof {
                assert((b + 1) * size == b * size + size) by (nonlinear_arith);
                orientation::lemma_block(before.len() as int, size as int, b);
                assert(rest >= 3);
            }
            let blue = pixels[start];
            let red = pixels[start + 2];
            pixels[start] = red;
            pixels[start + 2] = blue;
            assert forall|k: int| start <= k < next implies pixels@[k] == red_blue_swapped(
                before,
                size as int,
            )[k] by {
                orientation::lemma_block(k, size as int, b);
            }
            if rest < size {
                start = pixels.len();
            } else {
                start = start + size;
            }
            proof {
                b = b + 1;
            }
        }
        assert(pixels@ =~= red_blue_swapped(before, size as int));
    }

    /// Puts pixels into the order from left to right and from top to bottom.
    pub fn fixup_orientation(&self, pixels: &mut [u8], bpp: usize)
        requires
            ({
                let orientation = TgaOrientation::described_by(self.header.image_desc);
                let stride = self.width * bpp;
                &&& orientation.is_bottom() && self.height > 1 ==> {
                    &&& 0 < stride <= usize::MAX
                    &&& self.height as int / 2 * stride <= old(pixels)@.len()
                }
                &&& orientation.is_right() && self.width > 1 ==> 0 < stride <= usize::MAX
            }),
        ensures
            final(pixels)@ == self.in_reading_order(old(pixels)@, bpp as int),
    {
        let orientation = TgaOrientation::from_image_desc_byte(self.header.image_desc);
        if (orientation == TgaOrientation::BottomLeft || orientation
            == TgaOrientation::BottomRight) && self.height > 1 {
            flip_rows(pixels, self.width * bpp, self.height);
        }
        if (orientation == TgaOrientation::BottomRight || orientation == TgaOrientation::TopRight)
            && self.width > 1 {
            assert(bpp > 0) by (nonlinear_arith)
                requires
                    0 < self.width * bpp,
                    bpp >= 0,
            ;
            flop_rows(pixels, self.width, bpp);
        }
    }

    /// The width and the height of the image in pixels.
    pub fn dimensions(&self) -> (dimensions: (u32, u32))
        requires
            self.wf(),
        ensures
            dimensions.0 == self.width,
            dimensions.1 == self.height,
    {
        (self.width as u32, self.height as u32)
    }

    /// The layout of decoded pixels.
    pub fn color_type(&self) -> (color_type: ColorType)
        ensures
            color_type == self.color_type,
    {
        self.color_type
    }

    /// The layout of pixels before they are decoded.
    pub fn original_color_type(&self) -> (color_type: ExtendedColorType)
        ensures
            color_type == match self.original_color_type {
                Some(original) => original,
                None => self.color_type.extended(),
            },
    {
        match self.original_color_type {
            Some(original) => original,
            None => ExtendedColorType::from(self.color_type()),
        }
    }

    /// The number of bytes of the decoded image.
    pub fn total_bytes(&self) -> (bytes: u64)
        requires
            self.wf(),
        ensures
            bytes == self.image_len(),
    {
        let bpp: u64 = self.color_type.bytes_per_pixel() as u64;
        let width: u64 = self.width as u64;
        let height: u64 = self.height as u64;
        assert(width * height <= 65535 * 65535) by (nonlinear_arith)
            requires
                width <= 65535,
                height <= 65535,
        ;
        assert(width * height * bpp <= 65535 * 65535 * 4) by (nonlinear_arith)
            requires
                width * height <= 65535 * 65535,
                bpp <= 4,
        ;
        width * height * bpp
    }

    /// The number of bytes of the pixels as they are stored without encoding.
    pub fn stored_len(&self) -> (len: usize)
        requires
            self.wf(),
            self.raw_len() <= usize::MAX,
        ensures
            len == self.raw_len(),
    {
        proof {
            self.lemma_sizes();
        }
        self.width * self.height * self.raw_bytes_per_pixel
    }

    /// Checks that pixels which are stored without encoding fit into the decoded image.
    pub fn stored_pixels_fit(&self) -> (fit: bool)
        ensures
            fit == self.raw_fits(),
    {
        assert(self.pixels() == 0 <==> self.width == 0 || self.height == 0) by (nonlinear_arith)
            requires
                self.pixels() == self.width * self.height,
        ;
        self.width == 0 || self.height == 0 || self.raw_bytes_per_pixel
            <= self.color_type.bytes_per_pixel() as usize
    }

    /// Checks that rows which are to be put in reverse order are not empty.
    pub fn reversed_rows_fit(&self) -> (fit: bool)
        ensures
            fit == self.rows_fit(),
    {
        let orientation = TgaOrientation::from_image_desc_byte(self.header.image_desc);
        let bottom = orientation == TgaOrientation::BottomLeft || orientation
            == TgaOrientation::BottomRight;
        !bottom || self.height <= 1 || self.width > 0
    }

    /// How raw pixels become pixels of the output.
    pub fn pixel_expander(&self) -> (expander: PixelExpander<'_>)
        ensures
            expander == self.expander(),
    {
        PixelExpander {
            raw_bytes_per_pixel: self.raw_bytes_per_pixel,
            output_bytes_per_pixel: self.color_type.bytes_per_pixel() as usize,
            color_map: self.color_map.as_ref(),
        }
    }

    /// How the sizes of an image bound each other.
    proof fn lemma_sizes(&self)
        requires
            self.wf(),
        ensures
            self.pixels() >= 0,
            self.pixels() <= self.raw_len(),
            self.pixels() <= self.image_len(),
            self.raw_fits() ==> self.raw_len() <= self.image_len(),
            self.height as int / 2 * (self.width * self.raw_bytes_per_pixel) <= self.raw_len(),
            self.height as int / 2 * (self.width * self.color_type.channels())
                <= self.image_len(),
            0 <= self.width * self.raw_bytes_per_pixel <= 4 * u16::MAX,
            0 <= self.width * self.color_type.channels() <= 4 * u16::MAX,
            self.width > 0 ==> 0 < self.width * self.raw_bytes_per_pixel,
            self.width > 0 ==> 0 < self.width * self.color_type.channels(),
            self.image_len() % self.color_type.channels() as int == 0,
    {
        let w = self.width as int;
        let h = self.height as int;
        let raw = self.raw_bytes_per_pixel as int;
        let out = self.color_type.channels() as int;
        lemma_half_image(w, h, raw);
        lemma_half_image(w, h, out);
        if w * h > 0 && raw <= out {
            assert(w * h * raw <= w * h * out) by (nonlinear_arith)
                requires
                    w * h > 0,
                    raw <= out,
            ;
        }
        vstd::arithmetic::div_mod::lemma_mod_multiples_basic(w * h, out);
    }

    /// Completes an image whose packets are decoded.
    pub fn finish_encoded(&self, buf: &mut [u8])
        requires
            self.wf(),
            self.rows_fit(),
            old(buf)@.len() == self.image_len(),
        ensures
            final(buf)@ == self.finished_encoded(old(buf)@),
    {
        proof {
            self.lemma_sizes();
        }
        self.fixup_orientation(buf, self.color_type.bytes_per_pixel() as usize);
        self.reverse_encoding_in_output(buf);
    }

    /// Completes an image whose stored pixels are at the front of `buf`. Where they are
    /// indices, `reserved` is the memory for a copy of them, or nothing where there is none.
    pub fn finish_raw_with(&self, reserved: Option<Vec<u8>>, buf: &mut [u8]) -> (result: Result<
        (),
        ImageError,
    >)
        requires
            self.wf(),
            self.raw_fits(),
            self.rows_fit(),
            !self.image_type.has_packets(),
            old(buf)@.len() == self.image_len(),
            reserved matches Some(copy) ==> copy@.len() == 0,
        ensures
            (result, final(buf)@) == if self.color_map is Some && reserved is None {
                (
                    Err(ImageError::Limits(LimitErrorKind::InsufficientMemory)),
                    self.ordered_raw(old(buf)@),
                )
            } else {
                self.finished_raw(old(buf)@)
            },
    {
        proof {
            self.lemma_sizes();
        }
        let ghost before = buf@;
        assert(buf.len() == self.image_len());
        let raw_len = self.stored_len();
        let (raw, _) = buf.split_at_mut(raw_len);
        self.fixup_orientation(raw, self.raw_bytes_per_pixel);
        let ghost ordered = self.ordered_raw(before);
        assert(buf@ == ordered);
        match &self.color_map {
            Some(color_map) => {
                let mut copy = match reserved {
                    Some(copy) => copy,
                    None => return Err(ImageError::Limits(LimitErrorKind::InsufficientMemory)),
                };
                copy.extend_from_slice(vstd::slice::slice_subrange(&*buf, 0, raw_len));
                proof {
                    assert(copy@ =~= ordered.take(self.raw_len()));
                    self.expander().lemma_equally_many(
                        self.raw_len() as nat,
                        self.image_len() as nat,
                        self.pixels() as nat,
                    );
                }
                match self.expand_color_map(copy.as_slice(), buf, color_map) {
                    Ok(()) => {},
                    Err(error) => return Err(error),
                }
            },
            None => {},
        }
        self.reverse_encoding_in_output(buf);
        Ok(())
    }

    /// Completes an image whose stored pixels are at the front of `buf`. Where they are
    /// indices, that takes [`TgaDecoder::stored_len`] bytes of memory for a copy of them,
    /// which may not be there.
    pub fn finish_raw(&self, buf: &mut [u8]) -> (result: Result<(), ImageError>)
        requires
            self.wf(),
            self.raw_fits(),
            self.rows_fit(),
            !self.image_type.has_packets(),
            old(buf)@.len() == self.image_len(),
        ensures
            (result, final(buf)@) == self.finished_raw(old(buf)@) || {
                &&& self.color_map is Some
                &&& self.raw_len() > 0
                &&& result == Err::<(), _>(ImageError::Limits(LimitErrorKind::InsufficientMemory))
                &&& final(buf)@ == self.ordered_raw(old(buf)@)
            },
    {
        proof {
            self.lemma_sizes();
        }
        assert(buf.len() == self.image_len());
        let raw_len = self.stored_len();
        let mut copy: Vec<u8> = Vec::new();
        if self.color_map.is_none() || raw_len == 0 {
            return self.finish_raw_with(Some(copy), buf);
        }
        let reserved = match copy.try_reserve(raw_len) {
            Ok(()) => Some(copy),
            Err(_) => None,
        };
        self.finish_raw_with(reserved, buf)
    }
}

/// Half of the rows of an image take no more than the image.
proof fn lemma_half_image(w: int, h: int, b: int)
    requires
        0 <= w <= u16::MAX,
        0 <= h,
        1 <= b <= 4,
    ensures
        0 <= w * h <= w * h * b,
        h / 2 * (w * b) <= w * h * b,
        0 <= w * b <= 4 * u16::MAX,
        w > 0 ==> 0 < w * b,
{
    assert(0 <= w * h <= w * h * b && w * h * b == h * (w * b) && 0 <= w * b <= 4 * 65535 && (w > 0
        ==> 0 < w * b)) by (nonlinear_arith)
        requires
            0 <= w <= 65535,
            0 <= h,
            1 <= b <= 4,
    ;
    let stride = w * b;
    let half = h / 2;
    assert(half * stride <= h * stride) by (nonlinear_arith)
        requires
            half <= h,
            0 <= stride,
    ;
}

/// Packets cannot be decoded into an image without pixels.
proof fn lemma_no_room(e: PixelExpander, input: Seq<u8>)
    requires
        e.sized(),
        input.len() > 0,
    ensures
        stream::final_answer(rle::decode_packets(e, input, 0), 0) is Err,
{
    let count = rle::packet_count(input[0]);
    assert(count * e.out_size() > 0) by (nonlinear_arith)
        requires
            count >= 1,
            e.out_size() >= 1,
    ;
}

/// What opening a file comes to, if not a decoder.
pub open spec fn opening(data: Seq<u8>) -> Result<(), ImageError> {
    let eof = Err(ImageError::IoError(IoErrorKind::UnexpectedEof));
    let header = Header::of_bytes(data);
    if data.len() < HEADER_SIZE {
        eof
    } else if header_check(header) is Err {
        header_check(header)
    } else if data.len() < HEADER_SIZE + header.id_length {
        eof
    } else {
        match color_map_size(header) {
            Err(error) => Err(error),
            Ok(size) => if data.len() < HEADER_SIZE + header.id_length + size {
                eof
            } else {
                match color_layout(header) {
                    Err(error) => Err(error),
                    Ok(_) => Ok(()),
                }
            },
        }
    }
}

/// Where the color map of a file begins.
pub open spec fn map_start(data: Seq<u8>) -> int {
    HEADER_SIZE + Header::of_bytes(data).id_length
}

/// Where the pixels of a file begin.
pub open spec fn pixels_start(data: Seq<u8>) -> int {
    map_start(data) + color_map_size(Header::of_bytes(data))->Ok_0
}

impl<'a> TgaDecoder<&'a [u8]> {
    /// Creates a decoder for the file that is in memory.
    pub fn new(r: &'a [u8]) -> (result: Result<TgaDecoder<&'a [u8]>, ImageError>)
        ensures
            match result {
                Ok(decoder) => {
                    &&& opening(r@) is Ok
                    &&& decoder.describes(
                        Header::of_bytes(r@),
                        r@.subrange(map_start(r@), pixels_start(r@)),
                    )
                    &&& decoder.r@ == r@.skip(pixels_start(r@))
                    &&& decoder.wf()
                },
                Err(error) => opening(r@) == Err::<(), _>(error),
            },
    {
        let header = match Header::from_bytes(r) {
            Ok(header) => header,
            Err(error) => return Err(error),
        };
        match check_header(&header) {
            Ok(()) => {},
            Err(error) => return Err(error),
        }
        // The image identification is skipped.
        let id_end: usize = HEADER_SIZE + header.id_length as usize;
        if r.len() < id_end {
            return Err(ImageError::IoError(IoErrorKind::UnexpectedEof));
        }
        let map_len = match color_map_len(&header) {
            Ok(len) => len,
            Err(error) => return Err(error),
        };
        if r.len() - id_end < map_len {
            return Err(ImageError::IoError(IoErrorKind::UnexpectedEof));
        }
        let (front, pixels) = r.split_at(id_end + map_len);
        let (_, map) = front.split_at(id_end);
        assert(map@ =~= r@.subrange(map_start(r@), pixels_start(r@)));
        TgaDecoder::from_parts(pixels, header, vstd::slice::slice_to_vec(map))
    }

    /// The image can be read: no pixel has to be put where it does not fit, and rows that are
    /// to be put in reverse order are not empty, unless reading fails before.
    pub open spec fn readable(&self) -> bool {
        if self.image_type.has_packets() {
            &&& rle::decodable(self.expander(), self.r@, self.image_len() as nat)
            &&& self.rows_fit() || self.r@.len() > 0
        } else {
            self.raw_fits() && self.rows_fit()
        }
    }

    /// Checks that the image can be read.
    pub fn is_readable(&self) -> (readable: bool)
        requires
            self.wf(),
            self.image_len() <= usize::MAX,
        ensures
            readable == self.readable(),
    {
        if self.image_type.is_encoded() {
            proof {
                self.lemma_sizes();
            }
            rle::is_decodable(&self.pixel_expander(), self.r, self.total_bytes() as usize) && (
            self.reversed_rows_fit() || self.r.len() > 0)
        } else {
            self.stored_pixels_fit() && self.reversed_rows_fit()
        }
    }

    /// What reading the image into a buffer may come to: what its bytes decode to, or, where
    /// stored indices are read and there is no memory for a copy of them, those in order.
    pub open spec fn image_read(
        &self,
        before: Seq<u8>,
        result: Result<(), ImageError>,
        after: Seq<u8>,
    ) -> bool {
        ||| (result, after) == self.decoded(self.r@, before)
        ||| {
            &&& self.color_map is Some && !self.image_type.has_packets()
            &&& self.r@.len() >= self.raw_len() > 0
            &&& result == Err::<(), _>(ImageError::Limits(LimitErrorKind::InsufficientMemory))
            &&& after == self.ordered_raw(
                self.r@.take(self.raw_len()) + before.skip(self.raw_len()),
            )
        }
    }

    /// Decodes the image into `buf`.
    pub fn read_image(self, buf: &mut [u8]) -> (result: Result<(), ImageError>)
        requires
            self.wf(),
            self.readable(),
            old(buf)@.len() == self.image_len(),
        ensures
            self.image_read(old(buf)@, result, final(buf)@),
    {
        proof {
            self.lemma_sizes();
        }
        if self.image_type.is_encoded() {
            let expander = self.pixel_expander();
            proof {
                if self.r@.len() > 0 {
                    lemma_no_room(self.expander(), self.r@);
                }
                assert(self.width == 0 ==> self.image_len() == 0) by (nonlinear_arith)
                    requires
                        self.image_len() == self.width * self.height
                            * self.color_type.channels(),
                ;
            }
            match decode_rle(self.r, &expander, buf) {
                Ok(()) => {},
                Err(error) => return Err(error),
            }
            self.finish_encoded(buf);
            Ok(())
        } else {
            assert(buf.len() == self.image_len());
            let raw_len = self.stored_len();
            if self.r.len() < raw_len {
                return Err(ImageError::IoError(IoErrorKind::UnexpectedEof));
            }
            let ghost before = buf@;
            let (front, _) = buf.split_at_mut(raw_len);
            color_map::copy_bytes(vstd::slice::slice_subrange(self.r, 0, raw_len), front);
            assert(buf@ =~= self.r@.take(self.raw_len()) + before.skip(self.raw_len()));
            self.finish_raw(buf)
        }
    }

    /// Decodes the image into `buf`, as [`TgaDecoder::read_image`] does.
    pub fn read_image_boxed(self: Box<Self>, buf: &mut [u8]) -> (result: Result<(), ImageError>)
        requires
            self.wf(),
            self.readable(),
            old(buf)@.len() == self.image_len(),
        ensures
            self.image_read(old(buf)@, result, final(buf)@),
    {
        (*self).read_image(buf)
    }
}

} // verus!
