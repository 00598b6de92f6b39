//! The header of a TGA file.

use vstd::prelude::*;

use crate::error::{ImageError, IoErrorKind};

verus! {

/// The length of a header in bytes.
pub const HEADER_SIZE: usize = 18;

/// The bits of the image descriptor that hold the number of alpha bits of a pixel.
pub const ALPHA_BIT_MASK: u8 = 0b1111;

/// How the pixels of an image are stored.
#[derive(Clone, Copy, Debug, PartialEq, Eq, Structural)]
pub enum ImageType {
    NoImageData,
    /// Pixels are indices into a color map.
    RawColorMap,
    /// Pixels are colors.
    RawTrueColor,
    /// Pixels are shades of gray.
    RawGrayScale,
    /// Run-length encoded indices into a color map.
    RunColorMap,
    /// Run-length encoded colors.
    RunTrueColor,
    /// Run-length encoded shades of gray.
    RunGrayScale,
    Unknown,
}

impl ImageType {
    /// The image type that a code stands for.
    pub open spec fn of_code(code: u8) -> ImageType {
        if code == 0 {
            ImageType::NoImageData
        } else if code == 1 {
            ImageType::RawColorMap
        } else if code == 2 {
            ImageType::RawTrueColor
        } else if code == 3 {
            ImageType::RawGrayScale
        } else if code == 9 {
            ImageType::RunColorMap
        } else if code == 10 {
            ImageType::RunTrueColor
        } else if code == 11 {
            ImageType::RunGrayScale
        } else {
            ImageType::Unknown
        }
    }

    /// Whether pixels have colors, and not shades of gray.
    pub open spec fn has_color(self) -> bool {
        self == ImageType::RawTrueColor || self == ImageType::RunTrueColor || self.has_color_map()
    }

    /// Whether pixels are indices into a color map.
    pub open spec fn has_color_map(self) -> bool {
        self == ImageType::RawColorMap || self == ImageType::RunColorMap
    }

    /// Whether pixels are run-length encoded.
    pub open spec fn has_packets(self) -> bool {
        self == ImageType::RunColorMap || self == ImageType::RunTrueColor || self
            == ImageType::RunGrayScale
    }

    /// Makes an image type from its code.
    pub fn new(code: u8) -> (image_type: ImageType)
        ensures
            image_type == ImageType::of_code(code),
    {
        match code {
            0 => ImageType::NoImageData,
            1 => ImageType::RawColorMap,
            2 => ImageType::RawTrueColor,
            3 => ImageType::RawGrayScale,
            9 => ImageType::RunColorMap,
            10 => ImageType::RunTrueColor,
            11 => ImageType::RunGrayScale,
            _ => ImageType::Unknown,
        }
    }

    /// Checks whether the image uses colors as opposed to gray scale.
    pub fn is_color(self) -> (is: bool)
        ensures
            is == self.has_color(),
    {
        self == ImageType::RawTrueColor || self == ImageType::RunTrueColor || self
            == ImageType::RawColorMap || self == ImageType::RunColorMap
    }

    /// Checks whether the image uses a color map.
    pub fn is_color_mapped(self) -> (is: bool)
        ensures
            is == self.has_color_map(),
    {
        self == ImageType::RawColorMap || self == ImageType::RunColorMap
    }

    /// Checks whether the image is run-length encoded.
    pub fn is_encoded(self) -> (is: bool)
        ensures
            is == self.has_packets(),
    {
        self == ImageType::RunColorMap || self == ImageType::RunTrueColor || self
            == ImageType::RunGrayScale
    }
}

/// The fields of a header, in the order in which a file has them.
#[derive(Clone, Copy, Debug, PartialEq, Eq, Structural)]
pub struct Header {
    /// The length of the image identification.
    pub id_length: u8,
    /// 1 where there is a color map.
    pub map_type: u8,
    /// The code of the image type.
    pub image_type: u8,
    /// The start of the color map.
    pub map_origin: u16,
    /// The number of entries in the color map.
    pub map_length: u16,
    /// The number of bits of an entry in the color map.
    pub map_entry_size: u8,
    pub x_origin: u16,
    pub y_origin: u16,
    pub image_width: u16,
    pub image_height: u16,
    /// The number of bits of a pixel.
    pub pixel_depth: u8,
    /// The number of alpha bits of a pixel, and the order of the pixels.
    pub image_desc: u8,
}

/// The number that two bytes spell, least significant byte first.
pub open spec fn u16_at(bytes: Seq<u8>, i: int) -> u16 {
    (bytes[i] + 256 * bytes[i + 1]) as u16
}

impl Header {
    /// The header that a file begins with.
    pub open spec fn of_bytes(bytes: Seq<u8>) -> Header {
        Header {
            id_length: bytes[0],
            map_type: bytes[1],
            image_type: bytes[2],
            map_origin: u16_at(bytes, 3),
            map_length: u16_at(bytes, 5),
            map_entry_size: bytes[7],
            x_origin: u16_at(bytes, 8),
            y_origin: u16_at(bytes, 10),
            image_width: u16_at(bytes, 12),
            image_height: u16_at(bytes, 14),
            pixel_depth: bytes[16],
            image_desc: bytes[17],
        }
    }

    /// How the pixels are stored.
    pub open spec fn kind(self) -> ImageType {
        ImageType::of_code(self.image_type)
    }

    /// The number of alpha bits of a pixel.
    pub open spec fn alpha_bits(self) -> int {
        self.image_desc as int % 16
    }

    /// The number of bytes of a pixel as it is stored.
    pub open spec fn raw_bytes(self) -> int {
        (self.pixel_depth + 7) / 8
    }

    /// The number of bytes of an entry in the color map.
    pub open spec fn map_entry_bytes(self) -> int {
        (self.map_entry_size + 7) / 8
    }

    /// Takes the header from the front of a file.
    pub fn from_bytes(bytes: &[u8]) -> (header: Result<Header, ImageError>)
        ensures
            header == if bytes@.len() < HEADER_SIZE {
                Err(ImageError::IoError(IoErrorKind::UnexpectedEof))
            } else {
                Ok(Header::of_bytes(bytes@))
            },
    {
        if bytes.len() < HEADER_SIZE {
            return Err(ImageError::IoError(IoErrorKind::UnexpectedEof));
        }
        Ok(
            Header {
                id_length: bytes[0],
                map_type: bytes[1],
                image_type: bytes[2],
                map_origin: read_u16(bytes, 3),
                map_length: read_u16(bytes, 5),
                map_entry_size: bytes[7],
                x_origin: read_u16(bytes, 8),
                y_origin: read_u16(bytes, 10),
                image_width: read_u16(bytes, 12),
                image_height: read_u16(bytes, 14),
                pixel_depth: bytes[16],
                image_desc: bytes[17],
            },
        )
    }

    /// The number of alpha bits of a pixel.
    pub fn num_alpha_bits(&self) -> (bits: u8)
        ensures
            bits == self.alpha_bits(),
    {
        let desc = self.image_desc;
        assert(desc & 0b1111 == desc % 16) by (bit_vector);
        desc & ALPHA_BIT_MASK
    }
}

/// Reads two bytes, least significant byte first.
fn read_u16(bytes: &[u8], i: usize) -> (value: u16)
    requires
        i + 1 < bytes@.len(),
    ensures
        value == u16_at(bytes@, i as int),
        value == bytes@[i as int] + 256 * bytes@[i + 1],
{
    bytes[i] as u16 + 256 * (bytes[i + 1] as u16)
}

/// The bytes of a number, least significant byte first.
pub open spec fn u16_bytes(value: u16) -> Seq<u8> {
    seq![(value % 256) as u8, (value / 256) as u8]
}

impl Header {
    /// The bytes that a file begins with that has this header.
    pub open spec fn to_bytes(self) -> Seq<u8> {
        seq![self.id_length, self.map_type, self.image_type] + u16_bytes(self.map_origin)
            + u16_bytes(self.map_length) + seq![self.map_entry_size] + u16_bytes(self.x_origin)
            + u16_bytes(self.y_origin) + u16_bytes(self.image_width) + u16_bytes(self.image_height)
            + seq![self.pixel_depth, self.image_desc]
    }
}

/// A header is read back from the bytes that it is written as, whatever follows them.
pub proof fn lemma_header_is_read_back(header: Header, rest: Seq<u8>)
    ensures
        header.to_bytes().len() == 18,
        HEADER_SIZE == 18,
        Header::of_bytes(header.to_bytes() + rest) == header,
{
    let bytes = header.to_bytes() + rest;
    assert(header.to_bytes().len() == 18);
    lemma_number_is_read_back(bytes, 3, header.map_origin);
    lemma_number_is_read_back(bytes, 5, header.map_length);
    lemma_number_is_read_back(bytes, 8, header.x_origin);
    lemma_number_is_read_back(bytes, 10, header.y_origin);
    lemma_number_is_read_back(bytes, 12, header.image_width);
    lemma_number_is_read_back(bytes, 14, header.image_height);
}

/// A number is read back from its two bytes.
proof fn lemma_number_is_read_back(bytes: Seq<u8>, i: int, value: u16)
    requires
        0 <= i,
        i + 1 < bytes.len(),
        bytes[i] == value % 256,
        bytes[i + 1] == value / 256,
    ensures
        u16_at(bytes, i) == value,
{
}

/// The bytes that a header is read from are those that it is written as.
pub proof fn lemma_header_is_written_back(bytes: Seq<u8>)
    requires
        bytes.len() >= 18,
    ensures
        Header::of_bytes(bytes).to_bytes() == bytes.take(18),
{
    let written = Header::of_bytes(bytes).to_bytes();
    assert(written.len() == 18);
    assert forall|i: int| 0 <= i < 18 implies written[i] == bytes[i] by {
        assert(forall|j: int| u16_at(bytes, j) == bytes[j] + 256 * bytes[j + 1]);
    }
    assert(written =~= bytes.take(18));
}

/// A number in a header is the sum of its low byte and 256 times its high byte.
pub proof fn lemma_u16_at(bytes: Seq<u8>, i: int)
    ensures
        u16_at(bytes, i) == bytes[i] + 256 * bytes[i + 1],
{
}

/// Of the image types, 1 to 3 are stored plainly, and 9 to 11 are the same run-length encoded.
/// The first of each three has a color map, the last is gray, and no other code has any of this.
pub proof fn lemma_image_types(code: u8)
    ensures
        ({
            let kind = ImageType::of_code(code);
            &&& kind.has_packets() <==> 9 <= code <= 11
            &&& kind.has_color_map() <==> code == 1 || code == 9
            &&& kind.has_color() <==> code == 1 || code == 2 || code == 9 || code == 10
            &&& kind == ImageType::Unknown <==> 3 < code < 9 || code > 11
            &&& kind == ImageType::NoImageData <==> code == 0
            &&& kind == ImageType::RawColorMap <==> code == 1
            &&& kind == ImageType::RawTrueColor <==> code == 2
            &&& kind == ImageType::RawGrayScale <==> code == 3
            &&& kind == ImageType::RunColorMap <==> code == 9
            &&& kind == ImageType::RunTrueColor <==> code == 10
            &&& kind == ImageType::RunGrayScale <==> code == 11
        }),
        1 <= code <= 3 ==> {
            let plain = ImageType::of_code(code);
            let encoded = ImageType::of_code((code + 8) as u8);
            &&& !plain.has_packets() && encoded.has_packets()
            &&& plain.has_color() == encoded.has_color()
            &&& plain.has_color_map() == encoded.has_color_map()
        },
{
}

/// The alpha bits are the low four bits of the descriptor, and the others do not show in them.
pub proof fn lemma_alpha_bits(header: Header, other: Header)
    ensures
        header.alpha_bits() == header.image_desc & 0x0f,
        header.image_desc & 0x0f == other.image_desc & 0x0f ==> header.alpha_bits()
            == other.alpha_bits(),
{
    let desc = header.image_desc;
    let other_desc = other.image_desc;
    assert(desc & 0x0f == desc % 16) by (bit_vector);
    assert(other_desc & 0x0f == other_desc % 16) by (bit_vector);
}

/// Bits are rounded up to whole bytes: the bytes hold all of the bits, and one byte less does not.
pub proof fn lemma_bits_to_bytes(header: Header)
    ensures
        8 * header.raw_bytes() - 8 < header.pixel_depth <= 8 * header.raw_bytes(),
        8 * header.map_entry_bytes() - 8 < header.map_entry_size <= 8 * header.map_entry_bytes(),
{
}

} // verus!
