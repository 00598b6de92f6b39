//! Pixel formats of decoded images.

use vstd::prelude::*;

verus! {

/// The layout of a pixel in a decoded image, one byte to a channel.
#[derive(Clone, Copy, Debug, PartialEq, Eq, Structural)]
pub enum ColorType {
    /// Luminance
    L8,
    /// Luminance and alpha
    La8,
    /// Red, green and blue
    Rgb8,
    /// Red, green, blue and alpha
    Rgba8,
}

/// The layout of a pixel as it was stored in the file.
#[derive(Clone, Copy, Debug, PartialEq, Eq, Structural)]
pub enum ExtendedColorType {
    /// Alpha alone
    A8,
    /// Luminance
    L8,
    /// Luminance and alpha
    La8,
    /// Red, green and blue
    Rgb8,
    /// Red, green, blue and alpha
    Rgba8,
    /// A pixel of this many bits whose channels are not known
    Unknown(u8),
}

impl ColorType {
    /// The number of channels, which is the number of bytes of a pixel.
    pub open spec fn channels(self) -> nat {
        match self {
            ColorType::L8 => 1,
            ColorType::La8 => 2,
            ColorType::Rgb8 => 3,
            ColorType::Rgba8 => 4,
        }
    }

    /// Whether a pixel has red, green and blue channels.
    pub open spec fn is_rgb(self) -> bool {
        self == ColorType::Rgb8 || self == ColorType::Rgba8
    }

    /// The stored layout that has the same channels.
    pub open spec fn extended(self) -> ExtendedColorType {
        match self {
            ColorType::L8 => ExtendedColorType::L8,
            ColorType::La8 => ExtendedColorType::La8,
            ColorType::Rgb8 => ExtendedColorType::Rgb8,
            ColorType::Rgba8 => ExtendedColorType::Rgba8,
        }
    }

    /// The number of bytes that a pixel takes.
    pub fn bytes_per_pixel(self) -> (bytes: u8)
        ensures
            bytes == self.channels(),
    {
        match self {
            ColorType::L8 => 1,
            ColorType::La8 => 2,
            ColorType::Rgb8 => 3,
            ColorType::Rgba8 => 4,
        }
    }
}

impl vstd::std_specs::convert::FromSpecImpl<ColorType> for ExtendedColorType {
    open spec fn obeys_from_spec() -> bool {
        true
    }

    open spec fn from_spec(color: ColorType) -> Self {
        color.extended()
    }
}

impl From<ColorType> for ExtendedColorType {
    fn from(color: ColorType) -> (extended: Self) {
        match color {
            ColorType::L8 => ExtendedColorType::L8,
            ColorType::La8 => ExtendedColorType::La8,
            ColorType::Rgb8 => ExtendedColorType::Rgb8,
            ColorType::Rgba8 => ExtendedColorType::Rgba8,
        }
    }
}

/// A pixel has a byte for luminance or three for its color, and one more for alpha.
pub proof fn lemma_channels(color: ColorType)
    ensures
        color.channels() == 1 || color.channels() == 3 <==> color == ColorType::L8 || color
            == ColorType::Rgb8,
        color.channels() >= 3 <==> color == ColorType::Rgb8 || color == ColorType::Rgba8,
        color.is_rgb() <==> color.channels() >= 3,
        ColorType::La8.channels() == ColorType::L8.channels() + 1,
        ColorType::Rgba8.channels() == ColorType::Rgb8.channels() + 1,
        ColorType::Rgb8.channels() == 3 * ColorType::L8.channels(),
        1 <= color.channels() <= 4,
{
}

/// The stored layout of a decoded one has the same name, so different layouts stay different, and
/// none is stored as alpha alone or without known channels.
pub proof fn lemma_extended(color: ColorType, other: ColorType)
    ensures
        color == ColorType::L8 <==> color.extended() == ExtendedColorType::L8,
        color == ColorType::La8 <==> color.extended() == ExtendedColorType::La8,
        color == ColorType::Rgb8 <==> color.extended() == ExtendedColorType::Rgb8,
        color == ColorType::Rgba8 <==> color.extended() == ExtendedColorType::Rgba8,
        color.extended() != ExtendedColorType::A8,
        !(color.extended() is Unknown),
        color.extended() == other.extended() ==> color == other,
{
}

} // verus!
