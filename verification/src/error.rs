//! What can go wrong while an image is decoded.

use vstd::prelude::*;

use crate::color::ExtendedColorType;

verus! {

/// Contents that no TGA image can have.
#[derive(Clone, Copy, Debug, PartialEq, Eq, Structural)]
pub enum DecodingError {
    /// A color mapped image names a color map type other than 1.
    ColorMapType,
    /// The indices of a color mapped image are neither one nor two bytes long.
    ColorMapIndexSize,
    /// The image descriptor claims more alpha bits than a pixel has bits.
    TooManyAlphaBits,
    /// A pixel refers to an entry that the color map does not have.
    InvalidColorMapIndex,
    /// A run-length packet holds more pixels than the image has left.
    RleOverflow,
    /// The run-length packets end before the image is complete.
    UnexpectedEof,
}

/// Images that are sound but that the decoder does not handle.
#[derive(Clone, Copy, Debug, PartialEq, Eq, Structural)]
pub enum UnsupportedErrorKind {
    /// The pixels have this layout.
    Color(ExtendedColorType),
    /// Color map indices take more bits than the colors they stand for.
    IndicesLargerThanPixels,
    /// Color map entries are not two, three or four bytes long.
    ColorMapEntrySize,
}

/// Resources that a decoder may run out of.
#[derive(Clone, Copy, Debug, PartialEq, Eq, Structural)]
pub enum LimitErrorKind {
    /// The memory that decoding takes is not available.
    InsufficientMemory,
}

/// Why a reader did not deliver.
#[derive(Clone, Copy, Debug, PartialEq, Eq, Structural)]
pub enum IoErrorKind {
    /// The data ended too early.
    UnexpectedEof,
    /// An argument made no sense, such as a seek to before the start.
    InvalidInput,
    /// Any other failure.
    Other,
}

/// Why an image was not decoded.
#[derive(Clone, Copy, Debug, PartialEq, Eq, Structural)]
pub enum ImageError {
    /// The contents are malformed.
    Decoding(DecodingError),
    /// The image uses a feature that is not handled.
    Unsupported(UnsupportedErrorKind),
    /// A resource ran out.
    Limits(LimitErrorKind),
    /// The reader failed.
    IoError(IoErrorKind),
}

impl DecodingError {
    /// The text of the error.
    pub open spec fn text(self) -> Seq<char> {
        match self {
            DecodingError::ColorMapType => "Color map type must be 1 for color mapped images"@,
            DecodingError::ColorMapIndexSize => "Color map must use 1 or 2 byte indexes"@,
            DecodingError::TooManyAlphaBits => "More alpha bits than pixel bits"@,
            DecodingError::InvalidColorMapIndex => "Invalid color map index"@,
            DecodingError::RleOverflow => "RLE decoding writes more pixels than image contains"@,
            DecodingError::UnexpectedEof => "unexpected EOF"@,
        }
    }

    /// A sentence that tells a reader what is wrong.
    pub fn message(self) -> (text: &'static str)
        ensures
            text@ == self.text(),
    {
        match self {
            DecodingError::ColorMapType => "Color map type must be 1 for color mapped images",
            DecodingError::ColorMapIndexSize => "Color map must use 1 or 2 byte indexes",
            DecodingError::TooManyAlphaBits => "More alpha bits than pixel bits",
            DecodingError::InvalidColorMapIndex => "Invalid color map index",
            DecodingError::RleOverflow => "RLE decoding writes more pixels than image contains",
            DecodingError::UnexpectedEof => "unexpected EOF",
        }
    }
}

impl UnsupportedErrorKind {
    /// The name of the feature; a color layout has none.
    pub open spec fn feature_text(self) -> Option<Seq<char>> {
        match self {
            UnsupportedErrorKind::Color(_) => None,
            UnsupportedErrorKind::IndicesLargerThanPixels => Some(
                "Indices larger than pixel values"@,
            ),
            UnsupportedErrorKind::ColorMapEntrySize => Some("Unsupported color map entry size"@),
        }
    }

    /// The feature that is not handled, where it is not the color layout.
    pub fn feature(self) -> (text: Option<&'static str>)
        ensures
            match text {
                Some(text) => self.feature_text() == Some(text@),
                None => self.feature_text() is None,
            },
    {
        match self {
            UnsupportedErrorKind::Color(_) => None,
            UnsupportedErrorKind::IndicesLargerThanPixels => Some(
                "Indices larger than pixel values",
            ),
            UnsupportedErrorKind::ColorMapEntrySize => Some("Unsupported color map entry size"),
        }
    }
}

/// Every error has a text of its own.
pub proof fn lemma_texts_differ(error: DecodingError, other: DecodingError)
    ensures
        error.text() == other.text() ==> error == other,
        error.text().len() > 0,
{
    reveal_strlit("Color map type must be 1 for color mapped images");
    reveal_strlit("Color map must use 1 or 2 byte indexes");
    reveal_strlit("More alpha bits than pixel bits");
    reveal_strlit("Invalid color map index");
    reveal_strlit("RLE decoding writes more pixels than image contains");
    reveal_strlit("unexpected EOF");
}

/// A color layout is no feature with a name, whatever the layout; everything else is, and has a
/// name of its own.
pub proof fn lemma_features(kind: UnsupportedErrorKind, other: UnsupportedErrorKind)
    ensures
        kind.feature_text() is None <==> kind is Color,
        kind.feature_text() is Some && kind.feature_text() == other.feature_text() ==> kind == other,
{
    reveal_strlit("Indices larger than pixel values");
    reveal_strlit("Unsupported color map entry size");
    assert("Indices larger than pixel values"@[0] == 'I');
    assert("Unsupported color map entry size"@[0] == 'U');
}

} // verus!
