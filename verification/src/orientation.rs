//! The order in which an image stores its pixels.

use vstd::prelude::*;

verus! {

/// The corner of the image at which its first pixel stands.
#[derive(Clone, Copy, Debug, PartialOrd, PartialEq, Eq, Structural)]
pub enum TgaOrientation {
    TopLeft,
    TopRight,
    BottomRight,
    BottomLeft,
}

impl TgaOrientation {
    /// The corner that an image descriptor names: bit 4 is set where pixels go from right
    /// to left, and bit 5 where rows go from top to bottom.
    pub open spec fn described_by(value: u8) -> TgaOrientation {
        let right_to_left = (value / 16) % 2 == 1;
        let top_to_bottom = (value / 32) % 2 == 1;
        if right_to_left {
            if top_to_bottom {
                TgaOrientation::TopRight
            } else {
                TgaOrientation::BottomRight
            }
        } else {
            if top_to_bottom {
                TgaOrientation::TopLeft
            } else {
                TgaOrientation::BottomLeft
            }
        }
    }

    /// Whether rows go from bottom to top.
    pub open spec fn is_bottom(self) -> bool {
        self == TgaOrientation::BottomLeft || self == TgaOrientation::BottomRight
    }

    /// Whether pixels go from right to left.
    pub open spec fn is_right(self) -> bool {
        self == TgaOrientation::BottomRight || self == TgaOrientation::TopRight
    }

    /// Reads the orientation from the image descriptor.
    pub fn from_image_desc_byte(value: u8) -> (orientation: Self)
        ensures
            orientation == Self::described_by(value),
    {
        assert((value & (1u8 << 4) == 0) == ((value / 16) % 2 == 0)) by (bit_vector);
        assert((value & (1u8 << 5) == 0) == ((value / 32) % 2 == 0)) by (bit_vector);
        if value & (1u8 << 4) == 0 {
            // Left to right
            if value & (1u8 << 5) == 0 {
                TgaOrientation::BottomLeft
            } else {
                TgaOrientation::TopLeft
            }
        } else {
            // Right to left
            if value & (1u8 << 5) == 0 {
                TgaOrientation::BottomRight
            } else {
                TgaOrientation::TopRight
            }
        }
    }
}

/// Where the byte comes from that stands at `k` after, of `n` blocks of `size` bytes, the
/// first `pairs` have changed places with the last, in reverse order.
pub open spec fn block_source(k: int, size: int, n: int, pairs: int) -> int {
    let block = k / size;
    if block < pairs || n - pairs <= block < n {
        (n - 1 - block) * size + k % size
    } else {
        k
    }
}

/// The bytes `s` with their first `pairs` whole blocks of `size` bytes and their last in
/// each other's place, in reverse order.
pub open spec fn blocks_swapped(s: Seq<u8>, size: int, pairs: int) -> Seq<u8> {
    Seq::new(s.len(), |k: int| s[block_source(k, size, s.len() as int / size, pairs)])
}

/// How many rows of `stride` bytes change places when an image of `height` rows is turned
/// upside down, where there are bytes for them.
pub open spec fn row_pairs(len: int, stride: int, height: int) -> int {
    if height / 2 <= len / stride - height / 2 {
        height / 2
    } else {
        len / stride - height / 2
    }
}

/// The pixels `s` with their rows in reverse order.
pub open spec fn flipped(s: Seq<u8>, stride: int, height: int) -> Seq<u8> {
    blocks_swapped(s, stride, row_pairs(s.len() as int, stride, height))
}

/// The pixels `s` with the pixels of every whole row in reverse order.
pub open spec fn flopped(s: Seq<u8>, width: int, bpp: int) -> Seq<u8> {
    let stride = width * bpp;
    Seq::new(
        s.len(),
        |k: int|
            if k < s.len() as int / stride * stride {
                s[k / stride * stride + block_source(k % stride, bpp, width, width / 2)]
            } else {
                s[k]
            },
    )
}

/// The pixels `s` from the top left corner on, where they are stored from the corner that
/// the image descriptor names.
pub open spec fn oriented(s: Seq<u8>, image_desc: u8, width: int, height: int, bpp: int) -> Seq<
    u8,
> {
    let orientation = TgaOrientation::described_by(image_desc);
    let rows = if orientation.is_bottom() && height > 1 {
        flipped(s, width * bpp, height)
    } else {
        s
    };
    if orientation.is_right() && width > 1 {
        flopped(rows, width, bpp)
    } else {
        rows
    }
}

/// A number lies in just one block.
pub proof fn lemma_block(k: int, size: int, b: int)
    requires
        0 <= k,
        0 < size,
    ensures
        k / size == b <==> b * size <= k < (b + 1) * size,
        k == k / size * size + k % size,
        0 <= k % size < size,
        0 <= k / size,
{
    let q = k / size;
    assert(k == size * q + k % size && 0 <= k % size < size) by {
        vstd::arithmetic::div_mod::lemma_fundamental_div_mod(k, size);
        vstd::arithmetic::div_mod::lemma_mod_bound(k, size);
    }
    assert(size * q == q * size && (q + 1) * size == q * size + size) by (nonlinear_arith);
    if b < q {
        assert((b + 1) * size <= q * size) by (nonlinear_arith)
            requires
                b + 1 <= q,
                size > 0,
        ;
    } else if b > q {
        assert(b * size >= q * size + size) by (nonlinear_arith)
            requires
                b >= q + 1,
                size > 0,
        ;
    }
    assert(q >= 0) by (nonlinear_arith)
        requires
            k == size * q + k % size,
            k >= 0,
            size > 0,
            k % size < size,
    ;
}

/// The parts of a number that is given by its block and its place there.
pub proof fn lemma_in_block(b: int, size: int, c: int)
    requires
        0 <= b,
        0 <= c < size,
    ensures
        0 <= b * size,
        (b * size + c) / size == b,
        (b * size + c) % size == c,
{
    assert(0 <= b * size && (b + 1) * size == b * size + size) by (nonlinear_arith)
        requires
            0 <= b,
            0 < size,
    ;
    lemma_block(b * size + c, size, b);
}

/// Blocks lie within the bytes that they are counted in, one behind the other.
pub proof fn lemma_blocks_fit(len: nat, size: int, a: int, b: int)
    requires
        0 < size,
        0 <= a < b <= len as int / size,
    ensures
        0 <= a * size,
        a * size + size <= b * size <= len,
{
    lemma_block(len as int, size, len as int / size);
    let n = len as int / size;
    assert(0 <= a * size && a * size + size <= b * size && b * size <= n * size)
        by (nonlinear_arith)
        requires
            0 < size,
            0 <= a < b <= n,
    ;
}

/// Lets two stretches of a slice change places.
fn swap_stretches(s: &mut [u8], a: usize, b: usize, len: usize)
    requires
        a + len <= b,
        b + len <= old(s)@.len(),
    ensures
        final(s)@ == Seq::new(
            old(s)@.len(),
            |k: int|
                if a <= k < a + len {
                    old(s)@[k - a + b]
                } else if b <= k < b + len {
                    old(s)@[k - b + a]
                } else {
                    old(s)@[k]
                },
        ),
{
    let ghost before = s@;
    let mut i: usize = 0;
    while i < len
        invariant
            i <= len,
            a + len <= b,
            b + len <= before.len(),
            s@.len() == before.len(),
            forall|k: int| 0 <= k < before.len() ==> s@[k] == if a <= k < a + i {
                before[k - a + b]
            } else if b <= k < b + i {
                before[k - b + a]
            } else {
                before[k]
            },
        decreases len - i,
    {
        let left = s[a + i];
        let right = s[b + i];
        s[a + i] = right;
        s[b + i] = left;
        i = i + 1;
    }
}

/// Lets the first `pairs` blocks of a slice change places with its last whole blocks.
fn swap_blocks(s: &mut [u8], size: usize, pairs: usize)
    requires
        size > 0,
        2 * pairs <= old(s)@.len() as int / size as int,
    ensures
        final(s)@ == blocks_swapped(old(s)@, size as int, pairs as int),
{
    let ghost before = s@;
    let n = s.len() / size;
    let mut i: usize = 0;
    assert forall|k: int| 0 <= k < before.len() implies s@[k] == before[block_source(
        k,
        size as int,
        n as int,
        0,
    )] by {
        lemma_block(k, size as int, n as int);
    }
    while i < pairs
        invariant
            size > 0,
            i <= pairs,
            2 * pairs <= n,
            n == before.len() as int / size as int,
            s.len() == before.len(),
            forall|k: int|
                0 <= k < before.len() ==> s@[k] == before[block_source(
                    k,
                    size as int,
                    n as int,
                    i as int,
                )],
        decreases pairs - i,
    {
        let ghost earlier = s@;
        let ghost other = (n - 1 - i) as int;
        proof {
            lemma_blocks_fit(before.len(), size as int, i as int, other);
            lemma_blocks_fit(before.len(), size as int, other, n as int);
        }
        swap_stretches(s, i * size, (n - 1 - i) * size, size);
        assert forall|k: int| 0 <= k < before.len() implies s@[k] == before[block_source(
            k,
            size as int,
            n as int,
            i + 1,
        )] by {
            lemma_block(k, size as int, i as int);
            lemma_block(k, size as int, other);
            assert((i + 1) * size == i * size + size) by (nonlinear_arith);
            assert((other + 1) * size == other * size + size) by (nonlinear_arith);
            if k / size as int == i {
                lemma_in_block(other, size as int, k % size as int);
            } else if k / size as int == other {
                lemma_in_block(i as int, size as int, k % size as int);
            }
        }
        i = i + 1;
    }
    assert(s@ =~= blocks_swapped(before, size as int, pairs as int));
}

/// Turns an image upside down.
pub fn flip_rows(pixels: &mut [u8], stride: usize, height: usize)
    requires
        stride > 0,
        (height as int / 2) * stride <= old(pixels)@.len(),
    ensures
        final(pixels)@ == flipped(old(pixels)@, stride as int, height as int),
{
    let rows = pixels.len() / stride;
    proof {
        let half = height as int / 2;
        crate::color_map::lemma_quotient(pixels@.len(), stride as nat, half as nat);
    }
    let half = height / 2;
    let pairs = if half <= rows - half {
        half
    } else {
        rows - half
    };
    swap_blocks(pixels, stride, pairs);
}

/// Mirrors every row of an image.
pub fn flop_rows(pixels: &mut [u8], width: usize, bpp: usize)
    requires
        width > 0,
        bpp > 0,
        width * bpp <= usize::MAX,
    ensures
        final(pixels)@ == flopped(old(pixels)@, width as int, bpp as int),
{
    let ghost before = pixels@;
    assert(0 < width * bpp) by (nonlinear_arith)
        requires
            0 < width,
            0 < bpp,
    ;
    let stride = width * bpp;
    let rows = pixels.len() / stride;
    let mut r: usize = 0;
    proof {
        crate::color_map::lemma_quotient(before.len(), stride as nat, rows as nat);
    }
    while r < rows
        invariant
            width > 0,
            bpp > 0,
            stride == width * bpp,
            stride > 0,
            rows == before.len() as int / stride as int,
            rows * stride <= before.len(),
            r <= rows,
            pixels.len() == before.len(),
            forall|k: int|
                0 <= k < r * stride ==> pixels@[k] == flopped(before, width as int, bpp as int)[k],
            forall|k: int| r * stride <= k < before.len() ==> pixels@[k] == before[k],
        decreases rows - r,
    {
        proof {
            lemma_blocks_fit(before.len(), stride as int, r as int, r + 1);
            assert((r + 1) * stride == r * stride + stride) by (nonlinear_arith);
            vstd::arithmetic::div_mod::lemma_div_by_multiple(width as int, bpp as int);
        }
        let ghost earlier = pixels@;
        let ghost start = r * stride;
        let (_, from_row) = pixels.split_at_mut(r * stride);
        let (row, _) = from_row.split_at_mut(stride);
        assert(row@ == earlier.subrange(start, start + stride));
        swap_blocks(row, bpp, width / 2);
        assert forall|k: int| start <= k < start + stride implies pixels@[k] == flopped(
            before,
            width as int,
            bpp as int,
        )[k] by {
            lemma_block(k, stride as int, r as int);
            let c = k % stride as int;
            lemma_source_in_range(c, bpp as int, width as int, width as int / 2);
            assert((r + 1) * stride <= rows * stride) by (nonlinear_arith)
                requires
                    r + 1 <= rows,
            ;
        }
        r = r + 1;
    }
    assert(pixels@ =~= flopped(before, width as int, bpp as int)) by {
        lemma_block(before.len() as int, stride as int, rows as int);
    }
}

/// What moves within whole blocks stays within them.
pub proof fn lemma_source_in_range(k: int, size: int, n: int, pairs: int)
    requires
        0 < size,
        0 <= k < n * size,
        0 <= pairs <= n,
    ensures
        0 <= block_source(k, size, n, pairs) < n * size,
{
    lemma_block(k, size, k / size);
    let b = k / size;
    assert(0 <= b < n) by (nonlinear_arith)
        requires
            b * size <= k,
            k < n * size,
            size > 0,
            b >= 0,
    ;
    let mirror = n - 1 - b;
    assert(0 <= mirror * size && mirror * size + size <= n * size) by (nonlinear_arith)
        requires
            0 <= mirror < n,
            size > 0,
    ;
}

/// Where the pixel in column `x` and row `y` begins.
pub open spec fn pixel_at(x: int, y: int, width: int, bpp: int) -> int {
    (y * width + x) * bpp
}

/// The column in which a pixel is stored that belongs into column `x`.
pub open spec fn stored_column(image_desc: u8, width: int, x: int) -> int {
    if TgaOrientation::described_by(image_desc).is_right() {
        width - 1 - x
    } else {
        x
    }
}

/// The row in which a pixel is stored that belongs into row `y`.
pub open spec fn stored_row(image_desc: u8, height: int, y: int) -> int {
    if TgaOrientation::described_by(image_desc).is_bottom() {
        height - 1 - y
    } else {
        y
    }
}

/// A byte of a whole image lies within it, in a row and a column that it names.
pub proof fn lemma_pixel_at(width: int, height: int, bpp: int, x: int, y: int, b: int)
    requires
        0 < bpp,
        0 <= x < width,
        0 <= y < height,
        0 <= b < bpp,
    ensures
        ({
            let stride = width * bpp;
            let c = x * bpp + b;
            let k = pixel_at(x, y, width, bpp) + b;
            &&& k == y * stride + c
            &&& 0 <= c < stride
            &&& 0 <= k < height * stride
            &&& height * stride == width * height * bpp
            &&& k / stride == y
            &&& k % stride == c
            &&& c / bpp == x
            &&& c % bpp == b
        }),
{
    let stride = width * bpp;
    let c = x * bpp + b;
    lemma_in_block(x, bpp, b);
    assert((y * width + x) * bpp == y * stride + x * bpp && height * stride == width * height * bpp)
        by (nonlinear_arith)
        requires
            stride == width * bpp,
    ;
    assert(x * bpp + bpp <= stride) by (nonlinear_arith)
        requires
            stride == width * bpp,
            x + 1 <= width,
            bpp > 0,
    ;
    lemma_in_block(y, stride, c);
    assert(y * stride + stride <= height * stride) by (nonlinear_arith)
        requires
            y + 1 <= height,
            stride > 0,
    ;
}

/// Every byte of a whole image belongs to a pixel.
pub proof fn lemma_byte_of_pixel(width: int, height: int, bpp: int, k: int) -> (place: (
    int,
    int,
    int,
))
    requires
        0 < width,
        0 < bpp,
        0 <= k < width * height * bpp,
    ensures
        0 <= place.0 < width,
        0 <= place.1 < height,
        0 <= place.2 < bpp,
        k == pixel_at(place.0, place.1, width, bpp) + place.2,
{
    let stride = width * bpp;
    assert(stride > 0 && width * height * bpp == height * stride) by (nonlinear_arith)
        requires
            stride == width * bpp,
            0 < width,
            0 < bpp,
    ;
    let y = k / stride;
    let c = k % stride;
    lemma_block(k, stride, y);
    lemma_block(c, bpp, c / bpp);
    let x = c / bpp;
    let b = c % bpp;
    assert(y < height) by (nonlinear_arith)
        requires
            y * stride <= k,
            k < height * stride,
            stride > 0,
    ;
    assert(x < width) by (nonlinear_arith)
        requires
            x * bpp <= c,
            c < width * bpp,
            bpp > 0,
    ;
    lemma_pixel_at(width, height, bpp, x, y, b);
    (x, y, b)
}

/// A whole image is put into reading order by taking every pixel from the column and the row
/// in which it is stored.
pub proof fn lemma_oriented_pixel(
    s: Seq<u8>,
    image_desc: u8,
    width: int,
    height: int,
    bpp: int,
    x: int,
    y: int,
    b: int,
)
    requires
        0 < bpp,
        s.len() == width * height * bpp,
        0 <= x < width,
        0 <= y < height,
        0 <= b < bpp,
    ensures
        oriented(s, image_desc, width, height, bpp)[pixel_at(x, y, width, bpp) + b] == s[pixel_at(
            stored_column(image_desc, width, x),
            stored_row(image_desc, height, y),
            width,
            bpp,
        ) + b],
{
    let orientation = TgaOrientation::described_by(image_desc);
    let stride = width * bpp;
    let c = x * bpp + b;
    let k = y * stride + c;
    let from_x = stored_column(image_desc, width, x);
    let from_y = stored_row(image_desc, height, y);
    lemma_pixel_at(width, height, bpp, x, y, b);
    lemma_pixel_at(width, height, bpp, from_x, y, b);
    lemma_pixel_at(width, height, bpp, from_x, from_y, b);
    let from_c = from_x * bpp + b;
    let rows = if orientation.is_bottom() && height > 1 {
        flipped(s, stride, height)
    } else {
        s
    };
    assert(s.len() as int / stride == height) by {
        assert(s.len() == height * stride + 0);
        lemma_in_block(height, stride, 0);
    }
    assert(rows[y * stride + from_c] == s[from_y * stride + from_c]);
    assert(oriented(s, image_desc, width, height, bpp)[k] == rows[y * stride + from_c]);
}

/// An image keeps its size when it is put into reading order.
pub proof fn lemma_oriented_len(s: Seq<u8>, image_desc: u8, width: int, height: int, bpp: int)
    ensures
        oriented(s, image_desc, width, height, bpp).len() == s.len(),
{
}

/// Putting a whole image into reading order twice restores it.
pub proof fn lemma_oriented_twice(s: Seq<u8>, image_desc: u8, width: int, height: int, bpp: int)
    requires
        0 < width,
        0 < bpp,
        s.len() == width * height * bpp,
    ensures
        oriented(
            oriented(s, image_desc, width, height, bpp),
            image_desc,
            width,
            height,
            bpp,
        ) == s,
{
    let once = oriented(s, image_desc, width, height, bpp);
    let twice = oriented(once, image_desc, width, height, bpp);
    assert forall|k: int| 0 <= k < s.len() implies twice[k] == s[k] by {
        let (x, y, b) = lemma_byte_of_pixel(width, height, bpp, k);
        lemma_oriented_pixel(once, image_desc, width, height, bpp, x, y, b);
        lemma_oriented_pixel(
            s,
            image_desc,
            width,
            height,
            bpp,
            stored_column(image_desc, width, x),
            stored_row(image_desc, height, y),
            b,
        );
    }
    assert(twice =~= s);
}

/// An image that is stored from the top left corner on is in reading order already.
pub proof fn lemma_top_left_stays(s: Seq<u8>, image_desc: u8, width: int, height: int, bpp: int)
    requires
        TgaOrientation::described_by(image_desc) == TgaOrientation::TopLeft,
    ensures
        oriented(s, image_desc, width, height, bpp) == s,
{
}

/// Bits 4 and 5 of the descriptor alone name the corner: it is on the right just where bit 4 is
/// set, and at the bottom just where bit 5 is clear. Neither the alpha bits nor bits 6 and 7 show.
pub proof fn lemma_corner(value: u8, other: u8)
    ensures
        TgaOrientation::described_by(value).is_right() <==> value & 0x10 != 0,
        TgaOrientation::described_by(value).is_bottom() <==> value & 0x20 == 0,
        TgaOrientation::described_by(value) == TgaOrientation::BottomLeft <==> value & 0x30 == 0,
        TgaOrientation::described_by(value) == TgaOrientation::BottomRight <==> value & 0x30
            == 0x10,
        TgaOrientation::described_by(value) == TgaOrientation::TopLeft <==> value & 0x30 == 0x20,
        TgaOrientation::described_by(value) == TgaOrientation::TopRight <==> value & 0x30 == 0x30,
        value & 0x30 == other & 0x30 ==> TgaOrientation::described_by(value)
            == TgaOrientation::described_by(other),
{
    assert((value & 0x10 != 0) == ((value / 16) % 2 == 1)) by (bit_vector);
    assert((value & 0x20 == 0) == ((value / 32) % 2 == 0)) by (bit_vector);
    assert((value & 0x30 == 0) == (value & 0x10 == 0 && value & 0x20 == 0)) by (bit_vector);
    assert((value & 0x30 == 0x10) == (value & 0x10 != 0 && value & 0x20 == 0)) by (bit_vector);
    assert((value & 0x30 == 0x20) == (value & 0x10 == 0 && value & 0x20 != 0)) by (bit_vector);
    assert((value & 0x30 == 0x30) == (value & 0x10 != 0 && value & 0x20 != 0)) by (bit_vector);
    assert(value & 0x30 == other & 0x30 ==> (value & 0x10 == other & 0x10 && value & 0x20 == other
        & 0x20)) by (bit_vector);
    assert((other & 0x10 != 0) == ((other / 16) % 2 == 1)) by (bit_vector);
    assert((other & 0x20 == 0) == ((other / 32) % 2 == 0)) by (bit_vector);
}

/// The pixel in column `x` and row `y` of a whole image in reading order is, byte for byte, the
/// one that is stored in that column, counted from the right where bit 4 of the descriptor is set,
/// and in that row, counted from the bottom where bit 5 is clear.
pub proof fn lemma_pixel_moves(
    s: Seq<u8>,
    image_desc: u8,
    width: int,
    height: int,
    bpp: int,
    x: int,
    y: int,
    b: int,
)
    requires
        0 < bpp,
        s.len() == width * height * bpp,
        0 <= x < width,
        0 <= y < height,
        0 <= b < bpp,
    ensures
        ({
            let from_x = if image_desc & 0x10 != 0 {
                width - 1 - x
            } else {
                x
            };
            let from_y = if image_desc & 0x20 == 0 {
                height - 1 - y
            } else {
                y
            };
            oriented(s, image_desc, width, height, bpp)[(y * width + x) * bpp + b] == s[(from_y
                * width + from_x) * bpp + b]
        }),
{
    lemma_corner(image_desc, image_desc);
    lemma_oriented_pixel(s, image_desc, width, height, bpp, x, y, b);
}

/// Where the bytes hold `n` whole rows, turning them upside down exchanges row `i` with row
/// `n - 1 - i` for every `i` below half of the height for which there is such a row in the second
/// half, and leaves everything else where it is.
pub proof fn lemma_rows_exchange(s: Seq<u8>, stride: int, height: int, row: int, b: int)
    requires
        0 < stride,
        0 <= height,
        height / 2 * stride <= s.len(),
        0 <= row,
        0 <= b < stride,
        row * stride + b < s.len(),
    ensures
        ({
            let n = s.len() as int / stride;
            let k = row * stride + b;
            let other = (n - 1 - row) * stride + b;
            &&& flipped(s, stride, height).len() == s.len()
            &&& flipped(s, stride, height)[k] == if row < height / 2 && n - 1 - row >= height / 2
                || row < n && row >= height / 2 && n - 1 - row < height / 2 {
                s[other]
            } else {
                s[k]
            }
        }),
{
    lemma_in_block(row, stride, b);
    crate::color_map::lemma_quotient(s.len(), stride as nat, (height / 2) as nat);
}

/// Mirroring exchanges pixel `x` of a whole row of `width` pixels with pixel `width - 1 - x`, and
/// leaves what follows the whole rows where it is.
pub proof fn lemma_pixels_exchange(s: Seq<u8>, width: int, bpp: int, row: int, x: int, b: int)
    requires
        0 < width,
        0 < bpp,
        0 <= row,
        0 <= x < width,
        0 <= b < bpp,
        row * (width * bpp) + x * bpp + b < s.len(),
    ensures
        ({
            let k = row * (width * bpp) + x * bpp + b;
            let other = row * (width * bpp) + (width - 1 - x) * bpp + b;
            &&& flopped(s, width, bpp).len() == s.len()
            &&& flopped(s, width, bpp)[k] == if (row + 1) * (width * bpp) <= s.len() {
                s[other]
            } else {
                s[k]
            }
        }),
{
    let stride = width * bpp;
    let c = x * bpp + b;
    let k = row * stride + c;
    let rows = s.len() as int / stride;
    lemma_pixel_at(width, row + 1, bpp, x, row, b);
    assert((row * width + x) * bpp == row * stride + x * bpp) by (nonlinear_arith)
        requires
            stride == width * bpp,
    ;
    assert(stride > 0) by (nonlinear_arith)
        requires
            stride == width * bpp,
            0 < width,
            0 < bpp,
    ;
    lemma_block(s.len() as int, stride, rows);
    crate::color_map::lemma_quotient(s.len(), stride as nat, (row + 1) as nat);
    assert((row + 1) * stride == row * stride + stride) by (nonlinear_arith);
    if row < rows {
        assert((row + 1) * stride <= rows * stride) by (nonlinear_arith)
            requires
                row + 1 <= rows,
                stride > 0,
        ;
    } else {
        assert(rows * stride <= row * stride) by (nonlinear_arith)
            requires
                rows <= row,
                stride > 0,
        ;
    }
    if 2 * x + 1 == width {
        assert(width - 1 - x == x);
    }
}

/// Any bytes are put into order by turning them upside down, where bit 5 of the descriptor is clear
/// and there is more than one row, and then by mirroring them, where bit 4 is set and there is more
/// than one column.
pub proof fn lemma_oriented_steps(s: Seq<u8>, image_desc: u8, width: int, height: int, bpp: int)
    ensures
        ({
            let rows = if image_desc & 0x20 == 0 && height > 1 {
                flipped(s, width * bpp, height)
            } else {
                s
            };
            oriented(s, image_desc, width, height, bpp) == if image_desc & 0x10 != 0 && width > 1 {
                flopped(rows, width, bpp)
            } else {
                rows
            }
        }),
{
    lemma_corner(image_desc, image_desc);
}

} // verus!
