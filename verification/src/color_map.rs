//! Color maps, and the colors that raw pixels stand for.

use vstd::prelude::*;

use crate::error::DecodingError;

verus! {

/// The palette of a color mapped image. Both sizes are in bytes.
pub struct ColorMap {
    /// Where in `bytes` the entry with index zero begins.
    pub start_offset: usize,
    /// The length of an entry.
    pub entry_size: usize,
    /// The entries, one after the other.
    pub bytes: Vec<u8>,
}

impl ColorMap {
    /// The sizes are within what the fields of a TGA header can name.
    pub open spec fn wf(&self) -> bool {
        &&& self.start_offset <= u16::MAX
        &&& 1 <= self.entry_size <= 4
    }

    /// Where the entry with the given index begins.
    pub open spec fn entry_start(&self, index: int) -> int {
        self.start_offset + self.entry_size * index
    }

    /// The entry with the given index, where the map has one.
    pub open spec fn entry(&self, index: int) -> Option<Seq<u8>> {
        let start = self.entry_start(index);
        if start + self.entry_size <= self.bytes@.len() {
            Some(self.bytes@.subrange(start, start + self.entry_size))
        } else {
            None
        }
    }

    /// Gets one entry from the color map.
    pub fn get(&self, index: usize) -> (color: Option<&[u8]>)
        requires
            self.entry_start(index as int) + self.entry_size <= usize::MAX,
        ensures
            match color {
                Some(color) => self.entry(index as int) == Some(color@),
                None => self.entry(index as int) is None,
            },
    {
        assert(self.entry_size * index >= 0) by (nonlinear_arith);
        let entry: usize = self.start_offset + self.entry_size * index;
        if entry + self.entry_size <= self.bytes.len() {
            Some(vstd::slice::slice_subrange(self.bytes.as_slice(), entry, entry + self.entry_size))
        } else {
            None
        }
    }
}

/// How a raw pixel becomes a pixel of the output: it is a color itself, or the
/// little-endian index of one in a color map.
pub struct PixelExpander<'m> {
    /// The length of a raw pixel.
    pub raw_bytes_per_pixel: usize,
    /// The length of a pixel of the output.
    pub output_bytes_per_pixel: usize,
    /// The map that raw pixels index.
    pub color_map: Option<&'m ColorMap>,
}

/// The number that bytes spell, least significant byte first.
pub open spec fn little_endian(bytes: Seq<u8>) -> nat
    decreases bytes.len(),
{
    if bytes.len() == 0 {
        0
    } else {
        bytes[0] as nat + 256 * little_endian(bytes.drop_first())
    }
}

impl<'m> PixelExpander<'m> {
    /// Pixels have between one and four bytes.
    pub open spec fn sized(&self) -> bool {
        &&& 1 <= self.raw_bytes_per_pixel <= 4
        &&& 1 <= self.output_bytes_per_pixel <= 4
    }

    /// Every color has the length of a pixel of the output; indices have one or two bytes.
    pub open spec fn fits(&self) -> bool {
        &&& self.sized()
        &&& match self.color_map {
            Some(map) => {
                &&& map.wf()
                &&& map.entry_size == self.output_bytes_per_pixel
                &&& self.raw_bytes_per_pixel <= 2
            },
            None => self.raw_bytes_per_pixel == self.output_bytes_per_pixel,
        }
    }

    /// The length of a pixel of the output.
    pub open spec fn out_size(&self) -> nat {
        self.output_bytes_per_pixel as nat
    }

    /// The color of a raw pixel; an index that the map lacks has none.
    pub open spec fn color(&self, raw: Seq<u8>) -> Option<Seq<u8>> {
        match self.color_map {
            Some(map) => map.entry(little_endian(raw) as int),
            None => Some(raw),
        }
    }

    /// The raw pixel with the given number.
    pub open spec fn raw_pixel(&self, raw: Seq<u8>, i: int) -> Seq<u8> {
        raw.subrange(i * self.raw_bytes_per_pixel, (i + 1) * self.raw_bytes_per_pixel)
    }

    /// How many of the first `n` raw pixels have a color before one has none.
    pub open spec fn colored(&self, raw: Seq<u8>, n: nat) -> nat
        decreases n,
    {
        if n == 0 {
            0
        } else {
            let before = self.colored(raw, (n - 1) as nat);
            if before == n - 1 && self.color(self.raw_pixel(raw, n - 1)) is Some {
                n
            } else {
                before
            }
        }
    }

    /// The colors of the first `n` raw pixels, one after the other.
    pub open spec fn colors(&self, raw: Seq<u8>, n: nat) -> Seq<u8>
        decreases n,
    {
        if n == 0 {
            Seq::empty()
        } else {
            self.colors(raw, (n - 1) as nat) + self.color(self.raw_pixel(raw, n - 1))->0
        }
    }

    /// The other expander has pixels of the same lengths and a color map with the same entries.
    pub open spec fn alike(&self, other: &PixelExpander) -> bool {
        &&& self.raw_bytes_per_pixel == other.raw_bytes_per_pixel
        &&& self.output_bytes_per_pixel == other.output_bytes_per_pixel
        &&& match (self.color_map, other.color_map) {
            (Some(map), Some(other_map)) => {
                &&& map.start_offset == other_map.start_offset
                &&& map.entry_size == other_map.entry_size
                &&& map.bytes@ == other_map.bytes@
            },
            (None, None) => true,
            _ => false,
        }
    }

    /// How many whole raw pixels there are that also fit into the output.
    pub open spec fn pixel_pairs(&self, raw_len: nat, out_len: nat) -> nat {
        let raw = raw_len / self.raw_bytes_per_pixel as nat;
        let out = out_len / self.out_size();
        if raw <= out {
            raw
        } else {
            out
        }
    }

    /// What is left in a buffer of pixels once the first `n` raw pixels that have
    /// a color are written to its front.
    pub open spec fn painted(&self, raw: Seq<u8>, n: nat, before: Seq<u8>) -> Seq<u8> {
        let k = self.colored(raw, n);
        self.colors(raw, k) + before.skip((k * self.out_size()) as int)
    }

    /// A color has the length of a pixel of the output.
    pub proof fn lemma_color_len(&self, raw: Seq<u8>)
        requires
            self.fits(),
            raw.len() == self.raw_bytes_per_pixel,
        ensures
            self.color(raw) matches Some(color) ==> color.len() == self.out_size(),
    {
        if let Some(map) = self.color_map {
            assert(map.entry_size * little_endian(raw) >= 0) by (nonlinear_arith);
        }
    }

    /// Of `n` pixels no more than `n` have a color, and their colors are as long as
    /// that many pixels of the output.
    pub proof fn lemma_colors_len(&self, raw: Seq<u8>, n: nat)
        requires
            self.fits(),
            n * self.raw_bytes_per_pixel <= raw.len(),
        ensures
            self.colored(raw, n) <= n,
            self.colored(raw, n) == n ==> self.colors(raw, n).len() == n * self.out_size(),
        decreases n,
    {
        if n > 0 {
            let b = self.raw_bytes_per_pixel as int;
            assert((n - 1) * b + b == n * b) by (nonlinear_arith);
            assert((n - 1) * b >= 0) by (nonlinear_arith)
                requires
                    n >= 1,
                    b >= 1,
            ;
            self.lemma_colors_len(raw, (n - 1) as nat);
            self.lemma_color_len(self.raw_pixel(raw, n - 1));
            let out = self.out_size() as int;
            assert((n - 1) * out + out == n * out) by (nonlinear_arith);
        }
    }

    /// The pixels before the first without a color all have one.
    pub proof fn lemma_colored_prefix(&self, raw: Seq<u8>, n: nat)
        ensures
            self.colored(raw, n) <= n,
            self.colored(raw, self.colored(raw, n)) == self.colored(raw, n),
        decreases n,
    {
        if n > 0 {
            self.lemma_colored_prefix(raw, (n - 1) as nat);
        }
    }

    /// Once a pixel has no color, those after it are not reached.
    pub proof fn lemma_colored_stops(&self, raw: Seq<u8>, k: nat, n: nat)
        requires
            k < n,
            self.colored(raw, k) == k,
            self.color(self.raw_pixel(raw, k as int)) is None,
        ensures
            self.colored(raw, n) == k,
        decreases n,
    {
        if n > k + 1 {
            self.lemma_colored_stops(raw, k, (n - 1) as nat);
        }
    }

    /// Expanders that are alike give the same colors.
    pub proof fn lemma_alike(&self, other: &PixelExpander, raw: Seq<u8>, n: nat)
        requires
            self.alike(other),
        ensures
            self.colored(raw, n) == other.colored(raw, n),
            self.colors(raw, n) == other.colors(raw, n),
        decreases n,
    {
        if n > 0 {
            self.lemma_alike(other, raw, (n - 1) as nat);
        }
    }

    /// Another pixel fits just where there are bytes for it on both sides.
    pub proof fn lemma_pixel_pairs(&self, raw_len: nat, out_len: nat, k: nat)
        requires
            self.fits(),
        ensures
            k <= self.pixel_pairs(raw_len, out_len) <==> k * self.raw_bytes_per_pixel <= raw_len
                && k * self.out_size() <= out_len,
    {
        lemma_quotient(raw_len, self.raw_bytes_per_pixel as nat, k);
        lemma_quotient(out_len, self.out_size(), k);
    }

    /// Where there are bytes for the same number of pixels on both sides, that many fit.
    pub proof fn lemma_equally_many(&self, raw_len: nat, out_len: nat, n: nat)
        requires
            self.fits(),
            raw_len == n * self.raw_bytes_per_pixel,
            out_len == n * self.out_size(),
        ensures
            self.pixel_pairs(raw_len, out_len) == n,
    {
        self.lemma_pixel_pairs(raw_len, out_len, n);
        self.lemma_pixel_pairs(raw_len, out_len, n + 1);
        let b = self.raw_bytes_per_pixel as int;
        assert((n + 1) * b > n * b) by (nonlinear_arith)
            requires
                b >= 1,
        ;
    }

    /// Checks that every color has the length of a pixel of the output.
    pub fn is_fitting(&self) -> (fitting: bool)
        ensures
            fitting == self.fits(),
    {
        let sized = 1 <= self.raw_bytes_per_pixel && self.raw_bytes_per_pixel <= 4 && 1
            <= self.output_bytes_per_pixel && self.output_bytes_per_pixel <= 4;
        sized && match self.color_map {
            Some(map) => map.start_offset <= u16::MAX as usize && map.entry_size
                == self.output_bytes_per_pixel && self.raw_bytes_per_pixel <= 2,
            None => self.raw_bytes_per_pixel == self.output_bytes_per_pixel,
        }
    }

    /// Finds the color of one raw pixel.
    pub fn lookup<'a>(&'a self, raw: &'a [u8]) -> (color: Option<&'a [u8]>)
        requires
            self.fits(),
            raw.len() == self.raw_bytes_per_pixel,
        ensures
            match color {
                Some(color) => self.color(raw@) == Some(color@),
                None => self.color(raw@) is None,
            },
    {
        match self.color_map {
            Some(map) => {
                proof {
                    reveal_with_fuel(little_endian, 3);
                }
                let index: usize = if self.raw_bytes_per_pixel == 1 {
                    raw[0] as usize
                } else {
                    raw[0] as usize + 256 * (raw[1] as usize)
                };
                assert(index == little_endian(raw@));
                assert(map.entry_size * index <= 4 * 65535) by (nonlinear_arith)
                    requires
                        map.entry_size <= 4,
                        index <= 65535,
                ;
                map.get(index)
            },
            None => Some(raw),
        }
    }

    /// Writes the color of one raw pixel to `out`.
    pub fn expand_pixel(&self, raw: &[u8], out: &mut [u8]) -> (result: Result<(), DecodingError>)
        requires
            self.fits(),
            raw.len() == self.raw_bytes_per_pixel,
            old(out).len() == self.out_size(),
        ensures
            match self.color(raw@) {
                Some(color) => result is Ok && final(out)@ == color,
                None => result == Err::<(), _>(DecodingError::InvalidColorMapIndex) && final(out)@
                    == old(out)@,
            },
    {
        proof {
            self.lemma_color_len(raw@);
        }
        match self.lookup(raw) {
            Some(color) => {
                copy_bytes(color, out);
                Ok(())
            },
            None => Err(DecodingError::InvalidColorMapIndex),
        }
    }

    /// Writes the colors of raw pixels to `out`, as many as both slices have room
    /// for, and stops at one that has no color.
    pub fn expand_pixels(&self, raw: &[u8], out: &mut [u8]) -> (result: Result<(), DecodingError>)
        requires
            self.fits(),
        ensures
            final(out)@.len() == old(out)@.len(),
            ({
                let n = self.pixel_pairs(raw@.len(), old(out)@.len());
                &&& final(out)@ == self.painted(raw@, n, old(out)@)
                &&& result is Ok <==> self.colored(raw@, n) == n
                &&& result is Err ==> result == Err::<(), _>(DecodingError::InvalidColorMapIndex)
            }),
    {
        let raw_size = self.raw_bytes_per_pixel;
        let out_size = self.output_bytes_per_pixel;
        let ghost n = self.pixel_pairs(raw@.len(), out@.len());
        let ghost before = out@;
        let ghost mut k: nat = 0;
        let mut rest: &[u8] = raw;
        let mut tail: &mut [u8] = out;
        assert(rest@ == raw@.skip(0));
        assert(tail@ == before.skip(0));
        while rest.len() >= raw_size && tail.len() >= out_size
            invariant
                self.fits(),
                raw_size == self.raw_bytes_per_pixel,
                out_size == self.out_size(),
                before == old(out)@,
                n == self.pixel_pairs(raw@.len(), before.len()),
                k * raw_size <= raw@.len(),
                k * out_size <= before.len(),
                k <= n,
                self.colored(raw@, k) == k,
                rest@ == raw@.skip((k * raw_size) as int),
                tail@ == before.skip((k * out_size) as int),
                after_borrow(out)@ == self.colors(raw@, k) + final(tail)@,
            decreases rest@.len(),
        {
            let (pixel, next_rest) = rest.split_at(raw_size);
            let (chunk, next_tail) = tail.split_at_mut(out_size);
            proof {
                assert(k * raw_size + raw_size == (k + 1) * raw_size) by (nonlinear_arith);
                assert(k * out_size + out_size == (k + 1) * out_size) by (nonlinear_arith);
                self.lemma_pixel_pairs(raw@.len(), before.len(), k + 1);
                assert(pixel@ == self.raw_pixel(raw@, k as int));
                assert(next_rest@ == raw@.skip(((k + 1) * raw_size) as int));
                assert(next_tail@ == before.skip(((k + 1) * out_size) as int));
                self.lemma_colors_len(raw@, k);
                assert(chunk@ + next_tail@ == before.skip((k * out_size) as int));
            }
            match self.expand_pixel(pixel, chunk) {
                Ok(()) => {},
                Err(error) => {
                    proof {
                        self.lemma_colored_stops(raw@, k, n);
                    }
                    return Err(error);
                },
            }
            proof {
                k = k + 1;
            }
            rest = next_rest;
            tail = next_tail;
        }
        proof {
            self.lemma_colors_len(raw@, k);
            self.lemma_pixel_pairs(raw@.len(), before.len(), k + 1);
            assert(k * raw_size + raw_size == (k + 1) * raw_size) by (nonlinear_arith);
            assert(k * out_size + out_size == (k + 1) * out_size) by (nonlinear_arith);
        }
        Ok(())
    }
}

/// Whether a quotient reaches `k` shows in the product.
pub proof fn lemma_quotient(x: nat, d: nat, k: nat)
    requires
        d > 0,
    ensures
        k <= x / d <==> k * d <= x,
{
    assert(x == d * (x / d) + x % d && x % d < d) by {
        vstd::arithmetic::div_mod::lemma_fundamental_div_mod(x as int, d as int);
    }
    let q = x / d;
    if k <= q {
        assert(k * d <= d * q) by (nonlinear_arith)
            requires
                k <= q,
        ;
    } else {
        assert(k * d >= d * q + d) by (nonlinear_arith)
            requires
                k >= q + 1,
        ;
    }
}

/// Copies a slice to another of the same length.
pub fn copy_bytes(from: &[u8], to: &mut [u8])
    requires
        from.len() == old(to).len(),
    ensures
        final(to)@ == from@,
{
    let mut i: usize = 0;
    while i < from.len()
        invariant
            i <= from.len(),
            from.len() == to.len(),
            forall|j: int| 0 <= j < i ==> to@[j] == from@[j],
        decreases from.len() - i,
    {
        to[i] = from[i];
        i = i + 1;
    }
}

/// Pieces, one after the other.
pub open spec fn joined(pieces: Seq<Seq<u8>>) -> Seq<u8>
    decreases pieces.len(),
{
    if pieces.len() == 0 {
        Seq::empty()
    } else {
        joined(pieces.drop_last()) + pieces.last()
    }
}

/// Whether all pieces have the same length.
pub open spec fn all_of_len(pieces: Seq<Seq<u8>>, len: nat) -> bool {
    forall|i: int| 0 <= i < pieces.len() ==> (#[trigger] pieces[i]).len() == len
}

/// Pieces of one length are found again where they stand.
pub proof fn lemma_joined(pieces: Seq<Seq<u8>>, len: nat)
    requires
        all_of_len(pieces, len),
    ensures
        joined(pieces).len() == pieces.len() * len,
        forall|i: int|
            0 <= i < pieces.len() ==> joined(pieces).subrange(i * len, (i + 1) * len)
                == #[trigger] pieces[i],
    decreases pieces.len(),
{
    let n = pieces.len() as int;
    if n > 0 {
        let front = pieces.drop_last();
        lemma_joined(front, len);
        assert((n - 1) * len + len == n * len && 0 <= (n - 1) * len) by (nonlinear_arith)
            requires
                n >= 1,
        ;
        assert forall|i: int| 0 <= i < n implies joined(pieces).subrange(i * len, (i + 1) * len)
            == #[trigger] pieces[i] by {
            if i < n - 1 {
                assert(0 <= i * len <= (i + 1) * len <= (n - 1) * len) by (nonlinear_arith)
                    requires
                        0 <= i,
                        i + 1 <= n - 1,
                ;
                assert(front[i] == pieces[i]);
                assert(joined(pieces).subrange(i * len, (i + 1) * len) =~= joined(front).subrange(
                    i * len,
                    (i + 1) * len,
                ));
            } else {
                assert(joined(pieces).subrange(i * len, (i + 1) * len) =~= pieces[i]);
            }
        }
    } else {
        assert(0 * len == 0) by (nonlinear_arith);
    }
}

/// Joining goes on where it stopped.
pub proof fn lemma_joined_concat(first: Seq<Seq<u8>>, second: Seq<Seq<u8>>)
    ensures
        joined(first + second) == joined(first) + joined(second),
    decreases second.len(),
{
    if second.len() > 0 {
        lemma_joined_concat(first, second.drop_last());
        assert((first + second).drop_last() =~= first + second.drop_last());
        assert(joined(first + second) =~= joined(first) + joined(second));
    } else {
        assert(first + second =~= first);
        assert(joined(first) + joined(second) =~= joined(first));
    }
}

/// The entries of a color map are the colors that its bytes are made of, one after the other and
/// without gaps, from the byte on that the map names as its start; there are no others, also where
/// some bytes are left that are too few for a color.
pub proof fn lemma_entries(
    map: ColorMap,
    before: Seq<u8>,
    colors: Seq<Seq<u8>>,
    rest: Seq<u8>,
    index: int,
)
    requires
        all_of_len(colors, map.entry_size as nat),
        before.len() == map.start_offset,
        rest.len() < map.entry_size,
        map.bytes@ == before + joined(colors) + rest,
        0 <= index,
    ensures
        map.entry(index) == if index < colors.len() {
            Some(colors[index])
        } else {
            None
        },
{
    let size = map.entry_size as int;
    let m = colors.len() as int;
    lemma_joined(colors, size as nat);
    assert(size * index + size == (index + 1) * size && size * index == index * size)
        by (nonlinear_arith);
    if index < m {
        assert(0 <= index * size && (index + 1) * size <= m * size) by (nonlinear_arith)
            requires
                0 <= index,
                index + 1 <= m,
                0 <= size,
        ;
        let start = map.start_offset + index * size;
        assert(map.bytes@.subrange(start, start + size) =~= joined(colors).subrange(
            index * size,
            (index + 1) * size,
        ));
    } else {
        assert(m * size <= index * size) by (nonlinear_arith)
            requires
                m <= index,
                0 <= size,
        ;
    }
}

/// The raw pixel of one or two bytes that stands for an index, least significant byte first.
pub open spec fn index_pixel(index: nat, len: nat) -> Seq<u8> {
    if len == 1 {
        seq![index as u8]
    } else {
        seq![(index % 256) as u8, (index / 256) as u8]
    }
}

/// A raw pixel that holds an index has the color with that number in the map, or none where the map
/// has fewer colors; without a map a raw pixel is its own color.
pub proof fn lemma_color_of_pixel(
    e: PixelExpander,
    before: Seq<u8>,
    colors: Seq<Seq<u8>>,
    rest: Seq<u8>,
    index: nat,
    pixel: Seq<u8>,
)
    requires
        e.color_map matches Some(map) ==> {
            &&& e.raw_bytes_per_pixel == 1 || e.raw_bytes_per_pixel == 2
            &&& index < if e.raw_bytes_per_pixel == 1 { 256nat } else { 65536nat }
            &&& pixel == index_pixel(index, e.raw_bytes_per_pixel as nat)
            &&& all_of_len(colors, map.entry_size as nat)
            &&& before.len() == map.start_offset
            &&& rest.len() < map.entry_size
            &&& map.bytes@ == before + joined(colors) + rest
        },
    ensures
        e.color(pixel) == if e.color_map is Some {
            if index < colors.len() {
                Some(colors[index as int])
            } else {
                None
            }
        } else {
            Some(pixel)
        },
{
    if let Some(map) = e.color_map {
        reveal_with_fuel(little_endian, 3);
        assert(little_endian(pixel) == index) by {
            if e.raw_bytes_per_pixel == 1 {
                assert(pixel.drop_first().len() == 0);
            } else {
                assert(pixel.drop_first().drop_first().len() == 0);
                assert(pixel.drop_first()[0] == pixel[1]);
            }
        }
        lemma_entries(*map, before, colors, rest, index as int);
    }
}

/// What is left in a buffer that raw pixels are expanded into: the colors of all raw pixels before
/// the first that has none, each in the place of its pixel, and behind them what was there before.
pub proof fn lemma_painted(e: PixelExpander, raw: Seq<u8>, n: nat, before: Seq<u8>, i: int, b: int)
    requires
        e.fits(),
        n * e.raw_bytes_per_pixel <= raw.len(),
        n * e.output_bytes_per_pixel <= before.len(),
        0 <= i,
        0 <= b < e.output_bytes_per_pixel,
    ensures
        ({
            let k = e.colored(raw, n) as int;
            let size = e.raw_bytes_per_pixel as int;
            let out = e.output_bytes_per_pixel as int;
            let color = e.color(raw.subrange(i * size, (i + 1) * size));
            let painted = e.painted(raw, n, before);
            &&& k <= n
            &&& painted.len() == before.len()
            &&& i < k ==> color is Some && painted[i * out + b] == color->0[b]
            &&& i == k && k < n ==> color is None
            &&& i >= k && i * out + b < before.len() ==> painted[i * out + b] == before[i * out + b]
        }),
{
    let k = e.colored(raw, n);
    let size = e.raw_bytes_per_pixel as int;
    let out = e.output_bytes_per_pixel as int;
    e.lemma_colored_prefix(raw, n);
    lemma_first_without_color(e, raw, n);
    assert(k * size <= n * size && k * out <= n * out && 0 <= k * out && 0 <= k * size)
        by (nonlinear_arith)
        requires
            0 <= k <= n,
            0 <= size,
            0 <= out,
    ;
    e.lemma_colors_len(raw, k);
    if i < k {
        lemma_color_in_place(e, raw, k, i, b);
        assert(0 <= i * out && i * out + b < k * out) by (nonlinear_arith)
            requires
                0 <= i,
                i + 1 <= k,
                0 <= b < out,
        ;
    } else {
        assert(i * out >= k * out) by (nonlinear_arith)
            requires
                i >= k,
                0 <= out,
        ;
    }
}

/// The pixel at which the colors stop has none.
proof fn lemma_first_without_color(e: PixelExpander, raw: Seq<u8>, n: nat)
    ensures
        e.colored(raw, n) < n ==> e.color(e.raw_pixel(raw, e.colored(raw, n) as int)) is None,
    decreases n,
{
    if n > 0 {
        lemma_first_without_color(e, raw, (n - 1) as nat);
        e.lemma_colored_prefix(raw, (n - 1) as nat);
    }
}

/// Colors stand in the order of the raw pixels.
pub proof fn lemma_color_in_place(e: PixelExpander, raw: Seq<u8>, n: nat, i: int, b: int)
    requires
        e.fits(),
        n * e.raw_bytes_per_pixel <= raw.len(),
        e.colored(raw, n) == n,
        0 <= i < n,
        0 <= b < e.out_size(),
    ensures
        e.color(e.raw_pixel(raw, i)) is Some,
        e.colors(raw, n)[i * e.out_size() + b] == (e.color(e.raw_pixel(raw, i))->0)[b],
    decreases n,
{
    let m = (n - 1) as nat;
    let raw_size = e.raw_bytes_per_pixel as int;
    let out = e.out_size() as int;
    assert(n * raw_size == m * raw_size + raw_size && 0 <= m * raw_size) by (nonlinear_arith)
        requires
            n == m + 1,
            raw_size >= 1,
    ;
    e.lemma_colored_prefix(raw, m);
    e.lemma_colors_len(raw, m);
    e.lemma_color_len(e.raw_pixel(raw, m as int));
    if i < m {
        assert(0 <= i * out && i * out + b < m * out) by (nonlinear_arith)
            requires
                0 <= i,
                i + 1 <= m,
                0 <= b < out,
        ;
        lemma_color_in_place(e, raw, m, i, b);
    }
}

/// Colors fit where pixels of the output have between one and four bytes and raw pixels are such
/// pixels themselves, or indices of one or two bytes into a map whose entries are such pixels.
pub proof fn lemma_fits(e: PixelExpander)
    ensures
        e.color_map is None ==> (e.fits() <==> 1 <= e.raw_bytes_per_pixel
            == e.output_bytes_per_pixel <= 4),
        e.color_map matches Some(map) ==> (e.fits() <==> 1 <= e.raw_bytes_per_pixel <= 2 && 1
            <= map.entry_size == e.output_bytes_per_pixel <= 4 && map.start_offset <= 65535),
        e.sized() <==> 1 <= e.raw_bytes_per_pixel <= 4 && 1 <= e.output_bytes_per_pixel <= 4,
{
}

/// One byte is the number that it spells, and of two the second counts 256 times as much.
pub proof fn lemma_little_endian(bytes: Seq<u8>)
    ensures
        bytes.len() == 1 ==> little_endian(bytes) == bytes[0],
        bytes.len() == 2 ==> little_endian(bytes) == bytes[0] + 256 * bytes[1],
{
    reveal_with_fuel(little_endian, 3);
    if bytes.len() == 1 {
        assert(bytes.drop_first().len() == 0);
    } else if bytes.len() == 2 {
        assert(bytes.drop_first().drop_first().len() == 0);
        assert(bytes.drop_first()[0] == bytes[1]);
    }
}

} // verus!
