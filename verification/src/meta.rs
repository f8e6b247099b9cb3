//! Metadata that an atlas carries in the pixels of one of its regions.

use crate::blob::Blob;
use crate::color::Color;
use crate::frames::Anchor;
use crate::grid::PixelGrid;
use vstd::prelude::*;

verus! {

/// First byte of every metadata payload.
pub const MAGIC: u8 = 0b10101010;

/// What one pixel of a candidate metadata region stands for.
#[derive(Clone, Copy, Debug, PartialEq, Eq, Structural)]
pub enum MetablobPixel {
    /// A zero bit.
    Black,
    /// A one bit.
    White,
    /// No bit at all: the pixel is skipped.
    Transparent,
    /// A colour that no metadata region may hold.
    Wrong,
}

/// Metadata carried by an atlas inside one of its regions.
#[derive(Clone, Copy, Debug, PartialEq, Eq, Structural)]
pub struct Metablob {
    /// Border to trim from every frame.
    pub pad_blob: u32,
    /// Reserved; always `TopLeft` for now.
    pub anchor: Anchor,
}

/// Transparency is tested first, then black, then white.
pub open spec fn classify(color: Color) -> MetablobPixel {
    if color.is_alpha() {
        MetablobPixel::Transparent
    } else if color.is_black() {
        MetablobPixel::Black
    } else if color.is_white() {
        MetablobPixel::White
    } else {
        MetablobPixel::Wrong
    }
}

/// Some pixel of the box is neither black, white nor transparent.
pub open spec fn has_foreign_pixel(grid: PixelGrid, blob: Blob) -> bool {
    exists|x: int, y: int| blob.contains(x, y) && #[trigger] classify(grid.pixel(x, y)) == MetablobPixel::Wrong
}

/// The bits spelled by the pixels of row `y` in columns `x_lo..x_hi`, left to
/// right: transparent pixels give nothing, white gives 1, anything else 0.
pub open spec fn row_bits(grid: PixelGrid, y: int, x_lo: int, x_hi: int) -> Seq<bool>
    decreases x_hi - x_lo,
{
    if x_hi <= x_lo {
        Seq::empty()
    } else {
        let before = row_bits(grid, y, x_lo, x_hi - 1);
        let color = grid.pixel(x_hi - 1, y);
        if color.is_alpha() {
            before
        } else {
            before.push(color.is_white())
        }
    }
}

/// The bits spelled by the rows of the box above row `y_hi`, top to bottom.
pub open spec fn rows_bits(grid: PixelGrid, blob: Blob, y_hi: int) -> Seq<bool>
    decreases y_hi - blob.y_min,
{
    if y_hi <= blob.y_min {
        Seq::empty()
    } else {
        rows_bits(grid, blob, y_hi - 1) + row_bits(grid, y_hi - 1, blob.x_min as int, blob.x_max + 1)
    }
}

/// All bits of the box in reading order.
pub open spec fn region_bits(grid: PixelGrid, blob: Blob) -> Seq<bool> {
    rows_bits(grid, blob, blob.y_max + 1)
}

/// Bit `i` as a number; positions past the end count as 0.
pub open spec fn bit(bits: Seq<bool>, i: int) -> nat {
    if 0 <= i < bits.len() && bits[i] {
        1
    } else {
        0
    }
}

/// 2 to the power `j`.
pub open spec fn weight(j: nat) -> nat
    decreases j,
{
    if j == 0 {
        1
    } else {
        2 * weight((j - 1) as nat)
    }
}

/// The number whose binary digits, lowest first, are the `n` bits from `base` on.
pub open spec fn low_bits(bits: Seq<bool>, base: int, n: nat) -> nat
    decreases n,
{
    if n == 0 {
        0
    } else {
        low_bits(bits, base, (n - 1) as nat) + bit(bits, base + n - 1) * weight((n - 1) as nat)
    }
}

/// The bits grouped into bytes, eight to a byte, lowest bit first; a last
/// group that is short is filled up with zeros.
pub open spec fn packed(bits: Seq<bool>) -> Seq<u8> {
    Seq::new(((bits.len() + 7) / 8) as nat, |k: int| low_bits(bits, 8 * k, 8) as u8)
}

/// The length field: two bytes, high byte first.
pub open spec fn declared_len(bytes: Seq<u8>) -> int {
    bytes[1] * 256 + bytes[2]
}

/// The padding byte of a payload whose header is in order: the magic byte
/// leads, the declared length plus the three header bytes fits into what was
/// decoded, and the padding byte is there.
pub open spec fn parse_header(bytes: Seq<u8>) -> Option<u8> {
    if bytes.len() >= 4 && bytes[0] == MAGIC && declared_len(bytes) + 3 <= bytes.len() {
        Some(bytes[3])
    } else {
        None
    }
}

/// What the box decodes to as a metadata region, if it is one.
pub open spec fn decode(grid: PixelGrid, blob: Blob) -> Option<Metablob> {
    if has_foreign_pixel(grid, blob) {
        None
    } else {
        match parse_header(packed(region_bits(grid, blob))) {
            Some(pad) => Some(Metablob { pad_blob: pad as u32, anchor: Anchor::TopLeft }),
            None => None,
        }
    }
}

/// The bits that spell the bytes: eight for each byte, lowest first.
pub open spec fn bits_of(bytes: Seq<u8>) -> Seq<bool> {
    Seq::new(8 * bytes.len(), |i: int| (bytes[i / 8] as nat / weight((i % 8) as nat)) % 2 == 1)
}

/// A byte is the sum of its binary digits, each times its power of two.
pub proof fn lemma_byte_digits(b: u8)
    ensures
        b == (b as nat / 1) % 2 + (b as nat / 2) % 2 * 2 + (b as nat / 4) % 2 * 4 + (b as nat / 8) % 2 * 8
            + (b as nat / 16) % 2 * 16 + (b as nat / 32) % 2 * 32 + (b as nat / 64) % 2 * 64 + (b as nat
            / 128) % 2 * 128,
{
    let q0 = b as nat;
    let q1 = q0 / 2;
    let q2 = q1 / 2;
    let q3 = q2 / 2;
    let q4 = q3 / 2;
    let q5 = q4 / 2;
    let q6 = q5 / 2;
    let q7 = q6 / 2;
    assert(q7 / 2 == 0);
    assert(q2 == q0 / 4);
    assert(q3 == q0 / 8);
    assert(q4 == q0 / 16);
    assert(q5 == q0 / 32);
    assert(q6 == q0 / 64);
    assert(q7 == q0 / 128);
    assert(q0 == 2 * q1 + q0 % 2);
    assert(q1 == 2 * q2 + q1 % 2);
    assert(q2 == 2 * q3 + q2 % 2);
    assert(q3 == 2 * q4 + q3 % 2);
    assert(q4 == 2 * q5 + q4 % 2);
    assert(q5 == 2 * q6 + q5 % 2);
    assert(q6 == 2 * q7 + q6 % 2);
    assert(q7 == q7 % 2);
}

/// Packing the bits that spell some bytes gives those bytes back.
pub proof fn lemma_pack_bits_of(bytes: Seq<u8>)
    ensures
        packed(bits_of(bytes)) == bytes,
{
    let bits = bits_of(bytes);
    assert(packed(bits).len() == bytes.len());
    assert forall|k: int| 0 <= k < bytes.len() implies packed(bits)[k] == bytes[k] by {
        reveal_with_fuel(low_bits, 9);
        reveal_with_fuel(weight, 9);
        lemma_byte_digits(bytes[k]);
        let b = bytes[k] as nat;
        assert(bit(bits, 8 * k + 0) == (b / 1) % 2);
        assert(bit(bits, 8 * k + 1) == (b / 2) % 2);
        assert(bit(bits, 8 * k + 2) == (b / 4) % 2);
        assert(bit(bits, 8 * k + 3) == (b / 8) % 2);
        assert(bit(bits, 8 * k + 4) == (b / 16) % 2);
        assert(bit(bits, 8 * k + 5) == (b / 32) % 2);
        assert(bit(bits, 8 * k + 6) == (b / 64) % 2);
        assert(bit(bits, 8 * k + 7) == (b / 128) % 2);
        assert(low_bits(bits, 8 * k, 8) == b);
    }
    assert(packed(bits) =~= bytes);
}

/// A region that spells a payload decodes to the padding byte of that
/// payload: the payload starts with the magic byte, names in its next two
/// bytes a length that, with the three header bytes, does not go beyond its
/// end, and has the padding as its fourth byte. The region spells it in black
/// and white pixels in reading order, with transparent pixels anywhere
/// between them.
pub proof fn lemma_spelled_payload_decodes(grid: PixelGrid, blob: Blob, bytes: Seq<u8>)
    requires
        !has_foreign_pixel(grid, blob),
        region_bits(grid, blob) == bits_of(bytes),
        bytes.len() >= 4,
        bytes[0] == MAGIC,
        declared_len(bytes) + 3 <= bytes.len(),
    ensures
        decode(grid, blob) == Some(Metablob { pad_blob: bytes[3] as u32, anchor: Anchor::TopLeft }),
{
    lemma_pack_bits_of(bytes);
}

/// One pixel that is neither black, white nor transparent, anywhere in the
/// region, and the region does not decode.
pub proof fn lemma_foreign_pixel_refuses(grid: PixelGrid, blob: Blob, x: int, y: int)
    requires
        blob.contains(x, y),
        classify(grid.pixel(x, y)) == MetablobPixel::Wrong,
    ensures
        decode(grid, blob).is_none(),
{
}

pub proof fn lemma_low_bits_bound(bits: Seq<bool>, base: int, n: nat)
    ensures
        low_bits(bits, base, n) < weight(n),
    decreases n,
{
    if n > 0 {
        lemma_low_bits_bound(bits, base, (n - 1) as nat);
    }
}

pub fn metablob_pixel_sorter(color: Color) -> (kind: MetablobPixel)
    ensures
        kind == classify(color),
{
    if color.is_alpha() {
        return MetablobPixel::Transparent;
    }
    if color.is_black() {
        return MetablobPixel::Black;
    }
    if color.is_white() {
        return MetablobPixel::White;
    }
    MetablobPixel::Wrong
}

/// Groups bits into bytes, lowest bit first.
pub fn pack_bits(bits: &Vec<bool>) -> (bytes: Vec<u8>)
    ensures
        bytes@ == packed(bits@),
{
    let len = bits.len();
    let count: usize = len / 8 + if len % 8 != 0 { 1usize } else { 0usize };
    let mut bytes: Vec<u8> = Vec::new();
    let mut k: usize = 0;
    while k < count
        invariant
            len == bits@.len(),
            count == (len + 7) / 8,
            k <= count,
            bytes@.len() == k,
            forall|i: int| 0 <= i < k ==> bytes@[i] == low_bits(bits@, 8 * i, 8) as u8,
        decreases count - k,
    {
        let base: usize = 8 * k;
        let mut byte: u16 = 0;
        let mut unit: u16 = 1;
        let mut j: usize = 0;
        while j < 8
            invariant
                len == bits@.len(),
                base < len,
                j <= 8,
                unit == weight(j as nat),
                byte == low_bits(bits@, base as int, j as nat),
                byte < unit,
                unit <= 256,
            decreases 8 - j,
        {
            proof {
                reveal_with_fuel(weight, 10);
                lemma_low_bits_bound(bits@, base as int, (j + 1) as nat);
            }
            if j < len - base && bits[base + j] {
                byte = byte + unit;
            }
            if j < 7 {
                unit = unit * 2;
            } else {
                unit = 256;
            }
            j = j + 1;
        }
        bytes.push(byte as u8);
        k = k + 1;
    }
    assert(bytes@ =~= packed(bits@));
    bytes
}

/// Reads the header of a decoded payload and hands out its padding byte.
pub fn read_header(bytes: &Vec<u8>) -> (pad: Option<u8>)
    ensures
        pad == parse_header(bytes@),
{
    if bytes.len() < 4 || bytes[0] != MAGIC {
        return None;
    }
    let data_len: usize = bytes[1] as usize * 256 + bytes[2] as usize;
    if data_len + 3 > bytes.len() {
        return None;
    }
    Some(bytes[3])
}

/// Reads the box as a metadata region. Any pixel that is neither black, white
/// nor transparent, a wrong magic byte or a length that overruns the payload
/// gives `None`: the box is then an ordinary frame.
pub fn try_parse_as_metablob(grid: &PixelGrid, blob: &Blob) -> (out: Option<Metablob>)
    requires
        grid.wf(),
        grid.holds(*blob),
    ensures
        out == decode(*grid, *blob),
{
    let mut bits: Vec<bool> = Vec::new();
    let x_start: usize = blob.x_min as usize;
    let x_end: usize = blob.x_max as usize + 1;
    let y_end: usize = blob.y_max as usize + 1;
    let mut y: usize = blob.y_min as usize;
    while y < y_end
        invariant
            grid.wf(),
            grid.holds(*blob),
            x_start == blob.x_min,
            x_end == blob.x_max + 1,
            y_end == blob.y_max + 1,
            blob.y_min <= y <= y_end,
            bits@ == rows_bits(*grid, *blob, y as int),
            forall|px: int, py: int|
                blob.x_min <= px <= blob.x_max && blob.y_min <= py < y ==> #[trigger] classify(
                    grid.pixel(px, py),
                ) != MetablobPixel::Wrong,
        decreases y_end - y,
    {
        let ghost above = bits@;
        let mut x: usize = x_start;
        while x < x_end
            invariant
                grid.wf(),
                grid.holds(*blob),
                x_start == blob.x_min,
                x_end == blob.x_max + 1,
                blob.y_min <= y <= blob.y_max,
                x_start <= x <= x_end,
                bits@ == above + row_bits(*grid, y as int, blob.x_min as int, x as int),
                forall|px: int, py: int|
                    blob.x_min <= px <= blob.x_max && blob.y_min <= py < y ==> #[trigger] classify(
                        grid.pixel(px, py),
                    ) != MetablobPixel::Wrong,
                forall|px: int|
                    blob.x_min <= px < x ==> #[trigger] classify(grid.pixel(px, y as int))
                        != MetablobPixel::Wrong,
            decreases x_end - x,
        {
            let color = grid.at(x, y);
            let ghost row = row_bits(*grid, y as int, blob.x_min as int, x as int);
            match metablob_pixel_sorter(color) {
                MetablobPixel::Black => {
                    bits.push(false);
                    assert(bits@ == above + row.push(false));
                },
                MetablobPixel::White => {
                    bits.push(true);
                    assert(bits@ == above + row.push(true));
                },
                MetablobPixel::Transparent => {},
                MetablobPixel::Wrong => {
                    assert(blob.contains(x as int, y as int));
                    return None;
                },
            }
            x = x + 1;
        }
        y = y + 1;
    }
    let bytes = pack_bits(&bits);
    match read_header(&bytes) {
        Some(pad) => Some(Metablob { pad_blob: pad as u32, anchor: Anchor::TopLeft }),
        None => None,
    }
}

} // verus!
