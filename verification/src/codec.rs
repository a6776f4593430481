//! Packing of fixed-width symbols into bytes.
//!
//! A symbol of width `w`, from one to seven bits, is a byte below `2^w`.
//! Symbols are written one after the other, most significant bit first,
//! with no regard to byte boundaries. The symbol of `w` ones is the
//! sentinel: it fills what is left of the last byte, as often as it fits
//! whole, and is dropped again on unpacking.

use vstd::arithmetic::div_mod::lemma_fundamental_div_mod_converse;
use vstd::prelude::*;

use crate::action::{Action, Move, QuarterTurn, Turn};
use crate::cubelet::{lemma_of_ordinal, Axis, Face, Rotation};

verus! {

/// The bit of a byte sequence at a position, counted from the most
/// significant bit of the first byte.
pub open spec fn bit_at(bytes: Seq<u8>, j: int) -> bool {
    (bytes[j / 8] >> ((7 - j % 8) as u8)) & 1 == 1
}

/// The bit of a symbol of a given width at a position, counted from the
/// most significant of its bits.
pub open spec fn symbol_bit(v: u8, width: int, r: int) -> bool {
    (v >> ((width - 1 - r) as u8)) & 1 == 1
}

/// Whether a byte is a symbol of a given width.
pub open spec fn is_symbol(v: u8, width: int) -> bool {
    v >> (width as u8) == 0
}

/// The symbol of `width` ones.
pub open spec fn sentinel(width: int) -> u8 {
    0xffu8 >> ((8 - width) as u8)
}

/// The number of bytes that `n` symbols of a given width take.
pub open spec fn packed_len(n: int, width: int) -> int {
    (n * width + 7) / 8
}

/// The number of symbols of a given width that `len` bytes hold.
pub open spec fn unpacked_len(len: int, width: int) -> int {
    (len * 8) / width
}

/// The bit at a position of the packing of some symbols into `len` bytes:
/// a bit of a symbol, then ones as far as whole sentinels fit, then
/// zeros.
pub open spec fn stream_bit(symbols: Seq<u8>, width: int, len: int, j: int) -> bool {
    let k = j / width;
    if k < symbols.len() {
        symbol_bit(symbols[k], width, j % width)
    } else {
        (k + 1) * width <= len * 8
    }
}

/// Whether `bytes` is the packing of the symbols.
pub open spec fn is_packing(symbols: Seq<u8>, width: int, bytes: Seq<u8>) -> bool {
    &&& bytes.len() == packed_len(symbols.len() as int, width)
    &&& forall|j: int|
        0 <= j < bytes.len() * 8 ==> bit_at(bytes, j) == #[trigger] stream_bit(
            symbols,
            width,
            bytes.len() as int,
            j,
        )
}

/// The packing of the symbols.
pub open spec fn packing(symbols: Seq<u8>, width: int) -> Seq<u8> {
    choose|bytes: Seq<u8>| is_packing(symbols, width, bytes)
}

/// Whether `symbols` are all the symbols of a given width that `bytes`
/// hold, sentinels among them.
pub open spec fn is_unpacking(bytes: Seq<u8>, width: int, symbols: Seq<u8>) -> bool {
    &&& symbols.len() == unpacked_len(bytes.len() as int, width)
    &&& forall|k: int| 0 <= k < symbols.len() ==> is_symbol(#[trigger] symbols[k], width)
    &&& forall|k: int, r: int|
        0 <= k < symbols.len() && 0 <= r < width ==> #[trigger] symbol_bit(symbols[k], width, r)
            == bit_at(bytes, k * width + r)
}

/// Setting one bit of a byte changes that bit and no other.
proof fn lemma_set_bit(b: u8, p: u8, q: u8)
    by (bit_vector)
    requires
        p < 8,
        q < 8,
    ensures
        ((b | (1u8 << p)) >> q) & 1 == if p == q {
            1u8
        } else {
            (b >> q) & 1
        },
        (0u8 >> q) & 1 == 0,
{
}

/// A symbol with one more bit written behind it.
proof fn lemma_append_bit(v: u8, bit: u8, r: u8, q: u8)
    by (bit_vector)
    requires
        r < 7,
        v >> r == 0,
        bit <= 1,
        q <= r,
    ensures
        ((v << 1) | bit) >> ((r + 1) as u8) == 0,
        q == 0 ==> (((v << 1) | bit) >> q) & 1 == bit,
        q > 0 ==> (((v << 1) | bit) >> q) & 1 == (v >> ((q - 1) as u8)) & 1,
{
}

/// Two symbols of one width with the same bits are the same symbol.
proof fn lemma_same_bits(x: u8, y: u8, w: u8)
    by (bit_vector)
    requires
        1 <= w <= 7,
        x >> w == 0,
        y >> w == 0,
        (x >> 0u8) & 1 == (y >> 0u8) & 1,
        w > 1 ==> (x >> 1u8) & 1 == (y >> 1u8) & 1,
        w > 2 ==> (x >> 2u8) & 1 == (y >> 2u8) & 1,
        w > 3 ==> (x >> 3u8) & 1 == (y >> 3u8) & 1,
        w > 4 ==> (x >> 4u8) & 1 == (y >> 4u8) & 1,
        w > 5 ==> (x >> 5u8) & 1 == (y >> 5u8) & 1,
        w > 6 ==> (x >> 6u8) & 1 == (y >> 6u8) & 1,
    ensures
        x == y,
{
}

/// The sentinel is a symbol, and all its bits are ones; a bit of any
/// symbol is a zero or a one.
proof fn lemma_sentinel_bits(w: u8, q: u8)
    by (bit_vector)
    requires
        1 <= w <= 7,
        q < w,
    ensures
        (0xffu8 >> ((8 - w) as u8)) >> w == 0,
        ((0xffu8 >> ((8 - w) as u8)) >> q) & 1 == 1,
{
}

/// Two bytes with the same bits are the same byte.
proof fn lemma_same_byte(x: u8, y: u8)
    by (bit_vector)
    requires
        (x >> 0u8) & 1 == (y >> 0u8) & 1,
        (x >> 1u8) & 1 == (y >> 1u8) & 1,
        (x >> 2u8) & 1 == (y >> 2u8) & 1,
        (x >> 3u8) & 1 == (y >> 3u8) & 1,
        (x >> 4u8) & 1 == (y >> 4u8) & 1,
        (x >> 5u8) & 1 == (y >> 5u8) & 1,
        (x >> 6u8) & 1 == (y >> 6u8) & 1,
        (x >> 7u8) & 1 == (y >> 7u8) & 1,
    ensures
        x == y,
{
}

/// The bits of a byte are zeros and ones.
proof fn lemma_bit_values(x: u8, q: u8)
    by (bit_vector)
    ensures
        (x >> q) & 1 == 0 || (x >> q) & 1 == 1,
{
}

/// The byte with the given bits, the most significant first.
pub open spec fn byte_of_bits(bits: spec_fn(int) -> bool) -> u8 {
    (if bits(0) { 0x80u8 } else { 0 }) | (if bits(1) { 0x40u8 } else { 0 }) | (if bits(2) {
        0x20u8
    } else {
        0
    }) | (if bits(3) { 0x10u8 } else { 0 }) | (if bits(4) { 0x08u8 } else { 0 }) | (if bits(5) {
        0x04u8
    } else {
        0
    }) | (if bits(6) { 0x02u8 } else { 0 }) | (if bits(7) { 0x01u8 } else { 0 })
}

/// The bits of a byte that is put together from eight bits.
proof fn lemma_byte_of_bits(x0: u8, x1: u8, x2: u8, x3: u8, x4: u8, x5: u8, x6: u8, x7: u8)
    by (bit_vector)
    requires
        x0 == 0 || x0 == 0x80,
        x1 == 0 || x1 == 0x40,
        x2 == 0 || x2 == 0x20,
        x3 == 0 || x3 == 0x10,
        x4 == 0 || x4 == 0x08,
        x5 == 0 || x5 == 0x04,
        x6 == 0 || x6 == 0x02,
        x7 == 0 || x7 == 0x01,
    ensures
        (((x0 | x1 | x2 | x3 | x4 | x5 | x6 | x7) >> 7u8) & 1 == 1) == (x0 != 0),
        (((x0 | x1 | x2 | x3 | x4 | x5 | x6 | x7) >> 6u8) & 1 == 1) == (x1 != 0),
        (((x0 | x1 | x2 | x3 | x4 | x5 | x6 | x7) >> 5u8) & 1 == 1) == (x2 != 0),
        (((x0 | x1 | x2 | x3 | x4 | x5 | x6 | x7) >> 4u8) & 1 == 1) == (x3 != 0),
        (((x0 | x1 | x2 | x3 | x4 | x5 | x6 | x7) >> 3u8) & 1 == 1) == (x4 != 0),
        (((x0 | x1 | x2 | x3 | x4 | x5 | x6 | x7) >> 2u8) & 1 == 1) == (x5 != 0),
        (((x0 | x1 | x2 | x3 | x4 | x5 | x6 | x7) >> 1u8) & 1 == 1) == (x6 != 0),
        (((x0 | x1 | x2 | x3 | x4 | x5 | x6 | x7) >> 0u8) & 1 == 1) == (x7 != 0),
{
}

/// Every sequence of symbols has a packing.
#[verifier::rlimit(60)]
pub proof fn lemma_packing_exists(symbols: Seq<u8>, width: int)
    requires
        1 <= width <= 7,
    ensures
        is_packing(symbols, width, packing(symbols, width)),
{
    let len = packed_len(symbols.len() as int, width);
    assert(len >= 0) by (nonlinear_arith)
        requires
            len == (symbols.len() * width + 7) / 8,
            width >= 1,
    ;
    let bytes = Seq::new(
        len as nat,
        |i: int| byte_of_bits(|q: int| stream_bit(symbols, width, len, i * 8 + q)),
    );
    assert forall|j: int| 0 <= j < bytes.len() * 8 implies bit_at(bytes, j) == #[trigger] stream_bit(
        symbols,
        width,
        bytes.len() as int,
        j,
    ) by {
        let i = j / 8;
        let q = j % 8;
        assert(0 <= i < len && 0 <= q < 8 && i * 8 + q == j);
        let bits = |q: int| stream_bit(symbols, width, len, i * 8 + q);
        assert(bytes[i] == byte_of_bits(bits));
        lemma_byte_of_bits(
            if bits(0) { 0x80u8 } else { 0 },
            if bits(1) { 0x40u8 } else { 0 },
            if bits(2) { 0x20u8 } else { 0 },
            if bits(3) { 0x10u8 } else { 0 },
            if bits(4) { 0x08u8 } else { 0 },
            if bits(5) { 0x04u8 } else { 0 },
            if bits(6) { 0x02u8 } else { 0 },
            if bits(7) { 0x01u8 } else { 0 },
        );
        assert(i * 8 + q == j);
        assert(bits(q) == stream_bit(symbols, width, len, j));
    }
    assert(is_packing(symbols, width, bytes));
}

/// Symbols have one packing only.
pub proof fn lemma_packing_unique(symbols: Seq<u8>, width: int, bytes: Seq<u8>)
    requires
        is_packing(symbols, width, bytes),
    ensures
        bytes == packing(symbols, width),
{
    let other = packing(symbols, width);
    assert(is_packing(symbols, width, other));
    let len = bytes.len() as int;
    assert forall|i: int| 0 <= i < len implies bytes[i] == other[i] by {
        assert forall|q: u8| q < 8 implies (bytes[i] >> q) & 1 == (other[i] >> q) & 1 by {
            let j = i * 8 + (7 - q);
            assert(j / 8 == i && j % 8 == 7 - q);
            assert(bit_at(bytes, j) == stream_bit(symbols, width, len, j));
            assert(bit_at(other, j) == stream_bit(symbols, width, len, j));
            assert((7 - j % 8) as u8 == q);
            lemma_bit_values(bytes[i], q);
            lemma_bit_values(other[i], q);
        }
        assert((bytes[i] >> 0u8) & 1 == (other[i] >> 0u8) & 1);
        assert((bytes[i] >> 7u8) & 1 == (other[i] >> 7u8) & 1);
        lemma_same_byte(bytes[i], other[i]);
    }
    assert(bytes =~= other);
}

/// Two symbols of one width whose bits agree, position by position, are
/// the same symbol.
pub proof fn lemma_symbol_by_bits(x: u8, y: u8, width: int)
    requires
        1 <= width <= 7,
        is_symbol(x, width),
        is_symbol(y, width),
        forall|r: int| 0 <= r < width ==> symbol_bit(x, width, r) == symbol_bit(y, width, r),
    ensures
        x == y,
{
    let w = width as u8;
    assert forall|q: u8| q < w implies (x >> q) & 1 == (y >> q) & 1 by {
        let r = width - 1 - q;
        assert(symbol_bit(x, width, r) == symbol_bit(y, width, r));
        assert((width - 1 - r) as u8 == q);
        assert((x >> q) & 1 == 0 || (x >> q) & 1 == 1) by (bit_vector);
        assert((y >> q) & 1 == 0 || (y >> q) & 1 == 1) by (bit_vector);
    }
    assert((x >> 0u8) & 1 == (y >> 0u8) & 1);
    lemma_same_bits(x, y, w);
}

/// The position of a bit of a symbol in the stream.
pub proof fn lemma_symbol_position(k: int, width: int, r: int)
    requires
        0 <= k,
        0 <= r < width,
    ensures
        (k * width + r) / width == k,
        (k * width + r) % width == r,
        k * width + r >= 0,
{
    lemma_fundamental_div_mod_converse(k * width + r, width, k, r);
    assert(k * width >= 0) by (nonlinear_arith)
        requires
            k >= 0,
            width > 0,
    ;
}

/// The symbols that stand whole in `len` bytes end within them.
pub proof fn lemma_symbol_within(k: int, width: int, len: int)
    requires
        0 <= k < unpacked_len(len, width),
        0 < width,
        0 <= len,
    ensures
        (k + 1) * width <= len * 8,
{
    assert((k + 1) * width <= len * 8) by (nonlinear_arith)
        requires
            k + 1 <= (len * 8) / width,
            0 < width,
            0 <= len,
    {
        assert(((len * 8) / width) * width <= len * 8);
    }
}

/// Unpacking what was packed gives the symbols back, followed by the
/// sentinels that filled the last byte.
pub proof fn lemma_unpack_pack(symbols: Seq<u8>, width: int, bytes: Seq<u8>, unpacked: Seq<u8>)
    requires
        1 <= width <= 7,
        forall|k: int| 0 <= k < symbols.len() ==> is_symbol(#[trigger] symbols[k], width),
        is_packing(symbols, width, bytes),
        is_unpacking(bytes, width, unpacked),
    ensures
        unpacked.len() >= symbols.len(),
        unpacked.take(symbols.len() as int) == symbols,
        forall|k: int| symbols.len() <= k < unpacked.len() ==> unpacked[k] == sentinel(width),
{
    let n = symbols.len() as int;
    let len = bytes.len() as int;
    assert(unpacked.len() >= n) by (nonlinear_arith)
        requires
            unpacked.len() == (len * 8) / width,
            len == (n * width + 7) / 8,
            1 <= width <= 7,
            0 <= n,
    {
        assert(len * 8 >= n * width);
        assert((n * width) / width == n);
        assert((len * 8) / width >= (n * width) / width);
    }
    assert forall|k: int| 0 <= k < unpacked.len() implies unpacked[k] == (if k < n {
        symbols[k]
    } else {
        sentinel(width)
    }) by {
        let want = if k < n {
            symbols[k]
        } else {
            sentinel(width)
        };
        lemma_symbol_within(k, width, len);
        lemma_sentinel_bits(width as u8, 0);
        assert forall|r: int| 0 <= r < width implies symbol_bit(unpacked[k], width, r)
            == symbol_bit(want, width, r) by {
            lemma_symbol_position(k, width, r);
            let j = k * width + r;
            assert(j < len * 8) by (nonlinear_arith)
                requires
                    j == k * width + r,
                    r < width,
                    (k + 1) * width <= len * 8,
            ;
            assert(symbol_bit(unpacked[k], width, r) == bit_at(bytes, j));
            assert(bit_at(bytes, j) == stream_bit(symbols, width, len, j));
            if k >= n {
                lemma_sentinel_bits(width as u8, (width - 1 - r) as u8);
            }
        }
        lemma_symbol_by_bits(unpacked[k], want, width);
    }
    assert(unpacked.take(n) =~= symbols);
}

/// A sequence of symbols has one packing, and a packing is of one
/// sequence of symbols of a given length.
pub proof fn lemma_packing_injective(a: Seq<u8>, b: Seq<u8>, width: int, bytes: Seq<u8>)
    requires
        1 <= width <= 7,
        a.len() == b.len(),
        forall|k: int| 0 <= k < a.len() ==> is_symbol(#[trigger] a[k], width),
        forall|k: int| 0 <= k < b.len() ==> is_symbol(#[trigger] b[k], width),
        is_packing(a, width, bytes),
        is_packing(b, width, bytes),
    ensures
        a == b,
{
    let len = bytes.len() as int;
    let n = a.len() as int;
    assert forall|k: int| 0 <= k < n implies a[k] == b[k] by {
        assert forall|r: int| 0 <= r < width implies symbol_bit(a[k], width, r) == symbol_bit(
            b[k],
            width,
            r,
        ) by {
            lemma_symbol_position(k, width, r);
            let j = k * width + r;
            assert(j < len * 8) by (nonlinear_arith)
                requires
                    j == k * width + r,
                    r < width,
                    k < n,
                    len == (n * width + 7) / 8,
                    0 < width,
            {
                assert((k + 1) * width <= n * width);
            }
            assert(bit_at(bytes, j) == stream_bit(a, width, len, j));
            assert(bit_at(bytes, j) == stream_bit(b, width, len, j));
        }
        lemma_symbol_by_bits(a[k], b[k], width);
    }
    assert(a =~= b);
}

/// Packs symbols of a given width into bytes.
pub fn pack_bits(symbols: &[u8], width: usize) -> (bytes: Vec<u8>)
    requires
        1 <= width <= 7,
        symbols.len() * 7 + 7 <= usize::MAX,
    ensures
        is_packing(symbols@, width as int, bytes@),
        bytes@ == packing(symbols@, width as int),
{
    let n = symbols.len();
    assert(n * width <= n * 7) by (nonlinear_arith)
        requires
            width <= 7,
            0 <= n,
    ;
    let new_bits = n * width;
    let size = (new_bits + 7) / 8;
    let mut bytes: Vec<u8> = Vec::new();
    let mut i: usize = 0;
    while i < size
        invariant
            i <= size,
            bytes@.len() == i,
            forall|k: int| 0 <= k < i ==> #[trigger] bytes@[k] == 0,
        decreases size - i,
    {
        bytes.push(0);
        i += 1;
    }
    let total = size * 8;
    let mut j: usize = 0;
    proof {
        assert forall|p: int| 0 <= p < total implies !bit_at(bytes@, p) by {
            lemma_set_bit(0, 0, (7 - p % 8) as u8);
        }
    }
    while j < total
        invariant
            j <= total,
            total == size * 8,
            size == packed_len(n as int, width as int),
            n == symbols@.len(),
            1 <= width <= 7,
            bytes@.len() == size,
            forall|p: int| 0 <= p < j ==> bit_at(bytes@, p) == #[trigger] stream_bit(
                symbols@,
                width as int,
                size as int,
                p,
            ),
            forall|p: int| j <= p < total ==> !#[trigger] bit_at(bytes@, p),
        decreases total - j,
    {
        let k = j / width;
        let r = j % width;
        assert(k * width <= j) by (nonlinear_arith)
            requires
                k == j / width,
                width > 0,
        ;
        assert((k + 1) * width == k * width + width) by (nonlinear_arith);
        let bit = if k < n {
            (symbols[k] >> ((width - 1 - r) as u8)) & 1 == 1
        } else {
            k * width <= total - width
        };
        let at = j / 8;
        let shift = (7 - j % 8) as u8;
        let ghost before = bytes@;
        if bit {
            let byte = bytes[at];
            bytes[at] = byte | (1u8 << shift);
        }
        proof {
            assert forall|p: int| 0 <= p < total implies bit_at(bytes@, p) == (if p == j {
                bit
            } else {
                bit_at(before, p)
            }) by {
                let q = (7 - p % 8) as u8;
                if p / 8 == at {
                    lemma_set_bit(before[at as int], shift, q);
                }
            }
            assert(bit == stream_bit(symbols@, width as int, size as int, j as int));
        }
        j += 1;
    }
    proof {
        lemma_packing_unique(symbols@, width as int, bytes@);
    }
    bytes
}

/// Reads all the symbols of a given width that stand whole in the bytes,
/// sentinels among them.
pub fn unpack_bits(bytes: &[u8], width: usize) -> (symbols: Vec<u8>)
    requires
        1 <= width <= 7,
        bytes.len() * 8 <= usize::MAX,
    ensures
        is_unpacking(bytes@, width as int, symbols@),
{
    let size = bytes.len() * 8 / width;
    let mut symbols: Vec<u8> = Vec::new();
    let mut k: usize = 0;
    while k < size
        invariant
            k <= size,
            size == unpacked_len(bytes@.len() as int, width as int),
            1 <= width <= 7,
            bytes.len() * 8 <= usize::MAX,
            symbols@.len() == k,
            forall|i: int| 0 <= i < k ==> is_symbol(#[trigger] symbols@[i], width as int),
            forall|i: int, r: int|
                0 <= i < k && 0 <= r < width ==> #[trigger] symbol_bit(
                    symbols@[i],
                    width as int,
                    r,
                ) == bit_at(bytes@, i * width + r),
        decreases size - k,
    {
        proof {
            lemma_symbol_within(k as int, width as int, bytes@.len() as int);
            assert((k + 1) * width == k * width + width) by (nonlinear_arith);
        }
        let start = k * width;
        let mut v: u8 = 0;
        let mut r: usize = 0;
        assert(0u8 >> 0u8 == 0) by (bit_vector);
        while r < width
            invariant
                r <= width,
                1 <= width <= 7,
                start + width <= bytes@.len() * 8,
                bytes@.len() * 8 <= usize::MAX,
                v >> (r as u8) == 0,
                forall|t: int|
                    0 <= t < r ==> #[trigger] symbol_bit(v, r as int, t) == bit_at(
                        bytes@,
                        start + t,
                    ),
            decreases width - r,
        {
            let j = start + r;
            let byte = bytes[j / 8];
            let shift = (7 - j % 8) as u8;
            let bit = (byte >> shift) & 1;
            assert(bit <= 1) by (bit_vector)
                requires
                    bit == (byte >> shift) & 1,
            ;
            let ghost old_v = v;
            v = (v << 1) | bit;
            proof {
                assert forall|t: int| 0 <= t < r + 1 implies #[trigger] symbol_bit(
                    v,
                    r + 1,
                    t,
                ) == bit_at(bytes@, start + t) by {
                    lemma_append_bit(old_v, bit, r as u8, (r - t) as u8);
                    if t < r {
                        assert(symbol_bit(old_v, r as int, t) == bit_at(bytes@, start + t));
                    }
                }
                lemma_append_bit(old_v, bit, r as u8, 0);
            }
            r += 1;
        }
        symbols.push(v);
        proof {
            assert forall|i: int, t: int| 0 <= i < k + 1 && 0 <= t < width implies symbol_bit(
                symbols@[i],
                width as int,
                t,
            ) == bit_at(bytes@, i * width + t) by {
                if i == k {
                    assert(symbol_bit(v, width as int, t) == bit_at(bytes@, start + t));
                }
            }
        }
        k += 1;
    }
    symbols
}

/// The symbols without the sentinels among them.
pub open spec fn without_sentinels(symbols: Seq<u8>, width: int) -> Seq<u8>
    decreases symbols.len(),
{
    if symbols.len() == 0 {
        seq![]
    } else if symbols.last() == sentinel(width) {
        without_sentinels(symbols.drop_last(), width)
    } else {
        without_sentinels(symbols.drop_last(), width).push(symbols.last())
    }
}

/// Reads the symbols of a given width that the bytes hold: every symbol
/// that stands whole in the bytes, but for the sentinels.
pub fn unpack_symbols(bytes: &[u8], width: usize) -> (symbols: Vec<u8>)
    requires
        1 <= width <= 7,
        bytes.len() * 8 <= usize::MAX,
    ensures
        exists|all: Seq<u8>|
            is_unpacking(bytes@, width as int, all) && symbols@ == without_sentinels(
                all,
                width as int,
            ),
{
    let all = unpack_bits(bytes, width);
    let pad: u8 = 0xffu8 >> ((8 - width) as u8);
    let mut symbols: Vec<u8> = Vec::new();
    let mut i: usize = 0;
    while i < all.len()
        invariant
            i <= all.len(),
            pad == sentinel(width as int),
            symbols@ == without_sentinels(all@.take(i as int), width as int),
        decreases all.len() - i,
    {
        assert(all@.take(i + 1).drop_last() =~= all@.take(i as int));
        if all[i] != pad {
            symbols.push(all[i]);
        }
        i += 1;
    }
    assert(all@.take(all.len() as int) =~= all@);
    symbols
}

/// A byte below a symbol of some width is a symbol of that width.
proof fn lemma_small_symbols(v: u8, top: u8, w: u8)
    by (bit_vector)
    requires
        v <= top,
        top >> w == 0,
        w < 8,
    ensures
        v >> w == 0,
{
}

/// A type whose values are written as symbols of a fixed width. The
/// sentinel of that width is the code of no value.
pub trait Packable: Copy + Sized {
    /// The width of a symbol, from one to seven bits.
    spec fn width() -> int;

    /// The code of a value.
    spec fn code(self) -> u8;

    /// Whether a value has a code.
    spec fn is_packable(self) -> bool;

    /// The value of which a byte is the code, if it is the code of one.
    spec fn decoded(byte: u8) -> Option<Self>;

    /// Codes are symbols other than the sentinel, and tell the values
    /// apart.
    proof fn lemma_codes()
        ensures
            1 <= Self::width() <= 7,
            forall|x: Self|
                x.is_packable() ==> is_symbol(#[trigger] x.code(), Self::width()) && x.code()
                    != sentinel(Self::width()) && Self::decoded(x.code()) == Some(x),
            Self::decoded(sentinel(Self::width())) is None,
    ;

    /// The width of a symbol.
    fn packed_bits() -> (w: usize)
        ensures
            w == Self::width(),
            1 <= w <= 7,
    ;

    /// The code of a value.
    fn to_byte(&self) -> (b: u8)
        requires
            self.is_packable(),
        ensures
            b == self.code(),
    ;

    /// The value of which a byte is the code. The sentinel, and any other
    /// byte that is no code, gives nothing.
    fn from_byte(byte: u8) -> (r: Option<Self>)
        ensures
            r == Self::decoded(byte),
    ;
}

/// The codes of a sequence of values.
pub open spec fn codes<T: Packable>(values: Seq<T>) -> Seq<u8> {
    Seq::new(values.len(), |i: int| values[i].code())
}

/// The values of which the symbols are codes, in their order; a symbol
/// that is no code, as the sentinel is none, gives no value.
pub open spec fn decode_all<T: Packable>(symbols: Seq<u8>) -> Seq<T>
    decreases symbols.len(),
{
    if symbols.len() == 0 {
        seq![]
    } else {
        decode_all::<T>(symbols.drop_last()) + (match T::decoded(symbols.last()) {
            Some(x) => seq![x],
            None => seq![],
        })
    }
}

/// Decoding the codes of values gives the values back.
pub proof fn lemma_decode_codes<T: Packable>(values: Seq<T>)
    requires
        forall|i: int| 0 <= i < values.len() ==> (#[trigger] values[i]).is_packable(),
    ensures
        decode_all::<T>(codes(values)) == values,
    decreases values.len(),
{
    if values.len() > 0 {
        T::lemma_codes();
        let front = values.drop_last();
        assert(codes(values).drop_last() =~= codes(front));
        lemma_decode_codes(front);
        assert(values.last().is_packable());
        assert(codes(values).last() == values.last().code());
        assert(front + seq![values.last()] =~= values);
    } else {
        assert(codes(values) =~= seq![]);
    }
}

/// Sentinels behind the symbols add nothing to what is decoded.
pub proof fn lemma_decode_padding<T: Packable>(symbols: Seq<u8>, n: int)
    requires
        0 <= n <= symbols.len(),
        forall|k: int| n <= k < symbols.len() ==> symbols[k] == sentinel(T::width()),
    ensures
        decode_all::<T>(symbols) == decode_all::<T>(symbols.take(n)),
    decreases symbols.len() - n,
{
    if n < symbols.len() {
        T::lemma_codes();
        let front = symbols.drop_last();
        assert(front.take(n) =~= symbols.take(n));
        lemma_decode_padding::<T>(front, n);
        assert(decode_all::<T>(front) + seq![] =~= decode_all::<T>(front));
    } else {
        assert(symbols.take(n) =~= symbols);
    }
}

/// Unpacking what was packed gives the values back: the law of the
/// codec.
pub proof fn lemma_round_trip<T: Packable>(values: Seq<T>, bytes: Seq<u8>, symbols: Seq<u8>)
    requires
        forall|i: int| 0 <= i < values.len() ==> (#[trigger] values[i]).is_packable(),
        is_packing(codes(values), T::width(), bytes),
        is_unpacking(bytes, T::width(), symbols),
    ensures
        decode_all::<T>(symbols) == values,
{
    T::lemma_codes();
    assert forall|k: int| 0 <= k < codes(values).len() implies is_symbol(
        #[trigger] codes(values)[k],
        T::width(),
    ) by {
        assert(values[k].is_packable());
    }
    lemma_unpack_pack(codes(values), T::width(), bytes, symbols);
    lemma_decode_padding::<T>(symbols, values.len() as int);
    lemma_decode_codes(values);
}

/// Packs values into bytes, each as a symbol of the width of its type.
pub fn pack<T: Packable>(values: &[T]) -> (bytes: Vec<u8>)
    requires
        forall|i: int| 0 <= i < values@.len() ==> (#[trigger] values@[i]).is_packable(),
        values.len() * 7 + 7 <= usize::MAX,
    ensures
        is_packing(codes(values@), T::width(), bytes@),
        bytes@ == packing(codes(values@), T::width()),
{
    let mut symbols: Vec<u8> = Vec::new();
    let mut i: usize = 0;
    while i < values.len()
        invariant
            i <= values.len(),
            forall|k: int| 0 <= k < values@.len() ==> (#[trigger] values@[k]).is_packable(),
            symbols@.len() == i,
            forall|k: int| 0 <= k < i ==> #[trigger] symbols@[k] == values@[k].code(),
        decreases values.len() - i,
    {
        symbols.push(values[i].to_byte());
        i += 1;
    }
    assert(symbols@ =~= codes(values@));
    pack_bits(symbols.as_slice(), T::packed_bits())
}

/// Reads the values that the bytes hold. Every symbol that stands whole
/// in the bytes is read; sentinels, and symbols that are the code of no
/// value, are passed over. If bits that were left over decode to a value
/// under this width, that value is given too.
pub fn unpack<T: Packable>(bytes: &[u8]) -> (values: Vec<T>)
    requires
        bytes.len() * 8 <= usize::MAX,
    ensures
        exists|symbols: Seq<u8>|
            is_unpacking(bytes@, T::width(), symbols) && values@ == decode_all::<T>(symbols),
{
    let symbols = unpack_bits(bytes, T::packed_bits());
    let mut values: Vec<T> = Vec::new();
    let mut i: usize = 0;
    while i < symbols.len()
        invariant
            i <= symbols.len(),
            values@ == decode_all::<T>(symbols@.take(i as int)),
        decreases symbols.len() - i,
    {
        assert(symbols@.take(i + 1).drop_last() =~= symbols@.take(i as int));
        match T::from_byte(symbols[i]) {
            Some(x) => {
                values.push(x);
                assert(values@ =~= decode_all::<T>(symbols@.take(i as int)) + seq![x]);
            },
            None => {
                assert(values@ =~= decode_all::<T>(symbols@.take(i as int)) + seq![]);
            },
        }
        i += 1;
    }
    assert(symbols@.take(symbols.len() as int) =~= symbols@);
    values
}

impl Packable for Face {
    open spec fn width() -> int {
        3
    }

    open spec fn code(self) -> u8 {
        match self {
            Face::Left => 0,
            Face::Right => 1,
            Face::Front => 2,
            Face::Back => 3,
            Face::Down => 4,
            Face::Up => 5,
        }
    }

    open spec fn is_packable(self) -> bool {
        true
    }

    open spec fn decoded(byte: u8) -> Option<Face> {
        if byte == 0 {
            Some(Face::Left)
        } else if byte == 1 {
            Some(Face::Right)
        } else if byte == 2 {
            Some(Face::Front)
        } else if byte == 3 {
            Some(Face::Back)
        } else if byte == 4 {
            Some(Face::Down)
        } else if byte == 5 {
            Some(Face::Up)
        } else {
            None
        }
    }

    proof fn lemma_codes() {
        assert(is_symbol(5u8, 3) && sentinel(3) == 7u8) by (bit_vector);
        assert forall|x: Face| x.is_packable() implies is_symbol(x.code(), Face::width())
            && x.code() != sentinel(Face::width()) && Face::decoded(x.code()) == Some(x) by {
            lemma_small_symbols(x.code(), 5, 3);
        }
    }

    fn packed_bits() -> (w: usize) {
        3
    }

    fn to_byte(&self) -> (b: u8) {
        match self {
            Face::Left => 0,
            Face::Right => 1,
            Face::Front => 2,
            Face::Back => 3,
            Face::Down => 4,
            Face::Up => 5,
        }
    }

    fn from_byte(byte: u8) -> (r: Option<Face>) {
        match byte {
            0 => Some(Face::Left),
            1 => Some(Face::Right),
            2 => Some(Face::Front),
            3 => Some(Face::Back),
            4 => Some(Face::Down),
            5 => Some(Face::Up),
            _ => None,
        }
    }
}

impl Packable for Rotation {
    open spec fn width() -> int {
        5
    }

    open spec fn code(self) -> u8 {
        self.ordinal() as u8
    }

    open spec fn is_packable(self) -> bool {
        true
    }

    open spec fn decoded(byte: u8) -> Option<Rotation> {
        if byte < 24 {
            Some(Rotation::of_ordinal(byte as int))
        } else {
            None
        }
    }

    proof fn lemma_codes() {
        assert(is_symbol(23u8, 5) && sentinel(5) == 31u8) by (bit_vector);
        assert forall|x: Rotation| x.is_packable() implies is_symbol(x.code(), Rotation::width())
            && x.code() != sentinel(Rotation::width()) && Rotation::decoded(x.code()) == Some(
            x,
        ) by {
            lemma_small_symbols(x.code(), 23, 5);
            lemma_of_ordinal(x);
        }
    }

    fn packed_bits() -> (w: usize) {
        5
    }

    fn to_byte(&self) -> (b: u8) {
        self.into_usize() as u8
    }

    fn from_byte(byte: u8) -> (r: Option<Rotation>) {
        match Rotation::from_code(byte) {
            Ok(rot) => {
                proof {
                    lemma_of_ordinal(rot);
                }
                Some(rot)
            },
            Err(_) => None,
        }
    }
}

impl Move {
    /// The number of an axis.
    pub open spec fn axis_number(axis: Axis) -> int {
        match axis {
            Axis::X => 0,
            Axis::Y => 1,
            Axis::Z => 2,
        }
    }
}

impl Packable for Move {
    open spec fn width() -> int {
        6
    }

    /// The place of the move among the 45 of the vocabulary.
    open spec fn code(self) -> u8 {
        (12 * self.1 + 3 * self.2 + Move::axis_number(self.0) - 3) as u8
    }

    /// The moves of the vocabulary: reduced, and turning something.
    open spec fn is_packable(self) -> bool {
        self.is_reduced() && !self.is_neutral()
    }

    open spec fn decoded(byte: u8) -> Option<Move> {
        if byte < 45 {
            Some(<Move as Action>::vocabulary()[byte as int])
        } else {
            None
        }
    }

    proof fn lemma_codes() {
        assert(is_symbol(44u8, 6) && sentinel(6) == 63u8) by (bit_vector);
        assert forall|x: Move| x.is_packable() implies is_symbol(x.code(), Move::width())
            && x.code() != sentinel(Move::width()) && Move::decoded(x.code()) == Some(x) by {
            lemma_small_symbols(x.code(), 44, 6);
        }
    }

    fn packed_bits() -> (w: usize) {
        6
    }

    fn to_byte(&self) -> (b: u8) {
        let axis: u8 = match self.0 {
            Axis::X => 0,
            Axis::Y => 1,
            Axis::Z => 2,
        };
        12 * self.1 + 3 * self.2 + axis - 3
    }

    fn from_byte(byte: u8) -> (r: Option<Move>) {
        if byte < 45 {
            let axis = if byte % 3 == 0 {
                Axis::X
            } else if byte % 3 == 1 {
                Axis::Y
            } else {
                Axis::Z
            };
            Some(Move(axis, (byte + 3) / 12, ((byte + 3) / 3) % 4))
        } else {
            None
        }
    }
}

impl Turn {
    /// The actions in the order of their codes.
    pub open spec fn by_code() -> Seq<Turn> {
        seq![Turn::L, Turn::L2, Turn::L3, Turn::R, Turn::R2, Turn::R3, Turn::F, Turn::F2, Turn::F3, Turn::B, Turn::B2, Turn::B3, Turn::D, Turn::D2, Turn::D3, Turn::U, Turn::U2, Turn::U3]
    }

    /// The code of an action.
    pub open spec fn code_of(self) -> u8 {
        match self {
            Turn::L => 0,
            Turn::L2 => 1,
            Turn::L3 => 2,
            Turn::R => 3,
            Turn::R2 => 4,
            Turn::R3 => 5,
            Turn::F => 6,
            Turn::F2 => 7,
            Turn::F3 => 8,
            Turn::B => 9,
            Turn::B2 => 10,
            Turn::B3 => 11,
            Turn::D => 12,
            Turn::D2 => 13,
            Turn::D3 => 14,
            Turn::U => 15,
            Turn::U2 => 16,
            Turn::U3 => 17,
        }
    }
}

impl Packable for Turn {
    open spec fn width() -> int {
        5
    }

    open spec fn code(self) -> u8 {
        self.code_of()
    }

    open spec fn is_packable(self) -> bool {
        true
    }

    open spec fn decoded(byte: u8) -> Option<Turn> {
        if byte < 18 {
            Some(Turn::by_code()[byte as int])
        } else {
            None
        }
    }

    proof fn lemma_codes() {
        assert(is_symbol(17u8, 5) && sentinel(5) == 31u8) by (bit_vector);
        assert forall|x: Turn| x.is_packable() implies is_symbol(x.code(), Turn::width())
            && x.code() != sentinel(Turn::width()) && Turn::decoded(x.code()) == Some(x) by {
            lemma_small_symbols(x.code(), 17, 5);
        }
    }

    fn packed_bits() -> (w: usize) {
        5
    }

    fn to_byte(&self) -> (b: u8) {
        match self {
            Turn::L => 0,
            Turn::L2 => 1,
            Turn::L3 => 2,
            Turn::R => 3,
            Turn::R2 => 4,
            Turn::R3 => 5,
            Turn::F => 6,
            Turn::F2 => 7,
            Turn::F3 => 8,
            Turn::B => 9,
            Turn::B2 => 10,
            Turn::B3 => 11,
            Turn::D => 12,
            Turn::D2 => 13,
            Turn::D3 => 14,
            Turn::U => 15,
            Turn::U2 => 16,
            Turn::U3 => 17,
        }
    }

    fn from_byte(byte: u8) -> (r: Option<Turn>) {
        let all = [Turn::L, Turn::L2, Turn::L3, Turn::R, Turn::R2, Turn::R3, Turn::F, Turn::F2, Turn::F3, Turn::B, Turn::B2, Turn::B3, Turn::D, Turn::D2, Turn::D3, Turn::U, Turn::U2, Turn::U3];
        if byte < 18 {
            Some(all[byte as usize])
        } else {
            None
        }
    }
}

impl QuarterTurn {
    /// The actions in the order of their codes.
    pub open spec fn by_code() -> Seq<QuarterTurn> {
        seq![QuarterTurn::L, QuarterTurn::L3, QuarterTurn::R, QuarterTurn::R3, QuarterTurn::U, QuarterTurn::U3, QuarterTurn::D, QuarterTurn::D3, QuarterTurn::F, QuarterTurn::F3, QuarterTurn::B, QuarterTurn::B3]
    }

    /// The code of an action.
    pub open spec fn code_of(self) -> u8 {
        match self {
            QuarterTurn::L => 0,
            QuarterTurn::L3 => 1,
            QuarterTurn::R => 2,
            QuarterTurn::R3 => 3,
            QuarterTurn::U => 4,
            QuarterTurn::U3 => 5,
            QuarterTurn::D => 6,
            QuarterTurn::D3 => 7,
            QuarterTurn::F => 8,
            QuarterTurn::F3 => 9,
            QuarterTurn::B => 10,
            QuarterTurn::B3 => 11,
        }
    }
}

impl Packable for QuarterTurn {
    open spec fn width() -> int {
        4
    }

    open spec fn code(self) -> u8 {
        self.code_of()
    }

    open spec fn is_packable(self) -> bool {
        true
    }

    open spec fn decoded(byte: u8) -> Option<QuarterTurn> {
        if byte < 12 {
            Some(QuarterTurn::by_code()[byte as int])
        } else {
            None
        }
    }

    proof fn lemma_codes() {
        assert(is_symbol(11u8, 4) && sentinel(4) == 15u8) by (bit_vector);
        assert forall|x: QuarterTurn| x.is_packable() implies is_symbol(x.code(), QuarterTurn::width())
            && x.code() != sentinel(QuarterTurn::width()) && QuarterTurn::decoded(x.code()) == Some(x) by {
            lemma_small_symbols(x.code(), 11, 4);
        }
    }

    fn packed_bits() -> (w: usize) {
        4
    }

    fn to_byte(&self) -> (b: u8) {
        match self {
            QuarterTurn::L => 0,
            QuarterTurn::L3 => 1,
            QuarterTurn::R => 2,
            QuarterTurn::R3 => 3,
            QuarterTurn::U => 4,
            QuarterTurn::U3 => 5,
            QuarterTurn::D => 6,
            QuarterTurn::D3 => 7,
            QuarterTurn::F => 8,
            QuarterTurn::F3 => 9,
            QuarterTurn::B => 10,
            QuarterTurn::B3 => 11,
        }
    }

    fn from_byte(byte: u8) -> (r: Option<QuarterTurn>) {
        let all = [QuarterTurn::L, QuarterTurn::L3, QuarterTurn::R, QuarterTurn::R3, QuarterTurn::U, QuarterTurn::U3, QuarterTurn::D, QuarterTurn::D3, QuarterTurn::F, QuarterTurn::F3, QuarterTurn::B, QuarterTurn::B3];
        if byte < 12 {
            Some(all[byte as usize])
        } else {
            None
        }
    }
}

} // verus!
