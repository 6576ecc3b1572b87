//! The bitstream decompression engine and the container unwrapper.
//!
//! The compressed kernel container stores its payload as a sequence of
//! chunks; each chunk is either an 8192-byte block stored verbatim or a
//! bitstream that decodes to one such block. The bitstream is consumed in
//! increasing bit order, least significant bit of each byte first, and is
//! a token stream: literal bytes, back-references into the bytes already
//! produced, sector-break markers, and an end token.

use crate::bytes::{le16, le32};
use crate::LoaderError;
use vstd::arithmetic::power2::{lemma2_to64, lemma_pow2_unfold, pow2};
use vstd::prelude::*;

verus! {

/// Total number of bits in the stream.
pub open spec fn nbits(input: Seq<u8>) -> int {
    input.len() * 8int
}

/// Whether the stream's bit count fits the machine's index type; the bit
/// cursor is carried in a `usize`.
pub open spec fn nbits_ok(input: Seq<u8>) -> bool {
    nbits(input) <= usize::MAX
}

/// Bit `i` of the stream: bit `i % 8`, least significant first, of byte
/// `i / 8`.
pub open spec fn bit_at(input: Seq<u8>, i: int) -> bool
    recommends
        0 <= i < nbits(input),
{
    (input[i / 8] >> ((i % 8) as u8)) & 1 == 1
}

/// The value of the `n` bits starting at bit `i`, least significant first.
pub open spec fn bits_val(input: Seq<u8>, i: int, n: nat) -> nat
    recommends
        0 <= i,
        i + n <= nbits(input),
    decreases n,
{
    if n == 0 {
        0
    } else {
        (if bit_at(input, i) {
            1nat
        } else {
            0nat
        }) + 2 * bits_val(input, i + 1, (n - 1) as nat)
    }
}

/// An `n`-bit field is bounded by the `n`-th power of two.
pub proof fn lemma_bits_val_bound(input: Seq<u8>, i: int, n: nat)
    ensures
        bits_val(input, i, n) < pow2(n),
    decreases n,
{
    if n == 0 {
        lemma2_to64();
    } else {
        lemma_bits_val_bound(input, i + 1, (n - 1) as nat);
        lemma_pow2_unfold(n);
    }
}

/// Reading one more bit appends it at the top place value.
pub proof fn lemma_bits_val_snoc(input: Seq<u8>, i: int, n: nat)
    ensures
        bits_val(input, i, (n + 1) as nat) == bits_val(input, i, n) + (if bit_at(input, i + n) {
            pow2(n)
        } else {
            0nat
        }),
    decreases n,
{
    if n == 0 {
        lemma2_to64();
        assert(bits_val(input, i, 1) == (if bit_at(input, i) {
            1nat
        } else {
            0nat
        }) + 2 * bits_val(input, i + 1, 0));
    } else {
        lemma_bits_val_snoc(input, i + 1, (n - 1) as nat);
        lemma_pow2_unfold(n);
        assert(bits_val(input, i, (n + 1) as nat) == (if bit_at(input, i) {
            1nat
        } else {
            0nat
        }) + 2 * bits_val(input, i + 1, n));
        assert(bits_val(input, i, n) == (if bit_at(input, i) {
            1nat
        } else {
            0nat
        }) + 2 * bits_val(input, i + 1, (n - 1) as nat));
        assert(i + 1 + (n - 1) == i + n);
    }
}

/// Whether `n` more bits can be read at bit cursor `i`.
fn bits_available(input: &[u8], i: usize, n: usize) -> (r: bool)
    requires
        nbits_ok(input@),
    ensures
        r == (i + n <= nbits(input@)),
{
    n <= input.len() * 8 && i <= input.len() * 8 - n
}

/// Read the single bit under the cursor and advance the cursor past it.
pub fn read_vec_bit(input: &[u8], index_bits: &mut usize) -> (r: bool)
    requires
        nbits_ok(input@),
        *old(index_bits) < nbits(input@),
    ensures
        *final(index_bits) == *old(index_bits) + 1,
        r == bit_at(input@, *old(index_bits) as int),
{
    let byte: u8 = input[*index_bits / 8];
    let k: u8 = (*index_bits % 8) as u8;
    let result = byte & (1u8 << k) != 0;
    proof {
        assert((byte & (1u8 << k) != 0) == ((byte >> k) & 1 == 1)) by (bit_vector)
            requires
                k < 8,
        ;
    }
    *index_bits += 1;
    result
}

/// Read the seven remaining bits of a literal byte whose most significant
/// bit `first` was already read, least significant bit first.
pub fn ds_raw_byte(input: &[u8], index_bits: &mut usize, first: bool) -> (r: u8)
    requires
        nbits_ok(input@),
        0 <= *old(index_bits),
        *old(index_bits) + 7 <= nbits(input@),
    ensures
        *final(index_bits) == *old(index_bits) + 7,
        r == raw_byte_val(input@, *old(index_bits) as int, first),
{
    proof {
        lemma2_to64();
        lemma_bits_val_bound(input@, *old(index_bits) as int, 7);
    }
    let ghost start = *index_bits as int;
    let mut result: u8 = if first {
        128
    } else {
        0
    };
    let mut place: u8 = 1;
    let mut bit: usize = 0;
    while bit < 7
        invariant
            nbits_ok(input@),
            0 <= start,
            start + 7 <= nbits(input@),
            *index_bits == start + bit,
            0 <= bit <= 7,
            place == pow2(bit as nat),
            result == (if first {
                128nat
            } else {
                0nat
            }) + bits_val(input@, start, bit as nat),
        decreases 7 - bit,
    {
        proof {
            lemma_bits_val_snoc(input@, start, bit as nat);
            lemma_bits_val_bound(input@, start, (bit + 1) as nat);
            lemma2_to64();
            lemma_pow2_unfold((bit + 1) as nat);
            if (bit as nat) < 6 {
                vstd::arithmetic::power2::lemma_pow2_strictly_increases(bit as nat, 6);
            }
        }
        let b = read_vec_bit(input, index_bits);
        if b {
            result += place;
        }
        place *= 2;
        bit += 1;
    }
    result
}

/// The byte value of a literal token: `first` as the top bit over the seven
/// following bits.
pub open spec fn raw_byte_val(input: Seq<u8>, i: int, first: bool) -> u8 {
    (((if first {
        128nat
    } else {
        0nat
    }) + bits_val(input, i, 7)) as u8)
}

/// Read a `depth_len`-bit back-reference distance field and add `depth_base`
/// to it.
pub fn ds_depth(input: &[u8], index_bits: &mut usize, depth_base: u16, depth_len: usize) -> (r: u16)
    requires
        nbits_ok(input@),
        0 <= *old(index_bits),
        *old(index_bits) + depth_len <= nbits(input@),
        depth_len <= 12,
        depth_base + pow2(depth_len as nat) <= 0x1_0000,
    ensures
        *final(index_bits) == *old(index_bits) + depth_len,
        r == depth_base + bits_val(input@, *old(index_bits) as int, depth_len as nat),
{
    let w = read_bit_field(input, index_bits, depth_len);
    w + depth_base
}

/// Read a `count_len`-bit copy-count extension field and add `count_base`
/// to it.
pub fn ds_count1(input: &[u8], index_bits: &mut usize, count_base: u16, count_len: usize) -> (r: u16)
    requires
        nbits_ok(input@),
        0 <= *old(index_bits),
        *old(index_bits) + count_len <= nbits(input@),
        count_len <= 12,
        count_base + pow2(count_len as nat) <= 0x1_0000,
    ensures
        *final(index_bits) == *old(index_bits) + count_len,
        r == count_base + bits_val(input@, *old(index_bits) as int, count_len as nat),
{
    let w = read_bit_field(input, index_bits, count_len);
    w + count_base
}

/// Read a bit field of up to twelve bits, least significant first.
fn read_bit_field(input: &[u8], index_bits: &mut usize, len: usize) -> (r: u16)
    requires
        nbits_ok(input@),
        0 <= *old(index_bits),
        *old(index_bits) + len <= nbits(input@),
        len <= 12,
    ensures
        *final(index_bits) == *old(index_bits) + len,
        r == bits_val(input@, *old(index_bits) as int, len as nat),
        r < pow2(len as nat),
{
    proof {
        lemma2_to64();
        lemma_bits_val_bound(input@, *old(index_bits) as int, len as nat);
    }
    let ghost start = *index_bits as int;
    let mut result: u16 = 0;
    let mut place: u16 = 1;
    let mut bit: usize = 0;
    while bit < len
        invariant
            nbits_ok(input@),
            0 <= start,
            start + len <= nbits(input@),
            len <= 12,
            *index_bits == start + bit,
            0 <= bit <= len,
            place == pow2(bit as nat),
            result == bits_val(input@, start, bit as nat),
        decreases len - bit,
    {
        proof {
            lemma_bits_val_snoc(input@, start, bit as nat);
            lemma_bits_val_bound(input@, start, (bit + 1) as nat);
            lemma2_to64();
            lemma_pow2_unfold((bit + 1) as nat);
            if (bit as nat) < 11 {
                vstd::arithmetic::power2::lemma_pow2_strictly_increases(bit as nat, 11);
            }
        }
        let b = read_vec_bit(input, index_bits);
        if b {
            result += place;
        }
        place *= 2;
        bit += 1;
    }
    proof {
        lemma_bits_val_bound(input@, start, len as nat);
    }
    result
}


/// One decoded token of the bitstream.
#[derive(Clone, Copy, PartialEq, Eq, Structural, Debug)]
pub enum DSToken {
    /// A literal byte to append to the output.
    Raw(u8),
    /// Copy `count` bytes, one at a time, from `depth` positions behind the
    /// end of the output produced so far.
    DepthCount(u16, u16),
    /// A consumed marker that emits nothing.
    SectorBreak,
    /// End of the block's token stream.
    End,
}

/// Copy-count base selected by a unary prefix of `p` zero bits.
pub open spec fn count_base(p: int) -> u16 {
    if p == 0 {
        2
    } else if p == 1 {
        3
    } else if p == 2 {
        5
    } else if p == 3 {
        9
    } else if p == 4 {
        17
    } else if p == 5 {
        33
    } else if p == 6 {
        65
    } else if p == 7 {
        129
    } else {
        257
    }
}

/// Copy-count base table, indexed by the unary prefix length.
fn count_base_at(p: usize) -> (r: u16)
    requires
        p <= 8,
    ensures
        r == count_base(p as int),
{
    if p == 0 {
        2
    } else if p == 1 {
        3
    } else if p == 2 {
        5
    } else if p == 3 {
        9
    } else if p == 4 {
        17
    } else if p == 5 {
        33
    } else if p == 6 {
        65
    } else if p == 7 {
        129
    } else {
        257
    }
}

/// The count sub-decoder's read at bit `i`, having already consumed `p`
/// zero prefix bits: the copy count and the bit position after it. A one
/// bit after `p` zeros selects base `count_base(p)`, and for `p > 0` the
/// `p` following bits add to the base; nine zero bits in a row are the
/// illegal encoding, read as count zero.
pub open spec fn spec_count_rec(input: Seq<u8>, i: int, p: int) -> Result<
    (u16, int),
    LoaderError,
>
    decreases 9 - p,
{
    if i >= nbits(input) {
        Err(LoaderError::Truncated)
    } else if bit_at(input, i) {
        if p == 0 {
            Ok((2, i + 1))
        } else if i + 1 + p > nbits(input) {
            Err(LoaderError::Truncated)
        } else {
            Ok((((count_base(p) + bits_val(input, i + 1, p as nat)) as u16), i + 1 + p))
        }
    } else if p >= 8 {
        Ok((0, i + 1))
    } else {
        spec_count_rec(input, i + 1, p + 1)
    }
}

/// The count sub-decoder's read at bit `i`.
pub open spec fn spec_count(input: Seq<u8>, i: int) -> Result<(u16, int), LoaderError> {
    spec_count_rec(input, i, 0)
}

/// A successful count read lands between its own start and the stream end.
pub proof fn lemma_count_advances(input: Seq<u8>, i: int, p: int)
    requires
        0 <= p <= 8,
    ensures
        match spec_count_rec(input, i, p) {
            Ok((c, j)) => i < j <= nbits(input) && c <= 512,
            Err(e) => true,
        },
    decreases 9 - p,
{
    if i >= nbits(input) {
    } else if bit_at(input, i) {
        if p != 0 && i + 1 + p <= nbits(input) {
            lemma_bits_val_bound(input, i + 1, p as nat);
            lemma2_to64();
            if p < 8 {
                vstd::arithmetic::power2::lemma_pow2_strictly_increases(p as nat, 8);
            }
        }
    } else if p >= 8 {
    } else {
        lemma_count_advances(input, i + 1, p + 1);
    }
}

/// Read a copy count: a unary prefix of up to eight zero bits, then as many
/// extension bits as the prefix was long. The illegal nine-zero prefix is
/// returned as count zero, exactly as the sub-decoder reads it; the caller
/// treats it as fatal.
pub fn ds_count(input: &[u8], index_bits: &mut usize) -> (r: Result<u16, LoaderError>)
    requires
        nbits_ok(input@),
    ensures
        match spec_count(input@, *old(index_bits) as int) {
            Ok((c, j)) => r is Ok && r->Ok_0 == c && *final(index_bits) == j,
            Err(e) => r is Err && r->Err_0 == e,
        },
{
    let ghost start = *index_bits as int;
    if !bits_available(input, *index_bits, 1) {
        return Err(LoaderError::Truncated);
    }
    let first = read_vec_bit(input, index_bits);
    if first {
        return Ok(2);
    }
    let mut index: usize = 1;
    while index < 9
        invariant
            nbits_ok(input@),
            start == *old(index_bits),
            1 <= index <= 8,
            *index_bits == start + index,
            start + index <= nbits(input@),
            spec_count_rec(input@, start, 0) == spec_count_rec(input@, start + index, index as int),
        decreases 9 - index,
    {
        if !bits_available(input, *index_bits, 1) {
            return Err(LoaderError::Truncated);
        }
        let next = read_vec_bit(input, index_bits);
        if next {
            if !bits_available(input, *index_bits, index) {
                return Err(LoaderError::Truncated);
            }
            let base = count_base_at(index);
            proof {
                lemma2_to64();
                if (index as nat) < 8 {
                    vstd::arithmetic::power2::lemma_pow2_strictly_increases(index as nat, 8);
                }
            }
            let c = ds_count1(input, index_bits, base, index);
            proof {
                lemma_bits_val_bound(input@, start + index + 1, index as nat);
            }
            return Ok(c);
        }
        if index == 8 {
            return Ok(0);
        }
        index += 1;
    }
    // Unreachable: the ninth zero bit returns inside the loop.
    proof {
        assert(false);
    }
    Ok(0)
}


/// The tail of a back-reference token once `depth` is known: its copy
/// count, which must not be zero.
pub open spec fn spec_depth_count(input: Seq<u8>, depth: u16, i: int) -> Result<
    (DSToken, int),
    LoaderError,
> {
    match spec_count(input, i) {
        Ok((c, j)) => if c == 0 {
            Err(LoaderError::InvalidCount)
        } else {
            Ok((DSToken::DepthCount(depth, c), j))
        },
        Err(e) => Err(e),
    }
}

/// As `spec_depth_count`, except that the reserved depth 4415 is the
/// sector-break marker and carries no count.
pub open spec fn spec_marked_depth_count(input: Seq<u8>, depth: u16, i: int) -> Result<
    (DSToken, int),
    LoaderError,
> {
    if depth == 4415 {
        Ok((DSToken::SectorBreak, i))
    } else {
        spec_depth_count(input, depth, i)
    }
}

/// One token and the bit position after it, read at bit `i`; or the
/// malformation met while reading it. Two unequal leading bits open a
/// literal byte; two zero bits open a six-bit depth (zero depth ends the
/// block); two one bits and a selector bit open an eight-bit depth offset
/// by 64 or a twelve-bit depth offset by 320.
pub open spec fn spec_token(input: Seq<u8>, i: int) -> Result<(DSToken, int), LoaderError> {
    if i + 2 > nbits(input) {
        Err(LoaderError::Truncated)
    } else {
        let b0 = bit_at(input, i);
        let b1 = bit_at(input, i + 1);
        if b0 != b1 {
            if i + 9 > nbits(input) {
                Err(LoaderError::Truncated)
            } else {
                Ok((DSToken::Raw(raw_byte_val(input, i + 2, b0)), i + 9))
            }
        } else if !b0 {
            if i + 8 > nbits(input) {
                Err(LoaderError::Truncated)
            } else {
                let depth = bits_val(input, i + 2, 6) as u16;
                if depth == 0 {
                    Ok((DSToken::End, i + 8))
                } else {
                    spec_depth_count(input, depth, i + 8)
                }
            }
        } else {
            if i + 3 > nbits(input) {
                Err(LoaderError::Truncated)
            } else if !bit_at(input, i + 2) {
                if i + 11 > nbits(input) {
                    Err(LoaderError::Truncated)
                } else {
                    spec_marked_depth_count(input, (64 + bits_val(input, i + 3, 8)) as u16, i + 11)
                }
            } else {
                if i + 15 > nbits(input) {
                    Err(LoaderError::Truncated)
                } else {
                    spec_marked_depth_count(input, (320 + bits_val(input, i + 3, 12)) as u16, i + 15)
                }
            }
        }
    }
}

/// A successful token read always advances the cursor, never past the
/// stream end, and a back-reference token always carries a positive count.
pub proof fn lemma_token_advances(input: Seq<u8>, i: int)
    ensures
        match spec_token(input, i) {
            Ok((t, j)) => i < j <= nbits(input) && (t matches DSToken::DepthCount(d, c) ==> 1 <= c
                <= 512 && 1 <= d <= 4414),
            Err(e) => true,
        },
{
    if i + 2 <= nbits(input) {
        lemma_count_advances(input, i + 8, 0);
        lemma_count_advances(input, i + 11, 0);
        lemma_count_advances(input, i + 15, 0);
        lemma2_to64();
        lemma_bits_val_bound(input, i + 2, 6);
        lemma_bits_val_bound(input, i + 3, 8);
        lemma_bits_val_bound(input, i + 3, 12);
    }
}

/// Read one token at the cursor, leaving the cursor just past it.
pub fn ds_read_bits(input: &[u8], index_bits: &mut usize) -> (r: Result<DSToken, LoaderError>)
    requires
        nbits_ok(input@),
    ensures
        match spec_token(input@, *old(index_bits) as int) {
            Ok((t, j)) => r is Ok && r->Ok_0 == t && *final(index_bits) == j,
            Err(e) => r is Err && r->Err_0 == e,
        },
{
    let ghost start = *index_bits as int;
    if !bits_available(input, *index_bits, 2) {
        return Err(LoaderError::Truncated);
    }
    let first = read_vec_bit(input, index_bits);
    let second = read_vec_bit(input, index_bits);
    if first != second {
        if !bits_available(input, *index_bits, 7) {
            return Err(LoaderError::Truncated);
        }
        let b = ds_raw_byte(input, index_bits, first);
        Ok(DSToken::Raw(b))
    } else if !first {
        if !bits_available(input, *index_bits, 6) {
            return Err(LoaderError::Truncated);
        }
        proof {
            lemma2_to64();
        }
        let depth = ds_depth(input, index_bits, 0, 6);
        proof {
            lemma_bits_val_bound(input@, start + 2, 6);
        }
        if depth == 0 {
            return Ok(DSToken::End);
        }
        let count = match ds_count(input, index_bits) {
            Ok(c) => c,
            Err(e) => return Err(e),
        };
        if count == 0 {
            return Err(LoaderError::InvalidCount);
        }
        Ok(DSToken::DepthCount(depth, count))
    } else {
        if !bits_available(input, *index_bits, 1) {
            return Err(LoaderError::Truncated);
        }
        let third = read_vec_bit(input, index_bits);
        let depth: u16;
        if !third {
            if !bits_available(input, *index_bits, 8) {
                return Err(LoaderError::Truncated);
            }
            proof {
                lemma2_to64();
            }
            depth = ds_depth(input, index_bits, 64, 8);
            proof {
                lemma_bits_val_bound(input@, start + 3, 8);
            }
        } else {
            if !bits_available(input, *index_bits, 12) {
                return Err(LoaderError::Truncated);
            }
            proof {
                lemma2_to64();
            }
            depth = ds_depth(input, index_bits, 320, 12);
            proof {
                lemma_bits_val_bound(input@, start + 3, 12);
            }
        }
        if depth == 4415 {
            return Ok(DSToken::SectorBreak);
        }
        let count = match ds_count(input, index_bits) {
            Ok(c) => c,
            Err(e) => return Err(e),
        };
        if count == 0 {
            return Err(LoaderError::InvalidCount);
        }
        Ok(DSToken::DepthCount(depth, count))
    }
}


/// `count` bytes appended one at a time, each copied from `depth` positions
/// behind the end of the output so far; an overlapping copy replicates the
/// bytes it has just produced.
pub open spec fn back_copy(acc: Seq<u8>, depth: int, count: nat) -> Seq<u8>
    recommends
        1 <= depth <= acc.len(),
    decreases count,
{
    if count == 0 {
        acc
    } else {
        let prev = back_copy(acc, depth, (count - 1) as nat);
        prev.push(prev[prev.len() - depth])
    }
}

/// A back-reference copy grows the output by exactly its count.
pub proof fn lemma_back_copy_len(acc: Seq<u8>, depth: int, count: nat)
    ensures
        back_copy(acc, depth, count).len() == acc.len() + count,
    decreases count,
{
    if count > 0 {
        lemma_back_copy_len(acc, depth, (count - 1) as nat);
    }
}

/// The rest of the decoded block, with the bytes of `acc` already produced
/// and the cursor at bit `i`: tokens are consumed and applied until the end
/// token or the 8192-byte block quota, whichever comes first.
pub open spec fn spec_decode_from(input: Seq<u8>, i: int, acc: Seq<u8>) -> Result<
    Seq<u8>,
    LoaderError,
>
    decreases nbits(input) - i,
{
    if acc.len() >= 8192 {
        Ok(acc)
    } else {
        match spec_token(input, i) {
            Err(e) => Err(e),
            Ok((t, j)) => {
                if !(i < j <= nbits(input)) {
                    // never reached: a token read advances the cursor and stays
                    // inside the stream (lemma_token_advances); the test keeps
                    // the recursion's measure decreasing on its face
                    Err(LoaderError::Truncated)
                } else {
                    match t {
                        DSToken::End => Ok(acc),
                        DSToken::Raw(b) => spec_decode_from(input, j, acc.push(b)),
                        DSToken::SectorBreak => spec_decode_from(input, j, acc),
                        DSToken::DepthCount(d, c) => if d as int > acc.len() {
                            Err(LoaderError::InvalidDepth)
                        } else {
                            spec_decode_from(input, j, back_copy(acc, d as int, c as nat))
                        },
                    }
                }
            },
        }
    }
}

/// The whole decoded block of a chunk's bitstream, read from its own bit 0.
pub open spec fn spec_decode(input: Seq<u8>) -> Result<Seq<u8>, LoaderError> {
    spec_decode_from(input, 0, Seq::empty())
}

/// Law: once the output has reached the 8192-byte block quota, decoding
/// stops at once and returns it unchanged; no further token is read,
/// wherever within a byte the cursor then stands.
pub proof fn lemma_block_quota_stops(input: Seq<u8>, i: int, acc: Seq<u8>)
    requires
        acc.len() >= 8192,
    ensures
        spec_decode_from(input, i, acc) == Ok::<Seq<u8>, LoaderError>(acc),
{
}

/// Decode one block: apply tokens until the end token or the 8192-byte
/// quota. Every malformation of the stream is fatal: running out of bits,
/// a zero copy count, or a back-reference reaching before the start of the
/// output.
pub fn ds_decode(input: &[u8]) -> (r: Result<Vec<u8>, LoaderError>)
    requires
        nbits_ok(input@),
    ensures
        match spec_decode(input@) {
            Ok(s) => r is Ok && r->Ok_0@ == s,
            Err(e) => r is Err && r->Err_0 == e,
        },
{
    let mut result: Vec<u8> = Vec::new();
    let mut index_bits: usize = 0;
    loop
        invariant
            nbits_ok(input@),
            0 <= index_bits <= nbits(input@),
            spec_decode_from(input@, index_bits as int, result@) == spec_decode(input@),
        decreases nbits(input@) - index_bits,
    {
        if result.len() >= 8192 {
            return Ok(result);
        }
        proof {
            lemma_token_advances(input@, index_bits as int);
        }
        let ghost acc0 = result@;
        let token = match ds_read_bits(input, &mut index_bits) {
            Ok(t) => t,
            Err(e) => return Err(e),
        };
        match token {
            DSToken::Raw(byte) => {
                result.push(byte);
            },
            DSToken::DepthCount(depth, count) => {
                let d = depth as usize;
                if d > result.len() {
                    return Err(LoaderError::InvalidDepth);
                }
                proof {
                    lemma_back_copy_len(acc0, d as int, count as nat);
                }
                let mut k: u16 = 0;
                while k < count
                    invariant
                        1 <= d <= acc0.len(),
                        k <= count,
                        result@ == back_copy(acc0, d as int, k as nat),
                        result@.len() == acc0.len() + k,
                    decreases count - k,
                {
                    proof {
                        lemma_back_copy_len(acc0, d as int, (k + 1) as nat);
                    }
                    let byte = result[result.len() - d];
                    result.push(byte);
                    k += 1;
                }
            },
            DSToken::SectorBreak => {},
            DSToken::End => {
                return Ok(result);
            },
        }
    }
}


/// The start offset the chunk table records for chunk `k`: table entries
/// are four-byte little-endian values from sub-header offset 16 on, one
/// per chunk plus a sentinel past the last.
pub open spec fn spec_chunk_offset(input: Seq<u8>, wx: int, k: int) -> int {
    le32(input, wx + 16 + 4 * k)
}

/// The bytes chunk `k` contributes to the archive: its 8192 bytes copied
/// verbatim when the chunk table derives a length of exactly 8192, else
/// the decoded block of the bitstream starting at its offset.
pub open spec fn spec_chunk(input: Seq<u8>, wx: int, k: int) -> Result<Seq<u8>, LoaderError> {
    if wx + 16 + 4 * k + 8 > input.len() {
        Err(LoaderError::Truncated)
    } else {
        let cur = spec_chunk_offset(input, wx, k);
        let next = spec_chunk_offset(input, wx, k + 1);
        if next - cur == 8192 {
            if cur + 8192 <= input.len() {
                Ok(input.subrange(cur, cur + 8192))
            } else {
                Err(LoaderError::Truncated)
            }
        } else {
            if cur <= input.len() {
                spec_decode(input.subrange(cur, input.len() as int))
            } else {
                Err(LoaderError::Truncated)
            }
        }
    }
}

/// The concatenation of what the first `k` chunks contribute.
pub open spec fn spec_chunks(input: Seq<u8>, wx: int, k: int) -> Result<Seq<u8>, LoaderError>
    decreases k,
{
    if k <= 0 {
        Ok(Seq::empty())
    } else {
        match spec_chunks(input, wx, k - 1) {
            Ok(pre) => match spec_chunk(input, wx, k - 1) {
                Ok(c) => Ok(pre + c),
                Err(e) => Err(e),
            },
            Err(e) => Err(e),
        }
    }
}

/// A chunk that fails poisons every longer prefix with its own error.
proof fn lemma_chunks_error(input: Seq<u8>, wx: int, k: int, n: int)
    requires
        0 <= k < n,
        spec_chunks(input, wx, k) is Ok,
        spec_chunk(input, wx, k) is Err,
    ensures
        spec_chunks(input, wx, n) == Err::<Seq<u8>, LoaderError>(
            spec_chunk(input, wx, k)->Err_0,
        ),
    decreases n,
{
    if k < n - 1 {
        lemma_chunks_error(input, wx, k, n - 1);
    }
}

/// What unwrapping the container yields: the archive bytes and the
/// sub-header's absolute offset, read as a four-byte field at 0x3C. A
/// container tagged "W3" (bytes 0x57 0x33) is already decompressed and
/// contributes its bytes from the sub-header on, unchanged; one tagged
/// "W4" (0x57 0x34) carries a chunk count at sub-header offset 6 and
/// contributes its chunks in table order; any other tag is fatal.
pub open spec fn spec_unwrap(input: Seq<u8>) -> Result<(Seq<u8>, int), LoaderError> {
    if input.len() < 0x40 {
        Err(LoaderError::Truncated)
    } else {
        let wx = le32(input, 0x3C);
        if wx + 2 > input.len() {
            Err(LoaderError::Truncated)
        } else if !(input[wx] == 0x57 && (input[wx + 1] == 0x33 || input[wx + 1] == 0x34)) {
            Err(LoaderError::BadContainerSignature)
        } else if input[wx + 1] == 0x33 {
            Ok((input.subrange(wx, input.len() as int), wx))
        } else if wx + 8 > input.len() {
            Err(LoaderError::Truncated)
        } else {
            match spec_chunks(input, wx, le16(input, wx + 6)) {
                Ok(s) => Ok((s, wx)),
                Err(e) => Err(e),
            }
        }
    }
}

/// Law: a container already tagged "W3" unwraps to its own trailing bytes,
/// unchanged, and the returned offset equals the sub-header offset.
pub proof fn lemma_w3_unwrap_identity(input: Seq<u8>)
    requires
        input.len() >= 0x40,
        le32(input, 0x3C) + 2 <= input.len(),
        input[le32(input, 0x3C)] == 0x57,
        input[le32(input, 0x3C) + 1] == 0x33,
    ensures
        spec_unwrap(input) == Ok::<(Seq<u8>, int), LoaderError>(
            (input.subrange(le32(input, 0x3C), input.len() as int), le32(input, 0x3C)),
        ),
{
}

/// Law: a chunk whose table-derived length is exactly 8192 is copied
/// byte for byte, never decoded; a chunk of any other length is the
/// decoder's output on the bytes from its offset to the container's end.
pub proof fn lemma_chunk_selection(input: Seq<u8>, wx: int, k: int)
    requires
        0 <= wx,
        0 <= k,
        wx + 16 + 4 * k + 8 <= input.len(),
    ensures
        ({
            let cur = spec_chunk_offset(input, wx, k);
            let next = spec_chunk_offset(input, wx, k + 1);
            &&& (next - cur == 8192 && cur + 8192 <= input.len() ==> spec_chunk(input, wx, k)
                == Ok::<Seq<u8>, LoaderError>(input.subrange(cur, cur + 8192)))
            &&& (next - cur != 8192 && cur <= input.len() ==> spec_chunk(input, wx, k)
                == spec_decode(input.subrange(cur, input.len() as int)))
        }),
{
}

/// Read the chunk table's recorded start offset for chunk `index`.
pub fn w4_chunk_get_offset(input: &Vec<u8>, wx_vxd_offset: usize, index: usize) -> (r: Result<
    usize,
    LoaderError,
>)
    requires
        wx_vxd_offset <= input@.len(),
        nbits_ok(input@),
        index <= 0x1_0000,
    ensures
        wx_vxd_offset + 16 + 4 * index + 4 <= input@.len() ==> r is Ok && r->Ok_0
            == spec_chunk_offset(input@, wx_vxd_offset as int, index as int),
        wx_vxd_offset + 16 + 4 * index + 4 > input@.len() ==> r == Err::<usize, LoaderError>(
            LoaderError::Truncated,
        ),
{
    let off = wx_vxd_offset + 16 + 4 * index;
    match crate::bytes::read_le32(input.as_slice(), off) {
        Ok(v) => Ok(v as usize),
        Err(e) => Err(e),
    }
}

/// Unwrap the outer container: find the sub-header through the offset at
/// 0x3C, validate its tag, and either hand back the already-decompressed
/// archive or decompress it chunk by chunk, stored chunks copied verbatim
/// and all others run through the bitstream decoder.
pub fn w4_to_w3(input: Vec<u8>) -> (r: Result<(Vec<u8>, usize), LoaderError>)
    requires
        nbits_ok(input@),
    ensures
        match spec_unwrap(input@) {
            Ok((s, wx)) => r is Ok && r->Ok_0.0@ == s && r->Ok_0.1 == wx,
            Err(e) => r is Err && r->Err_0 == e,
        },
{
    let wx = match crate::bytes::read_le32(input.as_slice(), 0x3C) {
        Ok(v) => v as usize,
        Err(e) => return Err(e),
    };
    if input.len() < 2 || wx > input.len() - 2 {
        return Err(LoaderError::Truncated);
    }
    let b0 = input[wx];
    let b1 = input[wx + 1];
    if !(b0 == 0x57 && (b1 == 0x33 || b1 == 0x34)) {
        return Err(LoaderError::BadContainerSignature);
    }
    if b1 == 0x33 {
        let tail = vstd::slice::slice_subrange(input.as_slice(), wx, input.len());
        let out = vstd::slice::slice_to_vec(tail);
        return Ok((out, wx));
    }
    let chunk_count = match crate::bytes::read_le16(input.as_slice(), wx + 6) {
        Ok(v) => v as usize,
        Err(e) => return Err(e),
    };
    let mut result: Vec<u8> = Vec::new();
    let mut index: usize = 0;
    while index < chunk_count
        invariant
            nbits_ok(input@),
            input@.len() >= 0x40,
            wx == le32(input@, 0x3C),
            wx + 8 <= input@.len(),
            input@[wx as int] == 0x57,
            input@[wx as int + 1] == 0x34,
            chunk_count == le16(input@, wx as int + 6),
            chunk_count <= 0xFFFF,
            index <= chunk_count,
            spec_chunks(input@, wx as int, index as int) == Ok::<Seq<u8>, LoaderError>(result@),
        decreases chunk_count - index,
    {
        let cur_off = match w4_chunk_get_offset(&input, wx, index) {
            Ok(v) => v,
            Err(e) => {
                proof {
                    lemma_chunks_error(input@, wx as int, index as int, chunk_count as int);
                }
                return Err(e);
            },
        };
        let next_off = match w4_chunk_get_offset(&input, wx, index + 1) {
            Ok(v) => v,
            Err(e) => {
                proof {
                    lemma_chunks_error(input@, wx as int, index as int, chunk_count as int);
                }
                return Err(e);
            },
        };
        if next_off >= 8192 && next_off - 8192 == cur_off {
            if input.len() < 8192 || cur_off > input.len() - 8192 {
                proof {
                    lemma_chunks_error(input@, wx as int, index as int, chunk_count as int);
                }
                return Err(LoaderError::Truncated);
            }
            let part = vstd::slice::slice_subrange(input.as_slice(), cur_off, cur_off + 8192);
            let mut part_vec = vstd::slice::slice_to_vec(part);
            result.append(&mut part_vec);
        } else {
            if cur_off > input.len() {
                proof {
                    lemma_chunks_error(input@, wx as int, index as int, chunk_count as int);
                }
                return Err(LoaderError::Truncated);
            }
            let tail = vstd::slice::slice_subrange(input.as_slice(), cur_off, input.len());
            let decoded = match ds_decode(tail) {
                Ok(v) => v,
                Err(e) => {
                    proof {
                        lemma_chunks_error(input@, wx as int, index as int, chunk_count as int);
                    }
                    return Err(e);
                },
            };
            let mut dv = decoded;
            result.append(&mut dv);
        }
        index += 1;
    }
    Ok((result, wx))
}


/// Law: a count encoding whose unary prefix holds `p` zero bits before the
/// terminating one bit reads back as a count in the range from
/// `count_base(p)` to `count_base(p)` plus two-to-the-`p` less one; with no
/// zero bit at all the count is exactly 2. The whole encoding occupies
/// `2 * p + 1` bits.
pub proof fn lemma_count_range(input: Seq<u8>, i: int, p: int)
    requires
        0 <= i,
        0 <= p <= 8,
        forall|x: int| i <= x < i + p ==> !bit_at(input, x),
        bit_at(input, i + p),
        i + 1 + 2 * p <= nbits(input),
    ensures
        match spec_count(input, i) {
            Ok((c, j)) => count_base(p) <= c <= count_base(p) + pow2(p as nat) - 1 && j == i + 1
                + 2 * p && (p == 0 ==> c == 2),
            Err(e) => false,
        },
{
    lemma_count_range_rec(input, i, 0, p);
}

/// The induction behind `lemma_count_range`: `p0` zero bits already
/// consumed, `d` more before the terminating one bit.
proof fn lemma_count_range_rec(input: Seq<u8>, i: int, p0: int, d: int)
    requires
        0 <= i,
        0 <= p0,
        0 <= d,
        p0 + d <= 8,
        forall|x: int| i <= x < i + d ==> !bit_at(input, x),
        bit_at(input, i + d),
        i + d + 1 + (p0 + d) <= nbits(input),
    ensures
        match spec_count_rec(input, i, p0) {
            Ok((c, j)) => count_base(p0 + d) <= c <= count_base(p0 + d) + pow2((p0 + d) as nat) - 1
                && j == i + d + 1 + (p0 + d),
            Err(e) => false,
        },
    decreases d,
{
    if d == 0 {
        lemma2_to64();
        if p0 > 0 {
            lemma_bits_val_bound(input, i + 1, p0 as nat);
            if p0 < 8 {
                vstd::arithmetic::power2::lemma_pow2_strictly_increases(p0 as nat, 8);
            }
        }
    } else {
        assert(!bit_at(input, i));
        lemma_count_range_rec(input, i + 1, p0 + 1, d - 1);
    }
}


/// Bytes already produced are never changed by a back-reference copy.
pub proof fn lemma_back_copy_prefix(acc: Seq<u8>, depth: int, c1: nat, c2: nat, i: int)
    requires
        c1 <= c2,
        0 <= i < acc.len() + c1,
    ensures
        back_copy(acc, depth, c2)[i] == back_copy(acc, depth, c1)[i],
    decreases c2,
{
    if c2 > c1 {
        lemma_back_copy_len(acc, depth, (c2 - 1) as nat);
        lemma_back_copy_prefix(acc, depth, c1, (c2 - 1) as nat, i);
    }
}

/// Law: a back-reference copy replicates the `depth` bytes standing before
/// it cyclically, one byte at a time: byte `j` of the copied run equals
/// the byte `depth` positions before the run's start at the same residue,
/// so an overlapping copy reads the bytes it has just produced.
pub proof fn lemma_back_copy_replicates(acc: Seq<u8>, depth: int, count: nat, j: int)
    requires
        1 <= depth <= acc.len(),
        0 <= j < count,
    ensures
        back_copy(acc, depth, count)[acc.len() + j] == acc[acc.len() - depth + (j % depth)],
    decreases j,
{
    lemma_back_copy_len(acc, depth, count);
    lemma_back_copy_len(acc, depth, j as nat);
    lemma_back_copy_len(acc, depth, (j + 1) as nat);
    lemma_back_copy_prefix(acc, depth, (j + 1) as nat, count, acc.len() + j);
    let prev = back_copy(acc, depth, j as nat);
    assert(back_copy(acc, depth, (j + 1) as nat) == prev.push(prev[prev.len() - depth]));
    assert(back_copy(acc, depth, (j + 1) as nat)[acc.len() + j] == prev[acc.len() + j - depth]);
    if j < depth {
        lemma_back_copy_prefix(acc, depth, 0, j as nat, acc.len() + j - depth);
        vstd::arithmetic::div_mod::lemma_small_mod(j as nat, depth as nat);
    } else {
        lemma_back_copy_replicates(acc, depth, j as nat, j - depth);
        vstd::arithmetic::div_mod::lemma_mod_sub_multiples_vanish(j, depth);
    }
}


/// A run of clear bits reads as the value zero.
pub proof fn lemma_bits_val_zero(input: Seq<u8>, i: int, n: nat)
    requires
        forall|x: int| i <= x < i + n ==> !bit_at(input, x),
    ensures
        bits_val(input, i, n) == 0,
    decreases n,
{
    if n > 0 {
        assert(!bit_at(input, i));
        lemma_bits_val_zero(input, i + 1, (n - 1) as nat);
    }
}

/// Bits that spell out the low `n` bits of a byte, least significant
/// first, read back as that byte's value modulo the `n`-th power of two.
pub proof fn lemma_bits_val_from_byte(input: Seq<u8>, i: int, v: u8, n: nat)
    requires
        n <= 8,
        forall|x: int| i <= x < i + n ==> bit_at(input, x) == ((v >> ((x - i) as u8)) & 1 == 1),
    ensures
        bits_val(input, i, n) == (v as nat) % pow2(n),
    decreases n,
{
    lemma2_to64();
    if n == 0 {
        assert((v as nat) % 1 == 0);
    } else {
        let w = v >> 1u8;
        assert forall|x: int| i + 1 <= x < i + 1 + (n - 1) implies bit_at(input, x) == ((w >> ((x
            - (i + 1)) as u8)) & 1 == 1) by {
            assert(bit_at(input, x) == ((v >> ((x - i) as u8)) & 1 == 1));
            let tt = (x - (i + 1)) as u8;
            assert(((v >> 1u8) >> tt) & 1 == (v >> vstd::prelude::add(tt, 1)) & 1) by (bit_vector)
                requires
                    tt < 8,
            ;
            assert((x - i) as u8 == vstd::prelude::add(tt, 1));
        }
        lemma_bits_val_from_byte(input, i + 1, w, (n - 1) as nat);
        assert(bit_at(input, i) == ((v >> 0u8) & 1 == 1));
        assert(((v >> 0u8) & 1 == 1) == (v % 2 == 1)) by (bit_vector);
        assert(v >> 1u8 == v / 2) by (bit_vector);
        lemma_pow2_unfold(n);
        vstd::arithmetic::div_mod::lemma_breakdown(v as int, 2, pow2((n - 1) as nat) as int);
        assert(bits_val(input, i, n) == (if bit_at(input, i) {
            1nat
        } else {
            0nat
        }) + 2 * bits_val(input, i + 1, (n - 1) as nat));
    }
}

/// Law: the literal encoding inverts. Wherever the stream holds a byte's
/// top bit, the opposite bit, and then its seven low bits least
/// significant first, the token read is exactly that literal byte, nine
/// bits long.
pub proof fn lemma_literal_token_inverts(input: Seq<u8>, i: int, b: u8)
    requires
        0 <= i,
        i + 9 <= nbits(input),
        bit_at(input, i) == (b >= 128),
        bit_at(input, i + 1) == (b < 128),
        forall|x: int|
            i + 2 <= x < i + 9 ==> bit_at(input, x) == ((b >> ((x - i - 2) as u8)) & 1 == 1),
    ensures
        spec_token(input, i) == Ok::<(DSToken, int), LoaderError>((DSToken::Raw(b), i + 9)),
{
    assert forall|x: int| i + 2 <= x < i + 2 + 7 implies bit_at(input, x) == ((b >> ((x - (i
        + 2)) as u8)) & 1 == 1) by {
        assert(bit_at(input, x) == ((b >> ((x - i - 2) as u8)) & 1 == 1));
    }
    lemma_bits_val_from_byte(input, i + 2, b, 7);
    lemma2_to64();
    assert((b as nat) % 128 == (if b >= 128 {
        (b - 128) as nat
    } else {
        b as nat
    }));
}

/// Law: the end encoding inverts. Wherever the stream holds eight clear
/// bits, the token read is the end of the block.
pub proof fn lemma_end_token_inverts(input: Seq<u8>, i: int)
    requires
        0 <= i,
        i + 8 <= nbits(input),
        forall|x: int| i <= x < i + 8 ==> !bit_at(input, x),
    ensures
        spec_token(input, i) == Ok::<(DSToken, int), LoaderError>((DSToken::End, i + 8)),
{
    assert(!bit_at(input, i));
    assert(!bit_at(input, i + 1));
    lemma_bits_val_zero(input, i + 2, 6);
}


/// Whether the nine bits at `i` are the literal encoding of byte `b`: its
/// top bit, the opposite bit, then its seven low bits least significant
/// first.
pub open spec fn literal_encoded_at(s: Seq<u8>, i: int, b: u8) -> bool {
    &&& bit_at(s, i) == (b >= 128)
    &&& bit_at(s, i + 1) == (b < 128)
    &&& forall|x: int| i + 2 <= x < i + 9 ==> bit_at(s, x) == ((b >> ((x - i - 2) as u8)) & 1 == 1)
}


/// Bits that spell out the low `n` bits of a 16-bit value, least
/// significant first, read back as that value modulo the `n`-th power of
/// two.
pub proof fn lemma_bits_val_from_word(input: Seq<u8>, i: int, v: u16, n: nat)
    requires
        n <= 16,
        forall|x: int| i <= x < i + n ==> bit_at(input, x) == ((v >> ((x - i) as u16)) & 1 == 1),
    ensures
        bits_val(input, i, n) == (v as nat) % pow2(n),
    decreases n,
{
    lemma2_to64();
    if n == 0 {
        assert((v as nat) % 1 == 0);
    } else {
        let w = v >> 1u16;
        assert forall|x: int| i + 1 <= x < i + 1 + (n - 1) implies bit_at(input, x) == ((w >> ((x
            - (i + 1)) as u16)) & 1 == 1) by {
            assert(bit_at(input, x) == ((v >> ((x - i) as u16)) & 1 == 1));
            let tt = (x - (i + 1)) as u16;
            assert(((v >> 1u16) >> tt) & 1 == (v >> vstd::prelude::add(tt, 1)) & 1) by (bit_vector)
                requires
                    tt < 16,
            ;
            assert((x - i) as u16 == vstd::prelude::add(tt, 1));
        }
        lemma_bits_val_from_word(input, i + 1, w, (n - 1) as nat);
        assert(bit_at(input, i) == ((v >> 0u16) & 1 == 1));
        assert(((v >> 0u16) & 1 == 1) == (v % 2 == 1)) by (bit_vector);
        assert(v >> 1u16 == v / 2) by (bit_vector);
        lemma_pow2_unfold(n);
        vstd::arithmetic::div_mod::lemma_breakdown(v as int, 2, pow2((n - 1) as nat) as int);
        assert(bits_val(input, i, n) == (if bit_at(input, i) {
            1nat
        } else {
            0nat
        }) + 2 * bits_val(input, i + 1, (n - 1) as nat));
    }
}

/// The induction behind `lemma_count_encoding_inverts`: `p0` zero bits
/// already consumed, `d` more before the terminating one bit.
proof fn lemma_count_encoding_rec(input: Seq<u8>, i: int, p0: int, d: int, c: u16)
    requires
        0 <= i,
        0 <= p0,
        0 <= d,
        p0 + d <= 8,
        count_base(p0 + d) <= c,
        c - count_base(p0 + d) < pow2((p0 + d) as nat),
        i + d + 1 + (p0 + d) <= nbits(input),
        forall|x: int| i <= x < i + d ==> !bit_at(input, x),
        bit_at(input, i + d),
        forall|x: int|
            i + d + 1 <= x < i + d + 1 + (p0 + d) ==> bit_at(input, x) == ((((c - count_base(p0
                + d)) as u16) >> ((x - (i + d + 1)) as u16)) & 1 == 1),
    ensures
        spec_count_rec(input, i, p0) == Ok::<(u16, int), LoaderError>((c, i + d + 1 + (p0 + d))),
    decreases d,
{
    lemma2_to64();
    if d == 0 {
        if p0 == 0 {
            assert(c == 2);
        } else {
            lemma_bits_val_from_word(input, i + 1, (c - count_base(p0)) as u16, p0 as nat);
            vstd::arithmetic::div_mod::lemma_small_mod(
                (c - count_base(p0)) as nat,
                pow2(p0 as nat),
            );
        }
    } else {
        assert(!bit_at(input, i));
        lemma_count_encoding_rec(input, i + 1, p0 + 1, d - 1, c);
    }
}

/// Law: the count encoding inverts: `p` zero bits, a one bit, and then
/// `p` bits spelling the count's distance from `count_base(p)` read back
/// as exactly that count, `2 * p + 1` bits long.
pub proof fn lemma_count_encoding_inverts(input: Seq<u8>, i: int, p: int, c: u16)
    requires
        0 <= i,
        0 <= p <= 8,
        count_base(p) <= c,
        c - count_base(p) < pow2(p as nat),
        i + 1 + 2 * p <= nbits(input),
        forall|x: int| i <= x < i + p ==> !bit_at(input, x),
        bit_at(input, i + p),
        forall|x: int|
            i + p + 1 <= x < i + 1 + 2 * p ==> bit_at(input, x) == ((((c - count_base(
                p,
            )) as u16) >> ((x - (i + p + 1)) as u16)) & 1 == 1),
    ensures
        spec_count(input, i) == Ok::<(u16, int), LoaderError>((c, i + 1 + 2 * p)),
{
    lemma_count_encoding_rec(input, i, 0, p, c);
}

/// Law: the short back-reference encoding inverts. Two zero bits and six
/// bits spelling a nonzero depth, followed by a well-formed count read,
/// yield exactly that depth-and-count token.
pub proof fn lemma_short_backref_inverts(input: Seq<u8>, i: int, d: u16, c: u16, j: int)
    requires
        0 <= i,
        i + 8 <= nbits(input),
        1 <= d <= 63,
        !bit_at(input, i),
        !bit_at(input, i + 1),
        forall|x: int|
            i + 2 <= x < i + 8 ==> bit_at(input, x) == ((d >> ((x - (i + 2)) as u16)) & 1 == 1),
        spec_count(input, i + 8) == Ok::<(u16, int), LoaderError>((c, j)),
        c != 0,
    ensures
        spec_token(input, i) == Ok::<(DSToken, int), LoaderError>((DSToken::DepthCount(d, c), j)),
{
    lemma_bits_val_from_word(input, i + 2, d, 6);
    lemma2_to64();
    vstd::arithmetic::div_mod::lemma_small_mod(d as nat, 64);
}

/// Law: the eight-bit back-reference encoding inverts. Two one bits, a
/// zero selector bit and eight bits spelling the depth less 64, followed
/// by a well-formed count read, yield exactly that depth-and-count token.
pub proof fn lemma_mid_backref_inverts(input: Seq<u8>, i: int, d: u16, c: u16, j: int)
    requires
        0 <= i,
        i + 11 <= nbits(input),
        64 <= d <= 319,
        bit_at(input, i),
        bit_at(input, i + 1),
        !bit_at(input, i + 2),
        forall|x: int|
            i + 3 <= x < i + 11 ==> bit_at(input, x) == (((d - 64) as u16 >> ((x - (i
                + 3)) as u16)) & 1 == 1),
        spec_count(input, i + 11) == Ok::<(u16, int), LoaderError>((c, j)),
        c != 0,
    ensures
        spec_token(input, i) == Ok::<(DSToken, int), LoaderError>((DSToken::DepthCount(d, c), j)),
{
    lemma_bits_val_from_word(input, i + 3, (d - 64) as u16, 8);
    lemma2_to64();
    vstd::arithmetic::div_mod::lemma_small_mod((d - 64) as nat, 256);
}

/// Law: the twelve-bit back-reference encoding inverts. Three one bits
/// and twelve bits spelling the depth less 320 (any depth but the
/// reserved 4415), followed by a well-formed count read, yield exactly
/// that depth-and-count token.
pub proof fn lemma_long_backref_inverts(input: Seq<u8>, i: int, d: u16, c: u16, j: int)
    requires
        0 <= i,
        i + 15 <= nbits(input),
        320 <= d <= 4414,
        bit_at(input, i),
        bit_at(input, i + 1),
        bit_at(input, i + 2),
        forall|x: int|
            i + 3 <= x < i + 15 ==> bit_at(input, x) == (((d - 320) as u16 >> ((x - (i
                + 3)) as u16)) & 1 == 1),
        spec_count(input, i + 15) == Ok::<(u16, int), LoaderError>((c, j)),
        c != 0,
    ensures
        spec_token(input, i) == Ok::<(DSToken, int), LoaderError>((DSToken::DepthCount(d, c), j)),
{
    lemma_bits_val_from_word(input, i + 3, (d - 320) as u16, 12);
    lemma2_to64();
    vstd::arithmetic::div_mod::lemma_small_mod((d - 320) as nat, 4096);
}

/// Law: the sector-break encoding inverts. Three one bits and twelve set
/// bits (the reserved depth 4415) read as the marker that emits nothing.
pub proof fn lemma_sector_break_inverts(input: Seq<u8>, i: int)
    requires
        0 <= i,
        i + 15 <= nbits(input),
        bit_at(input, i),
        bit_at(input, i + 1),
        bit_at(input, i + 2),
        forall|x: int| i + 3 <= x < i + 15 ==> bit_at(input, x),
    ensures
        spec_token(input, i) == Ok::<(DSToken, int), LoaderError>((DSToken::SectorBreak, i + 15)),
{
    assert forall|x: int| i + 3 <= x < i + 15 implies bit_at(input, x) == ((4095u16 >> ((x - (i
        + 3)) as u16)) & 1 == 1) by {
        let tt = (x - (i + 3)) as u16;
        assert((4095u16 >> tt) & 1 == 1) by (bit_vector)
            requires
                tt < 12,
        ;
    }
    lemma_bits_val_from_word(input, i + 3, 4095, 12);
    lemma2_to64();
    vstd::arithmetic::div_mod::lemma_small_mod(4095, 4096);
}


/// The unary prefix length the canonical encoder picks for copy count
/// `c`: the shortest whose range reaches it.
pub open spec fn count_prefix_len(c: u16) -> int {
    if c <= 2 {
        0
    } else if c <= 4 {
        1
    } else if c <= 8 {
        2
    } else if c <= 16 {
        3
    } else if c <= 32 {
        4
    } else if c <= 64 {
        5
    } else if c <= 128 {
        6
    } else if c <= 256 {
        7
    } else {
        8
    }
}

/// Bits the canonical count encoding of `c` occupies.
pub open spec fn count_bits(c: u16) -> int {
    1 + 2 * count_prefix_len(c)
}

/// An encodable count lands in its canonical prefix's range.
pub proof fn lemma_count_canonical(c: u16)
    requires
        2 <= c <= 512,
    ensures
        0 <= count_prefix_len(c) <= 8,
        count_base(count_prefix_len(c)) <= c,
        c - count_base(count_prefix_len(c)) < pow2(count_prefix_len(c) as nat),
{
    lemma2_to64();
}

/// Whether the canonical count encoding of `c` stands at bit `i`.
pub open spec fn count_encoded_at(s: Seq<u8>, i: int, c: u16) -> bool {
    let p = count_prefix_len(c);
    &&& (forall|x: int| i <= x < i + p ==> !bit_at(s, x))
    &&& bit_at(s, i + p)
    &&& (forall|x: int|
        i + p + 1 <= x < i + 1 + 2 * p ==> bit_at(s, x) == ((((c - count_base(p)) as u16) >> ((x
            - (i + p + 1)) as u16)) & 1 == 1))
}

/// Whether one token's canonical encoding stands at bit `i`.
pub open spec fn token_encoded_at(s: Seq<u8>, i: int, t: DSToken) -> bool {
    match t {
        DSToken::Raw(b) => literal_encoded_at(s, i, b),
        DSToken::End => forall|x: int| i <= x < i + 8 ==> !bit_at(s, x),
        DSToken::SectorBreak => {
            &&& bit_at(s, i)
            &&& bit_at(s, i + 1)
            &&& bit_at(s, i + 2)
            &&& (forall|x: int| i + 3 <= x < i + 15 ==> bit_at(s, x))
        },
        DSToken::DepthCount(d, c) => {
            if d <= 63 {
                &&& !bit_at(s, i)
                &&& !bit_at(s, i + 1)
                &&& (forall|x: int|
                    i + 2 <= x < i + 8 ==> bit_at(s, x) == ((d >> ((x - (i + 2)) as u16)) & 1
                        == 1))
                &&& count_encoded_at(s, i + 8, c)
            } else if d <= 319 {
                &&& bit_at(s, i)
                &&& bit_at(s, i + 1)
                &&& !bit_at(s, i + 2)
                &&& (forall|x: int|
                    i + 3 <= x < i + 11 ==> bit_at(s, x) == (((d - 64) as u16 >> ((x - (i
                        + 3)) as u16)) & 1 == 1))
                &&& count_encoded_at(s, i + 11, c)
            } else {
                &&& bit_at(s, i)
                &&& bit_at(s, i + 1)
                &&& bit_at(s, i + 2)
                &&& (forall|x: int|
                    i + 3 <= x < i + 15 ==> bit_at(s, x) == (((d - 320) as u16 >> ((x - (i
                        + 3)) as u16)) & 1 == 1))
                &&& count_encoded_at(s, i + 15, c)
            }
        },
    }
}

/// Bits one token's canonical encoding occupies.
pub open spec fn token_bits(t: DSToken) -> int {
    match t {
        DSToken::Raw(_) => 9,
        DSToken::End => 8,
        DSToken::SectorBreak => 15,
        DSToken::DepthCount(d, c) => (if d <= 63 {
            8int
        } else if d <= 319 {
            11int
        } else {
            15int
        }) + count_bits(c),
    }
}

/// Whether the canonical encodings of the tokens of `ts`, and a final end
/// token, stand back to back from bit `i`, all inside the stream.
pub open spec fn tokens_encoded_at(s: Seq<u8>, i: int, ts: Seq<DSToken>) -> bool
    decreases ts.len(),
{
    if ts.len() == 0 {
        &&& i + 8 <= nbits(s)
        &&& (forall|x: int| i <= x < i + 8 ==> !bit_at(s, x))
    } else {
        &&& i + token_bits(ts[0]) <= nbits(s)
        &&& token_encoded_at(s, i, ts[0])
        &&& tokens_encoded_at(s, i + token_bits(ts[0]), ts.drop_first())
    }
}

/// What applying the tokens of `ts` to the output `acc` produces.
pub open spec fn apply_tokens(ts: Seq<DSToken>, acc: Seq<u8>) -> Seq<u8>
    decreases ts.len(),
{
    if ts.len() == 0 {
        acc
    } else {
        match ts[0] {
            DSToken::Raw(b) => apply_tokens(ts.drop_first(), acc.push(b)),
            DSToken::DepthCount(d, c) => apply_tokens(
                ts.drop_first(),
                back_copy(acc, d as int, c as nat),
            ),
            _ => apply_tokens(ts.drop_first(), acc),
        }
    }
}

/// Whether the encoder could have produced `ts` against the output `acc`:
/// every token is within the grammar's ranges, every back-reference stays
/// inside the output produced so far, and the block quota is not reached
/// before the list ends.
pub open spec fn tokens_applicable(ts: Seq<DSToken>, acc: Seq<u8>) -> bool
    decreases ts.len(),
{
    if ts.len() == 0 {
        true
    } else {
        &&& acc.len() < 8192
        &&& (match ts[0] {
            DSToken::Raw(b) => tokens_applicable(ts.drop_first(), acc.push(b)),
            DSToken::DepthCount(d, c) => {
                &&& 1 <= d <= 4414
                &&& 2 <= c <= 512
                &&& d <= acc.len()
                &&& tokens_applicable(ts.drop_first(), back_copy(acc, d as int, c as nat))
            },
            DSToken::SectorBreak => tokens_applicable(ts.drop_first(), acc),
            DSToken::End => false,
        })
    }
}

/// The induction behind `lemma_canonical_round_trip`: decoding from bit
/// `i` with `acc` already produced applies exactly the remaining tokens.
proof fn lemma_round_trip_rec(s: Seq<u8>, ts: Seq<DSToken>, i: int, acc: Seq<u8>)
    requires
        0 <= i,
        tokens_encoded_at(s, i, ts),
        tokens_applicable(ts, acc),
    ensures
        spec_decode_from(s, i, acc) == Ok::<Seq<u8>, LoaderError>(apply_tokens(ts, acc)),
    decreases ts.len(),
{
    if ts.len() == 0 {
        if acc.len() < 8192 {
            lemma_end_token_inverts(s, i);
        }
    } else {
        let rest = ts.drop_first();
        match ts[0] {
            DSToken::Raw(b) => {
                lemma_literal_token_inverts(s, i, b);
                lemma_round_trip_rec(s, rest, i + 9, acc.push(b));
            },
            DSToken::DepthCount(d, c) => {
                lemma_count_canonical(c);
                let df: int = if d <= 63 {
                    8
                } else if d <= 319 {
                    11
                } else {
                    15
                };
                lemma_count_encoding_inverts(s, i + df, count_prefix_len(c), c);
                if d <= 63 {
                    lemma_short_backref_inverts(s, i, d, c, i + token_bits(ts[0]));
                } else if d <= 319 {
                    lemma_mid_backref_inverts(s, i, d, c, i + token_bits(ts[0]));
                } else {
                    lemma_long_backref_inverts(s, i, d, c, i + token_bits(ts[0]));
                }
                lemma_round_trip_rec(
                    s,
                    rest,
                    i + token_bits(ts[0]),
                    back_copy(acc, d as int, c as nat),
                );
            },
            DSToken::SectorBreak => {
                lemma_sector_break_inverts(s, i);
                lemma_round_trip_rec(s, rest, i + 15, acc);
            },
            DSToken::End => {
                assert(false);
            },
        }
    }
}

/// Law: decoding inverts the canonical encoding of the grammar. For any
/// token list the encoder could produce against an initially empty
/// output, a stream spelling those tokens back to back, closed by the end
/// token, decodes to exactly the bytes the tokens describe.
pub proof fn lemma_canonical_round_trip(s: Seq<u8>, ts: Seq<DSToken>)
    requires
        tokens_encoded_at(s, 0, ts),
        tokens_applicable(ts, Seq::empty()),
    ensures
        spec_decode(s) == Ok::<Seq<u8>, LoaderError>(apply_tokens(ts, Seq::empty())),
{
    lemma_round_trip_rec(s, ts, 0, Seq::empty());
}

} // verus!
