//! UTF-256: a deliberately redundant byte encoding.
//!
//! Every bit of the input becomes a full output byte — 0x00 for a 0 bit,
//! 0xFF for a 1 bit — so the encoded form is exactly eight times as long as
//! the original. Decoding reverses the expansion and rejects any input that
//! is not a well-formed expanded sequence: its length must be a multiple of
//! eight and every byte must be one of the two sentinel values.

use vstd::arithmetic::div_mod::lemma_fundamental_div_mod;
use vstd::arithmetic::div_mod::lemma_fundamental_div_mod_converse;
use vstd::prelude::*;

verus! {

/// Why a decode attempt was rejected.
#[derive(Debug, Clone, Copy, PartialEq, Eq, Structural)]
pub enum DecodeError {
    /// The input length is not a multiple of eight, so it cannot be split
    /// into chunks of eight sentinel bytes.
    MalformedLength,
    /// A byte other than 0x00 or 0xFF was met. `value` is the first such
    /// byte and `chunk` the index of the eight-byte chunk that holds it.
    InvalidSentinel { value: u8, chunk: usize },
}

/// True of the two bytes that may appear in an expanded sequence:
/// 0x00 stands for a 0 bit and 0xFF for a 1 bit.
pub open spec fn is_sentinel(v: u8) -> bool {
    v == 0x00 || v == 0xFF
}

/// The bit a sentinel byte stands for: 1 for 0xFF, 0 for 0x00.
pub open spec fn sentinel_bit(v: u8) -> u8 {
    if v == 0xFF {
        1
    } else {
        0
    }
}

/// Bit `k` of the byte `b`, counted from the least significant end.
pub open spec fn bit_at(b: u8, k: u8) -> u8 {
    (b >> k) & 1
}

/// The sentinel byte for bit `k` (counted from the least significant end)
/// of the byte `b`.
pub open spec fn sentinel_of_bit(b: u8, k: u8) -> u8 {
    if bit_at(b, k) == 1 {
        0xFF
    } else {
        0x00
    }
}

/// The eight sentinel bytes that encode one byte, most significant bit first.
pub open spec fn encoded_byte(b: u8) -> Seq<u8> {
    seq![
        sentinel_of_bit(b, 7),
        sentinel_of_bit(b, 6),
        sentinel_of_bit(b, 5),
        sentinel_of_bit(b, 4),
        sentinel_of_bit(b, 3),
        sentinel_of_bit(b, 2),
        sentinel_of_bit(b, 1),
        sentinel_of_bit(b, 0),
    ]
}

/// The expanded form of a byte sequence: each byte becomes its eight
/// sentinel bytes, in order.
pub open spec fn encoded(s: Seq<u8>) -> Seq<u8>
    decreases s.len(),
{
    if s.len() == 0 {
        Seq::empty()
    } else {
        encoded(s.drop_last()) + encoded_byte(s.last())
    }
}

/// The byte that a chunk of eight sentinel bytes stands for, its first
/// element giving the most significant bit.
pub open spec fn decoded_chunk(c: Seq<u8>) -> u8
    recommends
        c.len() == 8,
{
    (sentinel_bit(c[0]) << 7u8) | (sentinel_bit(c[1]) << 6u8) | (sentinel_bit(c[2]) << 5u8) | (
    sentinel_bit(c[3]) << 4u8) | (sentinel_bit(c[4]) << 3u8) | (sentinel_bit(c[5]) << 2u8) | (
    sentinel_bit(c[6]) << 1u8) | sentinel_bit(c[7])
}

/// What a well-formed expanded sequence decodes to: one byte per chunk of
/// eight sentinel bytes.
pub open spec fn decoded(s: Seq<u8>) -> Seq<u8>
    recommends
        s.len() % 8 == 0,
{
    Seq::new((s.len() / 8) as nat, |i: int| decoded_chunk(s.subrange(8 * i, 8 * i + 8)))
}

/// A sequence is a well-formed expanded sequence: its length is a multiple
/// of eight and every byte is a sentinel.
pub open spec fn well_formed(s: Seq<u8>) -> bool {
    &&& s.len() % 8 == 0
    &&& forall|i: int| 0 <= i < s.len() ==> is_sentinel(s[i])
}

/// The index of the first byte of `s` that is not a sentinel, when there is
/// one; decoding reports this byte.
pub open spec fn first_non_sentinel(s: Seq<u8>) -> int
    recommends
        exists|i: int| 0 <= i < s.len() && !is_sentinel(s[i]),
    decreases s.len(),
{
    if s.len() == 0 {
        0
    } else if !is_sentinel(s[0]) {
        0
    } else {
        1 + first_non_sentinel(s.subrange(1, s.len() as int))
    }
}

/// An index whose prefix is all sentinels and whose own byte is not one is
/// the first non-sentinel index.
proof fn lemma_first_non_sentinel(s: Seq<u8>, w: int)
    requires
        0 <= w < s.len(),
        !is_sentinel(s[w]),
        forall|t: int| 0 <= t < w ==> is_sentinel(s[t]),
    ensures
        first_non_sentinel(s) == w,
    decreases w,
{
    if w > 0 {
        let tail = s.subrange(1, s.len() as int);
        assert forall|t: int| 0 <= t < w - 1 implies is_sentinel(tail[t]) by {
            assert(tail[t] == s[t + 1]);
        }
        assert(tail[w - 1] == s[w]);
        lemma_first_non_sentinel(tail, w - 1);
    }
}

/// The expanded form of a sequence is eight times as long and consists of
/// sentinel bytes alone: it is well formed.
pub proof fn lemma_encoded_well_formed(s: Seq<u8>)
    ensures
        encoded(s).len() == 8 * s.len(),
        well_formed(encoded(s)),
    decreases s.len(),
{
    if s.len() > 0 {
        let head = s.drop_last();
        lemma_encoded_well_formed(head);
        assert forall|i: int| 0 <= i < encoded(s).len() implies is_sentinel(encoded(s)[i]) by {
            if i < encoded(head).len() {
                assert(encoded(s)[i] == encoded(head)[i]);
            } else {
                assert(encoded(s)[i] == encoded_byte(s.last())[i - encoded(head).len()]);
            }
        }
    }
    assert(encoded(s).len() % 8 == 0) by {
        lemma_fundamental_div_mod_converse(8 * s.len() as int, 8, s.len() as int, 0);
    }
}

/// The byte at position `8 * i + j` of an expanded sequence is byte `j` of
/// the chunk that encodes the `i`-th input byte.
proof fn lemma_encoded_index(s: Seq<u8>, i: int, j: int)
    requires
        0 <= i < s.len(),
        0 <= j < 8,
    ensures
        encoded(s)[8 * i + j] == encoded_byte(s[i])[j],
    decreases s.len(),
{
    let head = s.drop_last();
    lemma_encoded_well_formed(head);
    if i < s.len() - 1 {
        lemma_encoded_index(head, i, j);
        assert(encoded(s)[8 * i + j] == encoded(head)[8 * i + j]);
    } else {
        assert(encoded(s)[8 * i + j] == encoded_byte(s.last())[j]);
    }
}

/// Decoding the chunk that encodes a byte gives that byte back.
proof fn lemma_decoded_chunk_of_encoded_byte(b: u8)
    ensures
        decoded_chunk(encoded_byte(b)) == b,
{
    assert(bit_at(b, 7) == 0 || bit_at(b, 7) == 1) by (bit_vector);
    assert(bit_at(b, 6) == 0 || bit_at(b, 6) == 1) by (bit_vector);
    assert(bit_at(b, 5) == 0 || bit_at(b, 5) == 1) by (bit_vector);
    assert(bit_at(b, 4) == 0 || bit_at(b, 4) == 1) by (bit_vector);
    assert(bit_at(b, 3) == 0 || bit_at(b, 3) == 1) by (bit_vector);
    assert(bit_at(b, 2) == 0 || bit_at(b, 2) == 1) by (bit_vector);
    assert(bit_at(b, 1) == 0 || bit_at(b, 1) == 1) by (bit_vector);
    assert(bit_at(b, 0) == 0 || bit_at(b, 0) == 1) by (bit_vector);
    assert(b == (bit_at(b, 7) << 7u8) | (bit_at(b, 6) << 6u8) | (bit_at(b, 5) << 5u8) | (bit_at(
        b,
        4,
    ) << 4u8) | (bit_at(b, 3) << 3u8) | (bit_at(b, 2) << 2u8) | (bit_at(b, 1) << 1u8) | bit_at(
        b,
        0,
    )) by (bit_vector);
}

/// Round trip: the expanded form of any byte sequence is well formed, and
/// decoding it gives the original sequence back.
pub proof fn lemma_round_trip(s: Seq<u8>)
    ensures
        well_formed(encoded(s)),
        decoded(encoded(s)) == s,
{
    lemma_encoded_well_formed(s);
    let e = encoded(s);
    assert(e.len() / 8 == s.len()) by {
        lemma_fundamental_div_mod_converse(8 * s.len() as int, 8, s.len() as int, 0);
    }
    assert forall|i: int| 0 <= i < s.len() implies decoded(e)[i] == s[i] by {
        assert forall|j: int| 0 <= j < 8 implies e.subrange(8 * i, 8 * i + 8)[j] == encoded_byte(
            s[i],
        )[j] by {
            lemma_encoded_index(s, i, j);
        }
        assert(e.subrange(8 * i, 8 * i + 8) =~= encoded_byte(s[i]));
        lemma_decoded_chunk_of_encoded_byte(s[i]);
    }
    assert(decoded(e) =~= s);
}

/// Appends the eight sentinel bytes that encode `b`, most significant bit
/// first.
fn push_encoded_byte(output: &mut Vec<u8>, b: u8)
    ensures
        final(output)@ == old(output)@ + encoded_byte(b),
{
    output.push(if (b >> 7u8) & 1 == 1 { 0xFF } else { 0x00 });
    output.push(if (b >> 6u8) & 1 == 1 { 0xFF } else { 0x00 });
    output.push(if (b >> 5u8) & 1 == 1 { 0xFF } else { 0x00 });
    output.push(if (b >> 4u8) & 1 == 1 { 0xFF } else { 0x00 });
    output.push(if (b >> 3u8) & 1 == 1 { 0xFF } else { 0x00 });
    output.push(if (b >> 2u8) & 1 == 1 { 0xFF } else { 0x00 });
    output.push(if (b >> 1u8) & 1 == 1 { 0xFF } else { 0x00 });
    output.push(if (b >> 0u8) & 1 == 1 { 0xFF } else { 0x00 });
    proof {
        assert(output@ =~= old(output)@ + encoded_byte(b));
    }
}

/// Expands a byte sequence to its UTF-256 form: each input byte becomes
/// eight bytes, one per bit from most to least significant, 0xFF for a 1
/// bit and 0x00 for a 0 bit. Never fails; the output is well formed and
/// decodes back to the input.
pub fn utf8_to_utf256(input: &[u8]) -> (r: Vec<u8>)
    ensures
        r@ == encoded(input@),
        r@.len() == 8 * input@.len(),
        forall|i: int| 0 <= i < r@.len() ==> is_sentinel(r@[i]),
        well_formed(r@),
        decoded(r@) == input@,
{
    let n: usize = input.len();
    let mut output: Vec<u8> = Vec::new();
    let mut k: usize = 0;
    while k < n
        invariant
            n == input@.len(),
            k <= n,
            output@ == encoded(input@.subrange(0, k as int)),
        decreases n - k,
    {
        push_encoded_byte(&mut output, input[k]);
        proof {
            let prev = input@.subrange(0, k as int);
            let cur = input@.subrange(0, k as int + 1);
            assert(cur.drop_last() =~= prev);
            assert(cur.last() == input@[k as int]);
            assert(encoded(cur) == encoded(prev) + encoded_byte(input@[k as int]));
        }
        k = k + 1;
    }
    proof {
        assert(input@.subrange(0, n as int) =~= input@);
        lemma_round_trip(input@);
    }
    output
}

/// The bit a sentinel byte stands for, as executable code.
fn bit_of_sentinel(v: u8) -> (b: u8)
    requires
        is_sentinel(v),
    ensures
        b == sentinel_bit(v),
{
    if v == 0xFF {
        1
    } else {
        0
    }
}

/// Recovers the original byte sequence from its UTF-256 form. Succeeds
/// exactly on well-formed input — length a multiple of eight, every byte a
/// sentinel — and then returns one byte per chunk of eight. A length that
/// is not a multiple of eight is rejected outright; otherwise the first
/// byte that is not a sentinel is reported with the chunk it sits in.
pub fn utf256_to_utf8(input: &[u8]) -> (r: Result<Vec<u8>, DecodeError>)
    ensures
        r is Ok <==> well_formed(input@),
        r matches Ok(v) ==> v@ == decoded(input@),
        input@.len() % 8 != 0 ==> r == Err::<Vec<u8>, DecodeError>(DecodeError::MalformedLength),
        input@.len() % 8 == 0 && !well_formed(input@) ==> r == Err::<Vec<u8>, DecodeError>(
            DecodeError::InvalidSentinel {
                value: input@[first_non_sentinel(input@)],
                chunk: (first_non_sentinel(input@) / 8) as usize,
            },
        ),
{
    let len: usize = input.len();
    if len % 8 != 0 {
        return Err(DecodeError::MalformedLength);
    }
    let n: usize = len / 8;
    proof {
        lemma_fundamental_div_mod(len as int, 8);
    }
    let mut output: Vec<u8> = Vec::new();
    let mut k: usize = 0;
    while k < n
        invariant
            len == input@.len(),
            input@.len() % 8 == 0,
            8 * n == len,
            k <= n,
            output@.len() == k,
            forall|t: int| 0 <= t < 8 * k ==> is_sentinel(input@[t]),
            forall|i: int|
                0 <= i < k ==> output@[i] == decoded_chunk(input@.subrange(8 * i, 8 * i + 8)),
        decreases n - k,
    {
        let base: usize = 8 * k;
        let mut j: usize = 0;
        while j < 8
            invariant
                len == input@.len(),
                input@.len() % 8 == 0,
                8 * n == len,
                k < n,
                base == 8 * k,
                j <= 8,
                forall|t: int| 0 <= t < base + j ==> is_sentinel(input@[t]),
            decreases 8 - j,
        {
            let v: u8 = input[base + j];
            if v != 0x00 && v != 0xFF {
                proof {
                    let w: int = base as int + j as int;
                    lemma_first_non_sentinel(input@, w);
                    lemma_fundamental_div_mod_converse(w, 8, k as int, j as int);
                }
                return Err(DecodeError::InvalidSentinel { value: v, chunk: k });
            }
            j = j + 1;
        }
        let b0: u8 = bit_of_sentinel(input[base]);
        let b1: u8 = bit_of_sentinel(input[base + 1]);
        let b2: u8 = bit_of_sentinel(input[base + 2]);
        let b3: u8 = bit_of_sentinel(input[base + 3]);
        let b4: u8 = bit_of_sentinel(input[base + 4]);
        let b5: u8 = bit_of_sentinel(input[base + 5]);
        let b6: u8 = bit_of_sentinel(input[base + 6]);
        let b7: u8 = bit_of_sentinel(input[base + 7]);
        let byte: u8 = (b0 << 7u8) | (b1 << 6u8) | (b2 << 5u8) | (b3 << 4u8) | (b4 << 3u8) | (b5
            << 2u8) | (b6 << 1u8) | b7;
        proof {
            let c = input@.subrange(base as int, base as int + 8);
            assert(byte == decoded_chunk(c));
        }
        output.push(byte);
        k = k + 1;
    }
    proof {
        assert(well_formed(input@));
        assert(output@ =~= decoded(input@));
    }
    Ok(output)
}

} // verus!
