//! Conversion between text and payload bits.
//!
//! A payload is the UTF-8 encoding of a text, eight bits per byte, most
//! significant bit first. Each bit is stored in a byte of its own, 0 or 1.
use vstd::prelude::*;
use vstd::string::{StringExecFns, StringSliceAdditionalSpecFns};
use vstd::utf8::{
    decode_utf8, encode_utf8, encode_utf8_decode_utf8, encode_utf8_valid_utf8, valid_utf8,
};
use crate::error::WatermarkError;
use crate::layout::{ceil_div, tile_count};
use crate::text::{decimal_string, decimal_text};

verus! {

/// Bit `i` of `byte`, counted from the most significant bit, as 0 or 1.
pub open spec fn bit_of(byte: u8, i: int) -> u8
    recommends
        0 <= i < 8,
{
    (byte >> ((7 - i) as u8)) & 1
}

/// The eight bits of every byte in turn.
pub open spec fn unpack(bytes: Seq<u8>) -> Seq<u8> {
    Seq::new(8 * bytes.len(), |k: int| bit_of(bytes[k / 8], k % 8))
}

/// The byte assembled from up to eight bits, the first bit being the most
/// significant: a position is set where the bit is not 0, and positions
/// beyond the end of `chunk` stay clear.
pub open spec fn byte_of(chunk: Seq<u8>) -> u8
    decreases chunk.len(),
{
    if chunk.len() == 0 || chunk.len() > 8 {
        0
    } else {
        let rest = byte_of(chunk.drop_last());
        if chunk.last() != 0 {
            rest | (1u8 << ((8 - chunk.len()) as u8))
        } else {
            rest
        }
    }
}

/// The `k`-th run of eight bits; the last run may be shorter.
pub open spec fn chunk(bits: Seq<u8>, k: int) -> Seq<u8> {
    bits.subrange(8 * k, if 8 * k + 8 <= bits.len() { 8 * k + 8 } else { bits.len() as int })
}

/// The bytes assembled from successive runs of eight bits.
pub open spec fn pack(bits: Seq<u8>) -> Seq<u8> {
    Seq::new(ceil_div(bits.len(), 8), |k: int| byte_of(chunk(bits, k)))
}

/// The payload bits of a text.
pub open spec fn text_bits(text: Seq<char>) -> Seq<u8> {
    unpack(encode_utf8(text))
}

/// The text that a payload spells, if its length is a multiple of eight and
/// its bytes are valid UTF-8.
pub open spec fn bits_text(bits: Seq<u8>) -> Option<Seq<char>> {
    if bits.len() % 8 == 0 && valid_utf8(pack(bits)) {
        Some(decode_utf8(pack(bits)))
    } else {
        None
    }
}

/// What lossy decoding makes of a byte string: the text in which every
/// invalid sequence has been replaced by the replacement character.
pub uninterp spec fn lossy_text(bytes: Seq<u8>) -> Seq<char>;

/// Number of bits equal to 1.
pub open spec fn count_ones(bits: Seq<u8>) -> nat
    decreases bits.len(),
{
    if bits.len() == 0 {
        0
    } else {
        count_ones(bits.drop_last()) + if bits.last() == 1 {
            1nat
        } else {
            0nat
        }
    }
}

/// Text that stands for a payload whose length is not a multiple of eight.
pub open spec fn ragged_text(len: nat) -> Seq<char> {
    "[错误: 长度"@ + decimal_text(len) + "不是8的倍数]"@
}

/// Strict decoding of a byte string, by `String::from_utf8` of the standard
/// library: it succeeds exactly on valid UTF-8 and then gives the text that
/// the bytes encode.
#[verifier::external_body]
fn utf8_to_string(bytes: Vec<u8>) -> (res: Option<String>)
    ensures
        res is Some <==> valid_utf8(bytes@),
        res matches Some(s) ==> s@ == decode_utf8(bytes@),
{
    String::from_utf8(bytes).ok()
}

/// Lossy decoding of a byte string, by `String::from_utf8_lossy` of the
/// standard library: valid UTF-8 is decoded as it is, anything else with
/// replacement characters.
#[verifier::external_body]
pub(crate) fn utf8_to_string_lossy(bytes: &Vec<u8>) -> (text: String)
    ensures
        text@ == lossy_text(bytes@),
        valid_utf8(bytes@) ==> text@ == decode_utf8(bytes@),
{
    String::from_utf8_lossy(bytes).into_owned()
}

/// Appending one bit to a run sets or leaves clear the next lower position.
pub proof fn lemma_byte_of_step(c: Seq<u8>, n: int)
    requires
        1 <= n <= 8,
        n <= c.len(),
    ensures
        byte_of(c.take(n)) == (if c[n - 1] != 0 {
            byte_of(c.take(n - 1)) | (1u8 << ((8 - n) as u8))
        } else {
            byte_of(c.take(n - 1))
        }),
{
    assert(c.take(n).drop_last() =~= c.take(n - 1));
    assert(c.take(n).last() == c[n - 1]);
}

/// Assembling the eight bits of a byte gives the byte back.
pub proof fn lemma_byte_round_trip(b: u8)
    ensures
        byte_of(Seq::new(8, |i: int| bit_of(b, i))) == b,
{
    let c = Seq::new(8, |i: int| bit_of(b, i));
    let x0 = byte_of(c.take(0));
    let x1 = byte_of(c.take(1));
    let x2 = byte_of(c.take(2));
    let x3 = byte_of(c.take(3));
    let x4 = byte_of(c.take(4));
    let x5 = byte_of(c.take(5));
    let x6 = byte_of(c.take(6));
    let x7 = byte_of(c.take(7));
    let x8 = byte_of(c.take(8));
    lemma_byte_of_step(c, 1);
    lemma_byte_of_step(c, 2);
    lemma_byte_of_step(c, 3);
    lemma_byte_of_step(c, 4);
    lemma_byte_of_step(c, 5);
    lemma_byte_of_step(c, 6);
    lemma_byte_of_step(c, 7);
    lemma_byte_of_step(c, 8);
    assert(c.take(8) =~= c);
    assert(x0 == 0);
    let b0 = c[0];
    let b1 = c[1];
    let b2 = c[2];
    let b3 = c[3];
    let b4 = c[4];
    let b5 = c[5];
    let b6 = c[6];
    let b7 = c[7];
    assert(x8 == b) by (bit_vector)
        requires
            b0 == (b >> 7u8) & 1,
            b1 == (b >> 6u8) & 1,
            b2 == (b >> 5u8) & 1,
            b3 == (b >> 4u8) & 1,
            b4 == (b >> 3u8) & 1,
            b5 == (b >> 2u8) & 1,
            b6 == (b >> 1u8) & 1,
            b7 == (b >> 0u8) & 1,
            x0 == 0u8,
            x1 == (if b0 != 0 { x0 | (1u8 << 7u8) } else { x0 }),
            x2 == (if b1 != 0 { x1 | (1u8 << 6u8) } else { x1 }),
            x3 == (if b2 != 0 { x2 | (1u8 << 5u8) } else { x2 }),
            x4 == (if b3 != 0 { x3 | (1u8 << 4u8) } else { x3 }),
            x5 == (if b4 != 0 { x4 | (1u8 << 3u8) } else { x4 }),
            x6 == (if b5 != 0 { x5 | (1u8 << 2u8) } else { x5 }),
            x7 == (if b6 != 0 { x6 | (1u8 << 1u8) } else { x6 }),
            x8 == (if b7 != 0 { x7 | (1u8 << 0u8) } else { x7 }),
    ;
}

/// Packing the bits of a byte string gives the byte string back.
pub proof fn lemma_pack_unpack(bytes: Seq<u8>)
    ensures
        unpack(bytes).len() == 8 * bytes.len(),
        pack(unpack(bytes)) == bytes,
{
    let bits = unpack(bytes);
    assert(bits.len() == 8 * bytes.len());
    assert(ceil_div(bits.len(), 8) == bytes.len());
    assert forall|k: int| 0 <= k < bytes.len() implies byte_of(#[trigger] chunk(bits, k))
        == bytes[k] by {
        let want = Seq::new(8, |i: int| bit_of(bytes[k], i));
        let have = chunk(bits, k);
        assert(have.len() == 8);
        assert forall|i: int| 0 <= i < 8 implies have[i] == want[i] by {
            assert(have[i] == bits[8 * k + i]);
            assert((8 * k + i) / 8 == k);
            assert((8 * k + i) % 8 == i);
        }
        assert(have =~= want);
        lemma_byte_round_trip(bytes[k]);
    }
    assert(pack(bits) =~= bytes);
}

/// A text is recovered from its own payload: the payload has eight bits for
/// every byte of the encoded text, and strict decoding gives the text back.
pub proof fn lemma_text_round_trip(text: Seq<char>)
    ensures
        text_bits(text).len() == 8 * encode_utf8(text).len(),
        bits_text(text_bits(text)) == Some(text),
{
    lemma_pack_unpack(encode_utf8(text));
    encode_utf8_valid_utf8(text);
    encode_utf8_decode_utf8(text);
}

/// A payload whose length is not a multiple of eight spells no text,
/// whatever its bits are.
pub proof fn lemma_ragged_payload_rejected(bits: Seq<u8>)
    requires
        bits.len() % 8 != 0,
    ensures
        bits_text(bits) is None,
{
}

/// What one round of extraction says about `position`: +1 for a bit 1, -1
/// for any other bit, nothing when the round failed or read fewer bits.
pub open spec fn round_vote(outcome: Result<Vec<u8>, WatermarkError>, position: int) -> int {
    match outcome {
        Ok(bits) => if position < bits@.len() {
            if bits@[position] == 1 {
                1
            } else {
                -1
            }
        } else {
            0
        },
        Err(_) => 0,
    }
}

/// Sum of the votes of all rounds for `position`.
pub open spec fn round_tally(outcomes: Seq<Result<Vec<u8>, WatermarkError>>, position: int) -> int
    decreases outcomes.len(),
{
    if outcomes.len() == 0 {
        0
    } else {
        round_tally(outcomes.drop_last(), position) + round_vote(outcomes.last(), position)
    }
}

/// The bits that win the vote of the rounds: 1 where more rounds read 1 than
/// read something else, 0 elsewhere.
pub open spec fn majority(outcomes: Seq<Result<Vec<u8>, WatermarkError>>, len: nat) -> Seq<u8> {
    Seq::new(
        len,
        |p: int|
            if round_tally(outcomes, p) > 0 {
                1u8
            } else {
                0u8
            },
    )
}

/// How strict decoding of a payload went.
pub enum Decoded {
    /// The payload's length is not a multiple of eight.
    Incomplete,
    /// The bytes are valid UTF-8 and spell this text.
    Text(String),
    /// The bytes are not valid UTF-8; this is their lossy decoding.
    Lossy(String),
}

/// Figures about a payload, for diagnostics.
pub struct BitAnalysis {
    /// Number of bits.
    pub total: usize,
    /// Number of bits equal to 1.
    pub ones: usize,
    /// Number of the other bits.
    pub zeros: usize,
    /// The assembled bytes; empty when the length is not a multiple of eight.
    pub bytes: Vec<u8>,
    /// The decoded text.
    pub decoded: Decoded,
}

/// Conversions between text and payload bits.
pub struct WatermarkUtils;

impl WatermarkUtils {
    /// Assembles bytes from successive runs of eight bits.
    pub fn pack_bits(bits: &[u8]) -> (bytes: Vec<u8>)
        ensures
            bytes@ == pack(bits@),
    {
        let n = bits.len();
        let count = tile_count(n, 8);
        let mut bytes: Vec<u8> = Vec::new();
        let mut k: usize = 0;
        while k < count
            invariant
                k <= count,
                n == bits@.len(),
                count == ceil_div(n as nat, 8),
                bytes@.len() == k,
                forall|j: int| 0 <= j < k ==> bytes@[j] == byte_of(chunk(bits@, j)),
            decreases count - k,
        {
            let start = 8 * k;
            let end = if n - start >= 8 {
                start + 8
            } else {
                n
            };
            let ghost c = chunk(bits@, k as int);
            let mut byte: u8 = 0;
            let mut i: usize = 0;
            while i < end - start
                invariant
                    i <= end - start,
                    end - start <= 8,
                    end <= n,
                    n == bits@.len(),
                    c == bits@.subrange(start as int, end as int),
                    byte == byte_of(c.take(i as int)),
                decreases end - start - i,
            {
                let ghost before = byte;
                if bits[start + i] != 0 {
                    let shift: u8 = (7 - i) as u8;
                    byte = byte | (1u8 << shift);
                }
                proof {
                    assert(c.take(i + 1).drop_last() =~= c.take(i as int));
                    assert(c.take(i + 1).last() == bits@[start + i]);
                }
                i += 1;
            }
            assert(c.take((end - start) as int) =~= c);
            bytes.push(byte);
            k += 1;
        }
        assert(bytes@ =~= pack(bits@));
        bytes
    }

    /// The payload bits of a text: eight per byte of its UTF-8 encoding,
    /// most significant bit first.
    pub fn string_to_bits(s: &str) -> (bits: Vec<u8>)
        ensures
            bits@ == text_bits(s@),
            bits@.len() == 8 * s.spec_bytes().len(),
            forall|k: int| 0 <= k < bits@.len() ==> bits@[k] == 0 || bits@[k] == 1,
    {
        let bytes = s.as_bytes();
        let mut bits: Vec<u8> = Vec::new();
        let mut k: usize = 0;
        while k < bytes.len()
            invariant
                k <= bytes@.len(),
                bits@.len() == 8 * k,
                forall|j: int| 0 <= j < 8 * k ==> bits@[j] == bit_of(bytes@[j / 8], j % 8),
                forall|j: int| 0 <= j < 8 * k ==> bits@[j] == 0 || bits@[j] == 1,
            decreases bytes@.len() - k,
        {
            let byte = bytes[k];
            let mut i: u8 = 0;
            while i < 8
                invariant
                    i <= 8,
                    k < bytes@.len(),
                    byte == bytes@[k as int],
                    bits@.len() == 8 * k + i,
                    forall|j: int|
                        0 <= j < 8 * k + i ==> bits@[j] == bit_of(bytes@[j / 8], j % 8),
                    forall|j: int| 0 <= j < 8 * k + i ==> bits@[j] == 0 || bits@[j] == 1,
                decreases 8 - i,
            {
                let shift: u8 = 7 - i;
                let bit = (byte >> shift) & 1;
                assert(bit == 0 || bit == 1) by (bit_vector)
                    requires
                        bit == (byte >> shift) & 1,
                ;
                bits.push(bit);
                i += 1;
            }
            k += 1;
        }
        assert(bits@ =~= text_bits(s@));
        bits
    }

    /// The text that a payload spells. Fails with `InvalidWatermark` when the
    /// payload's length is not a multiple of eight or its bytes are not
    /// valid UTF-8.
    pub fn bits_to_string(bits: &[u8]) -> (res: Result<String, WatermarkError>)
        ensures
            match bits_text(bits@) {
                Some(text) => res matches Ok(s) && s@ == text,
                None => res matches Err(WatermarkError::InvalidWatermark),
            },
            bits@.len() % 8 != 0 ==> res is Err,
    {
        if bits.len() % 8 != 0 {
            return Err(WatermarkError::InvalidWatermark);
        }
        let bytes = Self::pack_bits(bits);
        match utf8_to_string(bytes) {
            Some(s) => Ok(s),
            None => Err(WatermarkError::InvalidWatermark),
        }
    }

    /// The text that a payload spells, with a replacement character for every
    /// invalid sequence; a note in brackets when the payload's length is not
    /// a multiple of eight. For diagnostics only.
    pub fn bits_to_string_lossy(bits: &[u8]) -> (text: String)
        ensures
            bits@.len() % 8 != 0 ==> text@ == ragged_text(bits@.len()),
            bits@.len() % 8 == 0 ==> text@ == lossy_text(pack(bits@)),
            bits_text(bits@) matches Some(t) ==> text@ == t,
    {
        if bits.len() % 8 != 0 {
            let a = String::from_str("[错误: 长度");
            let b = a.concat(decimal_string(bits.len() as u128).as_str());
            return b.concat("不是8的倍数]");
        }
        let bytes = Self::pack_bits(bits);
        utf8_to_string_lossy(&bytes)
    }

    /// Counts and decodes a payload for a diagnostic report.
    pub fn analyze_extracted_bits(bits: &[u8]) -> (report: BitAnalysis)
        ensures
            report.total == bits@.len(),
            report.ones == count_ones(bits@),
            report.zeros == bits@.len() - count_ones(bits@),
            report.bytes@ == (if bits@.len() % 8 == 0 {
                pack(bits@)
            } else {
                Seq::<u8>::empty()
            }),
            match report.decoded {
                Decoded::Incomplete => bits@.len() % 8 != 0,
                Decoded::Text(s) => bits_text(bits@) == Some(s@),
                Decoded::Lossy(s) => bits@.len() % 8 == 0 && !valid_utf8(pack(bits@)) && s@
                    == lossy_text(pack(bits@)),
            },
    {
        let total = bits.len();
        let mut ones: usize = 0;
        let mut i: usize = 0;
        while i < total
            invariant
                i <= total,
                total == bits@.len(),
                ones == count_ones(bits@.take(i as int)),
                ones <= i,
            decreases total - i,
        {
            proof {
                assert(bits@.take(i + 1).drop_last() =~= bits@.take(i as int));
            }
            if bits[i] == 1 {
                ones += 1;
            }
            i += 1;
        }
        assert(bits@.take(total as int) =~= bits@);
        if total % 8 != 0 {
            return BitAnalysis {
                total,
                ones,
                zeros: total - ones,
                bytes: Vec::new(),
                decoded: Decoded::Incomplete,
            };
        }
        let bytes = Self::pack_bits(bits);
        let spare = Self::pack_bits(bits);
        let decoded = match utf8_to_string(spare) {
            Some(s) => Decoded::Text(s),
            None => Decoded::Lossy(utf8_to_string_lossy(&bytes)),
        };
        BitAnalysis { total, ones, zeros: total - ones, bytes, decoded }
    }

    /// Extracts a payload over several rounds and takes the majority bit by
    /// bit. Without rounds the payload is extracted once and handed back as
    /// it is; with rounds, failed rounds are passed over and the result
    /// always has `expected_length` bits.
    pub fn extract_with_voting<E: Fn() -> Result<Vec<u8>, WatermarkError>>(
        extract: E,
        expected_length: usize,
        vote_rounds: usize,
    ) -> (res: Result<Vec<u8>, WatermarkError>)
        requires
            call_requires(extract, ()),
        ensures
            vote_rounds == 0 ==> call_ensures(extract, (), res),
            vote_rounds > 0 ==> exists|outcomes: Seq<Result<Vec<u8>, WatermarkError>>|
                {
                    &&& outcomes.len() == vote_rounds
                    &&& forall|i: int|
                        0 <= i < outcomes.len() ==> call_ensures(
                            extract,
                            (),
                            #[trigger] outcomes[i],
                        )
                    &&& res matches Ok(bits)
                    &&& bits@ == #[trigger] majority(outcomes, expected_length as nat)
                },
    {
        if vote_rounds == 0 {
            return extract();
        }
        let mut counts: Vec<i128> = Vec::new();
        let mut p: usize = 0;
        while p < expected_length
            invariant
                p <= expected_length,
                counts@.len() == p,
                forall|q: int| 0 <= q < p ==> counts@[q] == 0,
            decreases expected_length - p,
        {
            counts.push(0);
            p += 1;
        }
        let ghost mut outcomes: Seq<Result<Vec<u8>, WatermarkError>> = Seq::empty();
        let mut round: usize = 0;
        while round < vote_rounds
            invariant
                round <= vote_rounds,
                call_requires(extract, ()),
                outcomes.len() == round,
                forall|i: int|
                    0 <= i < outcomes.len() ==> call_ensures(extract, (), #[trigger] outcomes[i]),
                counts@.len() == expected_length,
                forall|q: int|
                    0 <= q < expected_length ==> #[trigger] counts@[q] == round_tally(outcomes, q)
                        && -round <= counts@[q] <= round,
            decreases vote_rounds - round,
        {
            let outcome = extract();
            let ghost earlier = outcomes;
            proof {
                outcomes = outcomes.push(outcome);
                assert(outcomes.drop_last() =~= earlier);
                assert forall|i: int| 0 <= i < outcomes.len() implies call_ensures(
                    extract,
                    (),
                    #[trigger] outcomes[i],
                ) by {
                    if i < round {
                        assert(outcomes[i] == earlier[i]);
                    }
                }
            }
            match outcome {
                Ok(bits) => {
                    let mut i: usize = 0;
                    while i < expected_length
                        invariant
                            i <= expected_length,
                            round < vote_rounds,
                            outcomes.len() == round + 1,
                            outcomes.drop_last() == earlier,
                            outcomes.last() == Ok::<Vec<u8>, WatermarkError>(bits),
                            counts@.len() == expected_length,
                            forall|q: int|
                                0 <= q < i ==> #[trigger] counts@[q] == round_tally(outcomes, q)
                                    && -(round + 1) <= counts@[q] <= round + 1,
                            forall|q: int|
                                i <= q < expected_length ==> #[trigger] counts@[q] == round_tally(
                                    earlier,
                                    q,
                                ) && -round <= counts@[q] <= round,
                        decreases expected_length - i,
                    {
                        if i < bits.len() {
                            let old = counts[i];
                            if bits[i] == 1 {
                                counts.set(i, old + 1);
                            } else {
                                counts.set(i, old - 1);
                            }
                        }
                        i += 1;
                    }
                },
                Err(_) => {},
            }
            round += 1;
        }
        let mut bits: Vec<u8> = Vec::new();
        let mut q: usize = 0;
        while q < expected_length
            invariant
                q <= expected_length,
                counts@.len() == expected_length,
                forall|z: int|
                    0 <= z < expected_length ==> #[trigger] counts@[z] == round_tally(outcomes, z),
                bits@.len() == q,
                forall|z: int|
                    0 <= z < q ==> bits@[z] == (if round_tally(outcomes, z) > 0 {
                        1u8
                    } else {
                        0u8
                    }),
            decreases expected_length - q,
        {
            bits.push(if counts[q] > 0 { 1 } else { 0 });
            q += 1;
        }
        assert(bits@ =~= majority(outcomes, expected_length as nat));
        Ok(bits)
    }
}

} // verus!
