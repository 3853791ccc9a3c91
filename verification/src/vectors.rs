//! Vectors and scores by their bits: how an embedding is stored, how scores compare.
//!
//! A number in single precision is given by its 32 bits, sign first, exponent, then significand.

use vstd::prelude::*;

verus! {

/// The four bytes of a word, least significant first.
pub open spec fn word_bytes(w: u32) -> Seq<u8> {
    seq![
        (w % 256) as u8,
        (w / 256 % 256) as u8,
        (w / 65536 % 256) as u8,
        (w / 16777216) as u8,
    ]
}

/// The word with these four bytes, least significant first.
pub open spec fn bytes_word(b0: u8, b1: u8, b2: u8, b3: u8) -> u32 {
    (b0 + 256 * b1 + 65536 * b2 + 16777216 * b3) as u32
}

/// The bytes of each word, one word after the other.
pub open spec fn encoded(words: Seq<u32>) -> Seq<u8> {
    Seq::new(4 * words.len(), |i: int| word_bytes(words[i / 4])[i % 4])
}

/// The words that stand in `bytes`; up to three bytes at the end that make no word are left out.
pub open spec fn decoded(bytes: Seq<u8>) -> Seq<u32> {
    Seq::new(
        bytes.len() / 4,
        |i: int|
            bytes_word(bytes[4 * i], bytes[4 * i + 1], bytes[4 * i + 2], bytes[4 * i + 3]),
    )
}

/// The bytes under which the embedding `vector` is stored.
pub fn vector_to_bytes(vector: &[u32]) -> (r: Vec<u8>)
    ensures
        r@ == encoded(vector@),
{
    let mut r: Vec<u8> = Vec::new();
    let mut i: usize = 0;
    while i < vector.len()
        invariant
            i <= vector.len(),
            r@ == encoded(vector@.take(i as int)),
        decreases vector.len() - i,
    {
        let w = vector[i];
        let ghost before = r@;
        r.push((w % 256) as u8);
        r.push((w / 256 % 256) as u8);
        r.push((w / 65536 % 256) as u8);
        r.push((w / 16777216) as u8);
        i = i + 1;
        proof {
            let now = encoded(vector@.take(i as int));
            assert(r@ =~= before + word_bytes(w));
            assert forall|k: int| 0 <= k < now.len() implies r@[k] == now[k] by {
                if k < before.len() {
                    assert(before[k] == word_bytes(vector@.take(i - 1)[k / 4])[k % 4]);
                } else {
                    assert(k / 4 == i - 1 && k % 4 == k - before.len());
                }
            }
            assert(r@ =~= now);
        }
    }
    assert(vector@.take(i as int) =~= vector@);
    r
}

/// The embedding that is stored as `bytes`.
pub fn bytes_to_vector(bytes: &[u8]) -> (r: Vec<u32>)
    ensures
        r@ == decoded(bytes@),
{
    let mut r: Vec<u32> = Vec::new();
    let mut i: usize = 0;
    let n: usize = bytes.len() / 4;
    while i < n
        invariant
            i <= n,
            n == bytes.len() / 4,
            r.len() == i,
            forall|k: int| 0 <= k < i ==> r@[k] == #[trigger] decoded(bytes@)[k],
        decreases n - i,
    {
        let at: usize = 4 * i;
        let low: u32 = bytes[at] as u32 + 256 * bytes[at + 1] as u32;
        let high: u32 = 65536 * bytes[at + 2] as u32 + 16777216 * bytes[at + 3] as u32;
        r.push(low + high);
        i = i + 1;
    }
    assert(r@ =~= decoded(bytes@));
    r
}

/// Reading back the bytes of an embedding gives the embedding.
pub proof fn stored_embedding_reads_back(words: Seq<u32>)
    ensures
        decoded(encoded(words)) == words,
{
    let bytes = encoded(words);
    assert forall|i: int| 0 <= i < words.len() implies decoded(bytes)[i] == words[i] by {
        let w = words[i];
        assert((4 * i) / 4 == i && (4 * i) % 4 == 0);
        assert((4 * i + 1) / 4 == i && (4 * i + 1) % 4 == 1);
        assert((4 * i + 2) / 4 == i && (4 * i + 2) % 4 == 2);
        assert((4 * i + 3) / 4 == i && (4 * i + 3) % 4 == 3);
        assert(bytes[4 * i] == word_bytes(w)[0]);
        assert(bytes[4 * i + 1] == word_bytes(w)[1]);
        assert(bytes[4 * i + 2] == word_bytes(w)[2]);
        assert(bytes[4 * i + 3] == word_bytes(w)[3]);
    }
    assert(decoded(bytes) =~= words);
}

/// The bytes of a word that was put together from four bytes are those bytes.
proof fn word_takes_apart(b0: u8, b1: u8, b2: u8, b3: u8)
    ensures
        word_bytes(bytes_word(b0, b1, b2, b3)) == seq![b0, b1, b2, b3],
{
    let n = b0 + 256 * b1 + 65536 * b2 + 16777216 * b3;
    assert(n / 256 == b1 + 256 * b2 + 65536 * b3);
    assert(n / 65536 == b2 + 256 * b3);
    assert(n / 16777216 == b3);
    assert(word_bytes(bytes_word(b0, b1, b2, b3)) =~= seq![b0, b1, b2, b3]);
}

/// Bytes that were read and are stored again are the same, but for the up to three at the end
/// that made no word.
pub proof fn read_embedding_stores_back(bytes: Seq<u8>)
    ensures
        encoded(decoded(bytes)) == bytes.take(bytes.len() - bytes.len() % 4),
{
    let words = decoded(bytes);
    assert forall|k: int| 0 <= k < 4 * words.len() implies encoded(words)[k] == bytes[k] by {
        let i = k / 4;
        let parts = seq![bytes[4 * i], bytes[4 * i + 1], bytes[4 * i + 2], bytes[4 * i + 3]];
        word_takes_apart(parts[0], parts[1], parts[2], parts[3]);
        assert(word_bytes(words[i]) == parts);
        assert(k == 4 * i + k % 4);
        assert(parts[k % 4] == bytes[k]);
    }
    assert(encoded(words) =~= bytes.take(bytes.len() - bytes.len() % 4));
}

/// The bits of infinity: the bits of positive numbers are those from 1 to here, in their order,
/// and above here up to the sign bit there are no numbers.
pub const INFINITY_BITS: u32 = 0x7f80_0000;

/// The bits of 0.35, the least similarity that counts by itself.
pub const MIN_SIMILARITY_BITS: u32 = 0x3eb3_3333;

/// Whether the number with these bits is greater than zero.
pub open spec fn positive(bits: u32) -> bool {
    1 <= bits <= INFINITY_BITS
}

/// Whether the number with these bits is at least the similarity that counts by itself.
pub open spec fn similar(bits: u32) -> bool {
    MIN_SIMILARITY_BITS <= bits <= INFINITY_BITS
}

/// Where a number stands in the total order on all bit patterns, in which a negative one stands
/// the lower the greater it is without its sign.
pub open spec fn rank_of(bits: u32) -> int {
    if bits < 0x8000_0000 {
        bits as int
    } else {
        0x7fff_ffff - bits
    }
}

/// The place of the number with these bits in the total order.
pub fn rank_key(bits: u32) -> (r: i64)
    ensures
        r == rank_of(bits),
{
    if bits < 0x8000_0000 {
        bits as i64
    } else {
        0x7fff_ffff - bits as i64
    }
}

/// Each word is stored in four bytes, the least significant first, one word after the other.
pub proof fn words_are_stored_least_significant_first(words: Seq<u32>, i: int)
    requires
        0 <= i < words.len(),
    ensures
        encoded(words).len() == 4 * words.len(),
        encoded(words)[4 * i] + 0x100 * encoded(words)[4 * i + 1] + 0x1_0000 * encoded(words)[4 * i
            + 2] + 0x100_0000 * encoded(words)[4 * i + 3] == words[i],
{
    assert((4 * i) / 4 == i && (4 * i) % 4 == 0);
    assert((4 * i + 1) / 4 == i && (4 * i + 1) % 4 == 1);
    assert((4 * i + 2) / 4 == i && (4 * i + 2) % 4 == 2);
    assert((4 * i + 3) / 4 == i && (4 * i + 3) % 4 == 3);
}

/// Each four bytes that were stored are read as one word, the least significant first.
pub proof fn bytes_are_read_least_significant_first(bytes: Seq<u8>, i: int)
    requires
        0 <= 4 * i <= bytes.len() - 4,
    ensures
        decoded(bytes).len() == bytes.len() / 4,
        decoded(bytes)[i] == bytes[4 * i] + 0x100 * bytes[4 * i + 1] + 0x1_0000 * bytes[4 * i + 2]
            + 0x100_0000 * bytes[4 * i + 3],
{
}

/// A number that is not negative is similar exactly when it is at least 0.35, whose bits are
/// 0x3eb33333: with one number every greater one is similar, up to infinity. What is negative, or no
/// number, is not.
pub proof fn greater_similarity_counts_too(a: u32, b: u32)
    ensures
        similar(a) <==> 0x3eb3_3333 <= a <= 0x7f80_0000,
        similar(a) && a <= b <= 0x7f80_0000 ==> similar(b),
        similar(0x3f80_0000),
        !similar(0),
{
}

/// Exactly the numbers above zero are positive: the bits from 1 to those of infinity.
pub proof fn greater_numbers_are_positive_too(a: u32, b: u32)
    ensures
        positive(a) <==> 0 < a <= 0x7f80_0000,
        positive(a) && a <= b <= 0x7f80_0000 ==> positive(b),
        !positive(0),
{
}

/// The order of numbers by their bits: without a sign the greater bits are the greater number, with
/// a sign the lesser, and what has a sign comes before what has none.
pub proof fn ranks_are_in_the_order_of_numbers(a: u32, b: u32)
    ensures
        a < 0x8000_0000 && b < 0x8000_0000 ==> (rank_of(a) < rank_of(b) <==> a < b),
        a >= 0x8000_0000 && b >= 0x8000_0000 ==> (rank_of(a) < rank_of(b) <==> a > b),
        a >= 0x8000_0000 && b < 0x8000_0000 ==> rank_of(a) < rank_of(b),
        rank_of(a) == rank_of(b) <==> a == b,
{
}

} // verus!
