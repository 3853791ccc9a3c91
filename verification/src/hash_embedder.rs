//! An embedder without a model: each token of a text is hashed into one of a few counters.

use crate::text::{texts, tokenize, tokens};
use vstd::prelude::*;
use vstd::seq_lib::{to_multiset_contains, to_multiset_len, to_multiset_remove};
use vstd::utf8::encode_utf8;

verus! {

/// The number of counters, which is the dimension of the embedding.
pub const BUCKETS: usize = 256;

/// Where counting stops: a counter held in single precision no longer changes by one past this.
pub const COUNT_LIMIT: i32 = 16777216;

/// The hash of no bytes.
pub const HASH_START: u64 = 0xcbf29ce484222325;

/// What the hash is multiplied by at each byte.
pub const HASH_FACTOR: u64 = 0x100000001b3;

/// The 64-bit FNV-1a hash of some bytes.
pub open spec fn fnv1a(bytes: Seq<u8>) -> u64
    decreases bytes.len(),
{
    if bytes.len() == 0 {
        HASH_START
    } else {
        (fnv1a(bytes.drop_last()) ^ (bytes.last() as u64)).wrapping_mul(HASH_FACTOR)
    }
}

/// The counter that a hash falls to.
pub open spec fn bucket(hash: u64) -> int {
    hash as int % BUCKETS as int
}

/// Whether a hash counts upwards: whether its bit of value 2^32 is clear.
pub open spec fn counts_up(hash: u64) -> bool {
    (hash / 0x1_0000_0000) % 2 == 0
}

/// A counter after one step; at the limit on that side it stays as it is.
pub open spec fn stepped(count: i32, up: bool) -> i32 {
    if up {
        if count < COUNT_LIMIT {
            (count + 1) as i32
        } else {
            count
        }
    } else {
        if count > -COUNT_LIMIT {
            (count - 1) as i32
        } else {
            count
        }
    }
}

/// The counters after each of the tokens, given by their bytes, has been counted.
pub open spec fn bucket_counts(tokens: Seq<Seq<u8>>) -> Seq<i32>
    decreases tokens.len(),
{
    if tokens.len() == 0 {
        Seq::new(BUCKETS as nat, |i: int| 0i32)
    } else {
        let before = bucket_counts(tokens.drop_last());
        let hash = fnv1a(tokens.last());
        before.update(bucket(hash), stepped(before[bucket(hash)], counts_up(hash)))
    }
}

/// The bytes of each of some texts, in UTF-8.
pub open spec fn token_bytes(tokens: Seq<Seq<char>>) -> Seq<Seq<u8>> {
    tokens.map_values(|t: Seq<char>| encode_utf8(t))
}

/// The FNV-1a hash of `bytes`.
pub fn hash_bytes(bytes: &[u8]) -> (r: u64)
    ensures
        r == fnv1a(bytes@),
{
    let mut hash: u64 = HASH_START;
    let mut i: usize = 0;
    while i < bytes.len()
        invariant
            i <= bytes.len(),
            hash == fnv1a(bytes@.take(i as int)),
        decreases bytes.len() - i,
    {
        proof {
            assert(bytes@.take(i + 1).drop_last() =~= bytes@.take(i as int));
        }
        hash = (hash ^ (bytes[i] as u64)).wrapping_mul(HASH_FACTOR);
        i = i + 1;
    }
    assert(bytes@.take(i as int) =~= bytes@);
    hash
}

/// The counters of a text with these tokens.
pub fn count_tokens(tokens: &Vec<String>) -> (r: Vec<i32>)
    ensures
        r@ == bucket_counts(token_bytes(texts(tokens@))),
        r.len() == BUCKETS,
        forall|b: int| 0 <= b < r.len() ==> -COUNT_LIMIT <= #[trigger] r@[b] <= COUNT_LIMIT,
{
    let ghost all = token_bytes(texts(tokens@));
    let mut counts: Vec<i32> = vec![0i32; BUCKETS];
    assert(counts@ =~= bucket_counts(all.take(0)));
    let mut i: usize = 0;
    while i < tokens.len()
        invariant
            i <= tokens.len(),
            all == token_bytes(texts(tokens@)),
            counts.len() == BUCKETS,
            counts@ == bucket_counts(all.take(i as int)),
            forall|b: int|
                0 <= b < counts.len() ==> -COUNT_LIMIT <= #[trigger] counts@[b] <= COUNT_LIMIT,
        decreases tokens.len() - i,
    {
        let hash = hash_bytes(tokens[i].as_str().as_bytes());
        proof {
            assert(all.take(i + 1).drop_last() =~= all.take(i as int));
            assert(all.take(i + 1).last() == all[i as int]);
            assert(all[i as int] == encode_utf8(texts(tokens@)[i as int]));
            assert(hash % 256 < 256);
            assert((hash & 0x1_0000_0000 == 0) == ((hash / 0x1_0000_0000) % 2 == 0))
                by (bit_vector);
        }
        let index: usize = (hash % 256) as usize;
        let count = counts[index];
        if hash & 0x1_0000_0000 == 0 {
            if count < COUNT_LIMIT {
                counts.set(index, count + 1);
            }
        } else {
            if count > -COUNT_LIMIT {
                counts.set(index, count - 1);
            }
        }
        i = i + 1;
        assert(counts@ =~= bucket_counts(all.take(i as int)));
    }
    assert(all.take(i as int) =~= all);
    counts
}

/// The embedder that needs no model.
pub struct HashEmbedder;

impl HashEmbedder {
    /// The name under which its embeddings are stored.
    pub fn id(&self) -> (r: &'static str)
        ensures
            r@ == "test-hash-v1"@,
    {
        "test-hash-v1"
    }

    /// The counters of each of `texts`: its embedding, but for the scaling to unit length.
    pub fn embed(&self, texts: &[&str]) -> (r: Vec<Vec<i32>>)
        ensures
            r.len() == texts.len(),
            forall|i: int|
                0 <= i < texts.len() ==> (#[trigger] r@[i])@ == bucket_counts(
                    token_bytes(tokens(texts@[i]@)),
                ) && r@[i].len() == BUCKETS,
    {
        let mut r: Vec<Vec<i32>> = Vec::new();
        let mut i: usize = 0;
        while i < texts.len()
            invariant
                i <= texts.len(),
                r.len() == i,
                forall|j: int|
                    0 <= j < i ==> (#[trigger] r@[j])@ == bucket_counts(
                        token_bytes(tokens(texts@[j]@)),
                    ) && r@[j].len() == BUCKETS,
            decreases texts.len() - i,
        {
            let found = tokenize(texts[i]);
            r.push(count_tokens(&found));
            i = i + 1;
        }
        r
    }
}

/// Whether a token, given by its bytes, counts the counter `b` in this direction.
pub open spec fn steps(token: Seq<u8>, b: int, up: bool) -> bool {
    bucket(fnv1a(token)) == b && counts_up(fnv1a(token)) == up
}

/// The number of tokens that count the counter `b` in this direction.
pub open spec fn steps_of(tokens: Seq<Seq<u8>>, b: int, up: bool) -> nat
    decreases tokens.len(),
{
    if tokens.len() == 0 {
        0
    } else {
        steps_of(tokens.drop_last(), b, up) + if steps(tokens.last(), b, up) {
            1nat
        } else {
            0nat
        }
    }
}

/// Whether a counter comes out the same in whatever order tokens are counted, so many of them up
/// and so many down: all go one way, or neither way are there more than the limit.
pub open spec fn settles(ups: nat, downs: nat) -> bool {
    ups == 0 || downs == 0 || (ups <= COUNT_LIMIT && downs <= COUNT_LIMIT)
}

/// Whether every counter comes out the same in whatever order the tokens are counted.
pub open spec fn all_settle(tokens: Seq<Seq<u8>>) -> bool {
    forall|b: int|
        0 <= b < BUCKETS ==> settles(
            #[trigger] steps_of(tokens, b, true),
            steps_of(tokens, b, false),
        )
}

/// What a counter comes out as.
spec fn settled(ups: nat, downs: nat) -> int {
    if downs == 0 && ups > COUNT_LIMIT {
        COUNT_LIMIT as int
    } else if ups == 0 && downs > COUNT_LIMIT {
        -COUNT_LIMIT
    } else {
        ups - downs
    }
}

/// A counter that comes out the same in any order is given by the numbers of steps.
proof fn count_is_settled(tokens: Seq<Seq<u8>>, b: int)
    requires
        0 <= b < BUCKETS,
        settles(steps_of(tokens, b, true), steps_of(tokens, b, false)),
    ensures
        bucket_counts(tokens).len() == BUCKETS,
        bucket_counts(tokens)[b] == settled(
            steps_of(tokens, b, true),
            steps_of(tokens, b, false),
        ),
    decreases tokens.len(),
{
    if tokens.len() > 0 {
        let hash = fnv1a(tokens.last());
        count_is_settled(tokens.drop_last(), b);
        assert(0 <= bucket(hash) < BUCKETS);
        assert(steps(tokens.last(), b, true) == (bucket(hash) == b && counts_up(hash)));
        assert(steps(tokens.last(), b, false) == (bucket(hash) == b && !counts_up(hash)));
    }
}

/// A token is a step wherever it stands.
proof fn steps_without_one(tokens: Seq<Seq<u8>>, j: int, b: int, up: bool)
    requires
        0 <= j < tokens.len(),
    ensures
        steps_of(tokens, b, up) == steps_of(tokens.remove(j), b, up) + if steps(tokens[j], b, up) {
            1nat
        } else {
            0nat
        },
    decreases tokens.len(),
{
    let front = tokens.drop_last();
    if j == tokens.len() - 1 {
        assert(tokens.remove(j) =~= front);
    } else {
        steps_without_one(front, j, b, up);
        assert(tokens.remove(j).drop_last() =~= front.remove(j));
        assert(tokens.remove(j).last() == tokens.last());
    }
}

proof fn steps_in_any_order(one: Seq<Seq<u8>>, other: Seq<Seq<u8>>, b: int, up: bool)
    requires
        one.to_multiset() == other.to_multiset(),
    ensures
        steps_of(one, b, up) == steps_of(other, b, up),
    decreases one.len(),
{
    to_multiset_len(one);
    to_multiset_len(other);
    if one.len() > 0 {
        let last = one.len() - 1;
        let token = one[last];
        to_multiset_contains(one, token);
        to_multiset_contains(other, token);
        assert(other.contains(token));
        let j = choose|j: int| 0 <= j < other.len() && other[j] == token;
        to_multiset_remove(one, last);
        to_multiset_remove(other, j);
        steps_in_any_order(one.remove(last), other.remove(j), b, up);
        steps_without_one(one, last, b, up);
        steps_without_one(other, j, b, up);
    }
}

/// The order of tokens does not matter: the same tokens, each as often, give the same counters. It
/// can matter only where more tokens than the limit count a counter one way and others count it
/// the other way.
pub proof fn order_of_tokens_does_not_matter(one: Seq<Seq<u8>>, other: Seq<Seq<u8>>)
    requires
        one.to_multiset() == other.to_multiset(),
        all_settle(one),
    ensures
        bucket_counts(one) == bucket_counts(other),
{
    assert forall|b: int| 0 <= b < BUCKETS implies bucket_counts(one).len() == BUCKETS
        && bucket_counts(other).len() == BUCKETS && #[trigger] bucket_counts(one)[b]
        == bucket_counts(other)[b] by {
        steps_in_any_order(one, other, b, true);
        steps_in_any_order(one, other, b, false);
        assert(settles(steps_of(one, b, true), steps_of(one, b, false)));
        count_is_settled(one, b);
        count_is_settled(other, b);
    }
    assert(bucket_counts(one)[0] == bucket_counts(other)[0]);
    assert(bucket_counts(one) =~= bucket_counts(other));
}

/// Mapping keeps two sequences with the same elements, each as often, such.
proof fn map_keeps_permutation<A, B>(one: Seq<A>, other: Seq<A>, f: spec_fn(A) -> B)
    requires
        one.to_multiset() == other.to_multiset(),
    ensures
        one.map_values(f).to_multiset() == other.map_values(f).to_multiset(),
    decreases one.len(),
{
    to_multiset_len(one);
    to_multiset_len(other);
    let mapped = one.map_values(f);
    let others = other.map_values(f);
    if one.len() == 0 {
        assert(mapped =~= others);
    } else {
        let last = one.len() - 1;
        to_multiset_contains(one, one[last]);
        to_multiset_contains(other, one[last]);
        assert(other.contains(one[last]));
        let j = choose|j: int| 0 <= j < other.len() && other[j] == one[last];
        to_multiset_remove(one, last);
        to_multiset_remove(other, j);
        map_keeps_permutation(one.remove(last), other.remove(j), f);
        assert(one.remove(last).map_values(f) =~= mapped.remove(last));
        assert(other.remove(j).map_values(f) =~= others.remove(j));
        to_multiset_remove(mapped, last);
        to_multiset_remove(others, j);
        to_multiset_contains(mapped, mapped[last]);
        to_multiset_contains(others, others[j]);
        assert(mapped.to_multiset() =~= mapped.remove(last).to_multiset().insert(mapped[last]));
        assert(others.to_multiset() =~= others.remove(j).to_multiset().insert(others[j]));
    }
}

/// Texts with the same tokens in another order are embedded alike, as far as the order of tokens
/// does not matter.
pub proof fn texts_with_the_same_tokens_are_embedded_alike(one: Seq<char>, other: Seq<char>)
    requires
        tokens(one).to_multiset() == tokens(other).to_multiset(),
        all_settle(token_bytes(tokens(one))),
    ensures
        bucket_counts(token_bytes(tokens(one))) == bucket_counts(token_bytes(tokens(other))),
{
    map_keeps_permutation(tokens(one), tokens(other), |t: Seq<char>| encode_utf8(t));
    order_of_tokens_does_not_matter(token_bytes(tokens(one)), token_bytes(tokens(other)));
}

/// Every byte takes part in the hash: one more is mixed into the hash of those before, which is
/// then multiplied, and the hash of no bytes is where it starts.
pub proof fn every_byte_is_mixed_into_the_hash(bytes: Seq<u8>, byte: u8)
    ensures
        fnv1a(Seq::empty()) == 0xcbf2_9ce4_8422_2325,
        fnv1a(bytes.push(byte)) as int == ((fnv1a(bytes) ^ (byte as u64)) * 0x100_0000_01b3)
            % 0x1_0000_0000_0000_0000,
{
    assert(bytes.push(byte).drop_last() =~= bytes);
    let mixed = fnv1a(bytes) ^ (byte as u64);
    assert(mixed.wrapping_mul(HASH_FACTOR) as int == (mixed * HASH_FACTOR)
        % 0x1_0000_0000_0000_0000);
}

/// One token more moves one counter by one, unless it is at the limit on that side: the counter
/// that the hash names, modulo 256, up or down by bit 32 of the hash. All others stay.
pub proof fn one_more_token_moves_one_counter(tokens: Seq<Seq<u8>>, token: Seq<u8>, b: int)
    requires
        0 <= b < 256,
    ensures
        bucket_counts(Seq::empty())[b] == 0,
        bucket_counts(tokens).len() == 256,
        ({
            let hash = fnv1a(token) as int;
            let before = bucket_counts(tokens)[b];
            let now = bucket_counts(tokens.push(token))[b];
            if hash % 256 != b {
                now == before
            } else if hash / 0x1_0000_0000 % 2 == 0 {
                now == before + if before < 16_777_216 {
                    1int
                } else {
                    0
                }
            } else {
                now == before - if before > -16_777_216 {
                    1int
                } else {
                    0
                }
            }
        }),
    decreases tokens.len(),
{
    assert(tokens.push(token).drop_last() =~= tokens);
    counters_are_as_many(tokens);
    counters_are_as_many(tokens.push(token));
}

proof fn counters_are_as_many(tokens: Seq<Seq<u8>>)
    ensures
        bucket_counts(tokens).len() == BUCKETS,
        forall|b: int|
            0 <= b < BUCKETS ==> -COUNT_LIMIT <= #[trigger] bucket_counts(tokens)[b] <= COUNT_LIMIT,
    decreases tokens.len(),
{
    if tokens.len() > 0 {
        counters_are_as_many(tokens.drop_last());
    }
}

/// Each token is counted by all of its bytes.
pub proof fn tokens_are_counted_whole(list: Seq<Seq<char>>, k: int)
    requires
        0 <= k < list.len(),
    ensures
        token_bytes(list).len() == list.len(),
        token_bytes(list)[k] == encode_utf8(list[k]),
{
}

} // verus!
