use zeromem::embedder::{accept_all, accept_first, embed_all, embed_one, Embedder};
use zeromem::error::Error;
use zeromem::hash_embedder::{count_tokens, hash_bytes, HashEmbedder, BUCKETS};
use zeromem::vectors::{bytes_to_vector, rank_key, vector_to_bytes, MIN_SIMILARITY_BITS};

const SAMPLES: [f32; 9] = [0.0, -0.0, 1.0, -1.0, 0.35, 1e-40, f32::MAX, f32::INFINITY, -2.5e-7];

fn bits(values: &[f32]) -> Vec<u32> {
    values.iter().map(|v| v.to_bits()).collect()
}

#[test]
fn embeddings_are_stored_least_significant_byte_first() {
    assert_eq!(
        vector_to_bytes(&[0x3f80_0000, 0x0102_0304]),
        vec![0, 0, 0x80, 0x3f, 4, 3, 2, 1]
    );
    for value in SAMPLES {
        assert_eq!(vector_to_bytes(&bits(&[value])), value.to_le_bytes().to_vec());
    }
    assert!(vector_to_bytes(&[]).is_empty());
}

#[test]
fn stored_embeddings_read_back() {
    let vector = bits(&SAMPLES);
    assert_eq!(bytes_to_vector(&vector_to_bytes(&vector)), vector);
}

#[test]
fn read_embeddings_store_back_up_to_the_last_word() {
    let bytes: Vec<u8> = (1..=11).collect();
    let vector = bytes_to_vector(&bytes);
    assert_eq!(vector, vec![0x0403_0201, 0x0807_0605]);
    assert_eq!(vector_to_bytes(&vector), bytes[..8].to_vec());
}

#[test]
fn ranks_order_numbers_as_a_total_order_does() {
    let mut samples = SAMPLES.to_vec();
    samples.push(f32::NAN);
    samples.push(-f32::NAN);
    samples.push(f32::NEG_INFINITY);
    for a in &samples {
        for b in &samples {
            assert_eq!(
                rank_key(a.to_bits()) < rank_key(b.to_bits()),
                a.total_cmp(b).is_lt(),
                "{a} {b}"
            );
        }
    }
    assert_eq!(rank_key((-0.0f32).to_bits()), -1);
    assert_eq!(rank_key(1.0f32.to_bits()), 0x3f80_0000);
}

#[test]
fn the_least_similarity_is_thirty_five_hundredths() {
    assert_eq!(f32::from_bits(MIN_SIMILARITY_BITS), 0.35);
}

#[test]
fn hashes_are_those_of_fnv() {
    assert_eq!(hash_bytes(b""), 0xcbf2_9ce4_8422_2325);
    assert_eq!(hash_bytes(b"a"), 0xaf63_dc4c_8601_ec8c);
    assert_eq!(hash_bytes(b"foobar"), 0x8594_4171_f739_67e8);
}

#[test]
fn tokens_are_counted_up_or_down_by_their_hash() {
    let tokens: Vec<String> = ["alpha", "beta", "alpha"].iter().map(|t| t.to_string()).collect();
    let counts = count_tokens(&tokens);
    let mut expected = vec![0i32; 256];
    expected[43] = -2;
    expected[167] = -1;
    assert_eq!(counts, expected);
    assert_eq!(count_tokens(&vec!["postgresql".to_string()])[51], 1);
}

#[test]
fn the_hash_embedder_counts_the_tokens_of_each_text() {
    let counts = HashEmbedder.embed(&["Memória PostgreSQL", "x"]);
    assert_eq!(HashEmbedder.id(), "test-hash-v1");
    assert_eq!(counts.len(), 2);
    assert_eq!(BUCKETS, 256);
    assert_eq!(
        counts[0],
        count_tokens(&vec!["memória".to_string(), "postgresql".to_string()])
    );
    assert_eq!(counts[1], vec![0; 256]);
}

struct Lengths {
    spare: usize,
}

impl Embedder for Lengths {
    fn id(&self) -> &str {
        "lengths"
    }

    fn embed(&self, texts: &[&str]) -> Result<Vec<Vec<u32>>, Error> {
        if texts.iter().any(|text| *text == "fail") {
            return Err(Error::Embedding("no model".to_string()));
        }
        let mut vectors: Vec<Vec<u32>> = texts.iter().map(|text| vec![text.len() as u32]).collect();
        for _ in 0..self.spare {
            vectors.push(vec![0]);
        }
        Ok(vectors)
    }
}

fn message<T>(result: Result<T, Error>) -> String {
    match result {
        Ok(_) => panic!("no error"),
        Err(error) => error.message(),
    }
}

#[test]
fn one_vector_is_expected_for_each_text() {
    let exact = Lengths { spare: 0 };
    let texts = ["a", "bcd"];
    assert!(matches!(embed_all(&exact, &texts), Ok(v) if v == vec![vec![1], vec![3]]));
    assert!(matches!(embed_one(&exact, "bcd"), Ok(v) if v == vec![3]));
    let generous = Lengths { spare: 1 };
    assert_eq!(
        message(embed_all(&generous, &texts)),
        "embedding failed: embedder returned an unexpected number of vectors"
    );
    assert!(matches!(embed_one(&generous, "bcd"), Ok(v) if v == vec![3]));
    assert_eq!(message(embed_one(&exact, "fail")), "embedding failed: no model");
}

#[test]
fn replies_are_accepted_or_refused() {
    assert!(matches!(accept_all(Ok(vec![vec![1], vec![2]]), 2), Ok(v) if v.len() == 2));
    assert_eq!(
        message(accept_all(Ok(vec![vec![1]]), 2)),
        "embedding failed: embedder returned an unexpected number of vectors"
    );
    assert_eq!(
        message(accept_first(Ok(vec![]))),
        "embedding failed: embedder returned an unexpected number of vectors"
    );
    assert_eq!(message(accept_first(Err(Error::EmptyTurn))), "turn text cannot be empty");
}

#[test]
fn errors_have_messages() {
    assert_eq!(Error::Database("disk full".to_string()).message(), "disk full");
    assert_eq!(Error::Embedding("oops".to_string()).message(), "embedding failed: oops");
    assert_eq!(Error::EmptyTurn.message(), "turn text cannot be empty");
}

#[test]
fn the_order_of_tokens_does_not_matter() {
    let counts = HashEmbedder.embed(&["alpha beta gamma beta", "beta gamma beta, alpha"]);
    assert_eq!(counts[0], counts[1]);
    assert_ne!(counts[0], HashEmbedder.embed(&["alpha beta gamma"])[0]);
    assert_eq!(HashEmbedder.embed(&["other", "alpha beta gamma beta"])[1], counts[0]);
}
