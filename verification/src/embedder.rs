//! Embedders, which turn texts into vectors.

use crate::error::Error;
use crate::text::str_texts;
use vstd::prelude::*;

verus! {

/// Turns texts into vectors of numbers in single precision, each given by its bits.
pub trait Embedder: Send + Sync {
    /// The name under which its embeddings are stored.
    fn id(&self) -> &str;

    /// The embedding of each of `texts`.
    fn embed(&self, texts: &[&str]) -> Result<Vec<Vec<u32>>, Error>;
}

/// Whether `embedder` may give `id` as its name.
pub open spec fn named<E: Embedder>(embedder: E, id: Seq<char>) -> bool {
    exists|s: &str| #[trigger] call_ensures(E::id, (&embedder,), s) && s@ == id
}

/// Whether `embedder`, asked for the embeddings of `inputs`, may reply with `reply`.
pub open spec fn replies<E: Embedder>(
    embedder: E,
    inputs: Seq<Seq<char>>,
    reply: Result<Vec<Vec<u32>>, Error>,
) -> bool {
    exists|list: &[&str]|
        #[trigger] call_ensures(E::embed, (&embedder, list), reply) && str_texts(list@) == inputs
}

/// The message about an embedder that does not return one vector for each text.
pub open spec fn wrong_count() -> Seq<char> {
    "embedder returned an unexpected number of vectors"@
}

/// Whether `r` is what comes of a reply of which `count` vectors were expected: the error, or the
/// vectors, or an error where there are more or fewer.
pub open spec fn all_accepted(
    reply: Result<Vec<Vec<u32>>, Error>,
    count: nat,
    r: Result<Vec<Vec<u32>>, Error>,
) -> bool {
    match reply {
        Err(error) => r == Err::<Vec<Vec<u32>>, Error>(error),
        Ok(vectors) => if vectors.len() == count {
            r == Ok::<Vec<Vec<u32>>, Error>(vectors)
        } else {
            r matches Err(Error::Embedding(reason)) && reason@ == wrong_count()
        },
    }
}

/// Whether `r` is what comes of a reply of which the first vector is wanted: the error, or the
/// vector, or an error where there is none.
pub open spec fn first_accepted(
    reply: Result<Vec<Vec<u32>>, Error>,
    r: Result<Vec<u32>, Error>,
) -> bool {
    match reply {
        Err(error) => r == Err::<Vec<u32>, Error>(error),
        Ok(vectors) => if vectors.len() > 0 {
            r == Ok::<Vec<u32>, Error>(vectors@[0])
        } else {
            r matches Err(Error::Embedding(reason)) && reason@ == wrong_count()
        },
    }
}

/// The vectors of a reply, which must be `count` in number.
pub fn accept_all(reply: Result<Vec<Vec<u32>>, Error>, count: usize) -> (r: Result<
    Vec<Vec<u32>>,
    Error,
>)
    ensures
        all_accepted(reply, count as nat, r),
{
    match reply {
        Err(error) => Err(error),
        Ok(vectors) => {
            if vectors.len() == count {
                Ok(vectors)
            } else {
                Err(
                    Error::Embedding(
                        "embedder returned an unexpected number of vectors".to_string(),
                    ),
                )
            }
        },
    }
}

/// The first vector of a reply, which must not be empty.
pub fn accept_first(reply: Result<Vec<Vec<u32>>, Error>) -> (r: Result<Vec<u32>, Error>)
    ensures
        first_accepted(reply, r),
{
    match reply {
        Err(error) => Err(error),
        Ok(mut vectors) => {
            if vectors.len() > 0 {
                Ok(vectors.remove(0))
            } else {
                Err(
                    Error::Embedding(
                        "embedder returned an unexpected number of vectors".to_string(),
                    ),
                )
            }
        },
    }
}

/// Asks `embedder` for one vector for each of `inputs`.
pub fn embed_all<E: Embedder>(embedder: &E, inputs: &[&str]) -> (r: Result<
    Vec<Vec<u32>>,
    Error,
>)
    ensures
        exists|reply: Result<Vec<Vec<u32>>, Error>| #[trigger]
            replies(*embedder, str_texts(inputs@), reply) && all_accepted(reply, inputs@.len(), r),
{
    let reply = embedder.embed(inputs);
    assert(replies(*embedder, str_texts(inputs@), reply));
    accept_all(reply, inputs.len())
}

/// Asks `embedder` for the vector of `input`.
pub fn embed_one<E: Embedder>(embedder: &E, input: &str) -> (r: Result<Vec<u32>, Error>)
    ensures
        exists|reply: Result<Vec<Vec<u32>>, Error>| #[trigger]
            replies(*embedder, seq![input@], reply) && first_accepted(reply, r),
{
    let mut inputs: Vec<&str> = Vec::new();
    inputs.push(input);
    let reply = embedder.embed(inputs.as_slice());
    assert(str_texts(inputs@) =~= seq![input@]);
    assert(replies(*embedder, seq![input@], reply));
    accept_first(reply)
}

/// Of a reply with vectors they are all taken exactly when there are as many as texts; a reply with
/// an error gives that error.
pub proof fn replies_are_taken_by_their_number(
    reply: Result<Vec<Vec<u32>>, Error>,
    count: nat,
    r: Result<Vec<Vec<u32>>, Error>,
)
    requires
        all_accepted(reply, count, r),
    ensures
        reply is Err ==> r == reply,
        reply is Ok && reply->Ok_0.len() == count ==> r == reply,
        reply is Ok && reply->Ok_0.len() != count ==> r is Err,
        r is Ok ==> r->Ok_0.len() == count,
{
}

/// Of a reply for one text the first vector is taken, whatever follows it; without a vector there is
/// an error.
pub proof fn first_vectors_are_taken(
    reply: Result<Vec<Vec<u32>>, Error>,
    r: Result<Vec<u32>, Error>,
)
    requires
        first_accepted(reply, r),
    ensures
        reply is Err ==> r is Err && r->Err_0 == reply->Err_0,
        reply is Ok && reply->Ok_0.len() > 0 ==> r is Ok && r->Ok_0 == reply->Ok_0@[0],
        reply is Ok && reply->Ok_0.len() == 0 ==> r is Err,
{
}

/// An embedder that replies was asked for exactly these texts, each whole, in order.
pub proof fn embedder_is_asked_for_the_texts<E: Embedder>(
    embedder: E,
    inputs: Seq<Seq<char>>,
    reply: Result<Vec<Vec<u32>>, Error>,
)
    requires
        replies(embedder, inputs, reply),
    ensures
        exists|list: &[&str]| #[trigger]
            call_ensures(E::embed, (&embedder, list), reply) && list@.len() == inputs.len() && forall|
                k: int,
            |
                0 <= k < inputs.len() ==> #[trigger] list@[k]@ == inputs[k],
{
    let list = choose|list: &[&str]| #[trigger]
        call_ensures(E::embed, (&embedder, list), reply) && str_texts(list@) == inputs;
    assert(str_texts(list@).len() == list@.len());
    assert forall|k: int| 0 <= k < inputs.len() implies #[trigger] list@[k]@ == inputs[k] by {
        assert(str_texts(list@)[k] == list@[k]@);
    }
}

} // verus!
