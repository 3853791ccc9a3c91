//! What can go wrong.

use vstd::prelude::*;
use vstd::string::StringExecFns;

verus! {

/// Why a request to the memory failed.
pub enum Error {
    /// The database failed, with this message.
    Database(String),
    /// The embedder failed, with this message.
    Embedding(String),
    /// A turn has no text.
    EmptyTurn,
}

impl Error {
    /// The text under which an error is reported.
    pub open spec fn text(self) -> Seq<char> {
        match self {
            Error::Database(reason) => reason@,
            Error::Embedding(reason) => "embedding failed: "@ + reason@,
            Error::EmptyTurn => "turn text cannot be empty"@,
        }
    }

    /// The text under which this error is reported.
    pub fn message(&self) -> (r: String)
        ensures
            r@ == self.text(),
    {
        match self {
            Error::Database(reason) => reason.clone(),
            Error::Embedding(reason) => {
                let mut r = "embedding failed: ".to_string();
                r.append(reason.as_str());
                r
            },
            Error::EmptyTurn => "turn text cannot be empty".to_string(),
        }
    }
}

/// An error is reported with the whole reason: that of the database alone, that of the embedder after
/// what it is about.
pub proof fn errors_are_reported_with_their_reason(reason: String)
    ensures
        Error::Database(reason).text() == reason@,
        Error::Embedding(reason).text().take(18) == "embedding failed: "@,
        Error::Embedding(reason).text().skip(18) == reason@,
{
    reveal_strlit("embedding failed: ");
    let text = Error::Embedding(reason).text();
    assert("embedding failed: "@.len() == 18);
    assert(text.take(18) =~= "embedding failed: "@);
    assert(text.skip(18) =~= reason@);
}

} // verus!
