//! Turns of a conversation: as they come in, as they are stored, and as they are searched.

use crate::entities::{entities, extract_entities};
use crate::text::{texts, tokenize, tokens};
use vstd::prelude::*;

verus! {

/// A turn that is to be stored.
pub struct IngestTurn {
    /// What tells this turn from all others.
    pub identity: String,
    pub session_id: String,
    pub speaker: String,
    pub text: String,
    /// When the turn was taken, in seconds.
    pub ts: i64,
}

/// What an [`IngestTurn`] stands for.
#[verifier::ext_equal]
pub struct IngestTurnView {
    pub identity: Seq<char>,
    pub session_id: Seq<char>,
    pub speaker: Seq<char>,
    pub text: Seq<char>,
    pub ts: i64,
}

impl View for IngestTurn {
    type V = IngestTurnView;

    open spec fn view(&self) -> IngestTurnView {
        IngestTurnView {
            identity: self.identity@,
            session_id: self.session_id@,
            speaker: self.speaker@,
            text: self.text@,
            ts: self.ts,
        }
    }
}

/// The turns to be stored that some values stand for.
pub open spec fn ingest_views(turns: Seq<IngestTurn>) -> Seq<IngestTurnView> {
    turns.map_values(|t: IngestTurn| t@)
}

/// A row of the table of turns.
pub struct StoredTurn {
    pub id: i64,
    pub session_id: String,
    pub speaker: String,
    pub text: String,
    pub ts: i64,
    /// The bytes of the embedding, where there is one.
    pub embedding: Option<Vec<u8>>,
}

/// What a [`StoredTurn`] stands for.
#[verifier::ext_equal]
pub struct StoredTurnView {
    pub id: i64,
    pub session_id: Seq<char>,
    pub speaker: Seq<char>,
    pub text: Seq<char>,
    pub ts: i64,
    pub embedding: Option<Seq<u8>>,
}

impl View for StoredTurn {
    type V = StoredTurnView;

    open spec fn view(&self) -> StoredTurnView {
        StoredTurnView {
            id: self.id,
            session_id: self.session_id@,
            speaker: self.speaker@,
            text: self.text@,
            ts: self.ts,
            embedding: match self.embedding {
                Some(bytes) => Some(bytes@),
                None => None,
            },
        }
    }
}

/// The rows that some values stand for.
pub open spec fn row_views(rows: Seq<StoredTurn>) -> Seq<StoredTurnView> {
    rows.map_values(|r: StoredTurn| r@)
}

/// A turn as it is searched.
pub struct Turn {
    pub id: i64,
    pub session_id: String,
    pub speaker: String,
    pub text: String,
    pub ts: i64,
    pub embedding: Vec<u32>,
    pub tokens: Vec<String>,
    pub entities: Vec<String>,
}

/// What a [`Turn`] stands for.
#[verifier::ext_equal]
pub struct TurnView {
    pub id: i64,
    pub session_id: Seq<char>,
    pub speaker: Seq<char>,
    pub text: Seq<char>,
    pub ts: i64,
    pub embedding: Seq<u32>,
    pub tokens: Seq<Seq<char>>,
    pub entities: Seq<Seq<char>>,
}

impl View for Turn {
    type V = TurnView;

    open spec fn view(&self) -> TurnView {
        TurnView {
            id: self.id,
            session_id: self.session_id@,
            speaker: self.speaker@,
            text: self.text@,
            ts: self.ts,
            embedding: self.embedding@,
            tokens: texts(self.tokens@),
            entities: texts(self.entities@),
        }
    }
}

/// The turns that some values stand for.
pub open spec fn turn_views(turns: Seq<Turn>) -> Seq<TurnView> {
    turns.map_values(|t: Turn| t@)
}

/// The session of each turn.
pub open spec fn session_ids(turns: Seq<TurnView>) -> Seq<Seq<char>> {
    turns.map_values(|t: TurnView| t.session_id)
}

/// Positions as numbers.
pub open spec fn positions(list: Seq<usize>) -> Seq<int> {
    list.map_values(|i: usize| i as int)
}

/// The turn that a row with this embedding is searched as.
pub open spec fn loaded_turn(row: StoredTurnView, embedding: Seq<u32>) -> TurnView {
    TurnView {
        id: row.id,
        session_id: row.session_id,
        speaker: row.speaker,
        text: row.text,
        ts: row.ts,
        embedding,
        tokens: tokens(row.text),
        entities: entities(row.text),
    }
}

/// Whether the tokens and entities of each turn are those of its text.
pub open spec fn derived(turns: Seq<TurnView>) -> bool {
    forall|i: int|
        0 <= i < turns.len() ==> (#[trigger] turns[i]).tokens == tokens(turns[i].text)
            && turns[i].entities == entities(turns[i].text)
}

/// The turn that `row` is searched as when its embedding is `embedding`.
pub fn load_turn(row: StoredTurn, embedding: Vec<u32>) -> (r: Turn)
    ensures
        r@ == loaded_turn(row@, embedding@),
{
    let tokens = tokenize(row.text.as_str());
    let entities = extract_entities(row.text.as_str());
    Turn {
        id: row.id,
        session_id: row.session_id,
        speaker: row.speaker,
        text: row.text,
        ts: row.ts,
        embedding,
        tokens,
        entities,
    }
}

/// Turns that come in stand for what they hold, as it is.
pub proof fn turns_to_be_stored_stand_for_what_they_hold(list: Seq<IngestTurn>, k: int)
    requires
        0 <= k < list.len(),
    ensures
        ingest_views(list).len() == list.len(),
        ingest_views(list)[k].identity == list[k].identity@,
        ingest_views(list)[k].session_id == list[k].session_id@,
        ingest_views(list)[k].speaker == list[k].speaker@,
        ingest_views(list)[k].text == list[k].text@,
        ingest_views(list)[k].ts == list[k].ts,
{
}

/// Rows stand for what they hold, as it is.
pub proof fn rows_stand_for_what_they_hold(list: Seq<StoredTurn>, k: int)
    requires
        0 <= k < list.len(),
    ensures
        row_views(list).len() == list.len(),
        row_views(list)[k].id == list[k].id,
        row_views(list)[k].session_id == list[k].session_id@,
        row_views(list)[k].speaker == list[k].speaker@,
        row_views(list)[k].text == list[k].text@,
        row_views(list)[k].ts == list[k].ts,
        row_views(list)[k].embedding is Some <==> list[k].embedding is Some,
        list[k].embedding is Some ==> row_views(list)[k].embedding->0 == list[k].embedding->0@,
{
}

/// Turns that are searched stand for what they hold, as it is.
pub proof fn turns_stand_for_what_they_hold(list: Seq<Turn>, k: int)
    requires
        0 <= k < list.len(),
    ensures
        turn_views(list).len() == list.len(),
        turn_views(list)[k].id == list[k].id,
        turn_views(list)[k].session_id == list[k].session_id@,
        turn_views(list)[k].speaker == list[k].speaker@,
        turn_views(list)[k].text == list[k].text@,
        turn_views(list)[k].ts == list[k].ts,
        turn_views(list)[k].embedding == list[k].embedding@,
        turn_views(list)[k].tokens == texts(list[k].tokens@),
        turn_views(list)[k].entities == texts(list[k].entities@),
{
}

/// A row is searched as it is stored: with its own number, session, speaker, text and time, and with
/// the tokens and the entities of its text.
pub proof fn rows_are_searched_as_they_are_stored(row: StoredTurnView, embedding: Seq<u32>)
    ensures
        ({
            let turn = loaded_turn(row, embedding);
            &&& turn.id == row.id
            &&& turn.session_id == row.session_id
            &&& turn.speaker == row.speaker
            &&& turn.text == row.text
            &&& turn.ts == row.ts
            &&& turn.embedding == embedding
            &&& turn.tokens == tokens(row.text)
            &&& turn.entities == entities(row.text)
        }),
{
}

/// Positions are the numbers that they are.
pub proof fn positions_are_numbers(list: Seq<usize>, k: int)
    requires
        0 <= k < list.len(),
    ensures
        positions(list).len() == list.len(),
        positions(list)[k] == list[k],
{
}

/// Every turn has the tokens and the entities of its own text.
pub proof fn derived_turns_have_their_own_words(turns: Seq<TurnView>, i: int)
    requires
        derived(turns),
        0 <= i < turns.len(),
    ensures
        turns[i].tokens == tokens(turns[i].text),
        turns[i].entities == entities(turns[i].text),
{
}

} // verus!
