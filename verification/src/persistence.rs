//! What a memory keeps over time: what was taken in is searched, also after a restart, and what
//! was deleted is not.

use crate::embedder::Embedder;
use crate::error::Error;
use crate::ingest::{identities, new_positions};
use crate::retrieval::{
    answer_shows_eligible_turns_only, answers, shows_eligible_turn, EvidenceView, Scores,
};
use crate::store::{forgotten, generated_for, loads, may_embed, may_write, reloaded};
use crate::table::{
    added_rows, after_batch, deleting_removes_exactly_the_session, fresh_ids, row_for, row_sessions,
    rows_of,    stored_turn_is_loaded, without_session, Row,
};
use crate::turns::{loaded_turn, IngestTurnView, StoredTurnView, TurnView};
use crate::vectors::{decoded, encoded, stored_embedding_reads_back};
use vstd::prelude::*;

verus! {

/// The turns of the rows of a table, as they are loaded.
pub open spec fn stored_turns(table: Seq<Row>) -> Seq<StoredTurnView> {
    table.map_values(|r: Row| r.turn)
}

/// A row with these bytes as its embedding.
pub open spec fn embedded(row: StoredTurnView, bytes: Seq<u8>) -> StoredTurnView {
    StoredTurnView { embedding: Some(bytes), ..row }
}

/// The rows after embeddings that were made were written to the rows with their numbers.
pub open spec fn written(rows: Seq<StoredTurnView>, generated: Seq<(i64, Seq<u8>)>) -> Seq<
    StoredTurnView,
>
    decreases generated.len(),
{
    if generated.len() == 0 {
        rows
    } else {
        let (id, bytes) = generated.last();
        written(rows, generated.drop_last()).map_values(
            |r: StoredTurnView|
                if r.id == id {
                    embedded(r, bytes)
                } else {
                    r
                },
        )
    }
}

/// Whether no two rows have the same number.
pub open spec fn numbered(rows: Seq<StoredTurnView>) -> bool {
    forall|i: int, j: int|
        0 <= i < j < rows.len() ==> (#[trigger] rows[i]).id != (#[trigger] rows[j]).id
}

/// Whether every row has an embedding.
pub open spec fn all_embedded(rows: Seq<StoredTurnView>) -> bool {
    forall|i: int| 0 <= i < rows.len() ==> (#[trigger] rows[i]).embedding is Some
}

proof fn written_where_missing(rows: Seq<StoredTurnView>, turns: Seq<TurnView>, n: int)
    requires
        numbered(rows),
        0 <= n <= rows.len(),
    ensures
        ({
            let now = written(rows, generated_for(rows.take(n), turns));
            &&& now.len() == rows.len()
            &&& forall|i: int|
                0 <= i < rows.len() ==> #[trigger] now[i] == if i < n && rows[i].embedding is None {
                    embedded(rows[i], encoded(turns[i].embedding))
                } else {
                    rows[i]
                }
        }),
    decreases n,
{
    if n > 0 {
        let last = n - 1;
        written_where_missing(rows, turns, last);
        assert(rows.take(n).drop_last() =~= rows.take(last));
        assert(rows.take(n).last() == rows[last]);
        let fewer = generated_for(rows.take(last), turns);
        let made = generated_for(rows.take(n), turns);
        let now = written(rows, made);
        if rows[last].embedding is None {
            assert(made.drop_last() =~= fewer);
            let before = written(rows, fewer);
            assert forall|i: int| 0 <= i < rows.len() implies #[trigger] now[i] == if i < n
                && rows[i].embedding is None {
                embedded(rows[i], encoded(turns[i].embedding))
            } else {
                rows[i]
            } by {
                assert(before[i].id == rows[i].id);
                if i < last {
                    assert(rows[i].id != rows[last].id);
                } else if i > last {
                    assert(rows[last].id != rows[i].id);
                }
            }
        }
    }
}

proof fn nothing_generated(rows: Seq<StoredTurnView>, turns: Seq<TurnView>)
    requires
        all_embedded(rows),
    ensures
        generated_for(rows, turns) == Seq::<(i64, Seq<u8>)>::empty(),
    decreases rows.len(),
{
    if rows.len() > 0 {
        let front = rows.drop_last();
        assert forall|i: int| 0 <= i < front.len() implies (
        #[trigger] front[i]).embedding is Some by {
            assert(front[i] == rows[i]);
        }
        nothing_generated(front, turns);
        assert(rows[rows.len() - 1].embedding is Some);
    }
}

/// Rows that all have an embedding are loaded without the embedder: loading them never fails,
/// makes no embedding, and always gives the same turns.
pub proof fn stored_embeddings_are_loaded<E: Embedder, W: Fn(i64, &Vec<u8>) -> Result<(), Error>>(
    embedder: E,
    write: W,
    rows: Seq<StoredTurnView>,
    now: Seq<TurnView>,
    error: Option<Error>,
)
    requires
        all_embedded(rows),
        reloaded(embedder, write, rows, now, error),
    ensures
        error is None,
        generated_for(rows, now) == Seq::<(i64, Seq<u8>)>::empty(),
        now == rows.map_values(|r: StoredTurnView| loaded_turn(r, decoded(r.embedding->0))),
{
    if error is Some {
        assert(rows[now.len() as int].embedding is Some);
    }
    nothing_generated(rows, now);
    assert forall|i: int| 0 <= i < rows.len() implies #[trigger] now[i] == loaded_turn(
        rows[i],
        decoded(rows[i].embedding->0),
    ) by {
        assert(rows[i].embedding is Some);
    }
    assert(now =~= rows.map_values(
        |r: StoredTurnView| loaded_turn(r, decoded(r.embedding->0)),
    ));
}

/// A memory outlives the process: where the rows were loaded and the embeddings that were made
/// were written, loading the rows again, with whatever embedder, gives the same turns.
pub proof fn restart_restores_the_memory<
    E: Embedder,
    V: Fn(i64, &Vec<u8>) -> Result<(), Error>,
    F: Embedder,
    W: Fn(i64, &Vec<u8>) -> Result<(), Error>,
>(
    first: E,
    first_write: V,
    rows: Seq<StoredTurnView>,
    turns: Seq<TurnView>,
    second: F,
    second_write: W,
    later: Seq<TurnView>,
    error: Option<Error>,
)
    requires
        numbered(rows),
        reloaded(first, first_write, rows, turns, None),
        reloaded(second, second_write, written(rows, generated_for(rows, turns)), later, error),
    ensures
        error is None,
        later == turns,
        generated_for(written(rows, generated_for(rows, turns)), later) == Seq::<
            (i64, Seq<u8>),
        >::empty(),
{
    assert(rows.take(rows.len() as int) =~= rows);
    written_where_missing(rows, turns, rows.len() as int);
    let kept = written(rows, generated_for(rows, turns));
    stored_embeddings_are_loaded(second, second_write, kept, later, error);
    assert forall|i: int| 0 <= i < rows.len() implies #[trigger] later[i] == turns[i] by {
        assert(turns[i] == loaded_turn(rows[i], turns[i].embedding));
        assert(kept[i] == if rows[i].embedding is None {
            embedded(rows[i], encoded(turns[i].embedding))
        } else {
            rows[i]
        });
        stored_embedding_reads_back(turns[i].embedding);
    }
    assert(later =~= turns);
}

/// What was taken in is searched: once the rows are loaded after a batch, each turn of the batch
/// that was new is among the turns, with the embedding that was made of its text.
pub proof fn new_turn_is_searched<E: Embedder, W: Fn(i64, &Vec<u8>) -> Result<(), Error>>(
    table: Seq<Row>,
    turns: Seq<IngestTurnView>,
    ids: Seq<i64>,
    embeddings: Seq<Seq<u32>>,
    embedder: E,
    write: W,
    now: Seq<TurnView>,
    k: int,
)
    requires
        fresh_ids(table, turns, ids),
        reloaded(
            embedder,
            write,
            stored_turns(after_batch(table, turns, ids, embeddings)),
            now,
            None,
        ),
        0 <= k < new_positions(identities(turns), rows_of(table, identities(turns))).len(),
    ensures
        ({
            let turn = turns[new_positions(identities(turns), rows_of(table, identities(turns)))[k]];
            now.contains(loaded_turn(row_for(turn, ids[k], embeddings[k]).turn, embeddings[k]))
        }),
{
    let wanted = identities(turns);
    let new = new_positions(wanted, rows_of(table, wanted));
    let rows = stored_turns(after_batch(table, turns, ids, embeddings));
    let at = table.len() + k;
    assert(added_rows(table, turns, ids, embeddings)[k] == row_for(
        turns[new[k]],
        ids[k],
        embeddings[k],
    ));
    assert(rows[at] == row_for(turns[new[k]], ids[k], embeddings[k]).turn);
    stored_turn_is_loaded(turns[new[k]], ids[k], embeddings[k]);
    assert(now[at] == loaded_turn(rows[at], now[at].embedding));
}

/// What was deleted is not searched: however loading the rows that are left ends, no turn of the
/// session is among the turns.
pub proof fn deleted_session_is_not_searched<E: Embedder, W: Fn(i64, &Vec<u8>) -> Result<(), Error>>(
    table: Seq<Row>,
    session: Seq<char>,
    embedder: E,
    write: W,
    now: Seq<TurnView>,
    error: Option<Error>,
)
    requires
        reloaded(embedder, write, stored_turns(without_session(table, session)), now, error),
    ensures
        forall|i: int| 0 <= i < now.len() ==> (#[trigger] now[i]).session_id != session,
{
    let left = without_session(table, session);
    let rows = stored_turns(left);
    let loaded = if error is None {
        rows
    } else {
        rows.take(now.len() as int)
    };
    assert(loads(embedder, loaded, now));
    deleting_removes_exactly_the_session(table, session);
    assert forall|i: int| 0 <= i < now.len() implies (#[trigger] now[i]).session_id != session by {
        assert(now[i] == loaded_turn(loaded[i], now[i].embedding));
        assert(loaded[i] == left[i].turn);
        assert(row_sessions(left)[i] == left[i].turn.session_id);
    }
}

/// What was deleted is never shown again: no answer among the turns that are left shows a turn of
/// the session.
pub proof fn deleted_session_is_not_shown<E: Embedder, W: Fn(i64, &Vec<u8>) -> Result<(), Error>>(
    table: Seq<Row>,
    session: Seq<char>,
    embedder: E,
    write: W,
    now: Seq<TurnView>,
    error: Option<Error>,
    scores: Scores,
    excluded: Option<Seq<char>>,
    top_k: nat,
    evidence: Seq<EvidenceView>,
)
    requires
        reloaded(embedder, write, stored_turns(without_session(table, session)), now, error),
        answers(now, scores, excluded, top_k, evidence),
    ensures
        forall|p: int| 0 <= p < evidence.len() ==> (#[trigger] evidence[p]).session_id != session,
{
    deleted_session_is_not_searched(table, session, embedder, write, now, error);
    answer_shows_eligible_turns_only(now, scores, excluded, top_k, evidence);
    assert forall|p: int| 0 <= p < evidence.len() implies (
    #[trigger] evidence[p]).session_id != session by {
        assert(shows_eligible_turn(now, scores, excluded, evidence[p]));
    }
}

proof fn everything_generated(rows: Seq<StoredTurnView>, turns: Seq<TurnView>)
    requires
        forall|i: int| 0 <= i < rows.len() ==> (#[trigger] rows[i]).embedding is None,
    ensures
        generated_for(rows, turns).len() == rows.len(),
        forall|i: int|
            0 <= i < rows.len() ==> #[trigger] generated_for(rows, turns)[i] == (
                rows[i].id,
                encoded(turns[i].embedding),
            ),
    decreases rows.len(),
{
    if rows.len() > 0 {
        let front = rows.drop_last();
        assert forall|i: int| 0 <= i < front.len() implies (
        #[trigger] front[i]).embedding is None by {
            assert(front[i] == rows[i]);
        }
        everything_generated(front, turns);
        assert(rows[rows.len() - 1].embedding is None);
    }
}

/// Another embedder embeds everything anew: where the embeddings of all rows are forgotten, loading
/// the rows gives each turn an embedding that the embedder makes of its text, and writes it to its
/// row.
pub proof fn forgotten_embeddings_are_made_anew<E: Embedder, W: Fn(i64, &Vec<u8>) -> Result<(), Error>>(
    embedder: E,
    write: W,
    rows: Seq<StoredTurnView>,
    now: Seq<TurnView>,
)
    requires
        reloaded(embedder, write, forgotten(rows), now, None),
    ensures
        now.len() == rows.len(),
        forall|i: int|
            0 <= i < rows.len() ==> (#[trigger] now[i]) == loaded_turn(rows[i], now[i].embedding)
                && may_embed(embedder, rows[i].text, now[i].embedding) && may_write(
                write,
                rows[i].id,
                encoded(now[i].embedding),
                None,
            ),
{
    let bare = forgotten(rows);
    let made = generated_for(bare, now);
    everything_generated(bare, now);
    assert forall|i: int| 0 <= i < rows.len() implies (#[trigger] now[i]) == loaded_turn(
        rows[i],
        now[i].embedding,
    ) && may_embed(embedder, rows[i].text, now[i].embedding) && may_write(
        write,
        rows[i].id,
        encoded(now[i].embedding),
        None,
    ) by {
        assert(now[i] == loaded_turn(bare[i], now[i].embedding));
        assert(bare[i].text == rows[i].text && bare[i].embedding is None);
        assert(made[i] == (bare[i].id, encoded(now[i].embedding)));
        assert(may_write(write, made[i].0, made[i].1, None));
    }
}

} // verus!
