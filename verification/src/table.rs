//! The table of turns, as what is stored and asked for relates to it.
//!
//! The table itself is kept by a database; here is what its rows are before and after a batch is
//! taken in or a session is deleted, and what holds of them.

use crate::ingest::{
    all_reported, identities, identities_at, ingested, new_identities, new_identities_are_distinct,
    new_positions, only_index, reported,
};
use crate::seqs::occurrences;
use crate::turns::{loaded_turn, IngestTurnView, StoredTurnView};
use crate::vectors::{decoded, encoded, stored_embedding_reads_back};
use vstd::prelude::*;

verus! {

/// A row of the table.
#[verifier::ext_equal]
pub struct Row {
    pub identity: Seq<char>,
    pub turn: StoredTurnView,
}

/// The identity of each row.
pub open spec fn row_identities(table: Seq<Row>) -> Seq<Seq<char>> {
    table.map_values(|r: Row| r.identity)
}

/// The number of each row.
pub open spec fn row_ids(table: Seq<Row>) -> Seq<i64> {
    table.map_values(|r: Row| r.turn.id)
}

/// The session of each row.
pub open spec fn row_sessions(table: Seq<Row>) -> Seq<Seq<char>> {
    table.map_values(|r: Row| r.turn.session_id)
}

/// Whether no two rows have the same identity or the same number.
pub open spec fn keyed(table: Seq<Row>) -> bool {
    row_identities(table).no_duplicates() && row_ids(table).no_duplicates()
}

/// The number of the row with an identity.
pub open spec fn row_of(table: Seq<Row>, identity: Seq<char>) -> Option<i64>
    decreases table.len(),
{
    if table.len() == 0 {
        None
    } else if table.last().identity == identity {
        Some(table.last().turn.id)
    } else {
        row_of(table.drop_last(), identity)
    }
}

/// The number of the row of each identity.
pub open spec fn rows_of(table: Seq<Row>, ids: Seq<Seq<char>>) -> Seq<Option<i64>> {
    ids.map_values(|id: Seq<char>| row_of(table, id))
}

/// The row of a turn that is stored under the number `id` with this embedding.
pub open spec fn row_for(turn: IngestTurnView, id: i64, embedding: Seq<u32>) -> Row {
    Row {
        identity: turn.identity,
        turn: StoredTurnView {
            id,
            session_id: turn.session_id,
            speaker: turn.speaker,
            text: turn.text,
            ts: turn.ts,
            embedding: Some(encoded(embedding)),
        },
    }
}

/// The rows that a batch adds to the table.
pub open spec fn added_rows(
    table: Seq<Row>,
    turns: Seq<IngestTurnView>,
    ids: Seq<i64>,
    embeddings: Seq<Seq<u32>>,
) -> Seq<Row> {
    let new = new_positions(identities(turns), rows_of(table, identities(turns)));
    Seq::new(new.len(), |k: int| row_for(turns[new[k]], ids[k], embeddings[k]))
}

/// The table after a batch was taken in.
pub open spec fn after_batch(
    table: Seq<Row>,
    turns: Seq<IngestTurnView>,
    ids: Seq<i64>,
    embeddings: Seq<Seq<u32>>,
) -> Seq<Row> {
    table + added_rows(table, turns, ids, embeddings)
}

/// What is reported of a batch that is taken in.
pub open spec fn batch_report(table: Seq<Row>, turns: Seq<IngestTurnView>, ids: Seq<i64>) -> Seq<
    (bool, i64),
> {
    all_reported(identities(turns), rows_of(table, identities(turns)), ids)
}

/// Whether `ids` can be the numbers of the rows that a batch adds: one for each, none of them
/// twice and none of them taken.
pub open spec fn fresh_ids(table: Seq<Row>, turns: Seq<IngestTurnView>, ids: Seq<i64>) -> bool {
    &&& ids.len() == new_positions(
        identities(turns),
        rows_of(table, identities(turns)),
    ).len()
    &&& ids.no_duplicates()
    &&& forall|k: int| 0 <= k < ids.len() ==> !row_ids(table).contains(#[trigger] ids[k])
}

/// The table after a session was deleted.
pub open spec fn without_session(table: Seq<Row>, session: Seq<char>) -> Seq<Row> {
    table.filter(|r: Row| r.turn.session_id != session)
}

/// A row is found under an identity exactly when there is one.
proof fn row_of_finds(table: Seq<Row>, identity: Seq<char>)
    ensures
        row_of(table, identity) is Some <==> row_identities(table).contains(identity),
    decreases table.len(),
{
    let all = row_identities(table);
    if table.len() > 0 {
        let front = table.drop_last();
        row_of_finds(front, identity);
        if table.last().identity == identity {
            assert(all[table.len() - 1] == identity);
        } else {
            if row_identities(front).contains(identity) {
                let i = choose|i: int|
                    0 <= i < row_identities(front).len() && row_identities(front)[i] == identity;
                assert(all[i] == identity);
            }
            if all.contains(identity) {
                let i = choose|i: int| 0 <= i < all.len() && all[i] == identity;
                assert(row_identities(front)[i] == identity);
            }
        }
    }
}

/// In a table in which no identity occurs twice, the row at `i` is found under its identity.
proof fn row_of_each(table: Seq<Row>, i: int)
    requires
        row_identities(table).no_duplicates(),
        0 <= i < table.len(),
    ensures
        row_of(table, table[i].identity) == Some(table[i].turn.id),
    decreases table.len(),
{
    if i < table.len() - 1 {
        let all = row_identities(table);
        let front = table.drop_last();
        assert(all[i] != all[table.len() - 1]);
        assert forall|a: int, b: int|
            0 <= a < row_identities(front).len() && 0 <= b < row_identities(front).len() && a
                != b implies row_identities(front)[a] != row_identities(front)[b] by {
            assert(all[a] != all[b]);
        }
        row_of_each(front, i);
    }
}

/// Taking in a batch keeps the table keyed: no identity is ever stored twice.
pub proof fn batch_keeps_table_keyed(
    table: Seq<Row>,
    turns: Seq<IngestTurnView>,
    ids: Seq<i64>,
    embeddings: Seq<Seq<u32>>,
)
    requires
        keyed(table),
        fresh_ids(table, turns, ids),
    ensures
        keyed(after_batch(table, turns, ids, embeddings)),
{
    let wanted = identities(turns);
    let existing = rows_of(table, wanted);
    let new = new_positions(wanted, existing);
    let more = added_rows(table, turns, ids, embeddings);
    let now = after_batch(table, turns, ids, embeddings);
    new_identities_are_distinct(wanted, existing);
    let n = table.len();
    assert forall|k: int| 0 <= k < more.len() implies (#[trigger] more[k]).identity
        == new_identities(wanted, existing)[k] && more[k].turn.id == ids[k] && !row_identities(
        table,
    ).contains(more[k].identity) by {
        assert(0 <= new[k] < wanted.len());
        assert(existing[new[k]] == row_of(table, wanted[new[k]]));
        row_of_finds(table, wanted[new[k]]);
    }
    assert forall|a: int, b: int| 0 <= a < now.len() && 0 <= b < now.len() && a != b implies (
    #[trigger] row_identities(now)[a]) != (#[trigger] row_identities(now)[b]) && row_ids(now)[a]
        != row_ids(now)[b] by {
        two_rows_differ(table, more, a, b);
    }
    assert forall|a: int, b: int| 0 <= a < now.len() && 0 <= b < now.len() && a != b implies (
    #[trigger] row_ids(now)[a]) != (#[trigger] row_ids(now)[b]) by {
        assert(row_identities(now)[a] != row_identities(now)[b]);
    }
}

proof fn two_rows_differ(table: Seq<Row>, more: Seq<Row>, a: int, b: int)
    requires
        keyed(table),
        keyed_apart(table, more),
        0 <= a < (table + more).len(),
        0 <= b < (table + more).len(),
        a != b,
    ensures
        (table + more)[a].identity != (table + more)[b].identity,
        (table + more)[a].turn.id != (table + more)[b].turn.id,
{
    let n = table.len();
    let now = table + more;
    if a < n && b < n {
        assert(row_identities(table)[a] != row_identities(table)[b]);
        assert(row_ids(table)[a] != row_ids(table)[b]);
    } else if a < n {
        assert(row_identities(table)[a] == now[a].identity);
        assert(row_ids(table)[a] == now[a].turn.id);
        assert(now[b] == more[b - n]);
    } else if b < n {
        assert(row_identities(table)[b] == now[b].identity);
        assert(row_ids(table)[b] == now[b].turn.id);
        assert(now[a] == more[a - n]);
    } else {
        assert(now[a] == more[a - n] && now[b] == more[b - n]);
    }
}

/// Whether some rows differ from each other and from those of a table.
spec fn keyed_apart(table: Seq<Row>, more: Seq<Row>) -> bool {
    &&& forall|k: int|
        0 <= k < more.len() ==> !row_identities(table).contains((#[trigger] more[k]).identity)
            && !row_ids(table).contains(more[k].turn.id)
    &&& forall|k: int, m: int|
        0 <= k < more.len() && 0 <= m < more.len() && k != m ==> (#[trigger] more[k]).identity != (
        #[trigger] more[m]).identity && more[k].turn.id != more[m].turn.id
}

/// A number that is found under an identity is that of a row with the identity.
proof fn row_of_witness(table: Seq<Row>, identity: Seq<char>) -> (i: int)
    requires
        row_of(table, identity) is Some,
    ensures
        0 <= i < table.len(),
        table[i].identity == identity,
        row_of(table, identity) == Some(table[i].turn.id),
    decreases table.len(),
{
    if table.last().identity == identity {
        table.len() - 1
    } else {
        row_of_witness(table.drop_last(), identity)
    }
}

/// After a batch was taken in, every turn of it is found under its identity, in the row that was
/// reported of it.
pub proof fn reported_turn_is_found(
    table: Seq<Row>,
    turns: Seq<IngestTurnView>,
    ids: Seq<i64>,
    embeddings: Seq<Seq<u32>>,
    i: int,
)
    requires
        keyed(table),
        fresh_ids(table, turns, ids),
        0 <= i < turns.len(),
    ensures
        row_of(after_batch(table, turns, ids, embeddings), turns[i].identity) == Some(
            batch_report(table, turns, ids)[i].1,
        ),
{
    let wanted = identities(turns);
    let existing = rows_of(table, wanted);
    let more = added_rows(table, turns, ids, embeddings);
    let now = after_batch(table, turns, ids, embeddings);
    batch_keeps_table_keyed(table, turns, ids, embeddings);
    new_identities_are_distinct(wanted, existing);
    assert(wanted[i] == turns[i].identity);
    assert(existing[i] == row_of(table, wanted[i]));
    if existing[i] is Some {
        let j = row_of_witness(table, wanted[i]);
        assert(now[j] == table[j]);
        row_of_each(now, j);
    } else {
        let new_ids = new_identities(wanted, existing);
        assert(new_ids.contains(wanted[i]));
        let k = new_ids.index_of(wanted[i]);
        assert(0 <= k < new_ids.len() && new_ids[k] == wanted[i]);
        assert(more[k].identity == wanted[i]);
        assert(now[table.len() + k] == more[k]);
        row_of_each(now, table.len() + k);
    }
}

proof fn nothing_new(ids: Seq<Seq<char>>, existing: Seq<Option<i64>>)
    requires
        forall|i: int| 0 <= i < ids.len() ==> #[trigger] existing[i] is Some,
    ensures
        new_positions(ids, existing) == Seq::<int>::empty(),
    decreases ids.len(),
{
    if ids.len() > 0 {
        nothing_new(ids.drop_last(), existing);
        assert(existing[ids.len() - 1] is Some);
    }
}

/// Taking in a batch again stores nothing: the table stays as it is, and of each turn it is
/// reported that it was not stored, with the row of the first time.
pub proof fn ingesting_again_stores_nothing(
    table: Seq<Row>,
    turns: Seq<IngestTurnView>,
    ids: Seq<i64>,
    embeddings: Seq<Seq<u32>>,
)
    requires
        keyed(table),
        fresh_ids(table, turns, ids),
    ensures
        ({
            let now = after_batch(table, turns, ids, embeddings);
            &&& after_batch(now, turns, Seq::empty(), Seq::empty()) == now
            &&& forall|i: int|
                0 <= i < turns.len() ==> #[trigger] batch_report(now, turns, Seq::empty())[i] == (
                    false,
                    batch_report(table, turns, ids)[i].1,
                )
        }),
{
    let now = after_batch(table, turns, ids, embeddings);
    let wanted = identities(turns);
    let existing = rows_of(now, wanted);
    assert forall|i: int| 0 <= i < wanted.len() implies #[trigger] existing[i] == Some(
        batch_report(table, turns, ids)[i].1,
    ) by {
        reported_turn_is_found(table, turns, ids, embeddings, i);
        assert(existing[i] == row_of(now, wanted[i]));
    }
    nothing_new(wanted, existing);
    assert(after_batch(now, turns, Seq::empty(), Seq::empty()) =~= now);
}

/// Which turns are new depends on no more answers than there are turns.
proof fn new_positions_of_prefix(
    ids: Seq<Seq<char>>,
    one: Seq<Option<i64>>,
    other: Seq<Option<i64>>,
)
    requires
        forall|i: int| 0 <= i < ids.len() ==> #[trigger] one[i] == other[i],
    ensures
        new_positions(ids, one) == new_positions(ids, other),
    decreases ids.len(),
{
    if ids.len() > 0 {
        new_positions_of_prefix(ids.drop_last(), one, other);
        assert(one[ids.len() - 1] == other[ids.len() - 1]);
    }
}

/// A turn is new beside a batch exactly when it is new after it.
proof fn next_turn_is_new_alike(
    table: Seq<Row>,
    turns: Seq<IngestTurnView>,
    turn: IngestTurnView,
    ids: Seq<i64>,
    embeddings: Seq<Seq<u32>>,
)
    requires
        keyed(table),
        fresh_ids(table, turns, ids),
    ensures
        ({
            let mid = after_batch(table, turns, ids, embeddings);
            let w = identities(turns);
            let w2 = identities(turns.push(turn));
            let one = identities(seq![turn]);
            let before = new_positions(w, rows_of(table, w));
            let fresh = row_of(mid, turn.identity) is None;
            &&& fresh == (row_of(table, turn.identity) is None && !new_identities(
                w,
                rows_of(table, w),
            ).contains(turn.identity))
            &&& new_positions(w2, rows_of(table, w2)) == if fresh {
                before.push(turns.len() as int)
            } else {
                before
            }
            &&& new_positions(one, rows_of(mid, one)) == if fresh {
                seq![0int]
            } else {
                Seq::empty()
            }
        }),
{
    let mid = after_batch(table, turns, ids, embeddings);
    let more = added_rows(table, turns, ids, embeddings);
    let n = turns.len() as int;
    let w = identities(turns);
    let w2 = identities(turns.push(turn));
    let e = rows_of(table, w);
    let e2 = rows_of(table, w2);
    let id = turn.identity;
    let before = new_positions(w, e);
    let new_ids = new_identities(w, e);
    let one = identities(seq![turn]);
    let e1 = rows_of(mid, one);
    assert(w2.drop_last() =~= w);
    assert(w2[n] == id);
    assert forall|i: int| 0 <= i < w.len() implies #[trigger] e[i] == e2[i] by {
        assert(w[i] == w2[i]);
    }
    new_positions_of_prefix(w, e, e2);
    new_identities_are_distinct(w, e);
    assert(identities_at(w2, before) =~= new_ids);
    assert(one.len() == 1 && one[0] == id);
    assert(e1[0] == row_of(mid, id));
    assert(e2[n] == row_of(table, id));
    assert(one.drop_last() =~= Seq::empty());
    assert(identities_at(one, Seq::empty()) =~= Seq::empty());
    assert(new_positions(one.drop_last(), e1) == Seq::<int>::empty());
    assert forall|k: int| 0 <= k < more.len() implies (#[trigger] more[k]).identity
        == new_ids[k] by {
        assert(0 <= before[k] < w.len());
    }
    row_of_finds(mid, id);
    row_of_finds(table, id);
    if row_identities(mid).contains(id) {
        let j = choose|j: int| 0 <= j < row_identities(mid).len() && row_identities(mid)[j] == id;
        if j < table.len() {
            assert(row_identities(table)[j] == id);
        } else {
            assert(mid[j] == more[j - table.len()]);
            assert(new_ids[j - table.len()] == id);
        }
    }
    if row_identities(table).contains(id) {
        let j = choose|j: int|
            0 <= j < row_identities(table).len() && row_identities(table)[j] == id;
        assert(row_identities(mid)[j] == id);
    }
    if new_ids.contains(id) {
        let k = choose|k: int| 0 <= k < new_ids.len() && new_ids[k] == id;
        assert(mid[table.len() + k] == more[k]);
        assert(row_identities(mid)[table.len() + k] == id);
    }
}

/// A batch does what its turns do one after the other: taking in one turn more with the batch
/// leaves the table, and reports of the turns, what taking it in afterwards does.
pub proof fn batch_is_its_turns_one_by_one(
    table: Seq<Row>,
    turns: Seq<IngestTurnView>,
    turn: IngestTurnView,
    ids: Seq<i64>,
    embeddings: Seq<Seq<u32>>,
    more_ids: Seq<i64>,
    more_embeddings: Seq<Seq<u32>>,
)
    requires
        keyed(table),
        fresh_ids(table, turns, ids),
        embeddings.len() == ids.len(),
        fresh_ids(after_batch(table, turns, ids, embeddings), seq![turn], more_ids),
        more_embeddings.len() == more_ids.len(),
    ensures
        after_batch(table, turns.push(turn), ids + more_ids, embeddings + more_embeddings)
            == after_batch(
            after_batch(table, turns, ids, embeddings),
            seq![turn],
            more_ids,
            more_embeddings,
        ),
        batch_report(table, turns.push(turn), ids + more_ids) == batch_report(table, turns, ids)
            + batch_report(after_batch(table, turns, ids, embeddings), seq![turn], more_ids),
{
    let mid = after_batch(table, turns, ids, embeddings);
    let more = added_rows(table, turns, ids, embeddings);
    let n = turns.len() as int;
    let all = turns.push(turn);
    let w = identities(turns);
    let w2 = identities(all);
    let e = rows_of(table, w);
    let e2 = rows_of(table, w2);
    let id = turn.identity;
    let before = new_positions(w, e);
    let now = new_positions(w2, e2);
    let new_ids = new_identities(w, e);
    let new_ids2 = new_identities(w2, e2);
    let one = identities(seq![turn]);
    let e1 = rows_of(mid, one);
    assert(w2.drop_last() =~= w);
    assert(w2[n] == id);
    assert forall|i: int| 0 <= i < w.len() implies #[trigger] e[i] == e2[i] by {
        assert(w[i] == w2[i]);
    }
    new_positions_of_prefix(w, e, e2);
    new_identities_are_distinct(w, e);
    new_identities_are_distinct(w2, e2);
    assert(identities_at(w2, before) =~= new_ids);
    batch_keeps_table_keyed(table, turns, ids, embeddings);
    assert(one.len() == 1 && one[0] == id);
    assert(e1[0] == row_of(mid, id));
    assert(e2[n] == row_of(table, id));
    let alone = new_positions(one, e1);
    assert forall|k: int| 0 <= k < more.len() implies (#[trigger] more[k]).identity == new_ids[k]
        && more[k].turn.id == ids[k] by {
        assert(0 <= before[k] < w.len());
    }
    next_turn_is_new_alike(table, turns, turn, ids, embeddings);
    let is_new = e2[n] is None && !new_ids.contains(id);
    let both = added_rows(table, all, ids + more_ids, embeddings + more_embeddings);
    let last = added_rows(mid, seq![turn], more_ids, more_embeddings);
    assert forall|k: int| 0 <= k < before.len() implies #[trigger] both[k] == more[k] by {
        assert(0 <= before[k] < w.len());
        assert(all[before[k]] == turns[before[k]]);
    }
    if is_new {
        assert(both[before.len() as int] == last[0]);
    }
    assert(both =~= more + last);
    assert(table + both =~= mid + last);
    // What is reported.
    let report = batch_report(table, all, ids + more_ids);
    let first = batch_report(table, turns, ids);
    let second = batch_report(mid, seq![turn], more_ids);
    assert forall|i: int| 0 <= i < n implies #[trigger] report[i] == first[i] by {
        assert(w[i] == w2[i] && e[i] == e2[i]);
        if e[i] is None {
            assert(new_ids.contains(w[i]));
            let k = new_ids.index_of(w[i]);
            assert(0 <= k < new_ids.len() && new_ids[k] == w[i]);
            assert(new_ids2[k] == w2[now[k]]);
            assert(new_ids2[k] == w[i]);
            only_index(new_ids, k);
            only_index(new_ids2, k);
            if before.contains(i) {
                let m = choose|m: int| 0 <= m < before.len() && before[m] == i;
                assert(now[m] == i);
            }
            if now.contains(i) {
                let m = choose|m: int| 0 <= m < now.len() && now[m] == i;
                assert(before[m] == i);
            }
        }
    }
    assert(report[n] == second[0]) by {
        if e2[n] is Some {
            let j = row_of_witness(table, id);
            assert(mid[j] == table[j]);
            row_of_each(mid, j);
        } else if is_new {
            assert(now[before.len() as int] == n);
            assert(now.contains(n));
            assert(new_ids2[before.len() as int] == id);
            only_index(new_ids2, before.len() as int);
            assert(alone[0] == 0);
            assert(alone.contains(0));
            assert(new_identities(one, e1)[0] == id);
            assert(new_identities(one, e1).no_duplicates());
            only_index(new_identities(one, e1), 0);
        } else {
            let k = choose|k: int| 0 <= k < new_ids.len() && new_ids[k] == id;
            assert(new_ids2[k] == w2[now[k]]);
            only_index(new_ids2, k);
            assert(mid[table.len() + k] == more[k]);
            row_of_each(mid, table.len() + k);
            if now.contains(n) {
                let m = choose|m: int| 0 <= m < now.len() && now[m] == n;
                assert(0 <= before[m] < w.len());
            }
        }
    }
    assert(report =~= first + second);
}

/// Two batches one after the other do what one batch of all their turns does: they leave the same
/// table, and the same is reported of each turn.
pub proof fn two_batches_are_one(
    table: Seq<Row>,
    one: Seq<IngestTurnView>,
    two: Seq<IngestTurnView>,
    ids: Seq<i64>,
    embeddings: Seq<Seq<u32>>,
    more_ids: Seq<i64>,
    more_embeddings: Seq<Seq<u32>>,
)
    requires
        keyed(table),
        fresh_ids(table, one, ids),
        embeddings.len() == ids.len(),
        fresh_ids(after_batch(table, one, ids, embeddings), two, more_ids),
        more_embeddings.len() == more_ids.len(),
    ensures
        after_batch(table, one + two, ids + more_ids, embeddings + more_embeddings) == after_batch(
            after_batch(table, one, ids, embeddings),
            two,
            more_ids,
            more_embeddings,
        ),
        batch_report(table, one + two, ids + more_ids) == batch_report(table, one, ids)
            + batch_report(after_batch(table, one, ids, embeddings), two, more_ids),
    decreases two.len(),
{
    let mid = after_batch(table, one, ids, embeddings);
    let w = identities(two);
    let e = rows_of(mid, w);
    if two.len() == 0 {
        assert(one + two =~= one);
        assert(ids + more_ids =~= ids);
        assert(embeddings + more_embeddings =~= embeddings);
        assert(after_batch(mid, two, more_ids, more_embeddings) =~= mid);
        assert(batch_report(table, one, ids) + batch_report(mid, two, more_ids)
            =~= batch_report(table, one, ids));
    } else {
        let front = two.drop_last();
        let turn = two.last();
        assert(front.push(turn) =~= two);
        assert((one + front).push(turn) =~= one + two);
        batch_keeps_table_keyed(table, one, ids, embeddings);
        // The numbers and embeddings of the turns before the last, and of the last.
        let wf = identities(front);
        let n = new_positions(wf, rows_of(mid, wf)).len() as int;
        assert(w.drop_last() =~= wf);
        assert forall|i: int| 0 <= i < wf.len() implies #[trigger] rows_of(mid, wf)[i]
            == e[i] by {
            assert(wf[i] == w[i]);
        }
        new_positions_of_prefix(wf, rows_of(mid, wf), e);
        let first_ids = more_ids.take(n);
        let first_embeddings = more_embeddings.take(n);
        let last_ids = more_ids.skip(n);
        let last_embeddings = more_embeddings.skip(n);
        assert(first_ids + last_ids =~= more_ids);
        assert(first_embeddings + last_embeddings =~= more_embeddings);
        assert forall|k: int| 0 <= k < first_ids.len() implies !row_ids(mid).contains(
            #[trigger] first_ids[k],
        ) by {
            assert(first_ids[k] == more_ids[k]);
        }
        assert(fresh_ids(mid, front, first_ids));
        let later = after_batch(mid, front, first_ids, first_embeddings);
        next_turn_is_new_alike(mid, front, turn, first_ids, first_embeddings);
        let added = added_rows(mid, front, first_ids, first_embeddings);
        assert forall|k: int| 0 <= k < last_ids.len() implies !row_ids(later).contains(
            #[trigger] last_ids[k],
        ) by {
            let id = last_ids[k];
            assert(id == more_ids[n + k]);
            if row_ids(later).contains(id) {
                let j = choose|j: int| 0 <= j < row_ids(later).len() && row_ids(later)[j] == id;
                if j < mid.len() {
                    assert(row_ids(mid)[j] == id);
                } else {
                    assert(later[j] == added[j - mid.len()]);
                    assert(more_ids[j - mid.len()] == id);
                }
            }
        }
        assert(fresh_ids(later, seq![turn], last_ids));
        two_batches_are_one(table, one, front, ids, embeddings, first_ids, first_embeddings);
        let so_far = ids + first_ids;
        let made = embeddings + first_embeddings;
        let added_first = added_rows(table, one, ids, embeddings);
        assert forall|a: int, b: int|
            0 <= a < so_far.len() && 0 <= b < so_far.len() && a != b implies so_far[a]
            != so_far[b] by {
            let m = ids.len();
            if a < m && b >= m {
                assert(mid[table.len() + a] == added_first[a]);
                assert(row_ids(mid)[table.len() + a] == ids[a]);
                assert(!row_ids(mid).contains(first_ids[b - m]));
            } else if b < m && a >= m {
                assert(mid[table.len() + b] == added_first[b]);
                assert(row_ids(mid)[table.len() + b] == ids[b]);
                assert(!row_ids(mid).contains(first_ids[a - m]));
            }
        }
        assert forall|k: int| 0 <= k < so_far.len() implies !row_ids(table).contains(
            #[trigger] so_far[k],
        ) by {
            if k < ids.len() {
                assert(so_far[k] == ids[k]);
            } else if row_ids(table).contains(so_far[k]) {
                let j = choose|j: int|
                    0 <= j < row_ids(table).len() && row_ids(table)[j] == so_far[k];
                assert(mid[j] == table[j]);
                assert(row_ids(mid)[j] == so_far[k]);
                assert(!row_ids(mid).contains(first_ids[k - ids.len()]));
            }
        }
        assert(after_batch(table, one + front, so_far, made).len() == later.len());
        assert(fresh_ids(table, one + front, so_far));
        batch_is_its_turns_one_by_one(
            mid,
            front,
            turn,
            first_ids,
            first_embeddings,
            last_ids,
            last_embeddings,
        );
        batch_is_its_turns_one_by_one(
            table,
            one + front,
            turn,
            so_far,
            made,
            last_ids,
            last_embeddings,
        );
        assert(so_far + last_ids =~= ids + more_ids);
        assert(made + last_embeddings =~= embeddings + more_embeddings);
        assert(batch_report(table, one + two, ids + more_ids) =~= batch_report(table, one, ids)
            + batch_report(mid, two, more_ids));
    }
}

/// Deleting a session removes all of its rows and no others, and leaves the others in order: as
/// many rows go as there were in the session.
pub proof fn deleting_removes_exactly_the_session(table: Seq<Row>, session: Seq<char>)
    ensures
        !row_sessions(without_session(table, session)).contains(session),
        forall|r: Row|
            table.contains(r) && r.turn.session_id != session ==> #[trigger] without_session(
                table,
                session,
            ).contains(r),
        forall|r: Row| #[trigger] without_session(table, session).contains(r) ==> table.contains(r),
        without_session(table, session).len() + occurrences(row_sessions(table), session)
            == table.len(),
    decreases table.len(),
{
    reveal(Seq::filter);
    let left = without_session(table, session);
    if table.len() == 0 {
        assert(left =~= Seq::empty());
    } else {
        let front = table.drop_last();
        let rest = without_session(front, session);
        let last = table.last();
        deleting_removes_exactly_the_session(front, session);
        assert(row_sessions(table).drop_last() =~= row_sessions(front));
        assert(row_sessions(table).last() == last.turn.session_id);
        if row_sessions(left).contains(session) {
            let i = choose|i: int|
                0 <= i < row_sessions(left).len() && row_sessions(left)[i] == session;
            assert(row_sessions(rest)[i] == session);
        }
        assert forall|r: Row|
            table.contains(r) && r.turn.session_id != session implies #[trigger] left.contains(
            r,
        ) by {
            let i = choose|i: int| 0 <= i < table.len() && table[i] == r;
            if i < front.len() {
                assert(front[i] == r);
                assert(rest.contains(r));
                let j = choose|j: int| 0 <= j < rest.len() && rest[j] == r;
                assert(left[j] == r);
            } else {
                assert(left.last() == r);
            }
        }
        assert forall|r: Row| #[trigger] left.contains(r) implies table.contains(r) by {
            let j = choose|j: int| 0 <= j < left.len() && left[j] == r;
            if j < rest.len() {
                assert(rest[j] == r);
                assert(rest.contains(r));
                let i = choose|i: int| 0 <= i < front.len() && front[i] == r;
                assert(table[i] == r);
            } else {
                assert(table[table.len() - 1] == r);
            }
        }
    }
}

/// Deleting a session keeps the table keyed.
pub proof fn deleting_keeps_table_keyed(table: Seq<Row>, session: Seq<char>)
    requires
        keyed(table),
    ensures
        keyed(without_session(table, session)),
    decreases table.len(),
{
    reveal(Seq::filter);
    let left = without_session(table, session);
    if table.len() > 0 {
        let front = table.drop_last();
        let rest = without_session(front, session);
        assert(keyed(front)) by {
            assert forall|a: int, b: int|
                0 <= a < front.len() && 0 <= b < front.len() && a != b implies (
            #[trigger] row_identities(front)[a]) != (#[trigger] row_identities(front)[b]) by {
                assert(row_identities(table)[a] != row_identities(table)[b]);
            }
            assert forall|a: int, b: int|
                0 <= a < front.len() && 0 <= b < front.len() && a != b implies (
            #[trigger] row_ids(front)[a]) != (#[trigger] row_ids(front)[b]) by {
                assert(row_ids(table)[a] != row_ids(table)[b]);
            }
        }
        deleting_keeps_table_keyed(front, session);
        deleting_removes_exactly_the_session(front, session);
        let last = table.last();
        if left.len() > rest.len() {
            assert forall|j: int| 0 <= j < rest.len() implies (#[trigger] rest[j]).identity
                != last.identity && rest[j].turn.id != last.turn.id by {
                assert(rest.contains(rest[j]));
                let i = choose|i: int| 0 <= i < front.len() && front[i] == rest[j];
                assert(row_identities(table)[i] != row_identities(table)[table.len() - 1]);
                assert(row_ids(table)[i] != row_ids(table)[table.len() - 1]);
            }
            assert forall|a: int, b: int|
                0 <= a < left.len() && 0 <= b < left.len() && a != b implies (
            #[trigger] row_identities(left)[a]) != (#[trigger] row_identities(left)[b]) by {
                if a < rest.len() && b < rest.len() {
                    assert(row_identities(rest)[a] != row_identities(rest)[b]);
                } else if a < rest.len() {
                    assert(rest[a].identity != last.identity);
                } else {
                    assert(rest[b].identity != last.identity);
                }
            }
            assert forall|a: int, b: int|
                0 <= a < left.len() && 0 <= b < left.len() && a != b implies (
            #[trigger] row_ids(left)[a]) != (#[trigger] row_ids(left)[b]) by {
                if a < rest.len() && b < rest.len() {
                    assert(row_ids(rest)[a] != row_ids(rest)[b]);
                } else if a < rest.len() {
                    assert(rest[a].turn.id != last.turn.id);
                } else {
                    assert(rest[b].turn.id != last.turn.id);
                }
            }
        }
    }
}

/// What was taken in is what is searched: a turn that was stored is loaded with its session,
/// speaker, text and time, under the number of its row and with its embedding.
pub proof fn stored_turn_is_loaded(turn: IngestTurnView, id: i64, embedding: Seq<u32>)
    ensures
        ({
            let row = row_for(turn, id, embedding).turn;
            let loaded = loaded_turn(row, decoded(row.embedding->0));
            &&& row.embedding is Some
            &&& loaded.id == id
            &&& loaded.session_id == turn.session_id
            &&& loaded.speaker == turn.speaker
            &&& loaded.text == turn.text
            &&& loaded.ts == turn.ts
            &&& loaded.embedding == embedding
        }),
{
    stored_embedding_reads_back(embedding);
}

proof fn stored_flags_count_new_positions(
    ids: Seq<Seq<char>>,
    existing: Seq<Option<i64>>,
    results: Seq<(bool, i64)>,
)
    requires
        results.len() == ids.len(),
        forall|i: int|
            0 <= i < ids.len() ==> (#[trigger] results[i]).0 == new_positions(
                ids,
                existing,
            ).contains(i),
    ensures
        ingested(results) == new_positions(ids, existing).len(),
    decreases ids.len(),
{
    if ids.len() > 0 {
        let front = ids.drop_last();
        let last = ids.len() - 1;
        let before = new_positions(front, existing);
        let now = new_positions(ids, existing);
        new_identities_are_distinct(front, existing);
        assert forall|i: int| 0 <= i < front.len() implies (#[trigger] results.drop_last()[i]).0
            == before.contains(i) by {
            assert(results[i].0 == now.contains(i));
            if before.contains(i) {
                let k = choose|k: int| 0 <= k < before.len() && before[k] == i;
                assert(now[k] == i);
            }
            if now.contains(i) {
                let k = choose|k: int| 0 <= k < now.len() && now[k] == i;
                assert(before[k] == i);
            }
        }
        stored_flags_count_new_positions(front, existing, results.drop_last());
        assert(results[last].0 == now.contains(last));
        if now.len() > before.len() {
            assert(now.last() == last);
        } else if now.contains(last) {
            let k = choose|k: int| 0 <= k < now.len() && now[k] == last;
            assert(before[k] < front.len());
        }
    }
}

/// The table grows by as many rows as there are turns of which it is reported that they were
/// stored.
pub proof fn table_grows_by_what_is_reported(
    table: Seq<Row>,
    turns: Seq<IngestTurnView>,
    ids: Seq<i64>,
    embeddings: Seq<Seq<u32>>,
)
    ensures
        after_batch(table, turns, ids, embeddings).len() == table.len() + ingested(
            batch_report(table, turns, ids),
        ),
{
    let wanted = identities(turns);
    let existing = rows_of(table, wanted);
    let report = batch_report(table, turns, ids);
    let new = new_positions(wanted, existing);
    new_identities_are_distinct(wanted, existing);
    assert forall|i: int| 0 <= i < wanted.len() implies (#[trigger] report[i]).0 == new.contains(
        i,
    ) by {
        if new.contains(i) {
            let k = choose|k: int| 0 <= k < new.len() && new[k] == i;
            assert(existing[new[k]] is None);
        }
        assert(report[i] == reported(wanted, existing, ids, i));
    }
    stored_flags_count_new_positions(wanted, existing, report);
}

} // verus!
