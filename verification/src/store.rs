//! The memory: the turns of a project, ready to be searched.

use crate::embedder::{
    all_accepted, embed_all, embed_one, first_accepted, named, replies, Embedder,
};
use crate::entities::{entities, entities_are_distinct, extract_entities};
use crate::error::Error;
use crate::graph::{
    contribution_views, contributions, entities_distinct, entity_names, Contribution, EntityIndex,
};
use crate::ingest::{
    identities, new_identities_are_distinct, new_positions, plan_batch, some_blank, BatchPlan,
};
use crate::lexical::{lexical_counts, LexicalCounts};
use crate::retrieval::{
    answers, choose_route, evidence_views, excluded_view, route_of, select_evidence,
    QueryResult, Route, Scores,
};
use crate::seqs::occurrences_count_membership;
use crate::tally::Tally;
use crate::text::{
    blank, has_temporal_marker, is_blank, is_temporal_query, lowercase, same_text, str_texts,
    text_with_something_is_not_blank, texts, tokenize, tokens,
};
use crate::turns::{
    derived, ingest_views, load_turn, loaded_turn, positions, row_views, session_ids, turn_views,
    IngestTurn, IngestTurnView, StoredTurn, StoredTurnView, Turn, TurnView,
};
use crate::vectors::{bytes_to_vector, decoded, encoded, vector_to_bytes};
use crate::windows::{
    build_windows, sessions, spread, spread_scores, window_views, windows,
    windows_partition_the_turns, Window,
};
use vstd::prelude::*;

verus! {

/// The turns of a project, with what is derived from them. It stands for these turns.
pub struct MemoryStore<E: Embedder> {
    embedder: E,
    turns: Vec<Turn>,
    entities: EntityIndex,
    windows: Vec<Window>,
    indexed: usize,
}

impl<E: Embedder> View for MemoryStore<E> {
    type V = Seq<TurnView>;

    closed spec fn view(&self) -> Seq<TurnView> {
        turn_views(self.turns@)
    }
}

/// How many of everything there are.
pub struct Stats {
    pub turns: usize,
    pub sessions: usize,
    pub entities: usize,
    pub windows: usize,
    /// The name of the embedder.
    pub embedder: String,
}

/// A memory that is being opened.
pub struct Opening<E: Embedder> {
    /// The memory, as yet without turns.
    pub store: MemoryStore<E>,
    /// Where the stored embeddings are of another embedder, the name of this one: the rows are to
    /// be [`forgotten`] and the name is to be recorded.
    pub reset: Option<String>,
}

/// The rows without their embeddings.
pub open spec fn forgotten(rows: Seq<StoredTurnView>) -> Seq<StoredTurnView> {
    rows.map_values(|r: StoredTurnView| StoredTurnView { embedding: None, ..r })
}

/// Whether `embedding` may be what the embedder makes of a text.
pub open spec fn may_embed<E: Embedder>(embedder: E, text: Seq<char>, embedding: Seq<u32>) -> bool {
    exists|reply: Result<Vec<Vec<u32>>, Error>, v: Vec<u32>|
        replies(embedder, seq![text], reply) && #[trigger] first_accepted(
            reply,
            Ok::<Vec<u32>, Error>(v),
        ) && v@ == embedding
}

/// Whether the embedder may fail on a text with this error.
pub open spec fn may_fail<E: Embedder>(embedder: E, text: Seq<char>, error: Error) -> bool {
    exists|reply: Result<Vec<Vec<u32>>, Error>| #[trigger]
        replies(embedder, seq![text], reply) && first_accepted(
            reply,
            Err::<Vec<u32>, Error>(error),
        )
}

/// Whether `turns` may be what the rows are loaded as: each row with the embedding that is stored
/// with it, or where there is none, with one that the embedder makes of its text.
pub open spec fn loads<E: Embedder>(
    embedder: E,
    rows: Seq<StoredTurnView>,
    turns: Seq<TurnView>,
) -> bool {
    &&& turns.len() == rows.len()
    &&& forall|i: int|
        0 <= i < rows.len() ==> (#[trigger] turns[i]) == loaded_turn(rows[i], turns[i].embedding)
            && match rows[i].embedding {
            Some(bytes) => turns[i].embedding == decoded(bytes),
            None => may_embed(embedder, rows[i].text, turns[i].embedding),
        }
}

/// The rows that have no embedding, each with the bytes of the one it was loaded with.
pub open spec fn generated_for(rows: Seq<StoredTurnView>, turns: Seq<TurnView>) -> Seq<
    (i64, Seq<u8>),
>
    decreases rows.len(),
{
    if rows.len() == 0 {
        Seq::empty()
    } else {
        let before = generated_for(rows.drop_last(), turns);
        if rows.last().embedding is None {
            before.push((rows.last().id, encoded(turns[rows.len() - 1].embedding)))
        } else {
            before
        }
    }
}

/// The embeddings that are made depend on no more turns than there are rows.
proof fn generated_for_prefix(rows: Seq<StoredTurnView>, one: Seq<TurnView>, other: Seq<TurnView>)
    requires
        forall|i: int| 0 <= i < rows.len() ==> #[trigger] one[i] == other[i],
    ensures
        generated_for(rows, one) == generated_for(rows, other),
    decreases rows.len(),
{
    if rows.len() > 0 {
        generated_for_prefix(rows.drop_last(), one, other);
        assert(one[rows.len() - 1] == other[rows.len() - 1]);
    }
}

/// The error with which something failed, if it did.
pub open spec fn failure_of<T>(outcome: Result<T, Error>) -> Option<Error> {
    match outcome {
        Ok(_) => None,
        Err(error) => Some(error),
    }
}

/// Whether writing these bytes as the embedding of the row with this number may fail with `error`
/// or succeed.
pub open spec fn may_write<F: Fn(i64, &Vec<u8>) -> Result<(), Error>>(
    write: F,
    id: i64,
    bytes: Seq<u8>,
    error: Option<Error>,
) -> bool {
    exists|v: Vec<u8>, outcome: Result<(), Error>| #[trigger]
        call_ensures(write, (id, &v), outcome) && v@ == bytes && failure_of(outcome) == error
}

/// Whether all these embeddings may have been written.
pub open spec fn all_written<F: Fn(i64, &Vec<u8>) -> Result<(), Error>>(
    write: F,
    generated: Seq<(i64, Seq<u8>)>,
) -> bool {
    forall|k: int|
        0 <= k < generated.len() ==> may_write(
            write,
            (#[trigger] generated[k]).0,
            generated[k].1,
            None,
        )
}

/// Whether a row may fail to get an embedding with this error: none is made, or the one that is
/// made is not written.
pub open spec fn may_stop<E: Embedder, F: Fn(i64, &Vec<u8>) -> Result<(), Error>>(
    embedder: E,
    write: F,
    row: StoredTurnView,
    error: Error,
) -> bool {
    ||| may_fail(embedder, row.text, error)
    ||| exists|embedding: Seq<u32>|
        #[trigger] may_embed(embedder, row.text, embedding) && may_write(
            write,
            row.id,
            encoded(embedding),
            Some(error),
        )
}

/// Whether loading `rows` may leave the turns `now` and fail with `error` or succeed. On success
/// all rows are loaded, and where a row fails to get an embedding, those before it; the embeddings
/// that were made of the rows that are loaded are written.
pub open spec fn reloaded<E: Embedder, F: Fn(i64, &Vec<u8>) -> Result<(), Error>>(
    embedder: E,
    write: F,
    rows: Seq<StoredTurnView>,
    now: Seq<TurnView>,
    error: Option<Error>,
) -> bool {
    let n = now.len() as int;
    match error {
        None => loads(embedder, rows, now) && all_written(write, generated_for(rows, now)),
        Some(reason) => {
            &&& n < rows.len()
            &&& rows[n].embedding is None
            &&& may_stop(embedder, write, rows[n], reason)
            &&& loads(embedder, rows.take(n), now)
            &&& all_written(write, generated_for(rows.take(n), now))
        },
    }
}

impl<E: Embedder> MemoryStore<E> {
    /// The embedder of the memory.
    pub closed spec fn embedder(self) -> E {
        self.embedder
    }

    /// The turns of which the graph of entities and the windows are: those of the memory, or
    /// where these were not all loaded, those of before.
    pub closed spec fn indexed(self) -> Seq<TurnView> {
        self.entities@
    }

    /// Whether what is derived from turns is theirs.
    pub closed spec fn wf(self) -> bool {
        &&& derived(self@)
        &&& derived(self.indexed())
        &&& self.entities.wf()
        &&& self.indexed == self.indexed().len()
        &&& window_views(self.windows@) == windows(self.indexed())
    }

    /// The tokens and entities of every turn are those of its text.
    pub proof fn turns_are_derived(self)
        requires
            self.wf(),
        ensures
            derived(self@),
            derived(self.indexed()),
    {
    }

    /// A memory with these turns.
    fn with_turns(embedder: E, turns: Vec<Turn>) -> (r: Self)
        requires
            derived(turn_views(turns@)),
        ensures
            r.wf(),
            r@ == turn_views(turns@),
            r.indexed() == r@,
            r.embedder() == embedder,
    {
        proof {
            derived_entities_are_distinct(turn_views(turns@));
        }
        let entities = EntityIndex::build(&turns);
        let windows = build_windows(&turns);
        let indexed = turns.len();
        MemoryStore { embedder, turns, entities, windows, indexed }
    }

    /// Holds these turns in place of those that there are.
    fn hold(&mut self, turns: Vec<Turn>)
        requires
            derived(turn_views(turns@)),
        ensures
            final(self).wf(),
            final(self)@ == turn_views(turns@),
            final(self).indexed() == final(self)@,
            final(self).embedder() == old(self).embedder(),
    {
        proof {
            derived_entities_are_distinct(turn_views(turns@));
        }
        self.entities = EntityIndex::build(&turns);
        self.windows = build_windows(&turns);
        self.indexed = turns.len();
        self.turns = turns;
    }

    /// Opens a memory whose stored embeddings are those of the embedder named `previous`.
    pub fn open(embedder: E, previous: Option<&str>) -> (r: Opening<E>)
        ensures
            r.store.wf(),
            r.store@ == Seq::<TurnView>::empty(),
            r.store.indexed() == r.store@,
            r.store.embedder() == embedder,
            exists|id: Seq<char>| #[trigger]
                named(embedder, id) && match r.reset {
                    Some(name) => name@ == id && excluded_view(previous) != Some(id),
                    None => excluded_view(previous) == Some(id),
                },
    {
        let id = embedder.id().to_string();
        assert(named(embedder, id@));
        let unchanged = match previous {
            Some(name) => same_text(name, id.as_str()),
            None => false,
        };
        let turns: Vec<Turn> = Vec::new();
        assert(turn_views(turns@) =~= Seq::empty());
        let store = MemoryStore::with_turns(embedder, turns);
        Opening {
            store,
            reset: if unchanged {
                None
            } else {
                Some(id)
            },
        }
    }

    /// Loads the turns of `rows` in place of those that there are. Rows without an embedding get
    /// one, which is written by `write`. Where that fails, the turns of the rows before are what is
    /// loaded, and the graph of entities and the windows stay as they were.
    pub fn reload<F: Fn(i64, &Vec<u8>) -> Result<(), Error>>(
        &mut self,
        rows: Vec<StoredTurn>,
        write: F,
    ) -> (r: Result<(), Error>)
        requires
            old(self).wf(),
            forall|id: i64, bytes: Vec<u8>| #[trigger] call_requires(write, (id, &bytes)),
        ensures
            final(self).wf(),
            final(self).embedder() == old(self).embedder(),
            reloaded(
                old(self).embedder(),
                write,
                row_views(rows@),
                final(self)@,
                failure_of(r),
            ),
            final(self).indexed() == if r is Ok {
                final(self)@
            } else {
                old(self).indexed()
            },
    {
        let ghost all = row_views(rows@);
        let ghost embedder = self.embedder();
        let mut turns: Vec<Turn> = Vec::new();
        let ghost given = rows@;
        let n = rows.len();
        let mut i: usize = 0;
        for row in it: rows
            invariant
                it.seq() == given,
                n == given.len(),
                it.index() == i,
                all == row_views(given),
                embedder == old(self).embedder(),
                self.embedder() == embedder,
                self.wf(),
                self.indexed() == old(self).indexed(),
                turns.len() == i,
                loads(embedder, all.take(i as int), turn_views(turns@)),
                forall|id: i64, bytes: Vec<u8>| #[trigger] call_requires(write, (id, &bytes)),
                all_written(write, generated_for(all.take(i as int), turn_views(turns@))),
        {
            let ghost before = turn_views(turns@);
            let ghost old_generated = generated_for(all.take(i as int), before);
            proof {
                assert(row == given[i as int]);
                assert(all[i as int] == row@);
                assert(all.take(i + 1).drop_last() =~= all.take(i as int));
                assert(all.take(i + 1).last() == row@);
            }
            let stored: Option<Vec<u32>> = match &row.embedding {
                Some(bytes) => Some(bytes_to_vector(bytes.as_slice())),
                None => None,
            };
            let embedding: Vec<u32> = match stored {
                Some(vector) => vector,
                None => {
                    match embed_one(&self.embedder, row.text.as_str()) {
                        Ok(vector) => {
                            let bytes = vector_to_bytes(vector.as_slice());
                            let outcome = write(row.id, &bytes);
                            proof {
                                assert(may_embed(embedder, row.text@, vector@));
                                assert(may_write(
                                    write,
                                    row.id,
                                    encoded(vector@),
                                    failure_of(outcome),
                                ));
                            }
                            match outcome {
                                Ok(()) => vector,
                                Err(error) => {
                                    proof {
                                        assert(may_stop(embedder, write, all[i as int], error));
                                        assert(before.len() == i);
                                    }
                                    self.turns = turns;
                                    return Err(error);
                                },
                            }
                        },
                        Err(error) => {
                            proof {
                                assert(may_fail(embedder, all[i as int].text, error));
                                assert(before.len() == i);
                            }
                            self.turns = turns;
                            return Err(error);
                        },
                    }
                },
            };
            let ghost vector = embedding@;
            assert(row@.embedding is None ==> may_write(
                write,
                row@.id,
                encoded(vector),
                None,
            ));
            turns.push(load_turn(row, embedding));
            proof {
                let now = turn_views(turns@);
                assert(now =~= before.push(loaded_turn(row@, vector)));
                generated_for_prefix(all.take(i as int), before, now);
                let made = generated_for(all.take(i + 1), now);
                assert(made == if row@.embedding is None {
                    old_generated.push((row@.id, encoded(vector)))
                } else {
                    old_generated
                });
                assert forall|k: int| 0 <= k < made.len() implies may_write(
                    write,
                    (#[trigger] made[k]).0,
                    made[k].1,
                    None,
                ) by {
                    if k < old_generated.len() {
                        assert(made[k] == old_generated[k]);
                    }
                }
                assert forall|k: int| 0 <= k < i + 1 implies (#[trigger] now[k]) == loaded_turn(
                    all.take(i + 1)[k],
                    now[k].embedding,
                ) && match all.take(i + 1)[k].embedding {
                    Some(bytes) => now[k].embedding == decoded(bytes),
                    None => may_embed(embedder, all.take(i + 1)[k].text, now[k].embedding),
                } by {
                    if k < i {
                        assert(now[k] == before[k]);
                        assert(all.take(i as int)[k] == all.take(i + 1)[k]);
                    }
                }
            }
            i = i + 1;
        }
        assert(all.take(i as int) =~= all);
        self.hold(turns);
        Ok(())
    }

    /// Loads the turns of `rows`, which are those that are left after the `deleted` turns of a
    /// session were deleted; embeddings that are made are written by `write`.
    pub fn delete_session<F: Fn(i64, &Vec<u8>) -> Result<(), Error>>(
        &mut self,
        deleted: usize,
        rows: Vec<StoredTurn>,
        write: F,
    ) -> (r: Result<usize, Error>)
        requires
            old(self).wf(),
            forall|id: i64, bytes: Vec<u8>| #[trigger] call_requires(write, (id, &bytes)),
        ensures
            final(self).wf(),
            final(self).embedder() == old(self).embedder(),
            reloaded(
                old(self).embedder(),
                write,
                row_views(rows@),
                final(self)@,
                failure_of(r),
            ),
            r matches Ok(count) ==> count == deleted,
            final(self).indexed() == if r is Ok {
                final(self)@
            } else {
                old(self).indexed()
            },
    {
        match self.reload(rows, write) {
            Ok(()) => Ok(deleted),
            Err(error) => Err(error),
        }
    }

    /// Prepares to take in `turns`, where `existing` holds the rows under which their identities
    /// are stored already: decides which are new and embeds their texts, all at once.
    pub fn ingest_batch(&self, turns: &[IngestTurn], existing: &[Option<i64>]) -> (r: Result<
        Batch,
        Error,
    >)
        requires
            existing.len() == turns.len(),
        ensures
            prepared(self.embedder(), ingest_views(turns@), existing@, r),
    {
        let ghost views = ingest_views(turns@);
        let ghost ids = identities(views);
        let ghost new = new_positions(ids, existing@);
        let plan = match plan_batch(turns, existing) {
            Ok(plan) => plan,
            Err(error) => {
                return Err(error);
            },
        };
        proof {
            new_identities_are_distinct(ids, existing@);
        }
        let candidates = plan.candidates();
        if candidates.len() == 0 {
            assert(positions(candidates@).len() == 0);
            let embeddings: Vec<Vec<u8>> = Vec::new();
            return Ok(Batch { plan, embeddings });
        }
        let mut inputs: Vec<&str> = Vec::new();
        let mut k: usize = 0;
        assert(str_texts(inputs@) =~= texts_at(views, new.take(0)));
        while k < candidates.len()
            invariant
                k <= candidates.len(),
                views == ingest_views(turns@),
                new == positions(candidates@),
                forall|m: int| 0 <= m < new.len() ==> 0 <= #[trigger] new[m] < turns.len(),
                str_texts(inputs@) == texts_at(views, new.take(k as int)),
            decreases candidates.len() - k,
        {
            let ghost before = str_texts(inputs@);
            assert(new[k as int] == candidates@[k as int]);
            let at = candidates[k];
            inputs.push(turns[at].text.as_str());
            proof {
                assert(views[at as int] == turns@[at as int]@);
                assert(str_texts(inputs@) =~= before.push(views[at as int].text));
                assert(new.take(k + 1) =~= new.take(k as int).push(at as int));
                assert(texts_at(views, new.take(k + 1)) =~= before.push(views[at as int].text));
            }
            k = k + 1;
        }
        assert(new.take(k as int) =~= new);
        assert(str_texts(inputs@).len() == inputs@.len());
        match embed_all(&self.embedder, inputs.as_slice()) {
            Err(error) => Err(error),
            Ok(vectors) => {
                let embeddings = encode_all(&vectors);
                proof {
                    assert(replies(
                        self.embedder(),
                        texts_at(views, new),
                        Ok::<Vec<Vec<u32>>, Error>(vectors),
                    ));
                }
                Ok(Batch { plan, embeddings })
            },
        }
    }

    /// Prepares to take in one turn, where `existing` is the row under which its identity is
    /// stored already.
    pub fn ingest(&self, turn: &IngestTurn, existing: Option<i64>) -> (r: Result<Batch, Error>)
        ensures
            prepared(self.embedder(), seq![turn@], seq![existing], r),
    {
        let one = IngestTurn {
            identity: turn.identity.clone(),
            session_id: turn.session_id.clone(),
            speaker: turn.speaker.clone(),
            text: turn.text.clone(),
            ts: turn.ts,
        };
        let mut turns: Vec<IngestTurn> = Vec::new();
        turns.push(one);
        let mut rows: Vec<Option<i64>> = Vec::new();
        rows.push(existing);
        assert(ingest_views(turns@) =~= seq![turn@]);
        assert(rows@ =~= seq![existing]);
        self.ingest_batch(turns.as_slice(), rows.as_slice())
    }

    /// Starts to answer `query` with at most `top_k` turns. A query without text, or for no
    /// turns, or to a memory without turns is answered at once; of any other it is said what the
    /// scores of the turns are made of.
    pub fn query(&self, query: &str, top_k: usize) -> (r: Result<QueryStep, Error>)
        requires
            self.wf(),
        ensures
            match r {
                Ok(QueryStep::Answered(result)) => trivial_query(query@, top_k as nat, self@)
                    && result.route@ == "balanced"@ && result.evidence.len() == 0,
                Ok(QueryStep::Scoring(plan)) => !trivial_query(query@, top_k as nat, self@)
                    && plan.of(self@, self.indexed(), query@) && may_embed(
                    self.embedder(),
                    query@,
                    plan.embedding@,
                ),
                Err(error) => !trivial_query(query@, top_k as nat, self@) && may_fail(
                    self.embedder(),
                    query@,
                    error,
                ),
            },
    {
        assert(self@.len() == self.turns.len());
        if is_blank(query) || top_k == 0 || self.turns.len() == 0 {
            return Ok(
                QueryStep::Answered(QueryResult { route: "balanced", evidence: Vec::new() }),
            );
        }
        let embedding = match embed_one(&self.embedder, query) {
            Ok(vector) => {
                assert(may_embed(self.embedder(), query@, vector@));
                vector
            },
            Err(error) => {
                assert(may_fail(self.embedder(), query@, error));
                return Err(error);
            },
        };
        Ok(QueryStep::Scoring(self.plan_query(query, embedding)))
    }

    /// What the scores of the turns for `query`, which has this `embedding`, are made of.
    pub fn plan_query(&self, query: &str, embedding: Vec<u32>) -> (r: QueryPlan)
        requires
            self.wf(),
        ensures
            r.of(self@, self.indexed(), query@),
            r.embedding == embedding,
    {
        let query_tokens = tokenize(query);
        let query_entities = extract_entities(query);
        assert(texts(query_entities@).len() == query_entities.len());
        let route = choose_route(is_temporal_query(query), query_entities.len());
        let lexical = lexical_counts(&self.turns, &query_tokens);
        let contributions = self.entities.contributions(&query_entities);
        QueryPlan { route, embedding, lexical, contributions }
    }

    /// Whether the windows hold no positions but those of turns of the memory.
    pub fn windows_fit(&self) -> (r: bool)
        requires
            self.wf(),
        ensures
            r == (self.indexed().len() <= self@.len()),
    {
        assert(self@.len() == self.turns.len());
        self.indexed <= self.turns.len()
    }

    /// The score of each turn in the hierarchy, given those of the windows: that of the window in
    /// which it stands, or zero where it stands in none.
    pub fn hierarchy_scores(&self, window_scores: &Vec<u32>) -> (r: Vec<u32>)
        requires
            self.wf(),
            self.indexed().len() <= self@.len(),
            window_scores.len() == windows(self.indexed()).len(),
        ensures
            r.len() == self@.len(),
            spread(windows(self.indexed()), window_scores@, r@),
            forall|i: int| self.indexed().len() <= i < r.len() ==> #[trigger] r@[i] == 0,
    {
        proof {
            windows_partition_the_turns(self.indexed());
            assert(window_views(self.windows@).len() == self.windows.len());
            assert(self@.len() == self.turns.len());
        }
        spread_scores(&self.windows, window_scores, self.turns.len())
    }

    /// Answers a query of this `route` for which the turns have these scores.
    pub fn answer(
        &self,
        route: Route,
        scores: &Scores,
        top_k: usize,
        excluded_session: Option<&str>,
    ) -> (r: QueryResult)
        requires
            scores.cover(self@.len()),
        ensures
            r.route@ == route.text(),
            answers(
                self@,
                *scores,
                excluded_view(excluded_session),
                top_k as nat,
                evidence_views(r.evidence@),
            ),
    {
        assert(self@.len() == self.turns.len());
        let evidence = select_evidence(&self.turns, scores, excluded_session, top_k);
        QueryResult { route: route.name(), evidence }
    }

    /// How many of everything there are.
    pub fn stats(&self) -> (r: Stats)
        requires
            self.wf(),
        ensures
            r.turns == self@.len(),
            r.sessions == sessions(self@).len(),
            r.entities == entity_names(self.indexed()).len(),
            r.windows == windows(self.indexed()).len(),
            named(self.embedder(), r.embedder@),
    {
        let ghost ids = session_ids(self@);
        let mut seen = Tally::new();
        let mut i: usize = 0;
        assert(ids.take(0) =~= Seq::empty());
        while i < self.turns.len()
            invariant
                i <= self.turns.len(),
                ids == session_ids(self@),
                ids.len() == self.turns.len(),
                seen.wf(),
                seen@ == ids.take(i as int),
            decreases self.turns.len() - i,
        {
            proof {
                occurrences_count_membership(ids.take(i as int), self.turns@[i as int].session_id@);
                assert(self@[i as int] == self.turns@[i as int]@);
                assert(ids.take(i + 1) =~= ids.take(i as int).push(ids[i as int]));
            }
            seen.count(self.turns[i].session_id.as_str());
            i = i + 1;
        }
        proof {
            assert(ids.take(i as int) =~= ids);
            assert(window_views(self.windows@).len() == self.windows.len());
        }
        let id = self.embedder.id().to_string();
        assert(named(self.embedder(), id@));
        Stats {
            turns: self.turns.len(),
            sessions: seen.len(),
            entities: self.entities.len(),
            windows: self.windows.len(),
            embedder: id,
        }
    }

    /// The turns of the memory.
    pub fn turns(&self) -> (r: &Vec<Turn>)
        ensures
            turn_views(r@) == self@,
    {
        &self.turns
    }

    /// The windows of the turns.
    pub fn windows(&self) -> (r: &Vec<Window>)
        requires
            self.wf(),
        ensures
            window_views(r@) == windows(self.indexed()),
    {
        &self.windows
    }
}

/// A batch that is ready to be stored.
pub struct Batch {
    /// What becomes of each turn.
    pub plan: BatchPlan,
    /// The bytes of the embedding of each turn that is to be stored.
    pub embeddings: Vec<Vec<u8>>,
}

/// The texts of the turns at some positions.
pub open spec fn texts_at(turns: Seq<IngestTurnView>, at: Seq<int>) -> Seq<Seq<char>> {
    at.map_values(|i: int| turns[i].text)
}

/// Whether `r` may come of preparing to take in `turns`: a batch with a blank turn is refused;
/// where nothing is new, the embedder is not asked; otherwise it is asked once for the texts of
/// all new turns, and its vectors are what is stored.
pub open spec fn prepared<E: Embedder>(
    embedder: E,
    turns: Seq<IngestTurnView>,
    existing: Seq<Option<i64>>,
    r: Result<Batch, Error>,
) -> bool {
    let new = new_positions(identities(turns), existing);
    match r {
        Ok(batch) => {
            &&& !some_blank(turns)
            &&& batch.plan.wf()
            &&& batch.plan.identities() == identities(turns)
            &&& batch.plan.existing() == existing
            &&& new.len() == 0 ==> batch.embeddings.len() == 0
            &&& new.len() > 0 ==> exists|vectors: Vec<Vec<u32>>|
                #[trigger] replies(
                    embedder,
                    texts_at(turns, new),
                    Ok::<Vec<Vec<u32>>, Error>(vectors),
                ) && vectors.len() == new.len() && byte_views(batch.embeddings@) == encoded_all(
                    vectors@,
                )
        },
        Err(error) => if some_blank(turns) {
            error is EmptyTurn
        } else {
            new.len() > 0 && exists|reply: Result<Vec<Vec<u32>>, Error>| #[trigger]
                replies(embedder, texts_at(turns, new), reply) && all_accepted(
                    reply,
                    new.len(),
                    Err::<Vec<Vec<u32>>, Error>(error),
                )
        },
    }
}

/// The bytes of some values.
pub open spec fn byte_views(list: Seq<Vec<u8>>) -> Seq<Seq<u8>> {
    list.map_values(|v: Vec<u8>| v@)
}

/// The bytes of some embeddings.
pub open spec fn encoded_all(vectors: Seq<Vec<u32>>) -> Seq<Seq<u8>> {
    vectors.map_values(|v: Vec<u32>| encoded(v@))
}

/// The bytes of each of some embeddings.
fn encode_all(vectors: &Vec<Vec<u32>>) -> (r: Vec<Vec<u8>>)
    ensures
        byte_views(r@) == encoded_all(vectors@),
{
    let mut r: Vec<Vec<u8>> = Vec::new();
    let mut i: usize = 0;
    while i < vectors.len()
        invariant
            i <= vectors.len(),
            byte_views(r@) == encoded_all(vectors@.take(i as int)),
        decreases vectors.len() - i,
    {
        let ghost before = byte_views(r@);
        r.push(vector_to_bytes(vectors[i].as_slice()));
        proof {
            let next = encoded(vectors@[i as int]@);
            assert(byte_views(r@) =~= before.push(next));
            assert(vectors@.take(i + 1) =~= vectors@.take(i as int).push(vectors@[i as int]));
            assert(encoded_all(vectors@.take(i + 1)) =~= before.push(next));
        }
        i = i + 1;
    }
    assert(vectors@.take(i as int) =~= vectors@);
    r
}

/// What the scores of the turns for a query are made of.
pub struct QueryPlan {
    pub route: Route,
    /// The embedding of the query.
    pub embedding: Vec<u32>,
    /// The counts of its tokens in the turns.
    pub lexical: LexicalCounts,
    /// What its entities contribute to the turns.
    pub contributions: Vec<Contribution>,
}

impl QueryPlan {
    /// Whether this is the plan for a query to a memory with these turns and the graph of the turns
    /// `indexed`.
    pub open spec fn of(
        self,
        turns: Seq<TurnView>,
        indexed: Seq<TurnView>,
        query: Seq<char>,
    ) -> bool {
        &&& self.route == route_of(
            has_temporal_marker(lowercase(query)),
            entities(query).len(),
        )
        &&& self.lexical.of(turns, tokens(query))
        &&& contribution_views(self.contributions@) == contributions(indexed, entities(query))
    }
}

/// A query that is being answered.
pub enum QueryStep {
    /// It is answered.
    Answered(QueryResult),
    /// The turns are to be scored by this plan.
    Scoring(QueryPlan),
}

/// Whether a query is answered with nothing at once.
pub open spec fn trivial_query(query: Seq<char>, top_k: nat, turns: Seq<TurnView>) -> bool {
    blank(query) || top_k == 0 || turns.len() == 0
}

/// Turns whose entities are those of their texts have none of them twice.
pub proof fn derived_entities_are_distinct(turns: Seq<TurnView>)
    requires
        derived(turns),
    ensures
        entities_distinct(turns),
{
    assert forall|i: int| 0 <= i < turns.len() implies (
    #[trigger] turns[i]).entities.no_duplicates() by {
        entities_are_distinct(turns[i].text);
    }
}

/// What comes of a batch: it is refused for a blank turn and for nothing else of its own; where
/// nothing in it is new, it goes well and nothing is embedded.
pub proof fn batches_are_refused_for_blank_turns_only<E: Embedder>(
    embedder: E,
    turns: Seq<IngestTurnView>,
    existing: Seq<Option<i64>>,
    r: Result<Batch, Error>,
)
    requires
        prepared(embedder, turns, existing, r),
    ensures
        (exists|i: int| 0 <= i < turns.len() && blank((#[trigger] turns[i]).text)) ==> r is Err
            && r->Err_0 is EmptyTurn,
        (forall|i: int| 0 <= i < turns.len() ==> !blank((#[trigger] turns[i]).text)) && (forall|
            i: int,
        |
            0 <= i < turns.len() ==> #[trigger] existing[i] is Some) ==> r is Ok
            && r->Ok_0.embeddings.len() == 0,
{
    let ids = identities(turns);
    let new = new_positions(ids, existing);
    new_identities_are_distinct(ids, existing);
    if (forall|i: int| 0 <= i < turns.len() ==> #[trigger] existing[i] is Some) && new.len() > 0 {
        assert(existing[new[0]] is None);
        assert(existing[new[0]] is Some);
    }
}

/// Of a batch that goes well and has something new, the whole texts of the new turns were embedded,
/// in order, and what is stored of each is its own vector.
pub proof fn new_turns_are_embedded_by_their_texts<E: Embedder>(
    embedder: E,
    turns: Seq<IngestTurnView>,
    existing: Seq<Option<i64>>,
    batch: Batch,
) -> (r: (Seq<Seq<char>>, Vec<Vec<u32>>))
    requires
        prepared(embedder, turns, existing, Ok(batch)),
        new_positions(identities(turns), existing).len() > 0,
    ensures
        replies(embedder, r.0, Ok::<Vec<Vec<u32>>, Error>(r.1)),
        r.0.len() == new_positions(identities(turns), existing).len(),
        r.1.len() == r.0.len(),
        batch.embeddings.len() == r.0.len(),
        forall|k: int|
            0 <= k < r.0.len() ==> #[trigger] r.0[k] == turns[new_positions(
                identities(turns),
                existing,
            )[k]].text,
        forall|k: int|
            0 <= k < r.0.len() ==> (#[trigger] batch.embeddings@[k])@ == encoded(r.1@[k]@),
{
    let new = new_positions(identities(turns), existing);
    let inputs = texts_at(turns, new);
    let vectors = choose|vectors: Vec<Vec<u32>>| #[trigger]
        replies(embedder, inputs, Ok::<Vec<Vec<u32>>, Error>(vectors)) && vectors.len() == new.len()
            && byte_views(batch.embeddings@) == encoded_all(vectors@);
    assert(byte_views(batch.embeddings@).len() == batch.embeddings.len());
    assert(encoded_all(vectors@).len() == vectors.len());
    assert forall|k: int| 0 <= k < inputs.len() implies (#[trigger] batch.embeddings@[k])@
        == encoded(vectors@[k]@) by {
        assert(byte_views(batch.embeddings@)[k] == batch.embeddings@[k]@);
        assert(encoded_all(vectors@)[k] == encoded(vectors@[k]@));
    }
    (inputs, vectors)
}

/// An embedding that is made of a text is the first vector that the embedder replies for it.
pub proof fn embeddings_are_what_the_embedder_replies<E: Embedder>(
    embedder: E,
    text: Seq<char>,
    embedding: Seq<u32>,
) -> (vectors: Vec<Vec<u32>>)
    requires
        may_embed(embedder, text, embedding),
    ensures
        replies(embedder, seq![text], Ok::<Vec<Vec<u32>>, Error>(vectors)),
        vectors.len() > 0,
        vectors@[0]@ == embedding,
{
    let (reply, v) = choose|reply: Result<Vec<Vec<u32>>, Error>, v: Vec<u32>|
        replies(embedder, seq![text], reply) && #[trigger] first_accepted(
            reply,
            Ok::<Vec<u32>, Error>(v),
        ) && v@ == embedding;
    reply->Ok_0
}

/// All rows are loaded, in order, each as it is stored: with its own number, session, speaker, text
/// and time, the tokens and entities of its text, and the embedding that is stored with it, or where
/// there is none, one that the embedder makes of its whole text and that is written to its row. Where
/// loading stops, this holds of the rows before.
pub proof fn every_row_is_loaded_as_it_is<E: Embedder, F: Fn(i64, &Vec<u8>) -> Result<(), Error>>(
    embedder: E,
    write: F,
    rows: Seq<StoredTurnView>,
    now: Seq<TurnView>,
    error: Option<Error>,
    i: int,
)
    requires
        reloaded(embedder, write, rows, now, error),
    ensures
        error is None ==> now.len() == rows.len(),
        error is Some ==> now.len() < rows.len() && rows[now.len() as int].embedding is None,
        0 <= i < now.len() ==> {
            &&& now[i].id == rows[i].id
            &&& now[i].session_id == rows[i].session_id
            &&& now[i].speaker == rows[i].speaker
            &&& now[i].text == rows[i].text
            &&& now[i].ts == rows[i].ts
            &&& now[i].tokens == tokens(rows[i].text)
            &&& now[i].entities == entities(rows[i].text)
            &&& match rows[i].embedding {
                Some(bytes) => now[i].embedding == decoded(bytes),
                None => may_embed(embedder, rows[i].text, now[i].embedding) && may_write(
                    write,
                    rows[i].id,
                    encoded(now[i].embedding),
                    None,
                ),
            }
        },
{
    let loaded = if error is None {
        rows
    } else {
        rows.take(now.len() as int)
    };
    assert(loads(embedder, loaded, now));
    if 0 <= i < now.len() {
        assert(now[i] == loaded_turn(loaded[i], now[i].embedding));
        if loaded[i].embedding is None {
            let k = missing_embedding_is_made(loaded, now, i);
            assert(generated_for(loaded, now)[k] == (loaded[i].id, encoded(now[i].embedding)));
        }
    }
}

/// Of every row without an embedding one is made.
proof fn missing_embedding_is_made(rows: Seq<StoredTurnView>, turns: Seq<TurnView>, i: int) -> (k:
    int)
    requires
        0 <= i < rows.len(),
        rows[i].embedding is None,
    ensures
        0 <= k < generated_for(rows, turns).len(),
        generated_for(rows, turns)[k] == (rows[i].id, encoded(turns[i].embedding)),
    decreases rows.len(),
{
    let front = rows.drop_last();
    let before = generated_for(front, turns);
    if i < front.len() {
        let k = missing_embedding_is_made(front, turns, i);
        assert(generated_for(rows, turns)[k] == before[k]);
        k
    } else {
        before.len() as int
    }
}

/// A query that holds something that is not white space, asks for at least one turn, and is put to a
/// memory with turns, is answered by searching; any other with nothing.
pub proof fn queries_with_something_are_searched(
    query: Seq<char>,
    top_k: nat,
    turns: Seq<TurnView>,
    i: int,
)
    ensures
        0 <= i < query.len() && !blank(seq![query[i]]) && top_k >= 1 && turns.len() >= 1
            ==> !trivial_query(query, top_k, turns),
        query.len() == 0 || top_k == 0 || turns.len() == 0 ==> trivial_query(query, top_k, turns),
        blank(query) ==> trivial_query(query, top_k, turns),
{
    if 0 <= i < query.len() {
        text_with_something_is_not_blank(query.take(i), query[i], query.skip(i + 1));
        assert(query.take(i) + seq![query[i]] + query.skip(i + 1) =~= query);
    }
}

/// The plan for a query follows what it holds: the route its words about time and its entities, the
/// counts its tokens, the contributions its entities.
pub proof fn plans_follow_their_queries(
    plan: QueryPlan,
    turns: Seq<TurnView>,
    indexed: Seq<TurnView>,
    query: Seq<char>,
)
    requires
        plan.of(turns, indexed, query),
    ensures
        plan.route is Temporal <==> has_temporal_marker(lowercase(query)),
        plan.route is Entity <==> !has_temporal_marker(lowercase(query)) && entities(query).len()
            >= 2,
        plan.route is Balanced <==> !has_temporal_marker(lowercase(query)) && entities(query).len()
            < 2,
        plan.lexical.of(turns, tokens(query)),
        contribution_views(plan.contributions@) == contributions(indexed, entities(query)),
{
}

/// Where an embedding is written, exactly its bytes are, and that it went well or failed is what came
/// of it.
pub proof fn embeddings_are_written_whole<F: Fn(i64, &Vec<u8>) -> Result<(), Error>>(
    write: F,
    id: i64,
    bytes: Seq<u8>,
    error: Option<Error>,
)
    requires
        may_write(write, id, bytes, error),
    ensures
        exists|v: Vec<u8>, outcome: Result<(), Error>| #[trigger]
            call_ensures(write, (id, &v), outcome) && v@ == bytes && (outcome is Ok
                <==> error is None) && (outcome is Err ==> error == Some(outcome->Err_0)),
{
}

/// Where no embedding is made of a text, the embedder replied with that error, or without a vector.
pub proof fn failures_are_those_of_the_embedder<E: Embedder>(
    embedder: E,
    text: Seq<char>,
    error: Error,
) -> (reply: Result<Vec<Vec<u32>>, Error>)
    requires
        may_fail(embedder, text, error),
    ensures
        replies(embedder, seq![text], reply),
        match reply {
            Err(reason) => error == reason,
            Ok(vectors) => vectors.len() == 0 && error is Embedding,
        },
{
    choose|reply: Result<Vec<Vec<u32>>, Error>| #[trigger]
        replies(embedder, seq![text], reply) && first_accepted(
            reply,
            Err::<Vec<u32>, Error>(error),
        )
}

} // verus!
