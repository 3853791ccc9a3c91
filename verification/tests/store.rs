use rusqlite::{Connection, OptionalExtension};
use zeromem::embedder::Embedder;
use zeromem::error::Error;
use zeromem::hash_embedder::HashEmbedder;
use zeromem::ingest::{batch_counts, check_turn, plan_batch};
use zeromem::retrieval::{QueryResult, Scores};
use zeromem::store::{MemoryStore, QueryPlan, QueryStep};
use zeromem::turns::{IngestTurn, StoredTurn};

fn normalize(vector: &mut [f32]) {
    let norm = vector.iter().map(|v| v * v).sum::<f32>().sqrt();
    if norm > 0.0 {
        for value in vector {
            *value /= norm;
        }
    }
}

fn cosine(left: &[u32], right: &[u32]) -> f32 {
    left.iter().zip(right).map(|(a, b)| f32::from_bits(*a) * f32::from_bits(*b)).sum()
}

fn scale(scores: &[f32]) -> Vec<f32> {
    let min = scores.iter().copied().fold(f32::INFINITY, f32::min);
    let max = scores.iter().copied().fold(f32::NEG_INFINITY, f32::max);
    if !min.is_finite() || max - min <= f32::EPSILON {
        let value = if max > 0.0 { 1.0 } else { 0.0 };
        return vec![value; scores.len()];
    }
    scores.iter().map(|s| (s - min) / (max - min)).collect()
}

/// Counts tokens into buckets and scales to unit length; refuses texts that ask for it.
struct Hashing {
    name: &'static str,
}

impl Embedder for Hashing {
    fn id(&self) -> &str {
        self.name
    }

    fn embed(&self, texts: &[&str]) -> Result<Vec<Vec<u32>>, Error> {
        if texts.iter().any(|text| text.contains("unembeddable")) {
            return Err(Error::Embedding("refused".to_string()));
        }
        let counts = HashEmbedder.embed(texts);
        Ok(counts
            .into_iter()
            .map(|list| {
                let mut vector: Vec<f32> = list.into_iter().map(|c| c as f32).collect();
                normalize(&mut vector);
                vector.into_iter().map(f32::to_bits).collect()
            })
            .collect())
    }
}

fn score(store: &MemoryStore<Hashing>, plan: &QueryPlan) -> Scores {
    let turns = store.turns();
    let n = turns.len();
    let dense: Vec<f32> = turns.iter().map(|t| cosine(&plan.embedding, &t.embedding)).collect();
    let counts = &plan.lexical;
    let average = counts.total_tokens as f32 / n as f32;
    let lexical: Vec<f32> = (0..n)
        .map(|i| {
            (0..counts.documents.len())
                .map(|q| {
                    let frequency = counts.frequencies[i][q] as f32;
                    let documents = counts.documents[q] as f32;
                    let inverse = ((n as f32 - documents + 0.5) / (documents + 0.5) + 1.0).ln();
                    let length = counts.lengths[i] as f32;
                    let denominator = frequency + 1.2 * (0.25 + 0.75 * length / average.max(1.0));
                    inverse * frequency * 2.2 / denominator.max(f32::EPSILON)
                })
                .sum()
        })
        .collect();
    let mut graph = vec![0.0f32; n];
    for share in &plan.contributions {
        let value = if share.weight == 0 { 1.0 } else { 0.35 * (share.weight as f32).ln_1p() };
        for i in &share.turns {
            graph[*i] += value;
        }
    }
    let windows: Vec<u32> = store
        .windows()
        .iter()
        .map(|window| {
            let mut centroid = vec![0.0f32; turns[window.turns[0]].embedding.len()];
            for i in &window.turns {
                for (target, value) in centroid.iter_mut().zip(&turns[*i].embedding) {
                    *target += f32::from_bits(*value);
                }
            }
            normalize(&mut centroid);
            let bits: Vec<u32> = centroid.into_iter().map(f32::to_bits).collect();
            cosine(&plan.embedding, &bits).to_bits()
        })
        .collect();
    let hierarchy: Vec<f32> =
        store.hierarchy_scores(&windows).into_iter().map(f32::from_bits).collect();
    let w = plan.route.weights();
    let channels = [
        (scale(&dense), w.dense),
        (scale(&lexical), w.lexical),
        (scale(&graph), w.graph),
        (scale(&hierarchy), w.temporal),
    ];
    let combined: Vec<f32> = (0..n)
        .map(|i| channels.iter().map(|(c, w)| c[i] * (*w as f32 / 100.0)).sum())
        .collect();
    let bits = |list: &Vec<f32>| list.iter().map(|v| v.to_bits()).collect();
    Scores {
        dense: bits(&dense),
        lexical: bits(&lexical),
        graph: bits(&graph),
        combined: bits(&combined),
    }
}

fn database() -> Connection {
    let connection = Connection::open_in_memory().unwrap();
    connection
        .execute_batch(
            "CREATE TABLE turns (id INTEGER PRIMARY KEY, identity TEXT NOT NULL UNIQUE,
                session_id TEXT NOT NULL, speaker TEXT NOT NULL, text TEXT NOT NULL,
                ts INTEGER NOT NULL, embedding BLOB);
             CREATE TABLE meta (key TEXT PRIMARY KEY, value TEXT NOT NULL);",
        )
        .unwrap();
    connection
}

fn rows(connection: &Connection) -> Vec<StoredTurn> {
    let mut statement = connection
        .prepare("SELECT id, session_id, speaker, text, ts, embedding FROM turns ORDER BY id")
        .unwrap();
    let mapped = statement
        .query_map([], |row| {
            Ok(StoredTurn {
                id: row.get(0)?,
                session_id: row.get(1)?,
                speaker: row.get(2)?,
                text: row.get(3)?,
                ts: row.get(4)?,
                embedding: row.get(5)?,
            })
        })
        .unwrap();
    mapped.map(|row| row.unwrap()).collect()
}

fn write(connection: &Connection, id: i64, bytes: &Vec<u8>) -> Result<(), Error> {
    connection
        .execute("UPDATE turns SET embedding = ?2 WHERE id = ?1", (id, bytes))
        .map(|_| ())
        .map_err(|error| Error::Database(error.to_string()))
}

struct Sidecar<'a> {
    connection: &'a Connection,
    store: MemoryStore<Hashing>,
}

impl<'a> Sidecar<'a> {
    fn start(connection: &'a Connection, name: &'static str) -> Result<Self, Error> {
        let previous: Option<String> = connection
            .query_row("SELECT value FROM meta WHERE key = 'embedder'", [], |row| row.get(0))
            .optional()
            .unwrap();
        let opening = MemoryStore::open(Hashing { name }, previous.as_deref());
        if let Some(id) = opening.reset {
            connection.execute("UPDATE turns SET embedding = NULL", []).unwrap();
            connection
                .execute(
                    "INSERT INTO meta(key, value) VALUES ('embedder', ?1)
                     ON CONFLICT(key) DO UPDATE SET value = excluded.value",
                    [id],
                )
                .unwrap();
        }
        let mut sidecar = Sidecar { connection, store: opening.store };
        sidecar.reload()?;
        Ok(sidecar)
    }

    fn reload(&mut self) -> Result<(), Error> {
        let connection = self.connection;
        self.store.reload(rows(connection), |id, bytes| write(connection, id, bytes))
    }

    fn find(&self, identity: &str) -> Option<i64> {
        self.connection
            .query_row("SELECT id FROM turns WHERE identity = ?1", [identity], |row| row.get(0))
            .optional()
            .unwrap()
    }

    fn ingest_batch(&mut self, turns: &[IngestTurn]) -> Result<Vec<(bool, i64)>, Error> {
        let existing: Vec<Option<i64>> = turns.iter().map(|t| self.find(&t.identity)).collect();
        let batch = self.store.ingest_batch(turns, &existing)?;
        let mut ids = Vec::new();
        for (at, bytes) in batch.plan.candidates().iter().zip(&batch.embeddings) {
            let t = &turns[*at];
            self.connection
                .execute(
                    "INSERT INTO turns(identity, session_id, speaker, text, ts, embedding)
                     VALUES (?1, ?2, ?3, ?4, ?5, ?6)",
                    (&t.identity, &t.session_id, &t.speaker, &t.text, t.ts, bytes),
                )
                .unwrap();
            ids.push(self.connection.last_insert_rowid());
        }
        let report = batch.plan.report(&ids);
        self.reload()?;
        Ok(report)
    }

    fn ingest(&mut self, turn: IngestTurn) -> (bool, i64) {
        match self.ingest_batch(&[turn]) {
            Ok(report) => report[0],
            Err(error) => panic!("{}", error.message()),
        }
    }

    fn query(&self, query: &str, top_k: usize, excluded: Option<&str>) -> QueryResult {
        match self.store.query(query, top_k) {
            Ok(QueryStep::Answered(result)) => result,
            Ok(QueryStep::Scoring(plan)) => {
                self.store.answer(plan.route, &score(&self.store, &plan), top_k, excluded)
            }
            Err(error) => panic!("{}", error.message()),
        }
    }

    fn delete_session(&mut self, session: &str) -> usize {
        let deleted = self
            .connection
            .execute("DELETE FROM turns WHERE session_id = ?1", [session])
            .unwrap();
        let connection = self.connection;
        let outcome = self.store.delete_session(deleted, rows(connection), |id, bytes| {
            write(connection, id, bytes)
        });
        match outcome {
            Ok(count) => count,
            Err(error) => panic!("{}", error.message()),
        }
    }
}

fn open<'a>(connection: &'a Connection) -> Sidecar<'a> {
    match Sidecar::start(connection, "test-hash-v1") {
        Ok(sidecar) => sidecar,
        Err(error) => panic!("{}", error.message()),
    }
}

fn turn(identity: &str, session: &str, speaker: &str, text: &str, ts: i64) -> IngestTurn {
    IngestTurn {
        identity: identity.to_string(),
        session_id: session.to_string(),
        speaker: speaker.to_string(),
        text: text.to_string(),
        ts,
    }
}

fn said(identity: &str, session: &str, text: &str) -> IngestTurn {
    turn(identity, session, "user", text, 0)
}

fn failure<T>(result: Result<T, Error>) -> String {
    match result {
        Ok(_) => panic!("no error"),
        Err(error) => error.message(),
    }
}

#[test]
fn protocol_persists_deduplicates_excludes_and_deletes() {
    let directory = database();
    let mut sidecar = open(&directory);

    let text = "O banco principal do projeto Atlas usa PostgreSQL.";
    let first = sidecar.ingest(turn("turn-a", "old-session", "user", text, 100));
    assert_eq!(first.0, true);
    let duplicate = sidecar.ingest(turn("turn-a", "old-session", "user", text, 100));
    assert_eq!(duplicate.0, false);
    assert_eq!(duplicate.1, first.1);
    sidecar.ingest(turn(
        "turn-b",
        "current-session",
        "assistant",
        "PostgreSQL também apareceu na conversa atual.",
        200,
    ));

    let query =
        sidecar.query("Qual banco o Atlas usa? PostgreSQL?", 5, Some("current-session"));
    assert_eq!(query.evidence.len(), 1);
    assert_eq!(query.evidence[0].session_id, "old-session");

    let mut restarted = open(&directory);
    let stats = restarted.store.stats();
    assert_eq!(stats.turns, 2);
    assert_eq!(stats.sessions, 2);
    let deletion = restarted.delete_session("old-session");
    assert_eq!(deletion, 1);
    let stats = restarted.store.stats();
    assert_eq!(stats.turns, 1);
}

#[test]
fn blank_queries_and_empty_memories_are_answered_with_nothing() {
    let connection = database();
    let mut sidecar = open(&connection);
    let empty = sidecar.query("anything", 5, None);
    assert_eq!(empty.route, "balanced");
    assert!(empty.evidence.is_empty());
    sidecar.ingest(said("a", "s", "anything goes"));
    for (query, top_k) in [("", 5), (" \n\t", 5), ("anything", 0), ("ontem quando", 0)] {
        let result = sidecar.query(query, top_k, None);
        assert_eq!(result.route, "balanced");
        assert!(result.evidence.is_empty());
    }
    assert_eq!(sidecar.query("anything", 5, None).evidence.len(), 1);
}

#[test]
fn queries_take_their_routes() {
    let connection = database();
    let mut sidecar = open(&connection);
    sidecar.ingest(said("a", "s", "the project codename is Blue Jabuticaba"));
    assert_eq!(sidecar.query("quando foi Blue Jabuticaba?", 5, None).route, "temporal");
    assert_eq!(sidecar.query("Blue Jabuticaba", 5, None).route, "entity");
    assert_eq!(sidecar.query("Jabuticaba", 5, None).route, "balanced");
}

#[test]
fn unrelated_turns_are_not_shown() {
    let connection = database();
    let mut sidecar = open(&connection);
    sidecar.ingest(said("a", "s", "Atlas runs CockroachDB"));
    sidecar.ingest(said("b", "s", "lunch was fine"));
    let result = sidecar.query("Which database is CockroachDB?", 5, None);
    assert_eq!(result.evidence.len(), 1);
    assert_eq!(result.evidence[0].text, "Atlas runs CockroachDB");
}

#[test]
fn turns_are_related_through_entities_that_occur_together() {
    let connection = database();
    let mut sidecar = open(&connection);
    sidecar.ingest(said("a", "s1", "atlas jabuticaba"));
    sidecar.ingest(said("b", "s2", "jabuticaba harvest"));
    sidecar.ingest(said("c", "s3", "unrelated words"));
    let shown: Vec<String> =
        sidecar.query("atlas", 5, None).evidence.into_iter().map(|e| e.text).collect();
    assert_eq!(shown, vec!["atlas jabuticaba", "jabuticaba harvest"]);
}

#[test]
fn batches_store_each_identity_once() {
    let connection = database();
    let mut sidecar = open(&connection);
    let (_, old) = sidecar.ingest(said("old", "s", "known already"));
    let batch = vec![
        said("x", "s", "first x"),
        said("old", "s", "known again"),
        said("y", "t", "only y"),
        said("x", "s", "second x"),
    ];
    let report = match sidecar.ingest_batch(&batch) {
        Ok(report) => report,
        Err(error) => panic!("{}", error.message()),
    };
    assert_eq!(report, vec![(true, 2), (false, old), (true, 3), (false, 2)]);
    assert_eq!(batch_counts(&report), (2, 2));
    let texts: Vec<&str> = sidecar.store.turns().iter().map(|t| t.text.as_str()).collect();
    assert_eq!(texts, vec!["known already", "first x", "only y"]);
    let again = match sidecar.ingest_batch(&batch) {
        Ok(report) => report,
        Err(error) => panic!("{}", error.message()),
    };
    assert_eq!(again, vec![(false, 2), (false, old), (false, 3), (false, 2)]);
    assert_eq!(batch_counts(&again), (0, 4));
    assert_eq!(sidecar.store.stats().turns, 3);
}

#[test]
fn batches_do_what_their_turns_do_one_by_one() {
    let turns = || vec![said("x", "s", "one"), said("y", "s", "two"), said("x", "s", "three")];
    let together = database();
    let report = match open(&together).ingest_batch(&turns()) {
        Ok(report) => report,
        Err(error) => panic!("{}", error.message()),
    };
    let apart = database();
    let mut sidecar = open(&apart);
    let single: Vec<(bool, i64)> = turns().into_iter().map(|t| sidecar.ingest(t)).collect();
    assert_eq!(report, single);
    let texts = |c: &Connection| -> Vec<String> { rows(c).into_iter().map(|r| r.text).collect() };
    assert_eq!(texts(&together), texts(&apart));
}

#[test]
fn empty_batches_store_nothing() {
    let connection = database();
    let mut sidecar = open(&connection);
    assert!(matches!(sidecar.ingest_batch(&[]), Ok(report) if report.is_empty()));
}

#[test]
fn blank_turns_are_refused_with_their_batch() {
    let connection = database();
    let mut sidecar = open(&connection);
    let batch = vec![said("a", "s", "fine"), said("b", "s", " \n ")];
    assert_eq!(failure(sidecar.ingest_batch(&batch)), "turn text cannot be empty");
    assert_eq!(rows(&connection).len(), 0);
    assert!(check_turn(&said("a", "s", "fine")).is_ok());
    assert!(matches!(check_turn(&said("a", "s", "")), Err(Error::EmptyTurn)));
    assert!(matches!(plan_batch(&batch, &[Some(1), Some(2)]), Err(Error::EmptyTurn)));
    // Also where it is stored already.
    assert!(matches!(
        sidecar.store.ingest(&said("a", "s", "\t"), Some(3)),
        Err(Error::EmptyTurn)
    ));
}

#[test]
fn known_turns_need_no_embedding() {
    let connection = database();
    let sidecar = open(&connection);
    let known = said("a", "s", "unembeddable");
    let batch = match sidecar.store.ingest(&known, Some(9)) {
        Ok(batch) => batch,
        Err(error) => panic!("{}", error.message()),
    };
    assert!(batch.embeddings.is_empty());
    assert_eq!(batch.plan.report(&vec![]), vec![(false, 9)]);
    assert_eq!(
        failure(sidecar.store.ingest(&known, None)),
        "embedding failed: refused"
    );
}

#[test]
fn failing_batches_store_nothing() {
    let connection = database();
    let mut sidecar = open(&connection);
    let batch = vec![said("a", "s", "fine"), said("b", "s", "unembeddable")];
    assert_eq!(failure(sidecar.ingest_batch(&batch)), "embedding failed: refused");
    assert_eq!(rows(&connection).len(), 0);
    assert!(matches!(sidecar.store.query("x", 1), Ok(QueryStep::Answered(_))));
    sidecar.ingest(said("a", "s", "fine"));
    assert_eq!(
        failure(sidecar.store.query("unembeddable", 1)),
        "embedding failed: refused"
    );
}

#[test]
fn another_embedder_embeds_everything_anew() {
    let connection = database();
    let mut sidecar = open(&connection);
    sidecar.ingest(said("a", "s", "some text"));
    let before = rows(&connection)[0].embedding.clone();
    connection.execute("UPDATE turns SET embedding = X'00000000'", []).unwrap();
    // The same embedder takes what is stored.
    assert_eq!(open(&connection).store.turns()[0].embedding, vec![0]);
    assert_eq!(rows(&connection)[0].embedding, Some(vec![0, 0, 0, 0]));
    // Another one does not.
    let other = match Sidecar::start(&connection, "other") {
        Ok(sidecar) => sidecar,
        Err(error) => panic!("{}", error.message()),
    };
    assert_eq!(other.store.stats().embedder, "other");
    assert_eq!(rows(&connection)[0].embedding, before);
}

#[test]
fn restarts_restore_the_memory() {
    let connection = database();
    let mut sidecar = open(&connection);
    sidecar.ingest(said("a", "s", "Atlas uses SQLite"));
    sidecar.ingest(said("b", "t", "something else"));
    let restarted = open(&connection);
    assert_eq!(restarted.store.turns().len(), 2);
    for (old, new) in sidecar.store.turns().iter().zip(restarted.store.turns()) {
        assert_eq!(old.id, new.id);
        assert_eq!(old.text, new.text);
        assert_eq!(old.embedding, new.embedding);
        assert_eq!(old.tokens, new.tokens);
        assert_eq!(old.entities, new.entities);
    }
}

#[test]
fn loading_stops_where_the_embedder_fails() {
    let connection = database();
    for (identity, text) in [("a", "one word"), ("b", "unembeddable"), ("c", "more words")] {
        connection
            .execute(
                "INSERT INTO turns(identity, session_id, speaker, text, ts)
                 VALUES (?1, 's', 'user', ?2, 0)",
                (identity, text),
            )
            .unwrap();
    }
    let opening = MemoryStore::open(Hashing { name: "test-hash-v1" }, None);
    assert_eq!(opening.reset, Some("test-hash-v1".to_string()));
    let mut store = opening.store;
    let outcome = store.reload(rows(&connection), |id, bytes| write(&connection, id, bytes));
    assert_eq!(failure(outcome), "embedding failed: refused");
    let lengths: Vec<Option<usize>> =
        rows(&connection).into_iter().map(|r| r.embedding.map(|b| b.len())).collect();
    assert_eq!(lengths, vec![Some(1024), None, None]);
    assert_eq!(store.turns().len(), 1);
    // The windows and the graph are still those of before.
    let stats = store.stats();
    assert_eq!((stats.turns, stats.sessions), (1, 1));
    assert_eq!((stats.windows, stats.entities), (0, 0));
    assert!(store.windows_fit());
    assert_eq!(store.hierarchy_scores(&vec![]), vec![0]);
}

#[test]
fn loading_stops_where_an_embedding_is_not_written() {
    let row = |id: i64, text: &str| StoredTurn {
        id,
        session_id: "s".to_string(),
        speaker: "user".to_string(),
        text: text.to_string(),
        ts: 0,
        embedding: None,
    };
    let mut store = MemoryStore::open(Hashing { name: "h" }, Some("h")).store;
    let outcome = store.reload(vec![row(1, "one"), row(2, "two"), row(3, "three")], |id, _| {
        if id == 2 {
            Err(Error::Database("disk full".to_string()))
        } else {
            Ok(())
        }
    });
    assert_eq!(failure(outcome), "disk full");
    let loaded: Vec<i64> = store.turns().iter().map(|t| t.id).collect();
    assert_eq!(loaded, vec![1]);
    assert!(store.windows().is_empty());
    let outcome = store.delete_session(5, vec![row(4, "four")], |_, _| {
        Err(Error::Database("locked".to_string()))
    });
    assert_eq!(failure(outcome), "locked");
    assert!(store.turns().is_empty());
    let outcome = store.delete_session(5, vec![row(4, "four")], |_, _| Ok(()));
    assert!(matches!(outcome, Ok(5)));
    assert_eq!(store.windows().len(), 1);
}

#[test]
fn windows_of_before_may_not_fit_what_was_loaded() {
    let row = |id: i64, text: &str, bytes: Option<Vec<u8>>| StoredTurn {
        id,
        session_id: "s".to_string(),
        speaker: "user".to_string(),
        text: text.to_string(),
        ts: 0,
        embedding: bytes,
    };
    let stored = || Some(vec![0, 0, 128, 63]);
    let mut store = MemoryStore::open(Hashing { name: "h" }, Some("h")).store;
    let first = vec![row(1, "alpha beta", stored()), row(2, "gamma", stored())];
    let unwritten = |_: i64, _: &Vec<u8>| panic!("nothing to write");
    assert!(store.reload(first, unwritten).is_ok());
    assert!(store.windows_fit());
    let second = vec![row(1, "alpha beta", stored()), row(3, "unembeddable", None)];
    assert_eq!(failure(store.reload(second, unwritten)), "embedding failed: refused");
    assert_eq!(store.turns().len(), 1);
    assert_eq!(store.windows()[0].turns, vec![0, 1]);
    assert_eq!(store.stats().entities, 3);
    assert!(!store.windows_fit());
    // The graph is the old one too.
    let plan = store.plan_query("gamma", vec![]);
    assert_eq!(plan.contributions.len(), 1);
    assert_eq!(plan.contributions[0].turns, vec![1]);
    assert_eq!(plan.lexical.documents, vec![0]);
    let third = vec![row(1, "alpha beta", stored())];
    assert!(store.reload(third, unwritten).is_ok());
    assert_eq!(store.stats().entities, 2);
    assert!(store.windows_fit());
}

#[test]
fn leaving_out_a_session_only_leaves_out_its_turns() {
    let connection = database();
    let mut sidecar = open(&connection);
    for n in 0..6 {
        let session = if n % 2 == 0 { "even" } else { "odd" };
        let text = format!("Atlas {}", "SQLite ".repeat(n));
        sidecar.ingest(said(&format!("t{n}"), session, &text));
    }
    let all: Vec<i64> = sidecar
        .query("Atlas SQLite", 6, None)
        .evidence
        .into_iter()
        .filter(|e| e.session_id != "odd")
        .map(|e| e.turn_id)
        .collect();
    assert_eq!(all.len(), 3);
    for k in 0..=3 {
        let shown: Vec<i64> = sidecar
            .query("Atlas SQLite", k, Some("odd"))
            .evidence
            .into_iter()
            .map(|e| e.turn_id)
            .collect();
        assert_eq!(shown, all[..k].to_vec());
    }
}

#[test]
fn two_batches_do_what_one_does() {
    let turns = || {
        vec![
            said("x", "s", "one"),
            said("y", "s", "two"),
            said("x", "s", "three"),
            said("z", "s", "four"),
            said("y", "s", "five"),
        ]
    };
    let report = |result: Result<Vec<(bool, i64)>, Error>| match result {
        Ok(report) => report,
        Err(error) => panic!("{}", error.message()),
    };
    let together = database();
    let whole = report(open(&together).ingest_batch(&turns()));
    for split in 0..=5 {
        let apart = database();
        let mut sidecar = open(&apart);
        let list = turns();
        let mut parts = report(sidecar.ingest_batch(&list[..split]));
        parts.extend(report(sidecar.ingest_batch(&list[split..])));
        assert_eq!(parts, whole);
        assert_eq!(rows(&apart).len(), 3);
    }
}

#[test]
fn deleted_sessions_are_never_shown_again() {
    let connection = database();
    let mut sidecar = open(&connection);
    for n in 0..3 {
        sidecar.ingest(said(&format!("a{n}"), "gone", "Atlas uses SQLite"));
        sidecar.ingest(said(&format!("b{n}"), "kept", "Atlas uses SQLite"));
    }
    assert_eq!(sidecar.query("Atlas SQLite", 10, None).evidence.len(), 6);
    assert_eq!(sidecar.delete_session("gone"), 3);
    assert_eq!(sidecar.delete_session("gone"), 0);
    let left = sidecar.query("Atlas SQLite", 10, None).evidence;
    assert_eq!(left.len(), 3);
    assert!(left.iter().all(|e| e.session_id == "kept"));
    let stats = sidecar.store.stats();
    assert_eq!((stats.turns, stats.sessions, stats.windows), (3, 1, 1));
}

#[test]
fn stats_count_everything() {
    let connection = database();
    let mut sidecar = open(&connection);
    for n in 0..5 {
        sidecar.ingest(said(&format!("a{n}"), "one", "Atlas uses SQLite"));
    }
    sidecar.ingest(said("b", "two", "SQLite again"));
    let stats = sidecar.store.stats();
    assert_eq!(stats.turns, 6);
    assert_eq!(stats.sessions, 2);
    assert_eq!(stats.entities, 4);
    assert_eq!(stats.windows, 3);
    assert_eq!(stats.embedder, "test-hash-v1");
}

#[test]
fn newer_turns_win_only_among_equals() {
    let connection = database();
    let mut sidecar = open(&connection);
    sidecar.ingest(turn("a", "s1", "user", "Atlas uses SQLite", 10));
    sidecar.ingest(turn("b", "s2", "user", "Atlas uses SQLite", 20));
    let shown: Vec<i64> =
        sidecar.query("Atlas SQLite", 5, None).evidence.into_iter().map(|e| e.ts).collect();
    assert_eq!(shown, vec![20, 10]);
}
