//! Retrieval: which turns answer a query, and in which order.

use crate::seqs::{at_most, distinct_numbers_below};
use crate::text::same_text;
use crate::turns::{turn_views, Turn, TurnView};
use crate::vectors::{
    positive, rank_key, rank_of, similar, INFINITY_BITS, MIN_SIMILARITY_BITS,
};
use vstd::prelude::*;

verus! {

/// The number of results when a query asks for none in particular.
pub fn default_top_k() -> (k: usize)
    ensures
        k == 5,
{
    5
}

/// The profile of a query, which says how much each channel counts.
#[derive(Clone, Copy)]
pub enum Route {
    /// A query about time.
    Temporal,
    /// A query that names at least two entities.
    Entity,
    /// Any other query.
    Balanced,
}

/// The profile of a query.
pub open spec fn route_of(temporal: bool, entities: nat) -> Route {
    if temporal {
        Route::Temporal
    } else if entities >= 2 {
        Route::Entity
    } else {
        Route::Balanced
    }
}

/// The profile of a query that asks about time or not and names this many entities.
pub fn choose_route(temporal: bool, entities: usize) -> (r: Route)
    ensures
        r == route_of(temporal, entities as nat),
{
    if temporal {
        Route::Temporal
    } else if entities >= 2 {
        Route::Entity
    } else {
        Route::Balanced
    }
}

/// How much each channel counts, in hundredths.
pub struct Weights {
    pub dense: u32,
    pub lexical: u32,
    pub graph: u32,
    pub temporal: u32,
}

impl Route {
    /// The name of a profile.
    pub open spec fn text(self) -> Seq<char> {
        match self {
            Route::Temporal => "temporal"@,
            Route::Entity => "entity"@,
            Route::Balanced => "balanced"@,
        }
    }

    /// The weights of a profile.
    pub open spec fn weighting(self) -> Weights {
        match self {
            Route::Temporal => Weights { dense: 25, lexical: 20, graph: 15, temporal: 40 },
            Route::Entity => Weights { dense: 30, lexical: 20, graph: 35, temporal: 15 },
            Route::Balanced => Weights { dense: 40, lexical: 30, graph: 20, temporal: 10 },
        }
    }

    /// The name of this profile.
    pub fn name(&self) -> (r: &'static str)
        ensures
            r@ == self.text(),
    {
        match self {
            Route::Temporal => "temporal",
            Route::Entity => "entity",
            Route::Balanced => "balanced",
        }
    }

    /// How much each channel counts in this profile.
    pub fn weights(&self) -> (r: Weights)
        ensures
            r == self.weighting(),
    {
        match self {
            Route::Temporal => Weights { dense: 25, lexical: 20, graph: 15, temporal: 40 },
            Route::Entity => Weights { dense: 30, lexical: 20, graph: 35, temporal: 15 },
            Route::Balanced => Weights { dense: 40, lexical: 30, graph: 20, temporal: 10 },
        }
    }
}

/// In every profile the weights of the channels add up to one.
pub proof fn weights_add_up_to_one(route: Route)
    ensures
        ({
            let w = route.weighting();
            w.dense + w.lexical + w.graph + w.temporal == 100
        }),
{
}

/// The scores of each turn, given by the bits of numbers in single precision.
pub struct Scores {
    /// The similarity of the turn to the query.
    pub dense: Vec<u32>,
    /// The lexical score.
    pub lexical: Vec<u32>,
    /// The score in the graph of entities.
    pub graph: Vec<u32>,
    /// What the channels give together.
    pub combined: Vec<u32>,
}

impl Scores {
    /// Whether there is a score of each kind for each of `count` turns.
    pub open spec fn cover(self, count: nat) -> bool {
        &&& self.dense.len() == count
        &&& self.lexical.len() == count
        &&& self.graph.len() == count
        &&& self.combined.len() == count
    }
}

/// Whether a turn counts as having to do with the query: its similarity is high enough, or its
/// lexical score or its score in the graph is positive.
pub open spec fn relevant(scores: Scores, i: int) -> bool {
    similar(scores.dense@[i]) || positive(scores.lexical@[i]) || positive(scores.graph@[i])
}

/// Whether a turn may answer the query: it is relevant and not of the session that is left out.
pub open spec fn eligible(
    turns: Seq<TurnView>,
    scores: Scores,
    excluded: Option<Seq<char>>,
    i: int,
) -> bool {
    relevant(scores, i) && excluded != Some(turns[i].session_id)
}

/// Whether turn `a` comes before turn `b` in an answer: the higher score first, among equal
/// scores the newer turn, then the one that was stored first.
pub open spec fn precedes(turns: Seq<TurnView>, combined: Seq<u32>, a: int, b: int) -> bool {
    let x = rank_of(combined[a]);
    let y = rank_of(combined[b]);
    x > y || (x == y && (turns[a].ts > turns[b].ts || (turns[a].ts == turns[b].ts && (turns[a].id
        < turns[b].id || (turns[a].id == turns[b].id && a < b)))))
}

/// Whether `list` is the answer among the first `count` turns: the first `top_k` of the eligible
/// ones, in order, or all where there are no more.
pub open spec fn best(
    turns: Seq<TurnView>,
    scores: Scores,
    excluded: Option<Seq<char>>,
    top_k: nat,
    count: nat,
    list: Seq<usize>,
) -> bool {
    &&& list.len() <= top_k
    &&& forall|p: int|
        0 <= p < list.len() ==> #[trigger] list[p] < count && eligible(
            turns,
            scores,
            excluded,
            list[p] as int,
        )
    &&& forall|p: int, q: int|
        0 <= p < q < list.len() ==> precedes(
            turns,
            scores.combined@,
            #[trigger] list[p] as int,
            #[trigger] list[q] as int,
        )
    &&& forall|j: usize|
        j < count && eligible(turns, scores, excluded, j as int) && !(#[trigger] list.contains(j))
            ==> list.len() == top_k && forall|p: int|
            0 <= p < list.len() ==> precedes(
                turns,
                scores.combined@,
                #[trigger] list[p] as int,
                j as int,
            )
}

/// Whether the turn at `a` comes before the turn at `b`.
fn comes_before(turns: &Vec<Turn>, combined: &Vec<u32>, a: usize, b: usize) -> (r: bool)
    requires
        a < turns.len(),
        b < turns.len(),
        combined.len() == turns.len(),
    ensures
        r == precedes(turn_views(turns@), combined@, a as int, b as int),
{
    let x = rank_key(combined[a]);
    let y = rank_key(combined[b]);
    if x != y {
        return x > y;
    }
    let s = &turns[a];
    let t = &turns[b];
    assert(turn_views(turns@)[a as int] == s@ && turn_views(turns@)[b as int] == t@);
    if s.ts != t.ts {
        return s.ts > t.ts;
    }
    if s.id != t.id {
        return s.id < t.id;
    }
    a < b
}

/// Whether the turn at `i` may answer the query.
fn is_eligible(turns: &Vec<Turn>, scores: &Scores, excluded: Option<&str>, i: usize) -> (r: bool)
    requires
        i < turns.len(),
        scores.cover(turns@.len()),
    ensures
        r == eligible(turn_views(turns@), *scores, excluded_view(excluded), i as int),
{
    let dense = scores.dense[i];
    let lexical = scores.lexical[i];
    let graph = scores.graph[i];
    let fits = (MIN_SIMILARITY_BITS <= dense && dense <= INFINITY_BITS) || (1 <= lexical && lexical
        <= INFINITY_BITS) || (1 <= graph && graph <= INFINITY_BITS);
    assert(turn_views(turns@)[i as int] == turns@[i as int]@);
    match excluded {
        Some(session) => fits && !same_text(session, turns[i].session_id.as_str()),
        None => fits,
    }
}

/// The text of an optional string.
pub open spec fn excluded_view(excluded: Option<&str>) -> Option<Seq<char>> {
    match excluded {
        Some(session) => Some(session@),
        None => None,
    }
}

/// The positions of the turns that answer a query, in order.
pub fn rank_turns(
    turns: &Vec<Turn>,
    scores: &Scores,
    excluded: Option<&str>,
    top_k: usize,
) -> (r: Vec<usize>)
    requires
        scores.cover(turns@.len()),
    ensures
        best(
            turn_views(turns@),
            *scores,
            excluded_view(excluded),
            top_k as nat,
            turns@.len(),
            r@,
        ),
{
    let ghost all = turn_views(turns@);
    let ghost out = excluded_view(excluded);
    let ghost combined = scores.combined@;
    let mut list: Vec<usize> = Vec::new();
    let mut i: usize = 0;
    while i < turns.len()
        invariant
            i <= turns.len(),
            all == turn_views(turns@),
            out == excluded_view(excluded),
            combined == scores.combined@,
            scores.cover(turns@.len()),
            best(all, *scores, out, top_k as nat, i as nat, list@),
        decreases turns.len() - i,
    {
        let ghost before = list@;
        if is_eligible(turns, scores, excluded, i) {
            let mut at: usize = 0;
            while at < list.len() && comes_before(turns, &scores.combined, list[at], i)
                invariant
                    at <= list.len(),
                    i < turns.len(),
                    all == turn_views(turns@),
                    combined == scores.combined@,
                    scores.cover(turns@.len()),
                    list@ == before,
                    best(all, *scores, out, top_k as nat, i as nat, list@),
                    forall|p: int|
                        0 <= p < at ==> precedes(all, combined, #[trigger] before[p] as int, i as int),
                ensures
                    at < list.len() ==> !precedes(all, combined, before[at as int] as int, i as int),
                decreases list.len() - at,
            {
                at = at + 1;
            }
            if at < top_k {
                list.insert(at, i);
                let ghost whole = list@;
                if list.len() > top_k {
                    list.truncate(top_k);
                }
                proof {
                    insertion_keeps_best(all, *scores, out, top_k as nat, i, before, at as int);
                    if whole.len() > top_k {
                        assert(list@ =~= whole.take(top_k as int));
                    }
                }
            } else {
                proof {
                    assert forall|j: usize|
                        j < i + 1 && eligible(all, *scores, out, j as int)
                            && !(#[trigger] list@.contains(j)) implies list.len() == top_k
                        && forall|p: int|
                        0 <= p < list.len() ==> precedes(
                            all,
                            combined,
                            #[trigger] list@[p] as int,
                            j as int,
                        ) by {
                        if j < i {
                            assert(!before.contains(j));
                        }
                    }
                }
            }
        } else {
            proof {
                assert forall|j: usize|
                    j < i + 1 && eligible(all, *scores, out, j as int) && !(
                    #[trigger] list@.contains(j)) implies list.len() == top_k && forall|p: int|
                    0 <= p < list.len() ==> precedes(
                        all,
                        combined,
                        #[trigger] list@[p] as int,
                        j as int,
                    ) by {
                    assert(j < i);
                    assert(!before.contains(j));
                }
            }
        }
        i = i + 1;
    }
    list
}

/// Putting the next eligible turn at its place and dropping what is too much keeps the best.
proof fn insertion_keeps_best(
    turns: Seq<TurnView>,
    scores: Scores,
    excluded: Option<Seq<char>>,
    top_k: nat,
    i: usize,
    before: Seq<usize>,
    at: int,
)
    requires
        best(turns, scores, excluded, top_k, i as nat, before),
        eligible(turns, scores, excluded, i as int),
        0 <= at <= before.len(),
        at < top_k,
        forall|p: int|
            0 <= p < at ==> precedes(
                turns,
                scores.combined@,
                #[trigger] before[p] as int,
                i as int,
            ),
        at < before.len() ==> !precedes(turns, scores.combined@, before[at] as int, i as int),
    ensures
        ({
            let whole = before.insert(at, i);
            best(
                turns,
                scores,
                excluded,
                top_k,
                (i + 1) as nat,
                if whole.len() > top_k {
                    whole.take(top_k as int)
                } else {
                    whole
                },
            )
        }),
{
    let combined = scores.combined@;
    let whole = before.insert(at, i);
    let list = if whole.len() > top_k {
        whole.take(top_k as int)
    } else {
        whole
    };
    assert forall|p: int, q: int| 0 <= p < q < whole.len() implies precedes(
        turns,
        combined,
        #[trigger] whole[p] as int,
        #[trigger] whole[q] as int,
    ) by {
        let a = if p < at {
            p
        } else {
            p - 1
        };
        let b = if q < at {
            q
        } else {
            q - 1
        };
        if p == at {
            assert(whole[q] == before[q - 1]);
            assert(precedes(turns, combined, i as int, before[at] as int));
            if q - 1 > at {
                assert(precedes(turns, combined, before[at] as int, before[q - 1] as int));
            }
        } else if q == at {
            assert(whole[p] == before[p]);
        } else {
            assert(whole[p] == before[a] && whole[q] == before[b]);
            assert(precedes(turns, combined, before[a] as int, before[b] as int));
        }
    }
    assert forall|p: int| 0 <= p < list.len() implies #[trigger] list[p] < i + 1 && eligible(
        turns,
        scores,
        excluded,
        list[p] as int,
    ) by {
        assert(list[p] == whole[p]);
        if p < at {
            assert(whole[p] == before[p]);
        } else if p > at {
            assert(whole[p] == before[p - 1]);
        }
    }
    assert forall|p: int, q: int| 0 <= p < q < list.len() implies precedes(
        turns,
        combined,
        #[trigger] list[p] as int,
        #[trigger] list[q] as int,
    ) by {
        assert(list[p] == whole[p] && list[q] == whole[q]);
    }
    assert forall|j: usize|
        j < i + 1 && eligible(turns, scores, excluded, j as int) && !(#[trigger] list.contains(
            j,
        )) implies list.len() == top_k && forall|p: int|
        0 <= p < list.len() ==> precedes(turns, combined, #[trigger] list[p] as int, j as int) by {
        if j == i {
            assert(list[at] == i);
            assert(list.contains(i));
        } else if before.contains(j) {
            let b = choose|b: int| 0 <= b < before.len() && before[b] == j;
            let w = if b < at {
                b
            } else {
                b + 1
            };
            assert(whole[w] == j);
            if w < list.len() {
                assert(list[w] == j);
            }
            assert forall|p: int| 0 <= p < list.len() implies precedes(
                turns,
                combined,
                #[trigger] list[p] as int,
                j as int,
            ) by {
                assert(list[p] == whole[p]);
                assert(precedes(turns, combined, whole[p] as int, whole[w] as int));
            }
        } else {
            assert(before.len() == top_k);
            assert forall|p: int| 0 <= p < list.len() implies precedes(
                turns,
                combined,
                #[trigger] list[p] as int,
                j as int,
            ) by {
                assert(list[p] == whole[p]);
                if p < at {
                    assert(precedes(turns, combined, before[p] as int, j as int));
                } else if p > at {
                    assert(precedes(turns, combined, before[p - 1] as int, j as int));
                } else {
                    assert(precedes(turns, combined, before[at] as int, j as int));
                    assert(precedes(turns, combined, i as int, before[at] as int));
                }
            }
        }
    }
}

/// Retrieval is deterministic: there is only one answer to a query with given scores.
pub proof fn answer_is_unique(
    turns: Seq<TurnView>,
    scores: Scores,
    excluded: Option<Seq<char>>,
    top_k: nat,
    count: nat,
    a: Seq<usize>,
    b: Seq<usize>,
)
    requires
        best(turns, scores, excluded, top_k, count, a),
        best(turns, scores, excluded, top_k, count, b),
    ensures
        a == b,
{
    if a.len() <= b.len() {
        answers_agree(turns, scores, excluded, top_k, count, a, b, a.len() as int);
        longer_answer_is_none(turns, scores, excluded, top_k, count, a, b);
    } else {
        answers_agree(turns, scores, excluded, top_k, count, b, a, b.len() as int);
        longer_answer_is_none(turns, scores, excluded, top_k, count, b, a);
    }
    assert(a =~= b);
}

proof fn longer_answer_is_none(
    turns: Seq<TurnView>,
    scores: Scores,
    excluded: Option<Seq<char>>,
    top_k: nat,
    count: nat,
    a: Seq<usize>,
    b: Seq<usize>,
)
    requires
        best(turns, scores, excluded, top_k, count, a),
        best(turns, scores, excluded, top_k, count, b),
        a.len() <= b.len(),
        forall|p: int| 0 <= p < a.len() ==> #[trigger] a[p] == b[p],
    ensures
        a.len() == b.len(),
{
    if a.len() < b.len() {
        let j = b[a.len() as int];
        if a.contains(j) {
            let p = choose|p: int| 0 <= p < a.len() && a[p] == j;
            assert(b[p] == j);
            assert(precedes(turns, scores.combined@, b[p] as int, b[a.len() as int] as int));
        }
        assert(!a.contains(j));
    }
}

proof fn answers_agree(
    turns: Seq<TurnView>,
    scores: Scores,
    excluded: Option<Seq<char>>,
    top_k: nat,
    count: nat,
    a: Seq<usize>,
    b: Seq<usize>,
    n: int,
)
    requires
        best(turns, scores, excluded, top_k, count, a),
        best(turns, scores, excluded, top_k, count, b),
        0 <= n <= a.len() <= b.len(),
    ensures
        forall|p: int| 0 <= p < n ==> #[trigger] a[p] == b[p],
    decreases n,
{
    if n > 0 {
        answers_agree(turns, scores, excluded, top_k, count, a, b, n - 1);
        let x = a[n - 1];
        let y = b[n - 1];
        if x != y {
            first_difference(turns, scores, excluded, top_k, count, a, b, n - 1);
            first_difference(turns, scores, excluded, top_k, count, b, a, n - 1);
        }
    }
}

/// Where two answers first differ, the turn of the one does not come before that of the other.
proof fn first_difference(
    turns: Seq<TurnView>,
    scores: Scores,
    excluded: Option<Seq<char>>,
    top_k: nat,
    count: nat,
    a: Seq<usize>,
    b: Seq<usize>,
    n: int,
)
    requires
        best(turns, scores, excluded, top_k, count, a),
        best(turns, scores, excluded, top_k, count, b),
        0 <= n < a.len(),
        n < b.len(),
        a[n] != b[n],
        forall|p: int| 0 <= p < n ==> #[trigger] a[p] == b[p],
    ensures
        !precedes(turns, scores.combined@, a[n] as int, b[n] as int),
{
    let x = a[n];
    if b.contains(x) {
        let q = choose|q: int| 0 <= q < b.len() && b[q] == x;
        if q < n {
            assert(a[q] == x);
            assert(precedes(turns, scores.combined@, a[q] as int, a[n] as int));
        } else {
            assert(precedes(turns, scores.combined@, b[n] as int, b[q] as int));
        }
    } else {
        assert(precedes(turns, scores.combined@, b[n] as int, x as int));
    }
}

/// A turn that answers a query.
pub struct Evidence {
    pub turn_id: i64,
    pub session_id: String,
    pub speaker: String,
    pub text: String,
    pub ts: i64,
    /// The bits of the score, a number in single precision.
    pub score: u32,
}

/// The answer to a query.
pub struct QueryResult {
    /// The profile that was used.
    pub route: &'static str,
    pub evidence: Vec<Evidence>,
}

/// What is shown of a turn that answers a query with this score.
#[verifier::ext_equal]
pub struct EvidenceView {
    pub turn_id: i64,
    pub session_id: Seq<char>,
    pub speaker: Seq<char>,
    pub text: Seq<char>,
    pub ts: i64,
    pub score: u32,
}

impl View for Evidence {
    type V = EvidenceView;

    open spec fn view(&self) -> EvidenceView {
        EvidenceView {
            turn_id: self.turn_id,
            session_id: self.session_id@,
            speaker: self.speaker@,
            text: self.text@,
            ts: self.ts,
            score: self.score,
        }
    }
}

/// What some evidence shows.
pub open spec fn evidence_views(list: Seq<Evidence>) -> Seq<EvidenceView> {
    list.map_values(|e: Evidence| e@)
}

/// What is shown of a turn.
pub open spec fn shown(turn: TurnView, score: u32) -> EvidenceView {
    EvidenceView {
        turn_id: turn.id,
        session_id: turn.session_id,
        speaker: turn.speaker,
        text: turn.text,
        ts: turn.ts,
        score,
    }
}

/// What is shown of the turns at `list`.
pub open spec fn shown_all(turns: Seq<TurnView>, combined: Seq<u32>, list: Seq<usize>) -> Seq<
    EvidenceView,
> {
    list.map_values(|i: usize| shown(turns[i as int], combined[i as int]))
}

/// Shows the turns at `list`.
fn show_turns(turns: &Vec<Turn>, combined: &Vec<u32>, list: &Vec<usize>) -> (r: Vec<Evidence>)
    requires
        combined.len() == turns.len(),
        forall|p: int| 0 <= p < list.len() ==> #[trigger] list@[p] < turns.len(),
    ensures
        evidence_views(r@) == shown_all(turn_views(turns@), combined@, list@),
{
    let ghost all = turn_views(turns@);
    let mut r: Vec<Evidence> = Vec::new();
    let mut p: usize = 0;
    while p < list.len()
        invariant
            p <= list.len(),
            all == turn_views(turns@),
            combined.len() == turns.len(),
            forall|q: int| 0 <= q < list.len() ==> #[trigger] list@[q] < turns.len(),
            evidence_views(r@) == shown_all(all, combined@, list@.take(p as int)),
        decreases list.len() - p,
    {
        let ghost before = r@;
        let i = list[p];
        let turn = &turns[i];
        r.push(
            Evidence {
                turn_id: turn.id,
                session_id: turn.session_id.clone(),
                speaker: turn.speaker.clone(),
                text: turn.text.clone(),
                ts: turn.ts,
                score: combined[i],
            },
        );
        proof {
            assert(turn@ == all[i as int]);
            let next = shown(all[i as int], combined@[i as int]);
            assert(evidence_views(r@) =~= evidence_views(before).push(next));
            assert(list@.take(p + 1) =~= list@.take(p as int).push(i));
            assert(shown_all(all, combined@, list@.take(p + 1)) =~= shown_all(
                all,
                combined@,
                list@.take(p as int),
            ).push(next));
        }
        p = p + 1;
    }
    assert(list@.take(p as int) =~= list@);
    r
}

/// Whether `evidence` is what is shown in answer to a query: the best turns, in order.
pub open spec fn answers(
    turns: Seq<TurnView>,
    scores: Scores,
    excluded: Option<Seq<char>>,
    top_k: nat,
    evidence: Seq<EvidenceView>,
) -> bool {
    exists|list: Seq<usize>| #[trigger]
        best(turns, scores, excluded, top_k, turns.len(), list) && evidence == shown_all(
            turns,
            scores.combined@,
            list,
        )
}

/// The answer among `turns` to a query that has these scores.
pub fn select_evidence(
    turns: &Vec<Turn>,
    scores: &Scores,
    excluded: Option<&str>,
    top_k: usize,
) -> (r: Vec<Evidence>)
    requires
        scores.cover(turns@.len()),
    ensures
        answers(
            turn_views(turns@),
            *scores,
            excluded_view(excluded),
            top_k as nat,
            evidence_views(r@),
        ),
{
    let list = rank_turns(turns, scores, excluded, top_k);
    assert(turn_views(turns@).len() == turns@.len());
    show_turns(turns, &scores.combined, &list)
}

/// A query is never answered with more turns than it asked for.
pub proof fn answer_is_bounded(
    turns: Seq<TurnView>,
    scores: Scores,
    excluded: Option<Seq<char>>,
    top_k: nat,
    evidence: Seq<EvidenceView>,
)
    requires
        answers(turns, scores, excluded, top_k, evidence),
    ensures
        evidence.len() <= top_k,
{
}

/// Whether what is shown is a turn that may answer the query, with its score.
pub open spec fn shows_eligible_turn(
    turns: Seq<TurnView>,
    scores: Scores,
    excluded: Option<Seq<char>>,
    evidence: EvidenceView,
) -> bool {
    exists|i: int|
        0 <= i < turns.len() && #[trigger] eligible(turns, scores, excluded, i) && evidence
            == shown(turns[i], scores.combined@[i])
}

/// The session that a query leaves out is never shown, and nothing is shown but turns whose
/// similarity is high enough or whose lexical score or score in the graph is positive.
pub proof fn answer_shows_eligible_turns_only(
    turns: Seq<TurnView>,
    scores: Scores,
    excluded: Option<Seq<char>>,
    top_k: nat,
    evidence: Seq<EvidenceView>,
)
    requires
        answers(turns, scores, excluded, top_k, evidence),
    ensures
        forall|p: int|
            0 <= p < evidence.len() ==> excluded != Some((#[trigger] evidence[p]).session_id),
        forall|p: int|
            0 <= p < evidence.len() ==> shows_eligible_turn(turns, scores, excluded, #[trigger] evidence[p]),
{
    let list = choose|list: Seq<usize>| #[trigger]
        best(turns, scores, excluded, top_k, turns.len(), list) && evidence == shown_all(
            turns,
            scores.combined@,
            list,
        );
    assert forall|p: int| 0 <= p < evidence.len() implies excluded != Some(
        (#[trigger] evidence[p]).session_id,
    ) && shows_eligible_turn(turns, scores, excluded, evidence[p]) by {
        let i = list[p] as int;
        assert(eligible(turns, scores, excluded, i));
        assert(relevant(scores, i));
        assert(evidence[p] == shown(turns[i], scores.combined@[i]));
    }
}

/// Relevance comes first, and time only breaks ties: no turn is shown after one with a lower
/// score, and among turns with equal scores none after an older one.
pub proof fn relevance_comes_before_time(
    turns: Seq<TurnView>,
    scores: Scores,
    excluded: Option<Seq<char>>,
    top_k: nat,
    evidence: Seq<EvidenceView>,
)
    requires
        answers(turns, scores, excluded, top_k, evidence),
    ensures
        forall|p: int, q: int|
            0 <= p < q < evidence.len() ==> rank_of((#[trigger] evidence[p]).score) >= rank_of(
                (#[trigger] evidence[q]).score,
            ),
        forall|p: int, q: int|
            0 <= p < q < evidence.len() && (#[trigger] evidence[p]).score == (
            #[trigger] evidence[q]).score ==> evidence[p].ts >= evidence[q].ts,
{
    let list = choose|list: Seq<usize>| #[trigger]
        best(turns, scores, excluded, top_k, turns.len(), list) && evidence == shown_all(
            turns,
            scores.combined@,
            list,
        );
    assert forall|p: int, q: int| 0 <= p < q < evidence.len() implies rank_of(
        (#[trigger] evidence[p]).score,
    ) >= rank_of((#[trigger] evidence[q]).score) && (evidence[p].score == evidence[q].score
        ==> evidence[p].ts >= evidence[q].ts) by {
        assert(precedes(turns, scores.combined@, list[p] as int, list[q] as int));
    }
}

/// Everything that may answer a query is shown unless as many turns are shown as were asked for.
pub proof fn answer_is_complete(
    turns: Seq<TurnView>,
    scores: Scores,
    excluded: Option<Seq<char>>,
    top_k: nat,
    evidence: Seq<EvidenceView>,
    i: int,
)
    requires
        answers(turns, scores, excluded, top_k, evidence),
        0 <= i < turns.len() <= usize::MAX,
        eligible(turns, scores, excluded, i),
        evidence.len() < top_k,
    ensures
        evidence.contains(shown(turns[i], scores.combined@[i])),
{
    let list = choose|list: Seq<usize>| #[trigger]
        best(turns, scores, excluded, top_k, turns.len(), list) && evidence == shown_all(
            turns,
            scores.combined@,
            list,
        );
    assert(list.contains(i as usize));
    let p = choose|p: int| 0 <= p < list.len() && list[p] == i as usize;
    assert(evidence[p] == shown(turns[i], scores.combined@[i]));
}

/// Asking for fewer turns shows the start of what asking for more does.
pub proof fn smaller_answer_starts_larger_one(
    turns: Seq<TurnView>,
    scores: Scores,
    excluded: Option<Seq<char>>,
    few: nat,
    many: nat,
    smaller: Seq<EvidenceView>,
    larger: Seq<EvidenceView>,
)
    requires
        few <= many,
        answers(turns, scores, excluded, few, smaller),
        answers(turns, scores, excluded, many, larger),
    ensures
        smaller == at_most(larger, few),
{
    let combined = scores.combined@;
    let a = choose|list: Seq<usize>| #[trigger]
        best(turns, scores, excluded, few, turns.len(), list) && smaller == shown_all(
            turns,
            combined,
            list,
        );
    let b = choose|list: Seq<usize>| #[trigger]
        best(turns, scores, excluded, many, turns.len(), list) && larger == shown_all(
            turns,
            combined,
            list,
        );
    let start = at_most(b, few);
    assert forall|j: usize|
        j < turns.len() && eligible(turns, scores, excluded, j as int) && !(
        #[trigger] start.contains(j)) implies start.len() == few && forall|p: int|
        0 <= p < start.len() ==> precedes(
            turns,
            combined,
            #[trigger] start[p] as int,
            j as int,
        ) by {
        if b.contains(j) {
            let q = choose|q: int| 0 <= q < b.len() && b[q] == j;
            if q < start.len() {
                assert(start[q] == j);
            }
            assert forall|p: int| 0 <= p < start.len() implies precedes(
                turns,
                combined,
                #[trigger] start[p] as int,
                j as int,
            ) by {
                assert(precedes(turns, combined, b[p] as int, b[q] as int));
            }
        } else {
            assert(b.len() == many);
            assert forall|p: int| 0 <= p < start.len() implies precedes(
                turns,
                combined,
                #[trigger] start[p] as int,
                j as int,
            ) by {
                assert(precedes(turns, combined, b[p] as int, j as int));
            }
        }
    }
    assert(best(turns, scores, excluded, few, turns.len(), start));
    answer_is_unique(turns, scores, excluded, few, turns.len(), a, start);
    assert(smaller =~= at_most(larger, few));
}

/// Positions that come before one another are different, so that there are no more than turns.
proof fn ordered_positions_are_few(turns: Seq<TurnView>, combined: Seq<u32>, list: Seq<usize>)
    requires
        forall|p: int| 0 <= p < list.len() ==> #[trigger] list[p] < turns.len(),
        forall|p: int, q: int|
            0 <= p < q < list.len() ==> precedes(
                turns,
                combined,
                #[trigger] list[p] as int,
                #[trigger] list[q] as int,
            ),
    ensures
        list.no_duplicates(),
        list.len() <= turns.len(),
{
    let at = list.map_values(|i: usize| i as int);
    assert forall|p: int, q: int|
        0 <= p < list.len() && 0 <= q < list.len() && p != q implies list[p] != list[q] by {
        if p < q {
            assert(precedes(turns, combined, list[p] as int, list[q] as int));
        } else {
            assert(precedes(turns, combined, list[q] as int, list[p] as int));
        }
    }
    assert forall|p: int, q: int| 0 <= p < at.len() && 0 <= q < at.len() && p != q implies at[p]
        != at[q] by {
        assert(list[p] != list[q]);
    }
    assert forall|p: int| 0 <= p < at.len() implies 0 <= #[trigger] at[p] < turns.len() by {
        assert(list[p] < turns.len());
    }
    distinct_numbers_below(at, turns.len());
}

/// Where at least as many turns are asked for as there are, every eligible one is in the answer.
proof fn full_answer_holds_every_eligible_turn(
    turns: Seq<TurnView>,
    scores: Scores,
    excluded: Option<Seq<char>>,
    top_k: nat,
    list: Seq<usize>,
    j: usize,
)
    requires
        best(turns, scores, excluded, top_k, turns.len(), list),
        turns.len() <= top_k,
        j < turns.len(),
        eligible(turns, scores, excluded, j as int),
    ensures
        list.contains(j),
{
    if !list.contains(j) {
        let more = list.push(j);
        assert forall|p: int, q: int| 0 <= p < q < more.len() implies precedes(
            turns,
            scores.combined@,
            #[trigger] more[p] as int,
            #[trigger] more[q] as int,
        ) by {
            if q < list.len() {
                assert(precedes(turns, scores.combined@, list[p] as int, list[q] as int));
            } else {
                assert(precedes(turns, scores.combined@, list[p] as int, j as int));
            }
        }
        assert forall|p: int| 0 <= p < more.len() implies #[trigger] more[p] < turns.len() by {
            if p < list.len() {
                assert(list[p] < turns.len());
            }
        }
        ordered_positions_are_few(turns, scores.combined@, more);
    }
}

/// A query that asks for at least as many turns as there are is shown all that may answer it.
pub proof fn full_answer_shows_every_eligible_turn(
    turns: Seq<TurnView>,
    scores: Scores,
    excluded: Option<Seq<char>>,
    top_k: nat,
    evidence: Seq<EvidenceView>,
    i: int,
)
    requires
        answers(turns, scores, excluded, top_k, evidence),
        turns.len() <= top_k,
        0 <= i < turns.len() <= usize::MAX,
        eligible(turns, scores, excluded, i),
    ensures
        evidence.contains(shown(turns[i], scores.combined@[i])),
{
    let list = choose|list: Seq<usize>| #[trigger]
        best(turns, scores, excluded, top_k, turns.len(), list) && evidence == shown_all(
            turns,
            scores.combined@,
            list,
        );
    full_answer_holds_every_eligible_turn(turns, scores, excluded, top_k, list, i as usize);
    let p = choose|p: int| 0 <= p < list.len() && list[p] == i as usize;
    assert(evidence[p] == shown(turns[i], scores.combined@[i]));
}

/// Leaving out elements keeps the order of the others.
proof fn filter_keeps_order(
    turns: Seq<TurnView>,
    combined: Seq<u32>,
    list: Seq<usize>,
    keep: spec_fn(usize) -> bool,
)
    requires
        forall|p: int, q: int|
            0 <= p < q < list.len() ==> precedes(
                turns,
                combined,
                #[trigger] list[p] as int,
                #[trigger] list[q] as int,
            ),
    ensures
        forall|p: int, q: int|
            0 <= p < q < list.filter(keep).len() ==> precedes(
                turns,
                combined,
                #[trigger] list.filter(keep)[p] as int,
                #[trigger] list.filter(keep)[q] as int,
            ),
    decreases list.len(),
{
    reveal(Seq::filter);
    if list.len() > 0 {
        let front = list.drop_last();
        assert forall|p: int, q: int| 0 <= p < q < front.len() implies precedes(
            turns,
            combined,
            #[trigger] front[p] as int,
            #[trigger] front[q] as int,
        ) by {
            assert(precedes(turns, combined, list[p] as int, list[q] as int));
        }
        filter_keeps_order(turns, combined, front, keep);
        let before = front.filter(keep);
        let kept = list.filter(keep);
        assert forall|p: int, q: int| 0 <= p < q < kept.len() implies precedes(
            turns,
            combined,
            #[trigger] kept[p] as int,
            #[trigger] kept[q] as int,
        ) by {
            if q < before.len() {
                assert(precedes(turns, combined, before[p] as int, before[q] as int));
            } else {
                assert(before.contains(before[p]));
                front.lemma_filter_contains_rev(keep, before[p]);
                let m = choose|m: int| 0 <= m < front.len() && front[m] == before[p];
                assert(precedes(turns, combined, list[m] as int, list[list.len() - 1] as int));
            }
        }
    }
}

/// What is shown of the turns that are not of a session is what is shown without the session.
proof fn shown_without_session(
    turns: Seq<TurnView>,
    combined: Seq<u32>,
    list: Seq<usize>,
    session: Seq<char>,
)
    ensures
        shown_all(
            turns,
            combined,
            list.filter(|i: usize| turns[i as int].session_id != session),
        ) == shown_all(turns, combined, list).filter(|e: EvidenceView| e.session_id != session),
    decreases list.len(),
{
    reveal(Seq::filter);
    let keep = |i: usize| turns[i as int].session_id != session;
    let other = |e: EvidenceView| e.session_id != session;
    let all = shown_all(turns, combined, list);
    if list.len() == 0 {
        assert(shown_all(turns, combined, list.filter(keep)) =~= all.filter(other));
    } else {
        let front = list.drop_last();
        shown_without_session(turns, combined, front, session);
        assert(all.drop_last() =~= shown_all(turns, combined, front));
        assert(all.last() == shown(turns[list.last() as int], combined[list.last() as int]));
        assert(shown_all(turns, combined, list.filter(keep)) =~= all.filter(other));
    }
}

/// Leaving out a session only leaves out its turns: the answer is what is shown of all turns
/// without those of the session, up to the number that is asked for.
pub proof fn leaving_out_a_session_leaves_the_rest(
    turns: Seq<TurnView>,
    scores: Scores,
    session: Seq<char>,
    top_k: nat,
    evidence: Seq<EvidenceView>,
    enough: nat,
    everything: Seq<EvidenceView>,
)
    requires
        answers(turns, scores, Some(session), top_k, evidence),
        answers(turns, scores, None, enough, everything),
        turns.len() <= enough,
    ensures
        evidence == at_most(
            everything.filter(|e: EvidenceView| e.session_id != session),
            top_k,
        ),
{
    let combined = scores.combined@;
    let out = Some(session);
    let keep = |i: usize| turns[i as int].session_id != session;
    let a = choose|list: Seq<usize>| #[trigger]
        best(turns, scores, out, top_k, turns.len(), list) && evidence == shown_all(
            turns,
            combined,
            list,
        );
    let b = choose|list: Seq<usize>| #[trigger]
        best(turns, scores, None, enough, turns.len(), list) && everything == shown_all(
            turns,
            combined,
            list,
        );
    let kept = b.filter(keep);
    let start = at_most(kept, top_k);
    filter_keeps_order(turns, combined, b, keep);
    assert forall|p: int| 0 <= p < start.len() implies #[trigger] start[p] < turns.len()
        && eligible(turns, scores, out, start[p] as int) by {
        assert(kept[p] == start[p]);
        assert(kept.contains(kept[p]));
        b.lemma_filter_pred(keep, p);
        b.lemma_filter_contains_rev(keep, kept[p]);
        let m = choose|m: int| 0 <= m < b.len() && b[m] == kept[p];
        assert(eligible(turns, scores, None, b[m] as int));
    }
    assert forall|p: int, q: int| 0 <= p < q < start.len() implies precedes(
        turns,
        combined,
        #[trigger] start[p] as int,
        #[trigger] start[q] as int,
    ) by {
        assert(precedes(turns, combined, kept[p] as int, kept[q] as int));
    }
    assert forall|j: usize|
        j < turns.len() && eligible(turns, scores, out, j as int) && !(
        #[trigger] start.contains(j)) implies start.len() == top_k && forall|p: int|
        0 <= p < start.len() ==> precedes(
            turns,
            combined,
            #[trigger] start[p] as int,
            j as int,
        ) by {
        assert(eligible(turns, scores, None, j as int));
        full_answer_holds_every_eligible_turn(turns, scores, None, enough, b, j);
        let m = choose|m: int| 0 <= m < b.len() && b[m] == j;
        b.lemma_filter_contains(keep, m);
        assert(kept.contains(j));
        let q = choose|q: int| 0 <= q < kept.len() && kept[q] == j;
        if q < start.len() {
            assert(start[q] == j);
        }
        assert forall|p: int| 0 <= p < start.len() implies precedes(
            turns,
            combined,
            #[trigger] start[p] as int,
            j as int,
        ) by {
            assert(precedes(turns, combined, kept[p] as int, kept[q] as int));
        }
    }
    assert(best(turns, scores, out, top_k, turns.len(), start));
    answer_is_unique(turns, scores, out, top_k, turns.len(), a, start);
    shown_without_session(turns, combined, b, session);
    assert(evidence =~= at_most(shown_all(turns, combined, kept), top_k));
}

/// A query about time takes the temporal route, however many entities it names. Any other takes the
/// entity route as soon as it names two, and keeps it with every one more; with fewer it takes the
/// balanced one.
pub proof fn routes_follow_time_and_then_entities(entities: nat)
    ensures
        route_of(true, entities) is Temporal,
        entities >= 2 ==> route_of(false, entities) is Entity,
        entities < 2 ==> route_of(false, entities) is Balanced,
        route_of(false, entities) is Entity ==> route_of(false, entities + 1) is Entity,
{
}

/// How much each channel counts on each route, in hundredths: on the balanced one similarity most, on
/// the entity one the graph, on the temporal one the windows.
pub proof fn routes_weigh_their_channels_most(route: Route)
    ensures
        ({
            let w = route.weighting();
            match route {
                Route::Balanced => w.dense == 40 && w.lexical == 30 && w.graph == 20 && w.temporal
                    == 10 && w.dense > w.lexical > w.graph > w.temporal,
                Route::Entity => w.dense == 30 && w.lexical == 20 && w.graph == 35 && w.temporal
                    == 15 && w.graph > w.dense > w.lexical > w.temporal,
                Route::Temporal => w.dense == 25 && w.lexical == 20 && w.graph == 15 && w.temporal
                    == 40 && w.temporal > w.dense > w.lexical > w.graph,
            }
        }),
{
}

/// Everything that is shown is a turn of the memory, as it is, that is not of the session that is
/// left out, and whose similarity is at least 0.35 or whose lexical score or score in the graph is
/// above zero, all by their bits.
pub proof fn shown_turns_may_be_shown(
    turns: Seq<TurnView>,
    scores: Scores,
    excluded: Option<Seq<char>>,
    top_k: nat,
    evidence: Seq<EvidenceView>,
    p: int,
)
    requires
        answers(turns, scores, excluded, top_k, evidence),
        0 <= p < evidence.len(),
    ensures
        evidence.len() <= top_k,
        exists|i: int|
            0 <= i < turns.len() && {
                &&& (#[trigger] turns[i]).id == evidence[p].turn_id
                &&& turns[i].session_id == evidence[p].session_id
                &&& turns[i].speaker == evidence[p].speaker
                &&& turns[i].text == evidence[p].text
                &&& turns[i].ts == evidence[p].ts
                &&& scores.combined@[i] == evidence[p].score
                &&& excluded != Some(turns[i].session_id)
                &&& 0x3eb3_3333 <= scores.dense@[i] <= 0x7f80_0000 || 0 < scores.lexical@[i]
                    <= 0x7f80_0000 || 0 < scores.graph@[i] <= 0x7f80_0000
            },
{
    answer_is_bounded(turns, scores, excluded, top_k, evidence);
    answer_shows_eligible_turns_only(turns, scores, excluded, top_k, evidence);
    assert(shows_eligible_turn(turns, scores, excluded, evidence[p]));
    let i = choose|i: int|
        0 <= i < turns.len() && #[trigger] eligible(turns, scores, excluded, i) && evidence[p]
            == shown(turns[i], scores.combined@[i]);
    assert(turns[i].id == evidence[p].turn_id);
}

/// Every turn that is not of the session that is left out is shown, as it is, where enough are asked
/// for, if its similarity is at least 0.35, or its lexical score or its score in the graph is above
/// zero, all by their bits.
pub proof fn turns_that_may_be_shown_are(
    turns: Seq<TurnView>,
    scores: Scores,
    excluded: Option<Seq<char>>,
    top_k: nat,
    evidence: Seq<EvidenceView>,
    i: int,
)
    requires
        answers(turns, scores, excluded, top_k, evidence),
        turns.len() <= top_k || evidence.len() < top_k,
        0 <= i < turns.len() <= usize::MAX,
        excluded != Some(turns[i].session_id),
        0x3eb3_3333 <= scores.dense@[i] <= 0x7f80_0000 || 0 < scores.lexical@[i] <= 0x7f80_0000 || 0
            < scores.graph@[i] <= 0x7f80_0000,
    ensures
        exists|p: int|
            0 <= p < evidence.len() && {
                &&& (#[trigger] evidence[p]).turn_id == turns[i].id
                &&& evidence[p].session_id == turns[i].session_id
                &&& evidence[p].speaker == turns[i].speaker
                &&& evidence[p].text == turns[i].text
                &&& evidence[p].ts == turns[i].ts
                &&& evidence[p].score == scores.combined@[i]
            },
{
    assert(eligible(turns, scores, excluded, i));
    if turns.len() <= top_k {
        full_answer_shows_every_eligible_turn(turns, scores, excluded, top_k, evidence, i);
    } else {
        answer_is_complete(turns, scores, excluded, top_k, evidence, i);
    }
    let own = shown(turns[i], scores.combined@[i]);
    let p = choose|p: int| 0 <= p < evidence.len() && evidence[p] == own;
    assert(evidence[p].turn_id == turns[i].id);
}

/// What is shown earlier has the greater score, by its bits: without a sign the greater bits, with a
/// sign the lesser, and no sign before a sign. Among equal scores it is newer, and among those of one
/// time its row was stored first.
pub proof fn shown_turns_are_in_order(
    turns: Seq<TurnView>,
    scores: Scores,
    excluded: Option<Seq<char>>,
    top_k: nat,
    evidence: Seq<EvidenceView>,
    p: int,
    q: int,
)
    requires
        answers(turns, scores, excluded, top_k, evidence),
        0 <= p < q < evidence.len(),
    ensures
        ({
            let first = evidence[p];
            let then = evidence[q];
            if first.score == then.score {
                first.ts > then.ts || (first.ts == then.ts && first.turn_id <= then.turn_id)
            } else if first.score < 0x8000_0000 && then.score < 0x8000_0000 {
                first.score > then.score
            } else if first.score >= 0x8000_0000 && then.score >= 0x8000_0000 {
                first.score < then.score
            } else {
                first.score < 0x8000_0000
            }
        }),
{
    let list = choose|list: Seq<usize>| #[trigger]
        best(turns, scores, excluded, top_k, turns.len(), list) && evidence == shown_all(
            turns,
            scores.combined@,
            list,
        );
    assert(precedes(turns, scores.combined@, list[p] as int, list[q] as int));
}

/// Where no two turns have the same number, none is shown twice.
pub proof fn no_turn_is_shown_twice(
    turns: Seq<TurnView>,
    scores: Scores,
    excluded: Option<Seq<char>>,
    top_k: nat,
    evidence: Seq<EvidenceView>,
    p: int,
    q: int,
)
    requires
        answers(turns, scores, excluded, top_k, evidence),
        forall|i: int, j: int|
            0 <= i < j < turns.len() ==> (#[trigger] turns[i]).id != (#[trigger] turns[j]).id,
        0 <= p < q < evidence.len(),
    ensures
        evidence[p].turn_id != evidence[q].turn_id,
{
    let list = choose|list: Seq<usize>| #[trigger]
        best(turns, scores, excluded, top_k, turns.len(), list) && evidence == shown_all(
            turns,
            scores.combined@,
            list,
        );
    ordered_positions_are_few(turns, scores.combined@, list);
    let i = list[p] as int;
    let j = list[q] as int;
    assert(i != j);
    assert(evidence[p] == shown(turns[i], scores.combined@[i]));
    assert(evidence[q] == shown(turns[j], scores.combined@[j]));
    if i < j {
        assert(turns[i].id != turns[j].id);
    } else {
        assert(turns[j].id != turns[i].id);
    }
}

/// Asking for fewer turns shows as many of the first ones as are asked for.
pub proof fn fewer_are_the_first_ones(
    turns: Seq<TurnView>,
    scores: Scores,
    excluded: Option<Seq<char>>,
    few: nat,
    many: nat,
    smaller: Seq<EvidenceView>,
    larger: Seq<EvidenceView>,
)
    requires
        few <= many,
        answers(turns, scores, excluded, few, smaller),
        answers(turns, scores, excluded, many, larger),
    ensures
        smaller.len() == if larger.len() < few {
            larger.len()
        } else {
            few
        },
        forall|k: int| 0 <= k < smaller.len() ==> #[trigger] smaller[k] == larger[k],
{
    smaller_answer_starts_larger_one(turns, scores, excluded, few, many, smaller, larger);
}

/// Evidence stands for what it holds, as it is.
pub proof fn evidence_stands_for_what_it_holds(list: Seq<Evidence>, k: int)
    requires
        0 <= k < list.len(),
    ensures
        evidence_views(list).len() == list.len(),
        evidence_views(list)[k].turn_id == list[k].turn_id,
        evidence_views(list)[k].session_id == list[k].session_id@,
        evidence_views(list)[k].speaker == list[k].speaker@,
        evidence_views(list)[k].text == list[k].text@,
        evidence_views(list)[k].ts == list[k].ts,
        evidence_views(list)[k].score == list[k].score,
{
}

/// The session that is left out is the one that is named, by its whole name, and none where none is.
pub proof fn excluded_session_is_the_named_one(session: &str)
    ensures
        excluded_view(Some(session)) == Some(session@),
        excluded_view(None) is None,
{
}

} // verus!
