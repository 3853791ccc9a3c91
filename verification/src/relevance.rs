//! What has to do with a query: how the scores of turns relate to their words and entities.

use crate::entities::entities;
use crate::graph::{
    contribution_views, contributions_reach_related_turns, reaches, related_to_some,
};
use crate::lexical::LexicalCounts;
use crate::retrieval::{
    answer_shows_eligible_turns_only, answers, eligible, full_answer_shows_every_eligible_turn,
    relevant, shown, shows_eligible_turn, EvidenceView, Scores,
};
use crate::seqs::occurrences_count_membership;
use crate::store::{derived_entities_are_distinct, QueryPlan};
use crate::text::tokens;
use crate::turns::{derived, TurnView};
use crate::vectors::{positive, similar};
use vstd::prelude::*;

verus! {

/// Whether the turn at `i` has one of these tokens.
pub open spec fn shares_token(turns: Seq<TurnView>, query: Seq<Seq<char>>, i: int) -> bool {
    exists|q: int| 0 <= q < query.len() && turns[i].tokens.contains(#[trigger] query[q])
}

/// Whether some token was counted in the turn at `i`.
pub open spec fn some_token_counted(counts: LexicalCounts, i: int) -> bool {
    exists|q: int|
        0 <= q < counts.frequencies@[i].len() && #[trigger] counts.frequencies@[i]@[q] > 0
}

/// Whether the scores of `count` turns are positive where they should be: the lexical score where
/// a token was counted, and the score in the graph where something is contributed.
pub open spec fn scored_by(scores: Scores, plan: QueryPlan, count: nat) -> bool {
    &&& scores.cover(count)
    &&& forall|i: int|
        0 <= i < count ==> positive(#[trigger] scores.lexical@[i]) == some_token_counted(
            plan.lexical,
            i,
        )
    &&& forall|i: int|
        0 <= i < count ==> positive(#[trigger] scores.graph@[i]) == reaches(
            contribution_views(plan.contributions@),
            i,
        )
}

/// Whether the turn at `i` has to do with a query: it is similar enough, or shares a token, or is
/// related through entities.
pub open spec fn concerns(
    turns: Seq<TurnView>,
    scores: Scores,
    query: Seq<char>,
    i: int,
) -> bool {
    ||| similar(scores.dense@[i])
    ||| shares_token(turns, tokens(query), i)
    ||| related_to_some(turns, entities(query), i)
}

/// A turn counts as having to do with a query exactly when it does: when it is similar enough, or
/// shares a token, or is related through entities.
pub proof fn relevant_turns_concern_the_query(
    turns: Seq<TurnView>,
    query: Seq<char>,
    plan: QueryPlan,
    scores: Scores,
    i: int,
)
    requires
        derived(turns),
        plan.of(turns, turns, query),
        scored_by(scores, plan, turns.len()),
        0 <= i < turns.len(),
    ensures
        relevant(scores, i) <==> concerns(turns, scores, query, i),
{
    let wanted = tokens(query);
    let counts = plan.lexical;
    derived_entities_are_distinct(turns);
    contributions_reach_related_turns(turns, entities(query), i);
    assert(positive(scores.lexical@[i]) == some_token_counted(counts, i));
    assert(positive(scores.graph@[i]) == reaches(contribution_views(plan.contributions@), i));
    if some_token_counted(counts, i) {
        let q = choose|q: int|
            0 <= q < counts.frequencies@[i].len() && #[trigger] counts.frequencies@[i]@[q] > 0;
        occurrences_count_membership(turns[i].tokens, wanted[q]);
        assert(turns[i].tokens.contains(wanted[q]));
    }
    if shares_token(turns, wanted, i) {
        let q = choose|q: int|
            0 <= q < wanted.len() && turns[i].tokens.contains(#[trigger] wanted[q]);
        occurrences_count_membership(turns[i].tokens, wanted[q]);
        assert(counts.frequencies@[i]@[q] > 0);
    }
}

/// Whether `evidence` shows a turn that has to do with a query and is not of the session that is
/// left out.
pub open spec fn shows_concerned_turn(
    turns: Seq<TurnView>,
    scores: Scores,
    excluded: Option<Seq<char>>,
    query: Seq<char>,
    evidence: EvidenceView,
) -> bool {
    exists|i: int|
        0 <= i < turns.len() && #[trigger] concerns(turns, scores, query, i) && excluded != Some(
            turns[i].session_id,
        ) && evidence == shown(turns[i], scores.combined@[i])
}

/// Nothing is shown but turns that have to do with the query and are not of the session that is
/// left out; and where at least as many turns are asked for as there are, all of these are shown.
pub proof fn answer_shows_what_concerns_the_query(
    turns: Seq<TurnView>,
    query: Seq<char>,
    plan: QueryPlan,
    scores: Scores,
    excluded: Option<Seq<char>>,
    top_k: nat,
    evidence: Seq<EvidenceView>,
)
    requires
        derived(turns),
        turns.len() <= usize::MAX,
        plan.of(turns, turns, query),
        scored_by(scores, plan, turns.len()),
        answers(turns, scores, excluded, top_k, evidence),
    ensures
        forall|p: int|
            0 <= p < evidence.len() ==> shows_concerned_turn(
                turns,
                scores,
                excluded,
                query,
                #[trigger] evidence[p],
            ),
        turns.len() <= top_k ==> forall|e: EvidenceView|
            shows_concerned_turn(turns, scores, excluded, query, e) <==> #[trigger]
                evidence.contains(e),
{
    answer_shows_eligible_turns_only(turns, scores, excluded, top_k, evidence);
    assert forall|p: int| 0 <= p < evidence.len() implies shows_concerned_turn(
        turns,
        scores,
        excluded,
        query,
        #[trigger] evidence[p],
    ) by {
        assert(shows_eligible_turn(turns, scores, excluded, evidence[p]));
        let i = choose|i: int|
            0 <= i < turns.len() && #[trigger] eligible(turns, scores, excluded, i) && evidence[p]
                == shown(turns[i], scores.combined@[i]);
        relevant_turns_concern_the_query(turns, query, plan, scores, i);
        assert(concerns(turns, scores, query, i));
    }
    if turns.len() <= top_k {
        assert forall|e: EvidenceView|
            shows_concerned_turn(turns, scores, excluded, query, e) <==> #[trigger]
                evidence.contains(e) by {
            if shows_concerned_turn(turns, scores, excluded, query, e) {
                let i = choose|i: int|
                    0 <= i < turns.len() && #[trigger] concerns(turns, scores, query, i)
                        && excluded != Some(turns[i].session_id) && e == shown(
                        turns[i],
                        scores.combined@[i],
                    );
                relevant_turns_concern_the_query(turns, query, plan, scores, i);
                full_answer_shows_every_eligible_turn(turns, scores, excluded, top_k, evidence, i);
            }
            if evidence.contains(e) {
                let p = choose|p: int| 0 <= p < evidence.len() && evidence[p] == e;
                assert(shows_concerned_turn(turns, scores, excluded, query, evidence[p]));
            }
        }
    }
}

} // verus!
