//! The counts behind the lexical score: how often the tokens of a query occur in which turns.

use crate::seqs::{
    contains_string, occurrences, occurrences_are_the_equal_elements, occurrences_count_membership,
};
use crate::text::{same_text, texts};
use crate::turns::{turn_views, Turn, TurnView};
use vstd::prelude::*;

verus! {

/// The number of tokens of all turns together.
pub open spec fn total_tokens(turns: Seq<TurnView>) -> nat
    decreases turns.len(),
{
    if turns.len() == 0 {
        0
    } else {
        total_tokens(turns.drop_last()) + turns.last().tokens.len()
    }
}

/// The number of turns in which a token occurs.
pub open spec fn document_frequency(turns: Seq<TurnView>, token: Seq<char>) -> nat
    decreases turns.len(),
{
    if turns.len() == 0 {
        0
    } else {
        document_frequency(turns.drop_last(), token) + if turns.last().tokens.contains(token) {
            1nat
        } else {
            0nat
        }
    }
}

/// Counts of the tokens of a query in some turns.
pub struct LexicalCounts {
    /// The number of tokens of all turns together.
    pub total_tokens: u128,
    /// For each token of the query, the number of turns in which it occurs.
    pub documents: Vec<usize>,
    /// For each turn, the number of its tokens.
    pub lengths: Vec<usize>,
    /// For each turn, how often each token of the query occurs in it.
    pub frequencies: Vec<Vec<usize>>,
}

impl LexicalCounts {
    /// Whether these are the counts of the tokens `query` in `turns`.
    pub open spec fn of(self, turns: Seq<TurnView>, query: Seq<Seq<char>>) -> bool {
        &&& self.total_tokens == total_tokens(turns)
        &&& self.documents.len() == query.len()
        &&& forall|q: int|
            0 <= q < query.len() ==> #[trigger] self.documents@[q] == document_frequency(
                turns,
                query[q],
            )
        &&& self.lengths.len() == turns.len()
        &&& forall|i: int|
            0 <= i < turns.len() ==> #[trigger] self.lengths@[i] == turns[i].tokens.len()
        &&& self.frequencies.len() == turns.len()
        &&& forall|i: int|
            0 <= i < turns.len() ==> (#[trigger] self.frequencies@[i]).len() == query.len()
        &&& forall|i: int, q: int|
            0 <= i < turns.len() && 0 <= q < query.len() ==> #[trigger] self.frequencies@[i]@[q]
                == occurrences(turns[i].tokens, query[q])
    }
}

/// How often `text` occurs in `list`.
pub fn count_string(list: &Vec<String>, text: &str) -> (r: usize)
    ensures
        r == occurrences(texts(list@), text@),
{
    let ghost all = texts(list@);
    let mut r: usize = 0;
    let mut i: usize = 0;
    while i < list.len()
        invariant
            i <= list.len(),
            all == texts(list@),
            r <= i,
            r == occurrences(all.take(i as int), text@),
        decreases list.len() - i,
    {
        proof {
            assert(all.take(i + 1).drop_last() =~= all.take(i as int));
            assert(all.take(i + 1).last() == list@[i as int]@);
        }
        if same_text(list[i].as_str(), text) {
            r = r + 1;
        }
        i = i + 1;
    }
    assert(all.take(i as int) =~= all);
    r
}

/// The number of `turns` in which `token` occurs.
pub fn count_documents(turns: &Vec<Turn>, token: &str) -> (r: usize)
    ensures
        r == document_frequency(turn_views(turns@), token@),
{
    let ghost all = turn_views(turns@);
    let mut r: usize = 0;
    let mut i: usize = 0;
    while i < turns.len()
        invariant
            i <= turns.len(),
            all == turn_views(turns@),
            r <= i,
            r == document_frequency(all.take(i as int), token@),
        decreases turns.len() - i,
    {
        proof {
            assert(all.take(i + 1).drop_last() =~= all.take(i as int));
            assert(all.take(i + 1).last() == turns@[i as int]@);
        }
        if contains_string(&turns[i].tokens, token) {
            r = r + 1;
        }
        i = i + 1;
    }
    assert(all.take(i as int) =~= all);
    r
}

/// The counts of the tokens `query` in `turns`.
pub fn lexical_counts(turns: &Vec<Turn>, query: &Vec<String>) -> (r: LexicalCounts)
    ensures
        r.of(turn_views(turns@), texts(query@)),
{
    let ghost all = turn_views(turns@);
    let ghost wanted = texts(query@);
    let mut documents: Vec<usize> = Vec::new();
    let mut q: usize = 0;
    while q < query.len()
        invariant
            q <= query.len(),
            all == turn_views(turns@),
            wanted == texts(query@),
            documents.len() == q,
            forall|p: int|
                0 <= p < q ==> #[trigger] documents@[p] == document_frequency(all, wanted[p]),
        decreases query.len() - q,
    {
        documents.push(count_documents(turns, query[q].as_str()));
        q = q + 1;
    }
    let mut total: u128 = 0;
    let mut lengths: Vec<usize> = Vec::new();
    let mut frequencies: Vec<Vec<usize>> = Vec::new();
    let mut i: usize = 0;
    while i < turns.len()
        invariant
            i <= turns.len(),
            all == turn_views(turns@),
            wanted == texts(query@),
            total == total_tokens(all.take(i as int)),
            total <= i * 0xffff_ffff_ffff_ffff,
            lengths.len() == i,
            frequencies.len() == i,
            forall|j: int| 0 <= j < i ==> #[trigger] lengths@[j] == all[j].tokens.len(),
            forall|j: int| 0 <= j < i ==> (#[trigger] frequencies@[j]).len() == wanted.len(),
            forall|j: int, p: int|
                0 <= j < i && 0 <= p < wanted.len() ==> #[trigger] frequencies@[j]@[p]
                    == occurrences(all[j].tokens, wanted[p]),
        decreases turns.len() - i,
    {
        let tokens = &turns[i].tokens;
        proof {
            assert(all.take(i + 1).drop_last() =~= all.take(i as int));
            assert(all.take(i + 1).last() == all[i as int]);
            assert(all[i as int].tokens == texts(tokens@));
        }
        let mut row: Vec<usize> = Vec::new();
        let mut p: usize = 0;
        while p < query.len()
            invariant
                p <= query.len(),
                wanted == texts(query@),
                row.len() == p,
                forall|k: int|
                    0 <= k < p ==> #[trigger] row@[k] == occurrences(texts(tokens@), wanted[k]),
            decreases query.len() - p,
        {
            row.push(count_string(tokens, query[p].as_str()));
            p = p + 1;
        }
        total = total + tokens.len() as u128;
        lengths.push(tokens.len());
        let ghost before = frequencies@;
        frequencies.push(row);
        i = i + 1;
        assert forall|j: int, p: int|
            0 <= j < i && 0 <= p < wanted.len() implies #[trigger] frequencies@[j]@[p]
            == occurrences(all[j].tokens, wanted[p]) by {
            if j < i - 1 {
                assert(frequencies@[j] == before[j]);
            }
        }
    }
    assert(all.take(i as int) =~= all);
    LexicalCounts { total_tokens: total, documents, lengths, frequencies }
}

/// A token occurs in at least one turn exactly when some turn has it, and in no more turns than
/// there are.
pub proof fn document_frequency_counts_turns(turns: Seq<TurnView>, token: Seq<char>)
    ensures
        document_frequency(turns, token) <= turns.len(),
        document_frequency(turns, token) > 0 <==> exists|i: int|
            0 <= i < turns.len() && occurrences((#[trigger] turns[i]).tokens, token) > 0,
    decreases turns.len(),
{
    if turns.len() > 0 {
        let front = turns.drop_last();
        document_frequency_counts_turns(front, token);
        occurrences_count_membership(turns.last().tokens, token);
        if document_frequency(turns, token) > 0 {
            if turns.last().tokens.contains(token) {
                assert(occurrences(turns[turns.len() - 1].tokens, token) > 0);
            } else {
                let i = choose|i: int|
                    0 <= i < front.len() && occurrences((#[trigger] front[i]).tokens, token) > 0;
                assert(occurrences(turns[i].tokens, token) > 0);
            }
        }
        if exists|i: int|
            0 <= i < turns.len() && occurrences((#[trigger] turns[i]).tokens, token) > 0 {
            let i = choose|i: int|
                0 <= i < turns.len() && occurrences((#[trigger] turns[i]).tokens, token) > 0;
            if i < front.len() {
                assert(occurrences(front[i].tokens, token) > 0);
            }
        }
    }
}

/// The turns in which a token occurs are counted one by one: the document frequency is the number
/// of all turns that have it.
pub proof fn document_frequency_is_the_number_of_turns(turns: Seq<TurnView>, token: Seq<char>)
    ensures
        document_frequency(turns, token) == turns.filter(
            |t: TurnView| t.tokens.contains(token),
        ).len(),
    decreases turns.len(),
{
    reveal(Seq::filter);
    if turns.len() > 0 {
        document_frequency_is_the_number_of_turns(turns.drop_last(), token);
    }
}

/// Over the turns of two memories together a token occurs in as many as in both, and in a single
/// turn it occurs once or not at all.
pub proof fn document_frequencies_add_up(
    a: Seq<TurnView>,
    b: Seq<TurnView>,
    turn: TurnView,
    token: Seq<char>,
)
    ensures
        document_frequency(a + b, token) == document_frequency(a, token) + document_frequency(
            b,
            token,
        ),
        document_frequency(seq![turn], token) == if turn.tokens.contains(token) {
            1nat
        } else {
            0nat
        },
    decreases b.len(),
{
    let one = seq![turn];
    assert(one.drop_last() =~= Seq::empty());
    assert(document_frequency(one.drop_last(), token) == 0);
    assert(one.last() == turn);
    if b.len() == 0 {
        assert(a + b =~= a);
    } else {
        assert((a + b).drop_last() =~= a + b.drop_last());
        document_frequencies_add_up(a, b.drop_last(), turn, token);
    }
}

/// The tokens of all turns are counted: one turn more adds all of its own.
pub proof fn all_tokens_are_counted(a: Seq<TurnView>, b: Seq<TurnView>, turn: TurnView)
    ensures
        total_tokens(a + b) == total_tokens(a) + total_tokens(b),
        total_tokens(seq![turn]) == turn.tokens.len(),
        total_tokens(Seq::empty()) == 0,
    decreases b.len(),
{
    let one = seq![turn];
    assert(one.drop_last() =~= Seq::empty());
    assert(total_tokens(one.drop_last()) == 0);
    if b.len() == 0 {
        assert(a + b =~= a);
    } else {
        assert((a + b).drop_last() =~= a + b.drop_last());
        all_tokens_are_counted(a, b.drop_last(), turn);
    }
}

/// What is counted for a query: for each of its tokens the turns that have it, and for each turn its
/// length and how many of its tokens are each of those of the query.
pub proof fn counts_are_of_every_turn_and_token(
    counts: LexicalCounts,
    turns: Seq<TurnView>,
    query: Seq<Seq<char>>,
    i: int,
    q: int,
)
    requires
        counts.of(turns, query),
        0 <= i < turns.len(),
        0 <= q < query.len(),
    ensures
        counts.lengths.len() == turns.len(),
        counts.frequencies.len() == turns.len(),
        counts.documents.len() == query.len(),
        counts.frequencies@[i].len() == query.len(),
        counts.lengths@[i] == turns[i].tokens.len(),
        counts.frequencies@[i]@[q] == turns[i].tokens.filter(|t: Seq<char>| t == query[q]).len(),
        counts.documents@[q] == turns.filter(|t: TurnView| t.tokens.contains(query[q])).len(),
{
    assert(counts.lengths@[i] == turns[i].tokens.len());
    assert(counts.frequencies@[i].len() == query.len());
    assert(counts.frequencies@[i]@[q] == occurrences(turns[i].tokens, query[q]));
    occurrences_are_the_equal_elements(turns[i].tokens, query[q]);
    assert(counts.documents@[q] == document_frequency(turns, query[q]));
    document_frequency_is_the_number_of_turns(turns, query[q]);
}

/// There are as many counts as turns and tokens, and the total is that of the lengths.
pub proof fn counts_are_as_many_as_turns_and_tokens(
    counts: LexicalCounts,
    turns: Seq<TurnView>,
    query: Seq<Seq<char>>,
)
    requires
        counts.of(turns, query),
    ensures
        counts.lengths.len() == turns.len(),
        counts.frequencies.len() == turns.len(),
        counts.documents.len() == query.len(),
        counts.total_tokens == counts.lengths@.fold_left(0int, |sum: int, n: usize| sum + n),
{
    total_is_the_sum_of_lengths(turns, counts.lengths@);
}

proof fn total_is_the_sum_of_lengths(turns: Seq<TurnView>, lengths: Seq<usize>)
    requires
        lengths.len() == turns.len(),
        forall|i: int| 0 <= i < turns.len() ==> #[trigger] lengths[i] == turns[i].tokens.len(),
    ensures
        total_tokens(turns) == lengths.fold_left(0int, |sum: int, n: usize| sum + n),
    decreases turns.len(),
{
    if turns.len() > 0 {
        let front = turns.drop_last();
        let fewer = lengths.drop_last();
        assert forall|i: int| 0 <= i < front.len() implies #[trigger] fewer[i]
            == front[i].tokens.len() by {
            assert(lengths[i] == turns[i].tokens.len());
        }
        total_is_the_sum_of_lengths(front, fewer);
        assert(lengths[turns.len() - 1] == turns[turns.len() - 1].tokens.len());
    }
}

} // verus!
