//! Taking in turns: which ones are new, which are known, and what is reported of each.

use crate::error::Error;
use crate::text::{blank, is_blank};
use crate::turns::{ingest_views, positions, IngestTurn, IngestTurnView};
use vstd::hash_map::StringHashMap;
use vstd::prelude::*;

verus! {

/// The identity of each turn.
pub open spec fn identities(turns: Seq<IngestTurnView>) -> Seq<Seq<char>> {
    turns.map_values(|t: IngestTurnView| t.identity)
}

/// The positions of the turns that are to be stored: of each identity that is not stored yet, the
/// first turn. `existing` holds, for each turn, the row under which its identity is stored.
pub open spec fn new_positions(ids: Seq<Seq<char>>, existing: Seq<Option<i64>>) -> Seq<int>
    decreases ids.len(),
{
    if ids.len() == 0 {
        Seq::empty()
    } else {
        let before = new_positions(ids.drop_last(), existing);
        let last = ids.len() - 1;
        if existing[last] is None && !identities_at(ids, before).contains(ids[last]) {
            before.push(last)
        } else {
            before
        }
    }
}

/// The identities at some positions.
pub open spec fn identities_at(ids: Seq<Seq<char>>, at: Seq<int>) -> Seq<Seq<char>> {
    at.map_values(|i: int| ids[i])
}

/// The identities that are to be stored.
pub open spec fn new_identities(ids: Seq<Seq<char>>, existing: Seq<Option<i64>>) -> Seq<Seq<char>> {
    identities_at(ids, new_positions(ids, existing))
}

/// What is reported of the turn at `i`, where `rows` are the rows of the turns that were stored:
/// whether it was stored, and its row.
pub open spec fn reported(
    ids: Seq<Seq<char>>,
    existing: Seq<Option<i64>>,
    rows: Seq<i64>,
    i: int,
) -> (bool, i64) {
    match existing[i] {
        Some(row) => (false, row),
        None => (
            new_positions(ids, existing).contains(i),
            rows[new_identities(ids, existing).index_of(ids[i])],
        ),
    }
}

/// What is reported of each turn.
pub open spec fn all_reported(
    ids: Seq<Seq<char>>,
    existing: Seq<Option<i64>>,
    rows: Seq<i64>,
) -> Seq<(bool, i64)> {
    Seq::new(ids.len(), |i: int| reported(ids, existing, rows, i))
}

/// The turns to be stored lie among all, in order; their identities are those of the turns that
/// are not stored yet, and none occurs twice.
pub proof fn new_identities_are_distinct(ids: Seq<Seq<char>>, existing: Seq<Option<i64>>)
    ensures
        new_identities(ids, existing).no_duplicates(),
        forall|k: int|
            0 <= k < new_positions(ids, existing).len() ==> 0 <= #[trigger] new_positions(
                ids,
                existing,
            )[k] < ids.len() && existing[new_positions(ids, existing)[k]] is None,
        forall|k: int, m: int|
            0 <= k < m < new_positions(ids, existing).len() ==> #[trigger] new_positions(
                ids,
                existing,
            )[k] < #[trigger] new_positions(ids, existing)[m],
        forall|i: int|
            0 <= i < ids.len() && existing[i] is None ==> new_identities(ids, existing).contains(
                #[trigger] ids[i],
            ),
    decreases ids.len(),
{
    if ids.len() > 0 {
        let front = ids.drop_last();
        new_identities_are_distinct(front, existing);
        let before = new_positions(front, existing);
        let now = new_positions(ids, existing);
        let last = ids.len() - 1;
        assert(identities_at(front, before) =~= identities_at(ids, before));
        let old_ids = identities_at(ids, before);
        assert(new_identities(front, existing) == old_ids);
        if now.len() > before.len() {
            assert(identities_at(ids, now) =~= old_ids.push(ids[last]));
        }
        assert forall|k: int| 0 <= k < now.len() implies 0 <= #[trigger] now[k] < ids.len()
            && existing[now[k]] is None by {
            if k < before.len() {
                assert(now[k] == before[k]);
            }
        }
        assert forall|k: int, m: int| 0 <= k < m < now.len() implies #[trigger] now[k]
            < #[trigger] now[m] by {
            if m < before.len() {
                assert(before[k] < before[m]);
            } else {
                assert(before[k] < front.len());
            }
        }
        assert forall|i: int| 0 <= i < ids.len() && existing[i] is None implies new_identities(
            ids,
            existing,
        ).contains(#[trigger] ids[i]) by {
            if i < last {
                assert(front[i] == ids[i]);
                assert(old_ids.contains(ids[i]));
                let j = choose|j: int| 0 <= j < old_ids.len() && old_ids[j] == ids[i];
                assert(new_identities(ids, existing)[j] == ids[i]);
            } else if now.len() > before.len() {
                assert(new_identities(ids, existing).last() == ids[i]);
            }
        }
    }
}

/// What becomes of a turn of a batch.
enum Fate {
    /// It is stored already, in this row.
    Known(i64),
    /// It is stored, as this one of the new turns.
    New(usize),
    /// It repeats this one of the new turns.
    Repeat(usize),
}

/// What becomes of each turn of a batch.
pub struct BatchPlan {
    fates: Vec<Fate>,
    candidates: Vec<usize>,
    ids: Ghost<Seq<Seq<char>>>,
    existing: Ghost<Seq<Option<i64>>>,
}

impl BatchPlan {
    /// The identities of the batch.
    pub closed spec fn identities(self) -> Seq<Seq<char>> {
        self.ids@
    }

    /// The rows under which they were stored before.
    pub closed spec fn existing(self) -> Seq<Option<i64>> {
        self.existing@
    }

    spec fn fits(self, i: int) -> bool {
        let ids = self.ids@;
        let new = new_positions(ids, self.existing@);
        match self.fates@[i] {
            Fate::Known(row) => self.existing@[i] == Some(row),
            Fate::New(k) => self.existing@[i] is None && k < new.len() && new[k as int] == i,
            Fate::Repeat(k) => self.existing@[i] is None && k < new.len() && !new.contains(i)
                && ids[new[k as int]] == ids[i],
        }
    }

    /// Whether the plan is the one for its batch.
    pub closed spec fn wf(self) -> bool {
        &&& self.fates.len() == self.ids@.len()
        &&& positions(self.candidates@) == new_positions(self.ids@, self.existing@)
        &&& forall|i: int| 0 <= i < self.fates.len() ==> #[trigger] self.fits(i)
    }

    /// The positions of the turns that are to be stored.
    pub fn candidates(&self) -> (r: &Vec<usize>)
        requires
            self.wf(),
        ensures
            positions(r@) == new_positions(self.identities(), self.existing()),
    {
        &self.candidates
    }

    /// What is reported of each turn, where `rows` are the rows of the turns that were stored.
    pub fn report(&self, rows: &Vec<i64>) -> (r: Vec<(bool, i64)>)
        requires
            self.wf(),
            rows.len() == new_positions(self.identities(), self.existing()).len(),
        ensures
            r@ == all_reported(self.identities(), self.existing(), rows@),
    {
        let ghost ids = self.ids@;
        let ghost existing = self.existing@;
        let ghost new = new_positions(ids, existing);
        let ghost new_ids = new_identities(ids, existing);
        proof {
            new_identities_are_distinct(ids, existing);
        }
        let mut r: Vec<(bool, i64)> = Vec::new();
        let mut i: usize = 0;
        while i < self.fates.len()
            invariant
                i <= self.fates.len(),
                self.wf(),
                ids == self.ids@,
                existing == self.existing@,
                new == new_positions(ids, existing),
                new_ids == new_identities(ids, existing),
                new_ids.no_duplicates(),
                rows.len() == new.len(),
                r.len() == i,
                forall|j: int| 0 <= j < i ==> #[trigger] r@[j] == reported(ids, existing, rows@, j),
            decreases self.fates.len() - i,
        {
            assert(self.fits(i as int));
            let outcome: (bool, i64) = match &self.fates[i] {
                Fate::Known(row) => (false, *row),
                Fate::New(k) => {
                    proof {
                        assert(new[*k as int] == i);
                        assert(new.contains(i as int));
                        assert(new_ids[*k as int] == ids[i as int]);
                        only_index(new_ids, *k as int);
                    }
                    (true, rows[*k])
                },
                Fate::Repeat(k) => {
                    proof {
                        assert(new_ids[*k as int] == ids[i as int]);
                        only_index(new_ids, *k as int);
                    }
                    (false, rows[*k])
                },
            };
            r.push(outcome);
            i = i + 1;
        }
        assert(r@ =~= all_reported(ids, existing, rows@));
        r
    }
}

/// Where nothing repeats, an element is found at its one place.
pub proof fn only_index<T>(s: Seq<T>, k: int)
    requires
        s.no_duplicates(),
        0 <= k < s.len(),
    ensures
        s.index_of(s[k]) == k,
{
    let j = s.index_of(s[k]);
    assert(0 <= j < s.len() && s[j] == s[k]);
}

/// Whether some turn of a batch has no text.
pub open spec fn some_blank(turns: Seq<IngestTurnView>) -> bool {
    exists|i: int| 0 <= i < turns.len() && blank((#[trigger] turns[i]).text)
}

/// Refuses a turn without text.
pub fn check_turn(turn: &IngestTurn) -> (r: Result<(), Error>)
    ensures
        r == if blank(turn.text@) {
            Err::<(), Error>(Error::EmptyTurn)
        } else {
            Ok(())
        },
{
    if is_blank(turn.text.as_str()) {
        Err(Error::EmptyTurn)
    } else {
        Ok(())
    }
}

/// What becomes of each of `turns`, where `existing` holds the rows under which their identities
/// are stored already. A batch with a turn without text is refused as a whole.
pub fn plan_batch(turns: &[IngestTurn], existing: &[Option<i64>]) -> (r: Result<
    BatchPlan,
    Error,
>)
    requires
        existing.len() == turns.len(),
    ensures
        match r {
            Ok(plan) => !some_blank(ingest_views(turns@)) && plan.wf() && plan.identities()
                == identities(ingest_views(turns@)) && plan.existing() == existing@,
            Err(error) => some_blank(ingest_views(turns@)) && error is EmptyTurn,
        },
{
    let ghost views = ingest_views(turns@);
    let ghost ids = identities(views);
    let mut fates: Vec<Fate> = Vec::new();
    let mut candidates: Vec<usize> = Vec::new();
    let mut pending: StringHashMap<usize> = StringHashMap::new();
    let mut i: usize = 0;
    assert(positions(candidates@) =~= Seq::empty());
    assert(identities_at(ids, Seq::empty()) =~= Seq::empty());
    while i < turns.len()
        invariant
            i <= turns.len(),
            existing.len() == turns.len(),
            views == ingest_views(turns@),
            ids == identities(views),
            forall|j: int| 0 <= j < i ==> !blank((#[trigger] views[j]).text),
            fates.len() == i,
            positions(candidates@) == new_positions(ids.take(i as int), existing@),
            forall|k: int| 0 <= k < candidates.len() ==> #[trigger] candidates@[k] < i,
            forall|j: int|
                0 <= j < i ==> match #[trigger] fates@[j] {
                    Fate::Known(row) => existing@[j] == Some(row),
                    Fate::New(k) => existing@[j] is None && k < candidates.len()
                        && candidates@[k as int] == j,
                    Fate::Repeat(k) => existing@[j] is None && k < candidates.len()
                        && candidates@[k as int] < j && ids[candidates@[k as int] as int]
                        == ids[j] && !positions(candidates@).contains(j),
                },
            forall|s: Seq<char>| #[trigger]
                pending@.contains_key(s) <==> identities_at(ids, positions(candidates@)).contains(
                    s,
                ),
            forall|s: Seq<char>| #[trigger]
                pending@.contains_key(s) ==> pending@[s] < candidates.len()
                    && ids[candidates@[pending@[s] as int] as int] == s,
        decreases turns.len() - i,
    {
        let turn = &turns[i];
        let ghost before = positions(candidates@);
        let ghost id = turn.identity@;
        proof {
            assert(views[i as int] == turn@);
            assert(ids[i as int] == id);
            assert(ids.take(i + 1).drop_last() =~= ids.take(i as int));
            assert(ids.take(i + 1)[i as int] == id);
            assert forall|k: int| 0 <= k < before.len() implies 0 <= #[trigger] before[k] < i by {
                assert(before[k] == candidates@[k]);
            }
            assert(identities_at(ids.take(i + 1), before) =~= identities_at(ids, before));
            assert(!before.contains(i as int));
        }
        match check_turn(turn) {
            Err(error) => {
                assert(blank(views[i as int].text));
                return Err(error);
            },
            Ok(()) => {},
        }
        match existing[i] {
            Some(row) => {
                fates.push(Fate::Known(row));
            },
            None => {
                let found: Option<usize> = match pending.get(turn.identity.as_str()) {
                    Some(k) => Some(*k),
                    None => None,
                };
                match found {
                    Some(k) => {
                        assert(before[k as int] == candidates@[k as int]);
                        fates.push(Fate::Repeat(k));
                    },
                    None => {
                        let k = candidates.len();
                        pending.insert(turn.identity.clone(), k);
                        candidates.push(i);
                        fates.push(Fate::New(k));
                        proof {
                            let now = positions(candidates@);
                            assert(now =~= before.push(i as int));
                            let old_ids = identities_at(ids, before);
                            assert(identities_at(ids, now) =~= old_ids.push(id));
                            assert forall|s: Seq<char>| #[trigger]
                                pending@.contains_key(s) <==> identities_at(ids, now).contains(
                                    s,
                                ) by {
                                if old_ids.contains(s) {
                                    let j = choose|j: int| 0 <= j < old_ids.len() && old_ids[j] == s;
                                    assert(old_ids.push(id)[j] == s);
                                }
                                if old_ids.push(id).contains(s) && s != id {
                                    let grown = old_ids.push(id);
                                    let j = choose|j: int| 0 <= j < grown.len() && grown[j] == s;
                                    assert(old_ids[j] == s);
                                }
                                if s == id {
                                    assert(old_ids.push(id).last() == s);
                                }
                            }
                            assert forall|j: int| 0 <= j < i && !before.contains(j) implies !(
                            #[trigger] now.contains(j)) by {
                                if now.contains(j) {
                                    let k = choose|k: int| 0 <= k < now.len() && now[k] == j;
                                    assert(before[k] == j);
                                }
                            }
                        }
                    },
                }
            },
        }
        i = i + 1;
    }
    assert(ids.take(i as int) =~= ids);
    let plan = BatchPlan { fates, candidates, ids: Ghost(ids), existing: Ghost(existing@) };
    proof {
        let new = new_positions(ids, existing@);
        assert forall|j: int| 0 <= j < plan.fates.len() implies #[trigger] plan.fits(j) by {
            match plan.fates@[j] {
                Fate::Known(row) => {},
                Fate::New(k) => {
                    assert(new[k as int] == plan.candidates@[k as int]);
                },
                Fate::Repeat(k) => {
                    assert(new[k as int] == plan.candidates@[k as int]);
                },
            }
        }
    }
    Ok(plan)
}

/// The number of turns that were stored and of those that were not, by what is reported of each.
pub fn batch_counts(results: &Vec<(bool, i64)>) -> (r: (usize, usize))
    ensures
        r.0 == ingested(results@),
        r.0 + r.1 == results.len(),
{
    let mut count: usize = 0;
    let mut i: usize = 0;
    while i < results.len()
        invariant
            i <= results.len(),
            count <= i,
            count == ingested(results@.take(i as int)),
        decreases results.len() - i,
    {
        assert(results@.take(i + 1).drop_last() =~= results@.take(i as int));
        if results[i].0 {
            count = count + 1;
        }
        i = i + 1;
    }
    assert(results@.take(i as int) =~= results@);
    (count, results.len() - count)
}

/// The number of turns that were stored.
pub open spec fn ingested(results: Seq<(bool, i64)>) -> nat
    decreases results.len(),
{
    if results.len() == 0 {
        0
    } else {
        ingested(results.drop_last()) + if results.last().0 {
            1nat
        } else {
            0nat
        }
    }
}

/// A turn is stored exactly when its identity is not stored yet and no turn before it in the batch
/// brings the same one.
pub proof fn first_turns_of_new_identities_are_stored(
    ids: Seq<Seq<char>>,
    existing: Seq<Option<i64>>,
    i: int,
)
    ensures
        new_positions(ids, existing).contains(i) <==> {
            &&& 0 <= i < ids.len()
            &&& existing[i] is None
            &&& forall|j: int| 0 <= j < i && existing[j] is None ==> #[trigger] ids[j] != ids[i]
        },
    decreases ids.len(),
{
    let now = new_positions(ids, existing);
    if ids.len() > 0 {
        let front = ids.drop_last();
        let last = ids.len() - 1;
        let before = new_positions(front, existing);
        first_turns_of_new_identities_are_stored(front, existing, i);
        new_identities_are_distinct(front, existing);
        assert(identities_at(front, before) =~= identities_at(ids, before));
        let taken = identities_at(ids, before);
        if before.contains(i) {
            let k = choose|k: int| 0 <= k < before.len() && before[k] == i;
            assert(now[k] == i);
            assert(0 <= before[k] < front.len());
            assert forall|j: int| 0 <= j < i && existing[j] is None implies #[trigger] ids[j]
                != ids[i] by {
                assert(front[j] == ids[j] && front[i] == ids[i]);
            }
        }
        if now.contains(i) && !before.contains(i) {
            let k = choose|k: int| 0 <= k < now.len() && now[k] == i;
            if k < before.len() {
                assert(before[k] == i);
            }
            assert(i == last);
            assert forall|j: int| 0 <= j < i && existing[j] is None implies #[trigger] ids[j]
                != ids[i] by {
                assert(front[j] == ids[j]);
                assert(new_identities(front, existing).contains(front[j]));
            }
        }
        if 0 <= i < ids.len() && existing[i] is None && (forall|j: int|
            0 <= j < i && existing[j] is None ==> #[trigger] ids[j] != ids[i]) {
            if i < last {
                assert forall|j: int| 0 <= j < i && existing[j] is None implies #[trigger] front[j]
                    != front[i] by {
                    assert(ids[j] != ids[i]);
                }
            } else {
                if taken.contains(ids[last]) {
                    let k = choose|k: int| 0 <= k < taken.len() && taken[k] == ids[last];
                    assert(0 <= before[k] < front.len() && existing[before[k]] is None);
                    assert(ids[before[k]] != ids[i]);
                }
                assert(now.last() == last);
                assert(now[now.len() - 1] == i);
            }
        }
    }
}

/// What is reported of each turn: of one whose identity was stored, that row; of any other the row of
/// the turn that was stored with its identity, and that it was stored exactly when it is that turn.
pub proof fn reports_name_the_rows(
    ids: Seq<Seq<char>>,
    existing: Seq<Option<i64>>,
    rows: Seq<i64>,
    i: int,
)
    requires
        0 <= i < ids.len(),
    ensures
        all_reported(ids, existing, rows).len() == ids.len(),
        existing[i] is Some ==> all_reported(ids, existing, rows)[i] == (false, existing[i]->0),
        existing[i] is None ==> exists|k: int|
            0 <= k < new_positions(ids, existing).len() && ids[#[trigger] new_positions(
                ids,
                existing,
            )[k]] == ids[i] && all_reported(ids, existing, rows)[i] == (
                new_positions(ids, existing)[k] == i,
                rows[k],
            ),
{
    if existing[i] is None {
        let new = new_positions(ids, existing);
        let new_ids = new_identities(ids, existing);
        new_identities_are_distinct(ids, existing);
        assert(new_ids.contains(ids[i]));
        let k = new_ids.index_of(ids[i]);
        assert(0 <= k < new_ids.len() && new_ids[k] == ids[i]);
        assert(ids[new[k]] == ids[i]);
        if new.contains(i) {
            let m = choose|m: int| 0 <= m < new.len() && new[m] == i;
            assert(new_ids[m] == ids[i]);
            assert(m == k);
        }
        if new[k] == i {
            assert(new.contains(i));
        }
    }
}

/// A batch is refused exactly when the text of one of its turns, wherever it stands, is blank: one
/// batch after another is refused exactly when one of the two is.
pub proof fn any_blank_turn_refuses_its_batch(
    a: Seq<IngestTurnView>,
    b: Seq<IngestTurnView>,
    turn: IngestTurnView,
)
    ensures
        some_blank(a + b) <==> some_blank(a) || some_blank(b),
        some_blank(seq![turn]) <==> blank(turn.text),
        !some_blank(Seq::empty()),
{
    let all = a + b;
    if some_blank(a) {
        let i = choose|i: int| 0 <= i < a.len() && blank((#[trigger] a[i]).text);
        assert(blank(all[i].text));
    }
    if some_blank(b) {
        let i = choose|i: int| 0 <= i < b.len() && blank((#[trigger] b[i]).text);
        assert(blank(all[a.len() + i].text));
    }
    if some_blank(all) {
        let i = choose|i: int| 0 <= i < all.len() && blank((#[trigger] all[i]).text);
        if i < a.len() {
            assert(blank(a[i].text));
        } else {
            assert(blank(b[i - a.len()].text));
        }
    }
    let one = seq![turn];
    assert(one[0] == turn);
    if blank(turn.text) {
        assert(blank(one[0].text));
    }
}

/// The turns that were stored are those of which it is reported so.
pub proof fn stored_turns_are_counted(results: Seq<(bool, i64)>)
    ensures
        ingested(results) == results.filter(|r: (bool, i64)| r.0).len(),
    decreases results.len(),
{
    reveal(Seq::filter);
    if results.len() > 0 {
        stored_turns_are_counted(results.drop_last());
    }
}

/// A batch has the identities of its turns, in order.
pub proof fn identities_are_those_of_the_turns(turns: Seq<IngestTurnView>, i: int)
    requires
        0 <= i < turns.len(),
    ensures
        identities(turns).len() == turns.len(),
        identities(turns)[i] == turns[i].identity,
{
}

} // verus!
