//! The graph of entities: which turns hold an entity, and which entities occur together.

use crate::seqs::{
    distinct, distinct_keeps_each_element_once, distinct_of_distinct, occurrences,
    occurrences_count_membership, occurrences_of_concat,
};
use crate::tally::Tally;
use crate::text::texts;
use crate::turns::{positions, turn_views, Turn, TurnView};
use vstd::prelude::*;

verus! {

/// Whether no turn has an entity twice.
pub open spec fn entities_distinct(turns: Seq<TurnView>) -> bool {
    forall|i: int| 0 <= i < turns.len() ==> (#[trigger] turns[i]).entities.no_duplicates()
}

/// The entities of all turns, one turn after the other.
pub open spec fn all_entities(turns: Seq<TurnView>) -> Seq<Seq<char>>
    decreases turns.len(),
{
    if turns.len() == 0 {
        Seq::empty()
    } else {
        all_entities(turns.drop_last()) + turns.last().entities
    }
}

/// The different entities, in the order in which each first occurs.
pub open spec fn entity_names(turns: Seq<TurnView>) -> Seq<Seq<char>> {
    distinct(all_entities(turns))
}

/// The positions of the turns that hold an entity, in order.
pub open spec fn entity_positions(turns: Seq<TurnView>, entity: Seq<char>) -> Seq<int>
    decreases turns.len(),
{
    if turns.len() == 0 {
        Seq::empty()
    } else {
        let before = entity_positions(turns.drop_last(), entity);
        if turns.last().entities.contains(entity) {
            before.push(turns.len() - 1)
        } else {
            before
        }
    }
}

/// The entities but one.
pub open spec fn others(entities: Seq<Seq<char>>, entity: Seq<char>) -> Seq<Seq<char>> {
    entities.filter(|x: Seq<char>| x != entity)
}

/// The other entities of the turns that hold an entity, one turn after the other.
pub open spec fn companions(turns: Seq<TurnView>, entity: Seq<char>) -> Seq<Seq<char>>
    decreases turns.len(),
{
    if turns.len() == 0 {
        Seq::empty()
    } else {
        let before = companions(turns.drop_last(), entity);
        if turns.last().entities.contains(entity) {
            before + others(turns.last().entities, entity)
        } else {
            before
        }
    }
}

/// The neighbours of an entity: the entities that occur in a turn with it, in the order in which
/// each first does.
pub open spec fn neighbors(turns: Seq<TurnView>, entity: Seq<char>) -> Seq<Seq<char>> {
    distinct(companions(turns, entity))
}

/// The weight of the edge from an entity to another: how often the other occurs in a turn with it.
pub open spec fn edge_weight(turns: Seq<TurnView>, from: Seq<char>, to: Seq<char>) -> nat {
    occurrences(companions(turns, from), to)
}

/// An entity of the graph.
struct EntityNode {
    turns: Vec<usize>,
    neighbors: Tally,
}

impl EntityNode {
    spec fn of(self, turns: Seq<TurnView>, entity: Seq<char>) -> bool {
        &&& self.neighbors.wf()
        &&& positions(self.turns@) == entity_positions(turns, entity)
        &&& self.neighbors@ == companions(turns, entity)
    }

    /// Notes that the turn at `index`, which has these `entities`, holds the one at `own`.
    fn note(&mut self, index: usize, entities: &Vec<String>, own: usize)
        requires
            old(self).neighbors.wf(),
            own < entities.len(),
            texts(entities@).no_duplicates(),
            forall|x: Seq<char>| #[trigger] occurrences(old(self).neighbors@, x) < usize::MAX,
        ensures
            final(self).neighbors.wf(),
            positions(final(self).turns@) == positions(old(self).turns@).push(index as int),
            final(self).neighbors@ == old(self).neighbors@ + others(
                texts(entities@),
                texts(entities@)[own as int],
            ),
    {
        let ghost all = texts(entities@);
        let ghost entity = all[own as int];
        let ghost start = self.neighbors@;
        let ghost old_turns = self.turns@;
        self.turns.push(index);
        assert(positions(self.turns@) =~= positions(old_turns).push(index as int));
        let mut r: usize = 0;
        proof {
            others_step(Seq::empty(), entity, entity);
            assert(all.take(0) =~= Seq::empty());
            assert(start + others(all.take(0), entity) =~= start);
        }
        while r < entities.len()
            invariant
                r <= entities.len(),
                own < entities.len(),
                all == texts(entities@),
                all.no_duplicates(),
                entity == all[own as int],
                forall|x: Seq<char>| #[trigger] occurrences(start, x) < usize::MAX,
                positions(self.turns@) == positions(old_turns).push(index as int),
                self.neighbors.wf(),
                self.neighbors@ == start + others(all.take(r as int), entity),
            decreases entities.len() - r,
        {
            let ghost x = all[r as int];
            let ghost part = all.take(r as int);
            proof {
                assert(all.take(r + 1) =~= part.push(x));
                others_step(part, entity, x);
            }
            if r != own {
                proof {
                    assert(all[r as int] != all[own as int]);
                    assert(part.no_duplicates());
                    others_distinct(part, entity);
                    if part.contains(x) {
                        let j = choose|j: int| 0 <= j < part.len() && part[j] == x;
                        assert(all[j] == all[r as int]);
                    }
                    occurrences_of_concat(start, others(part, entity), x);
                    occurrences_count_membership(others(part, entity), x);
                    assert(occurrences(start, x) < usize::MAX);
                }
                self.neighbors.count(entities[r].as_str());
                assert(self.neighbors@ =~= start + others(part, entity).push(x));
            }
            r = r + 1;
        }
        assert(all.take(r as int) =~= all);
    }
}

/// The entities of some turns and how they occur together. It stands for these turns.
pub struct EntityIndex {
    names: Tally,
    nodes: Vec<EntityNode>,
    source: Ghost<Seq<TurnView>>,
}

impl View for EntityIndex {
    type V = Seq<TurnView>;

    closed spec fn view(&self) -> Seq<TurnView> {
        self.source@
    }
}

impl EntityIndex {
    /// Whether this is the graph of the turns that it stands for.
    pub closed spec fn wf(self) -> bool {
        self.describes(self@)
    }

    spec fn describes(self, turns: Seq<TurnView>) -> bool {
        &&& self.names.wf()
        &&& self.names@ == entity_names(turns)
        &&& self.nodes.len() == self.names@.len()
        &&& forall|k: int| 0 <= k < self.nodes.len() ==> (#[trigger] self.nodes@[k]).of(
            turns,
            self.names@[k],
        )
    }

    /// Whether this is the graph of the turns `before`, and of the turns `now`, which are one more,
    /// as far as the entities of the last one that are noted.
    spec fn partly(
        self,
        before: Seq<TurnView>,
        now: Seq<TurnView>,
        noted: Seq<Seq<char>>,
    ) -> bool {
        &&& self.names.wf()
        &&& self.names@ == distinct(all_entities(before) + noted)
        &&& self.nodes.len() == self.names@.len()
        &&& forall|k: int| 0 <= k < self.nodes.len() ==> (#[trigger] self.nodes@[k]).of(
            if noted.contains(self.names@[k]) {
                now
            } else {
                before
            },
            self.names@[k],
        )
    }
}

/// An entity that no turn has has no turns and no companions.
proof fn unknown_entity(turns: Seq<TurnView>, entity: Seq<char>)
    requires
        !all_entities(turns).contains(entity),
    ensures
        entity_positions(turns, entity) == Seq::<int>::empty(),
        companions(turns, entity) == Seq::<Seq<char>>::empty(),
    decreases turns.len(),
{
    if turns.len() > 0 {
        let front = all_entities(turns.drop_last());
        let last = turns.last().entities;
        if front.contains(entity) {
            let i = choose|i: int| 0 <= i < front.len() && front[i] == entity;
            assert((front + last)[i] == entity);
        }
        if last.contains(entity) {
            let i = choose|i: int| 0 <= i < last.len() && last[i] == entity;
            assert((front + last)[front.len() + i] == entity);
        }
        unknown_entity(turns.drop_last(), entity);
    }
}

/// One more entity is among the others unless it is the one that is left out.
proof fn others_step(entities: Seq<Seq<char>>, entity: Seq<char>, next: Seq<char>)
    ensures
        others(Seq::empty(), entity) == Seq::<Seq<char>>::empty(),
        others(entities.push(next), entity) == if next != entity {
            others(entities, entity).push(next)
        } else {
            others(entities, entity)
        },
{
    reveal(Seq::filter);
    assert(entities.push(next).drop_last() =~= entities);
}

/// Filtering leaves no repetitions where there were none.
proof fn others_distinct(entities: Seq<Seq<char>>, entity: Seq<char>)
    requires
        entities.no_duplicates(),
    ensures
        others(entities, entity).no_duplicates(),
        forall|x: Seq<char>| #[trigger]
            others(entities, entity).contains(x) <==> entities.contains(x) && x != entity,
    decreases entities.len(),
{
    let keep = |x: Seq<char>| x != entity;
    reveal(Seq::filter);
    if entities.len() > 0 {
        let front = entities.drop_last();
        let last = entities.last();
        assert forall|i: int, j: int|
            0 <= i < front.len() && 0 <= j < front.len() && i != j implies front[i] != front[j] by {
            assert(entities[i] != entities[j]);
        }
        others_distinct(front, entity);
        let before = others(front, entity);
        let now = others(entities, entity);
        assert(!front.contains(last)) by {
            if front.contains(last) {
                let i = choose|i: int| 0 <= i < front.len() && front[i] == last;
                assert(entities[i] == entities[entities.len() - 1]);
            }
        }
        assert(!before.contains(last));
        assert forall|x: Seq<char>| #[trigger] now.contains(x) <==> entities.contains(x) && x
            != entity by {
            if entities.contains(x) && x != entity {
                let i = choose|i: int| 0 <= i < entities.len() && entities[i] == x;
                if i < front.len() {
                    assert(front[i] == x);
                    assert(before.contains(x));
                    let j = choose|j: int| 0 <= j < before.len() && before[j] == x;
                    assert(now[j] == x);
                } else {
                    assert(now.last() == x);
                }
            }
            if now.contains(x) {
                let j = choose|j: int| 0 <= j < now.len() && now[j] == x;
                if j < before.len() {
                    assert(before[j] == x);
                    assert(before.contains(x));
                    let i = choose|i: int| 0 <= i < front.len() && front[i] == x;
                    assert(entities[i] == x);
                } else {
                    assert(entities[entities.len() - 1] == x);
                }
            }
        }
    }
}

/// The number of turns that hold both of two entities.
pub open spec fn turns_with_both(turns: Seq<TurnView>, a: Seq<char>, b: Seq<char>) -> nat
    decreases turns.len(),
{
    if turns.len() == 0 {
        0
    } else {
        turns_with_both(turns.drop_last(), a, b) + if turns.last().entities.contains(a)
            && turns.last().entities.contains(b) {
            1nat
        } else {
            0nat
        }
    }
}

/// The weight of the edge between two entities is the number of turns that hold both.
pub proof fn edge_weight_counts_shared_turns(turns: Seq<TurnView>, a: Seq<char>, b: Seq<char>)
    requires
        entities_distinct(turns),
    ensures
        a != b ==> edge_weight(turns, a, b) == turns_with_both(turns, a, b),
        a == b ==> edge_weight(turns, a, b) == 0,
        edge_weight(turns, a, b) <= turns.len(),
    decreases turns.len(),
{
    if turns.len() > 0 {
        let front = turns.drop_last();
        assert forall|i: int| 0 <= i < front.len() implies (
        #[trigger] front[i]).entities.no_duplicates() by {
            assert(turns[i].entities.no_duplicates());
        }
        edge_weight_counts_shared_turns(front, a, b);
        let last = turns[turns.len() - 1].entities;
        if last.contains(a) {
            others_distinct(last, a);
            occurrences_of_concat(companions(front, a), others(last, a), b);
            occurrences_count_membership(others(last, a), b);
        }
    }
}

/// The edge from one entity to another weighs as much as the edge back.
pub proof fn edge_weight_is_symmetric(turns: Seq<TurnView>, a: Seq<char>, b: Seq<char>)
    requires
        entities_distinct(turns),
    ensures
        edge_weight(turns, a, b) == edge_weight(turns, b, a),
{
    edge_weight_counts_shared_turns(turns, a, b);
    edge_weight_counts_shared_turns(turns, b, a);
    shared_turns_symmetric(turns, a, b);
}

proof fn shared_turns_symmetric(turns: Seq<TurnView>, a: Seq<char>, b: Seq<char>)
    ensures
        turns_with_both(turns, a, b) == turns_with_both(turns, b, a),
    decreases turns.len(),
{
    if turns.len() > 0 {
        shared_turns_symmetric(turns.drop_last(), a, b);
    }
}

impl EntityIndex {
    /// Notes the entity at `own` of the turn at `index`, which has these `entities`.
    fn note(
        &mut self,
        index: usize,
        entities: &Vec<String>,
        own: usize,
        Ghost(before): Ghost<Seq<TurnView>>,
        Ghost(now): Ghost<Seq<TurnView>>,
    )
        requires
            entities_distinct(before),
            now.len() > 0,
            now.drop_last() == before,
            now.last().entities == texts(entities@),
            texts(entities@).no_duplicates(),
            before.len() == index,
            index < usize::MAX,
            own < entities.len(),
            old(self).partly(before, now, texts(entities@).take(own as int)),
        ensures
            final(self).partly(before, now, texts(entities@).take(own + 1)),
    {
        let ghost all = texts(entities@);
        let ghost entity = all[own as int];
        let ghost noted = all.take(own as int);
        let ghost old_names = self.names@;
        let ghost old_nodes = self.nodes@;
        let ghost known = all_entities(before);
        proof {
            assert(all.take(own + 1) =~= noted.push(entity));
            assert((known + noted).push(entity) =~= known + all.take(own + 1));
            assert((known + noted).push(entity).drop_last() =~= known + noted);
            distinct_keeps_each_element_once(known + noted);
            distinct_of_distinct(self.names@);
            assert(!noted.contains(entity)) by {
                if noted.contains(entity) {
                    let j = choose|j: int| 0 <= j < noted.len() && noted[j] == entity;
                    assert(all[j] == all[own as int]);
                }
            }
            assert(all.contains(entity));
        }
        let found = self.names.position(entities[own].as_str());
        let k: usize = match found {
            Some(k) => k,
            None => {
                let k = self.nodes.len();
                proof {
                    occurrences_count_membership(self.names@, entity);
                    assert(!known.contains(entity)) by {
                        if known.contains(entity) {
                            let j = choose|j: int| 0 <= j < known.len() && known[j] == entity;
                            assert((known + noted)[j] == entity);
                        }
                    }
                    unknown_entity(before, entity);
                }
                self.names.count(entities[own].as_str());
                let node = EntityNode { turns: Vec::new(), neighbors: Tally::new() };
                assert(positions(node.turns@) =~= Seq::empty());
                self.nodes.push(node);
                k
            },
        };
        proof {
            assert(self.names@ == distinct(known + all.take(own + 1)));
            assert(self.names@[k as int] == entity);
            assert(self.nodes@[k as int].of(before, entity));
            assert forall|x: Seq<char>| #[trigger] occurrences(self.nodes@[k as int].neighbors@, x)
                < usize::MAX by {
                edge_weight_counts_shared_turns(before, entity, x);
            }
        }
        let ghost mid = self.nodes@;
        self.nodes[k].note(index, entities, own);
        proof {
            assert(self.nodes@[k as int].of(now, entity));
            distinct_keeps_each_element_once(known + all.take(own + 1));
            assert forall|m: int| 0 <= m < self.nodes.len() implies (#[trigger] self.nodes@[m]).of(
                if all.take(own + 1).contains(self.names@[m]) {
                    now
                } else {
                    before
                },
                self.names@[m],
            ) by {
                let name = self.names@[m];
                if m == k {
                    assert(all.take(own + 1).last() == entity);
                } else {
                    assert(self.nodes@[m] == mid[m]);
                    assert(mid[m] == old_nodes[m]);
                    assert(name == old_names[m]);
                    assert(name != entity);
                    if all.take(own + 1).contains(name) {
                        let more = all.take(own + 1);
                        let j = choose|j: int| 0 <= j < more.len() && more[j] == name;
                        assert(noted[j] == name);
                    }
                    if noted.contains(name) {
                        let j = choose|j: int| 0 <= j < noted.len() && noted[j] == name;
                        assert(all.take(own + 1)[j] == name);
                    }
                }
            }
        }
    }

    /// The graph of `turns`.
    pub fn build(turns: &Vec<Turn>) -> (r: EntityIndex)
        requires
            entities_distinct(turn_views(turns@)),
        ensures
            r.wf(),
            r@ == turn_views(turns@),
    {
        let ghost all = turn_views(turns@);
        let mut r = EntityIndex {
            names: Tally::new(),
            nodes: Vec::new(),
            source: Ghost(Seq::empty()),
        };
        let mut i: usize = 0;
        while i < turns.len()
            invariant
                i <= turns.len(),
                all == turn_views(turns@),
                entities_distinct(all),
                r.describes(all.take(i as int)),
            decreases turns.len() - i,
        {
            let ghost before = all.take(i as int);
            let ghost now = all.take(i + 1);
            let entities = &turns[i].entities;
            let ghost own = texts(entities@);
            proof {
                assert(now.drop_last() =~= before);
                assert(now.last() == all[i as int]);
                assert(all[i as int].entities == own);
                assert(entities_distinct(before)) by {
                    assert forall|m: int| 0 <= m < before.len() implies (
                    #[trigger] before[m]).entities.no_duplicates() by {
                        assert(all[m].entities.no_duplicates());
                    }
                }
                assert(all_entities(before) + own.take(0) =~= all_entities(before));
            }
            let mut l: usize = 0;
            while l < entities.len()
                invariant
                    l <= entities.len(),
                    i < turns.len(),
                    entities_distinct(before),
                    now.len() > 0,
                    now.drop_last() == before,
                    now.last().entities == texts(entities@),
                    own == texts(entities@),
                    own.no_duplicates(),
                    before.len() == i,
                    r.partly(before, now, own.take(l as int)),
                decreases entities.len() - l,
            {
                r.note(i, entities, l, Ghost(before), Ghost(now));
                l = l + 1;
            }
            proof {
                assert(own.take(l as int) =~= own);
                assert forall|k: int| 0 <= k < r.nodes.len() implies (#[trigger] r.nodes@[k]).of(
                    now,
                    r.names@[k],
                ) by {
                    assert(r.nodes@[k].of(
                        if own.contains(r.names@[k]) {
                            now
                        } else {
                            before
                        },
                        r.names@[k],
                    ));
                }
            }
            i = i + 1;
        }
        assert(all.take(i as int) =~= all);
        r.source = Ghost(all);
        r
    }

    /// The number of different entities.
    pub fn len(&self) -> (r: usize)
        requires
            self.wf(),
        ensures
            r == entity_names(self@).len(),
    {
        self.nodes.len()
    }

    /// The node of `entity`, where there is one.
    fn find(&self, entity: &str) -> (r: Option<usize>)
        requires
            self.wf(),
        ensures
            match r {
                Some(k) => k < self.nodes.len() && self.nodes@[k as int].of(self@, entity@)
                    && all_entities(self@).contains(entity@),
                None => !all_entities(self@).contains(entity@),
            },
    {
        proof {
            distinct_keeps_each_element_once(all_entities(self@));
            distinct_of_distinct(self.names@);
        }
        let r = self.names.position(entity);
        proof {
            if r is Some {
                let k = r->0 as int;
                assert(self.names@[k] == entity@);
                assert(self.names@.contains(entity@));
                assert(self.nodes@[k].of(self@, self.names@[k]));
            }
        }
        r
    }

    /// The positions of the turns that hold `entity`.
    pub fn turns_with(&self, entity: &str) -> (r: Vec<usize>)
        requires
            self.wf(),
        ensures
            positions(r@) == entity_positions(self@, entity@),
    {
        match self.find(entity) {
            Some(k) => self.nodes[k].turns.clone(),
            None => {
                proof {
                    unknown_entity(self@, entity@);
                }
                let r: Vec<usize> = Vec::new();
                assert(positions(r@) =~= Seq::empty());
                r
            },
        }
    }

    /// Adds what `entity` contributes to `list`.
    fn push_contributions(&self, list: &mut Vec<Contribution>, entity: &str)
        requires
            self.wf(),
        ensures
            contribution_views(final(list)@) == contribution_views(old(list)@)
                + entity_contributions(self@, entity@),
    {
        let ghost start = contribution_views(list@);
        let ghost turns = self@;
        let k: usize = match self.find(entity) {
            Some(k) => k,
            None => {
                assert(start + entity_contributions(turns, entity@) =~= start);
                return ;
            },
        };
        let ghost names = neighbors(turns, entity@);
        let ghost f = |b: Seq<char>| (edge_weight(turns, entity@, b), entity_positions(turns, b));
        let ghost direct = (0nat, entity_positions(turns, entity@));
        list.push(Contribution { weight: 0, turns: self.turns_with(entity) });
        assert(contribution_views(list@) =~= start.push(direct));
        let linked = &self.nodes[k].neighbors;
        let n = linked.len();
        let mut m: usize = 0;
        assert(start.push(direct) =~= start + (seq![direct] + names.take(0).map_values(f)));
        while m < n
            invariant
                m <= n,
                n == names.len(),
                self.wf(),
                turns == self@,
                linked.wf(),
                linked@ == companions(turns, entity@),
                names == neighbors(turns, entity@),
                f == (|b: Seq<char>| (edge_weight(turns, entity@, b), entity_positions(turns, b))),
                contribution_views(list@) == start + (seq![direct] + names.take(
                    m as int,
                ).map_values(f)),
            decreases n - m,
        {
            let ghost before = contribution_views(list@);
            let weight = linked.count_at(m);
            let turns_of = self.turns_with(linked.name(m));
            let ghost next = f(names[m as int]);
            list.push(Contribution { weight, turns: turns_of });
            assert(contribution_views(list@) =~= before.push(next));
            assert(names.take(m + 1).map_values(f) =~= names.take(m as int).map_values(f).push(next));
            assert(before.push(next) =~= start + (seq![direct] + names.take(m + 1).map_values(f)));
            m = m + 1;
        }
        assert(names.take(m as int) =~= names);
    }

    /// What the entities of a query contribute to the scores of the turns: for each entity that
    /// occurs, the turns that hold it, then for each of its neighbours the weight of the edge and
    /// the turns that hold the neighbour.
    pub fn contributions(&self, query: &Vec<String>) -> (r: Vec<Contribution>)
        requires
            self.wf(),
        ensures
            contribution_views(r@) == contributions(self@, texts(query@)),
    {
        let ghost turns = self@;
        let ghost parts = texts(query@).map_values(
            |e: Seq<char>| entity_contributions(turns, e),
        );
        let mut list: Vec<Contribution> = Vec::new();
        let mut i: usize = 0;
        assert(contribution_views(list@) =~= parts.take(0).flatten());
        while i < query.len()
            invariant
                i <= query.len(),
                self.wf(),
                turns == self@,
                parts == texts(query@).map_values(|e: Seq<char>| entity_contributions(turns, e)),
                contribution_views(list@) == parts.take(i as int).flatten(),
            decreases query.len() - i,
        {
            proof {
                assert(parts[i as int] == entity_contributions(turns, query@[i as int]@));
                assert(parts.take(i + 1) =~= parts.take(i as int).push(parts[i as int]));
                parts.take(i as int).lemma_flatten_push(parts[i as int]);
            }
            self.push_contributions(&mut list, query[i].as_str());
            i = i + 1;
        }
        assert(parts.take(i as int) =~= parts);
        list
    }
}

/// A share in the scores of some turns.
pub struct Contribution {
    /// The weight of the edge to the entity that the turns hold, or zero where the query itself
    /// names it.
    pub weight: usize,
    /// The positions of the turns.
    pub turns: Vec<usize>,
}

/// The weight and the positions of each contribution.
pub open spec fn contribution_views(list: Seq<Contribution>) -> Seq<(nat, Seq<int>)> {
    list.map_values(|c: Contribution| (c.weight as nat, positions(c.turns@)))
}

/// What one entity of a query contributes.
pub open spec fn entity_contributions(turns: Seq<TurnView>, entity: Seq<char>) -> Seq<
    (nat, Seq<int>),
> {
    if all_entities(turns).contains(entity) {
        seq![(0nat, entity_positions(turns, entity))] + neighbors(turns, entity).map_values(
            |b: Seq<char>| (edge_weight(turns, entity, b), entity_positions(turns, b)),
        )
    } else {
        Seq::empty()
    }
}

/// What the entities of a query contribute, one after the other.
pub open spec fn contributions(turns: Seq<TurnView>, query: Seq<Seq<char>>) -> Seq<
    (nat, Seq<int>),
> {
    query.map_values(|e: Seq<char>| entity_contributions(turns, e)).flatten()
}

/// The positions of an entity are those of the turns that hold it, in order.
pub proof fn entity_positions_are_its_turns(turns: Seq<TurnView>, entity: Seq<char>)
    ensures
        forall|i: int| #[trigger]
            entity_positions(turns, entity).contains(i) <==> 0 <= i < turns.len()
                && turns[i].entities.contains(entity),
        forall|p: int, q: int|
            0 <= p < q < entity_positions(turns, entity).len() ==> #[trigger] entity_positions(
                turns,
                entity,
            )[p] < #[trigger] entity_positions(turns, entity)[q],
    decreases turns.len(),
{
    if turns.len() > 0 {
        let front = turns.drop_last();
        let last = turns.len() - 1;
        entity_positions_are_its_turns(front, entity);
        let before = entity_positions(front, entity);
        let now = entity_positions(turns, entity);
        assert forall|i: int| #[trigger] now.contains(i) <==> 0 <= i < turns.len()
            && turns[i].entities.contains(entity) by {
            assert(before.contains(i) <==> 0 <= i < front.len() && front[i].entities.contains(
                entity,
            ));
            if 0 <= i < last {
                assert(front[i] == turns[i]);
            }
            if before.contains(i) {
                let j = choose|j: int| 0 <= j < before.len() && before[j] == i;
                assert(now[j] == i);
            }
            if now.len() > before.len() {
                assert(now.last() == last);
                assert(now[now.len() - 1] == last);
            }
            if now.contains(i) {
                let j = choose|j: int| 0 <= j < now.len() && now[j] == i;
                if j < before.len() {
                    assert(before[j] == i);
                }
            }
        }
        assert forall|p: int, q: int| 0 <= p < q < now.len() implies #[trigger] now[p]
            < #[trigger] now[q] by {
            if q < before.len() {
                assert(before[p] < before[q]);
            } else {
                assert(before.contains(before[p]));
            }
        }
    }
}

/// Whether some contribution is to the turn at `i`.
pub open spec fn reaches(list: Seq<(nat, Seq<int>)>, i: int) -> bool {
    exists|c: int| 0 <= c < list.len() && (#[trigger] list[c]).1.contains(i)
}

/// Whether the turn at `i` is related to an entity: it holds the entity, or one that occurs in a
/// turn with it.
pub open spec fn related(turns: Seq<TurnView>, entity: Seq<char>, i: int) -> bool {
    &&& 0 <= i < turns.len()
    &&& turns[i].entities.contains(entity) || exists|other: Seq<char>|
        #[trigger] turns[i].entities.contains(other) && other != entity && turns_with_both(
            turns,
            entity,
            other,
        ) > 0
}

/// Whether the turn at `i` is related to some entity of a query.
pub open spec fn related_to_some(turns: Seq<TurnView>, query: Seq<Seq<char>>, i: int) -> bool {
    exists|k: int| 0 <= k < query.len() && related(turns, #[trigger] query[k], i)
}

/// An entity that some turn holds is among those of all turns.
proof fn held_entity_occurs(turns: Seq<TurnView>, entity: Seq<char>, i: int)
    requires
        0 <= i < turns.len(),
        turns[i].entities.contains(entity),
    ensures
        all_entities(turns).contains(entity),
    decreases turns.len(),
{
    let front = turns.drop_last();
    let before = all_entities(front);
    let all = all_entities(turns);
    if i < front.len() {
        held_entity_occurs(front, entity, i);
        let j = choose|j: int| 0 <= j < before.len() && before[j] == entity;
        assert(all[j] == entity);
    } else {
        let last = turns.last().entities;
        let j = choose|j: int| 0 <= j < last.len() && last[j] == entity;
        assert(all[before.len() + j] == entity);
    }
}

/// Where two entities share a turn, some turn holds the first.
proof fn shared_turn_holds(turns: Seq<TurnView>, a: Seq<char>, b: Seq<char>) -> (i: int)
    requires
        turns_with_both(turns, a, b) > 0,
    ensures
        0 <= i < turns.len(),
        turns[i].entities.contains(a),
    decreases turns.len(),
{
    if turns.last().entities.contains(a) && turns.last().entities.contains(b) {
        turns.len() - 1
    } else {
        shared_turn_holds(turns.drop_last(), a, b)
    }
}

/// What an entity contributes goes to exactly the turns that are related to it.
proof fn entity_reaches_related_turns(turns: Seq<TurnView>, entity: Seq<char>, i: int)
    requires
        entities_distinct(turns),
    ensures
        reaches(entity_contributions(turns, entity), i) <==> related(turns, entity, i),
{
    let list = entity_contributions(turns, entity);
    let linked = neighbors(turns, entity);
    let together = companions(turns, entity);
    entity_positions_are_its_turns(turns, entity);
    distinct_keeps_each_element_once(together);
    if reaches(list, i) {
        let c = choose|c: int| 0 <= c < list.len() && (#[trigger] list[c]).1.contains(i);
        if c > 0 {
            let other = linked[c - 1];
            assert(list[c].1 == entity_positions(turns, other));
            entity_positions_are_its_turns(turns, other);
            assert(linked.contains(other));
            occurrences_count_membership(together, other);
            edge_weight_counts_shared_turns(turns, entity, other);
        }
    }
    if related(turns, entity, i) {
        if turns[i].entities.contains(entity) {
            held_entity_occurs(turns, entity, i);
            assert(list[0].1.contains(i));
        } else {
            let other = choose|other: Seq<char>|
                #[trigger] turns[i].entities.contains(other) && other != entity && turns_with_both(
                    turns,
                    entity,
                    other,
                ) > 0;
            let holder = shared_turn_holds(turns, entity, other);
            held_entity_occurs(turns, entity, holder);
            edge_weight_counts_shared_turns(turns, entity, other);
            occurrences_count_membership(together, other);
            assert(linked.contains(other));
            let c = choose|c: int| 0 <= c < linked.len() && linked[c] == other;
            entity_positions_are_its_turns(turns, other);
            assert(list[c + 1].1 == entity_positions(turns, other));
            assert(list[c + 1].1.contains(i));
        }
    }
}

/// What the entities of a query contribute goes to exactly the turns that hold one of them, or an
/// entity that occurs in some turn together with one of them.
pub proof fn contributions_reach_related_turns(turns: Seq<TurnView>, query: Seq<Seq<char>>, i: int)
    requires
        entities_distinct(turns),
    ensures
        reaches(contributions(turns, query), i) <==> related_to_some(turns, query, i),
    decreases query.len(),
{
    let f = |e: Seq<char>| entity_contributions(turns, e);
    if query.len() == 0 {
        assert(query.map_values(f) =~= Seq::empty());
    } else {
        let front = query.drop_last();
        let last = query.last();
        contributions_reach_related_turns(turns, front, i);
        entity_reaches_related_turns(turns, last, i);
        let before = contributions(turns, front);
        let own = entity_contributions(turns, last);
        let all = contributions(turns, query);
        assert(query.map_values(f) =~= front.map_values(f).push(own));
        front.map_values(f).lemma_flatten_push(own);
        assert(all == before + own);
        if reaches(before, i) {
            let c = choose|c: int| 0 <= c < before.len() && (#[trigger] before[c]).1.contains(i);
            assert(all[c].1.contains(i));
        }
        if reaches(own, i) {
            let c = choose|c: int| 0 <= c < own.len() && (#[trigger] own[c]).1.contains(i);
            assert(all[before.len() + c].1.contains(i));
        }
        if reaches(all, i) {
            let c = choose|c: int| 0 <= c < all.len() && (#[trigger] all[c]).1.contains(i);
            if c < before.len() {
                assert(before[c].1.contains(i));
            } else {
                assert(own[c - before.len()].1.contains(i));
            }
        }
        if related_to_some(turns, front, i) {
            let k = choose|k: int| 0 <= k < front.len() && related(turns, #[trigger] front[k], i);
            assert(related(turns, query[k], i));
        }
        if related(turns, last, i) {
            assert(related(turns, query[query.len() - 1], i));
        }
        if related_to_some(turns, query, i) {
            let k = choose|k: int| 0 <= k < query.len() && related(turns, #[trigger] query[k], i);
            if k < front.len() {
                assert(related(turns, front[k], i));
            }
        }
    }
}

/// Only what an entity of the query contributes itself is without weight: every neighbour
/// contributes with the weight of an edge.
pub proof fn neighbours_contribute_with_weight(turns: Seq<TurnView>, entity: Seq<char>, c: int)
    requires
        0 <= c < entity_contributions(turns, entity).len(),
    ensures
        entity_contributions(turns, entity)[c].0 == 0 <==> c == 0,
{
    let together = companions(turns, entity);
    distinct_keeps_each_element_once(together);
    if c > 0 {
        let other = neighbors(turns, entity)[c - 1];
        assert(neighbors(turns, entity).contains(other));
        occurrences_count_membership(together, other);
    }
}

proof fn turns_with_both_are_counted(turns: Seq<TurnView>, a: Seq<char>, b: Seq<char>)
    ensures
        turns_with_both(turns, a, b) == turns.filter(
            |t: TurnView| t.entities.contains(a) && t.entities.contains(b),
        ).len(),
        turns_with_both(turns, a, b) > 0 <==> exists|i: int|
            0 <= i < turns.len() && (#[trigger] turns[i]).entities.contains(a)
                && turns[i].entities.contains(b),
    decreases turns.len(),
{
    reveal(Seq::filter);
    if turns.len() > 0 {
        let front = turns.drop_last();
        turns_with_both_are_counted(front, a, b);
        if exists|i: int|
            0 <= i < front.len() && (#[trigger] front[i]).entities.contains(a)
                && front[i].entities.contains(b) {
            let i = choose|i: int|
                0 <= i < front.len() && (#[trigger] front[i]).entities.contains(a)
                    && front[i].entities.contains(b);
            assert(turns[i].entities.contains(a) && turns[i].entities.contains(b));
        }
        if turns.last().entities.contains(a) && turns.last().entities.contains(b) {
            assert(turns[turns.len() - 1].entities.contains(a));
        }
        if exists|i: int|
            0 <= i < turns.len() && (#[trigger] turns[i]).entities.contains(a)
                && turns[i].entities.contains(b) {
            let i = choose|i: int|
                0 <= i < turns.len() && (#[trigger] turns[i]).entities.contains(a)
                    && turns[i].entities.contains(b);
            if i < front.len() {
                assert(front[i].entities.contains(a) && front[i].entities.contains(b));
            }
        }
    }
}

/// The weight of the edge between two entities is the number of all turns that hold both.
pub proof fn edge_weight_is_the_number_of_turns(turns: Seq<TurnView>, a: Seq<char>, b: Seq<char>)
    requires
        entities_distinct(turns),
        a != b,
    ensures
        edge_weight(turns, a, b) == turns.filter(
            |t: TurnView| t.entities.contains(a) && t.entities.contains(b),
        ).len(),
{
    edge_weight_counts_shared_turns(turns, a, b);
    turns_with_both_are_counted(turns, a, b);
}

/// The neighbours of an entity are the other entities of the turns that hold it, each once.
pub proof fn neighbours_share_a_turn(turns: Seq<TurnView>, entity: Seq<char>, other: Seq<char>)
    requires
        entities_distinct(turns),
    ensures
        neighbors(turns, entity).no_duplicates(),
        neighbors(turns, entity).contains(other) <==> other != entity && exists|i: int|
            0 <= i < turns.len() && (#[trigger] turns[i]).entities.contains(entity)
                && turns[i].entities.contains(other),
{
    let together = companions(turns, entity);
    distinct_keeps_each_element_once(together);
    occurrences_count_membership(together, other);
    edge_weight_counts_shared_turns(turns, entity, other);
    turns_with_both_are_counted(turns, entity, other);
}

proof fn some_turn_holds(turns: Seq<TurnView>, entity: Seq<char>)
    ensures
        all_entities(turns).contains(entity) <==> exists|i: int|
            0 <= i < turns.len() && (#[trigger] turns[i]).entities.contains(entity),
    decreases turns.len(),
{
    let all = all_entities(turns);
    if all.contains(entity) {
        let front = turns.drop_last();
        let before = all_entities(front);
        let k = choose|k: int| 0 <= k < all.len() && all[k] == entity;
        some_turn_holds(front, entity);
        if k < before.len() {
            assert(before[k] == entity);
            assert(before.contains(entity));
            let i = choose|i: int|
                0 <= i < front.len() && (#[trigger] front[i]).entities.contains(entity);
            assert(turns[i].entities.contains(entity));
        } else {
            assert(turns.last().entities[k - before.len()] == entity);
            assert(turns[turns.len() - 1].entities.contains(entity));
        }
    }
    if exists|i: int| 0 <= i < turns.len() && (#[trigger] turns[i]).entities.contains(entity) {
        let i = choose|i: int|
            0 <= i < turns.len() && (#[trigger] turns[i]).entities.contains(entity);
        held_entity_occurs(turns, entity, i);
    }
}

/// The entities of some turns are those that a turn holds, each once.
pub proof fn entity_names_are_those_of_the_turns(turns: Seq<TurnView>, entity: Seq<char>)
    ensures
        entity_names(turns).no_duplicates(),
        entity_names(turns).contains(entity) <==> exists|i: int|
            0 <= i < turns.len() && (#[trigger] turns[i]).entities.contains(entity),
{
    distinct_keeps_each_element_once(all_entities(turns));
    some_turn_holds(turns, entity);
}

/// What the entities of a query contribute is what each does, one after the other.
pub proof fn contributions_are_those_of_each_entity(
    turns: Seq<TurnView>,
    query: Seq<Seq<char>>,
    entity: Seq<char>,
)
    ensures
        contributions(turns, Seq::empty()) == Seq::<(nat, Seq<int>)>::empty(),
        contributions(turns, query.push(entity)) == contributions(turns, query)
            + entity_contributions(turns, entity),
{
    let f = |e: Seq<char>| entity_contributions(turns, e);
    let none = Seq::<Seq<char>>::empty();
    assert(none.map_values(f) =~= Seq::empty());
    assert(contributions(turns, none) =~= Seq::empty());
    assert(query.push(entity).map_values(f) =~= query.map_values(f).push(
        entity_contributions(turns, entity),
    ));
    query.map_values(f).lemma_flatten_push(entity_contributions(turns, entity));
}

/// An entity that no turn holds contributes nothing. Any other contributes first to the turns that
/// hold it, directly, and then for each of its neighbours, and for nothing else, by the number of
/// turns that hold both to the turns that hold the neighbour.
pub proof fn entities_contribute_to_holders_and_neighbours(
    turns: Seq<TurnView>,
    entity: Seq<char>,
    c: int,
)
    requires
        entities_distinct(turns),
        1 <= c,
    ensures
        ({
            let list = entity_contributions(turns, entity);
            let held = exists|i: int|
                0 <= i < turns.len() && (#[trigger] turns[i]).entities.contains(entity);
            &&& !held ==> list.len() == 0
            &&& held ==> list.len() == 1 + neighbors(turns, entity).len()
            &&& held ==> list[0] == (0nat, entity_positions(turns, entity))
            &&& c < list.len() ==> list[c] == (
                turns.filter(
                    |t: TurnView|
                        t.entities.contains(entity) && t.entities.contains(
                            neighbors(turns, entity)[c - 1],
                        ),
                ).len(),
                entity_positions(turns, neighbors(turns, entity)[c - 1]),
            )
        }),
{
    let linked = neighbors(turns, entity);
    some_turn_holds(turns, entity);
    if 1 <= c < entity_contributions(turns, entity).len() {
        let b = linked[c - 1];
        assert(linked.contains(b));
        neighbours_share_a_turn(turns, entity, b);
        edge_weight_is_the_number_of_turns(turns, entity, b);
    }
}

/// A turn gets a share exactly when some turn, perhaps itself, holds both an entity of the query and
/// an entity of its own.
pub proof fn shares_come_through_common_turns(turns: Seq<TurnView>, query: Seq<Seq<char>>, i: int)
    requires
        entities_distinct(turns),
        0 <= i < turns.len(),
    ensures
        (exists|c: int|
            0 <= c < contributions(turns, query).len() && (#[trigger] contributions(
                turns,
                query,
            )[c]).1.contains(i)) <==> exists|k: int, j: int, own: int|
            0 <= k < query.len() && 0 <= j < turns.len() && 0 <= own < turns[i].entities.len() && (
            #[trigger] turns[j].entities.contains(query[k])) && #[trigger] turns[j].entities.contains(
                turns[i].entities[own],
            ),
{
    contributions_reach_related_turns(turns, query, i);
    let list = contributions(turns, query);
    assert(reaches(list, i) == related_to_some(turns, query, i));
    if related_to_some(turns, query, i) {
        let k = choose|k: int| 0 <= k < query.len() && related(turns, #[trigger] query[k], i);
        let entity = query[k];
        let mine = turns[i].entities;
        if mine.contains(entity) {
            let own = choose|own: int| 0 <= own < mine.len() && mine[own] == entity;
            assert(turns[i].entities.contains(query[k]));
            assert(turns[i].entities.contains(turns[i].entities[own]));
        } else {
            let other = choose|other: Seq<char>|
                #[trigger] turns[i].entities.contains(other) && other != entity && turns_with_both(
                    turns,
                    entity,
                    other,
                ) > 0;
            turns_with_both_are_counted(turns, entity, other);
            let j = choose|j: int|
                0 <= j < turns.len() && (#[trigger] turns[j]).entities.contains(entity)
                    && turns[j].entities.contains(other);
            let own = choose|own: int| 0 <= own < mine.len() && mine[own] == other;
            assert(turns[j].entities.contains(query[k]));
            assert(turns[j].entities.contains(turns[i].entities[own]));
        }
    }
    if exists|k: int, j: int, own: int|
        0 <= k < query.len() && 0 <= j < turns.len() && 0 <= own < turns[i].entities.len() && (
        #[trigger] turns[j].entities.contains(query[k])) && #[trigger] turns[j].entities.contains(
            turns[i].entities[own],
        ) {
        let (k, j, own) = choose|k: int, j: int, own: int|
            0 <= k < query.len() && 0 <= j < turns.len() && 0 <= own < turns[i].entities.len() && (
            #[trigger] turns[j].entities.contains(query[k])) && #[trigger] turns[j].entities.contains(
                turns[i].entities[own],
            );
        let entity = query[k];
        let other = turns[i].entities[own];
        turns_with_both_are_counted(turns, entity, other);
        assert(turns[i].entities.contains(other));
        assert(related(turns, query[k], i));
    }
}

/// Contributions stand for their weights and positions as they are.
pub proof fn contributions_stand_for_what_they_hold(list: Seq<Contribution>, k: int, j: int)
    requires
        0 <= k < list.len(),
    ensures
        contribution_views(list).len() == list.len(),
        contribution_views(list)[k].0 == list[k].weight,
        contribution_views(list)[k].1.len() == list[k].turns.len(),
        0 <= j < list[k].turns.len() ==> contribution_views(list)[k].1[j] == list[k].turns@[j],
{
}

} // verus!
