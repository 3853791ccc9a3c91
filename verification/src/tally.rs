//! Counting texts.

use crate::seqs::{
    distinct, distinct_keeps_each_element_once, occurrences, occurrences_count_membership,
};
use crate::text::texts;
use vstd::hash_map::StringHashMap;
use vstd::prelude::*;

verus! {

/// Counts of texts, each text with its count, in the order in which the texts first came. It
/// stands for the sequence of all texts that were counted.
pub struct Tally {
    names: Vec<String>,
    counts: Vec<usize>,
    slots: StringHashMap<usize>,
    history: Ghost<Seq<Seq<char>>>,
}

impl View for Tally {
    type V = Seq<Seq<char>>;

    closed spec fn view(&self) -> Seq<Seq<char>> {
        self.history@
    }
}

impl Tally {
    /// Whether the counts are those of the texts that were counted.
    pub closed spec fn wf(self) -> bool {
        &&& texts(self.names@) == distinct(self.history@)
        &&& self.counts.len() == self.names.len()
        &&& forall|k: int|
            0 <= k < self.counts.len() ==> #[trigger] self.counts@[k] == occurrences(
                self.history@,
                texts(self.names@)[k],
            )
        &&& forall|s: Seq<char>|
            #[trigger] self.slots@.contains_key(s) <==> distinct(self.history@).contains(s)
        &&& forall|s: Seq<char>| #[trigger]
            self.slots@.contains_key(s) ==> self.slots@[s] < self.names.len()
                && texts(self.names@)[self.slots@[s] as int] == s
    }

    /// A tally of nothing.
    pub fn new() -> (r: Tally)
        ensures
            r.wf(),
            r@ == Seq::<Seq<char>>::empty(),
    {
        let r = Tally {
            names: Vec::new(),
            counts: Vec::new(),
            slots: StringHashMap::new(),
            history: Ghost(Seq::empty()),
        };
        assert(texts(r.names@) =~= Seq::empty());
        r
    }

    /// Counts `name` once more.
    pub fn count(&mut self, name: &str)
        requires
            old(self).wf(),
            occurrences(old(self)@, name@) < usize::MAX,
        ensures
            final(self).wf(),
            final(self)@ == old(self)@.push(name@),
    {
        let ghost before = self.history@;
        let ghost now = before.push(name@);
        let ghost old_names = texts(self.names@);
        let ghost old_counts = self.counts@;
        proof {
            assert(now.drop_last() =~= before);
            distinct_keeps_each_element_once(before);
            occurrences_count_membership(before, name@);
        }
        let found: Option<usize> = match self.slots.get(name) {
            Some(slot) => Some(*slot),
            None => None,
        };
        match found {
            Some(slot) => {
                let count = self.counts[slot];
                self.counts.set(slot, count + 1);
            },
            None => {
                let slot = self.names.len();
                self.slots.insert(name.to_string(), slot);
                self.names.push(name.to_string());
                self.counts.push(1);
                assert(texts(self.names@) =~= old_names.push(name@));
            },
        }
        self.history = Ghost(now);
        proof {
            assert(texts(self.names@) == distinct(now));
            assert forall|k: int| 0 <= k < self.counts.len() implies #[trigger] self.counts@[k]
                == occurrences(now, texts(self.names@)[k]) by {
                if k < old_counts.len() {
                    assert(texts(self.names@)[k] == old_names[k]);
                    assert(old_counts[k] == occurrences(before, old_names[k]));
                }
            }
            assert forall|s: Seq<char>| #[trigger]
                self.slots@.contains_key(s) <==> distinct(now).contains(s) by {
                distinct_keeps_each_element_once(now);
                if before.contains(s) {
                    let j = choose|j: int| 0 <= j < before.len() && before[j] == s;
                    assert(now[j] == s);
                }
                if now.contains(s) && s != name@ {
                    let j = choose|j: int| 0 <= j < now.len() && now[j] == s;
                    assert(before[j] == s);
                }
                if s == name@ {
                    assert(now[now.len() - 1] == s);
                }
            }
            assert forall|s: Seq<char>| #[trigger] self.slots@.contains_key(s) implies self.slots@[s]
                < self.names.len() && texts(self.names@)[self.slots@[s] as int] == s by {}
        }
    }

    /// The number of different texts.
    pub fn len(&self) -> (r: usize)
        requires
            self.wf(),
        ensures
            r == distinct(self@).len(),
    {
        assert(texts(self.names@).len() == self.names.len());
        self.names.len()
    }

    /// The text that came as the `k`-th different one.
    pub fn name(&self, k: usize) -> (r: &str)
        requires
            self.wf(),
            k < distinct(self@).len(),
        ensures
            r@ == distinct(self@)[k as int],
    {
        assert(texts(self.names@)[k as int] == self.names@[k as int]@);
        self.names[k].as_str()
    }

    /// How often the `k`-th different text was counted.
    pub fn count_at(&self, k: usize) -> (r: usize)
        requires
            self.wf(),
            k < distinct(self@).len(),
        ensures
            r == occurrences(self@, distinct(self@)[k as int]),
    {
        assert(texts(self.names@).len() == self.names.len());
        self.counts[k]
    }

    /// The place of `name` among the different texts.
    pub fn position(&self, name: &str) -> (r: Option<usize>)
        requires
            self.wf(),
        ensures
            match r {
                Some(k) => k < distinct(self@).len() && distinct(self@)[k as int] == name@,
                None => !self@.contains(name@),
            },
    {
        proof {
            distinct_keeps_each_element_once(self@);
            assert(texts(self.names@).len() == self.names.len());
        }
        match self.slots.get(name) {
            Some(slot) => Some(*slot),
            None => None,
        }
    }
}

} // verus!
