//! Sequences without repetitions.

use crate::text::{same_text, texts};
use vstd::prelude::*;

verus! {

/// The elements of `s` in the order in which each first occurs, every one once.
pub open spec fn distinct<T>(s: Seq<T>) -> Seq<T>
    decreases s.len(),
{
    if s.len() == 0 {
        Seq::empty()
    } else {
        let before = distinct(s.drop_last());
        if before.contains(s.last()) {
            before
        } else {
            before.push(s.last())
        }
    }
}

/// The first `n` elements of `s`, or all of them where there are no more.
pub open spec fn at_most<T>(s: Seq<T>, n: nat) -> Seq<T> {
    if s.len() <= n {
        s
    } else {
        s.take(n as int)
    }
}

/// How often `x` occurs in `s`.
pub open spec fn occurrences<T>(s: Seq<T>, x: T) -> nat
    decreases s.len(),
{
    if s.len() == 0 {
        0
    } else {
        occurrences(s.drop_last(), x) + if s.last() == x {
            1nat
        } else {
            0nat
        }
    }
}

/// An element occurs in a sequence exactly when it occurs there at least once, and no more often
/// than the sequence is long.
pub proof fn occurrences_count_membership<T>(s: Seq<T>, x: T)
    ensures
        occurrences(s, x) > 0 <==> s.contains(x),
        occurrences(s, x) <= s.len(),
        s.no_duplicates() ==> occurrences(s, x) <= 1,
    decreases s.len(),
{
    if s.len() > 0 {
        let front = s.drop_last();
        occurrences_count_membership(front, x);
        if s.contains(x) {
            let i = choose|i: int| 0 <= i < s.len() && s[i] == x;
            if i < front.len() {
                assert(front[i] == x);
            }
        }
        if front.contains(x) {
            let i = choose|i: int| 0 <= i < front.len() && front[i] == x;
            assert(s[i] == x);
        }
        if s.last() == x {
            assert(s[s.len() - 1] == x);
        }
    }
}

/// Occurrences in two sequences joined are those in the one and in the other.
pub proof fn occurrences_of_concat<T>(a: Seq<T>, b: Seq<T>, x: T)
    ensures
        occurrences(a + b, x) == occurrences(a, x) + occurrences(b, x),
    decreases b.len(),
{
    if b.len() == 0 {
        assert(a + b =~= a);
    } else {
        assert((a + b).drop_last() =~= a + b.drop_last());
        occurrences_of_concat(a, b.drop_last(), x);
    }
}

/// A sequence without repetitions is left as it is.
pub proof fn distinct_of_distinct<T>(s: Seq<T>)
    requires
        s.no_duplicates(),
    ensures
        distinct(s) == s,
    decreases s.len(),
{
    if s.len() > 0 {
        let front = s.drop_last();
        assert forall|i: int, j: int|
            0 <= i < front.len() && 0 <= j < front.len() && i != j implies front[i] != front[j] by {
            assert(s[i] != s[j]);
        }
        distinct_of_distinct(front);
        if front.contains(s.last()) {
            let i = choose|i: int| 0 <= i < front.len() && front[i] == s.last();
            assert(s[i] == s[s.len() - 1]);
        }
        assert(distinct(s) =~= s);
    }
}

/// `distinct` keeps exactly the elements of its argument, and none twice.
pub proof fn distinct_keeps_each_element_once<T>(s: Seq<T>)
    ensures
        distinct(s).no_duplicates(),
        forall|x: T| #[trigger] distinct(s).contains(x) <==> s.contains(x),
        distinct(s).len() <= s.len(),
    decreases s.len(),
{
    if s.len() > 0 {
        let before = distinct(s.drop_last());
        distinct_keeps_each_element_once(s.drop_last());
        assert forall|x: T| #[trigger] distinct(s).contains(x) <==> s.contains(x) by {
            if s.contains(x) {
                let i = choose|i: int| 0 <= i < s.len() && s[i] == x;
                if i < s.len() - 1 {
                    assert(s.drop_last()[i] == x);
                    assert(before.contains(x));
                    let j = choose|j: int| 0 <= j < before.len() && before[j] == x;
                    assert(distinct(s)[j] == x);
                } else if !before.contains(x) {
                    assert(distinct(s).last() == x);
                }
            }
            if distinct(s).contains(x) {
                let j = choose|j: int| 0 <= j < distinct(s).len() && distinct(s)[j] == x;
                if j < before.len() {
                    assert(before[j] == x);
                    assert(before.contains(x));
                    assert(s.drop_last().contains(x));
                    let i = choose|i: int| 0 <= i < s.len() - 1 && s.drop_last()[i] == x;
                    assert(s[i] == x);
                } else {
                    assert(s[s.len() - 1] == x);
                }
            }
        }
    }
}

/// What `distinct` makes of the start of a sequence starts what it makes of the whole.
pub proof fn distinct_of_prefix<T>(s: Seq<T>, n: int)
    requires
        0 <= n <= s.len(),
    ensures
        distinct(s.take(n)).is_prefix_of(distinct(s)),
    decreases s.len() - n,
{
    if n == s.len() {
        assert(s.take(n) =~= s);
    } else {
        distinct_of_prefix(s, n + 1);
        assert(s.take(n + 1).drop_last() =~= s.take(n));
        assert(distinct(s.take(n)).is_prefix_of(distinct(s.take(n + 1))));
    }
}

/// Whether `list` holds `text`.
pub fn contains_string(list: &Vec<String>, text: &str) -> (r: bool)
    ensures
        r == texts(list@).contains(text@),
{
    let mut i: usize = 0;
    while i < list.len()
        invariant
            i <= list.len(),
            forall|j: int| 0 <= j < i ==> #[trigger] texts(list@)[j] != text@,
        decreases list.len() - i,
    {
        if same_text(list[i].as_str(), text) {
            assert(texts(list@)[i as int] == text@);
            return true;
        }
        i = i + 1;
    }
    false
}

/// No more different numbers lie below a bound than the bound says.
pub proof fn distinct_numbers_below(s: Seq<int>, n: nat)
    requires
        s.no_duplicates(),
        forall|k: int| 0 <= k < s.len() ==> 0 <= #[trigger] s[k] < n,
    ensures
        s.len() <= n,
    decreases n,
{
    if s.len() > 0 {
        assert(0 <= s[0] < n);
        let top = n - 1;
        if s.contains(top) {
            let j = choose|j: int| 0 <= j < s.len() && s[j] == top;
            let rest = s.remove(j);
            assert forall|k: int| 0 <= k < rest.len() implies 0 <= #[trigger] rest[k] < top by {
                let from = if k < j {
                    k
                } else {
                    k + 1
                };
                assert(rest[k] == s[from] && s[from] != s[j]);
            }
            distinct_numbers_below(rest, top as nat);
        } else {
            assert forall|k: int| 0 <= k < s.len() implies 0 <= #[trigger] s[k] < top by {
                assert(s.contains(s[k]));
            }
            distinct_numbers_below(s, top as nat);
        }
    }
}

/// A sequence that holds every number below a bound is at least as long as the bound says.
pub proof fn numbers_below_take_room(s: Seq<int>, n: nat)
    requires
        forall|i: int| 0 <= i < n ==> #[trigger] s.contains(i),
    ensures
        n <= s.len(),
    decreases n,
{
    if n > 0 {
        let top = n - 1;
        assert(s.contains(top));
        let j = choose|j: int| 0 <= j < s.len() && s[j] == top;
        let rest = s.remove(j);
        assert forall|i: int| 0 <= i < top implies #[trigger] rest.contains(i) by {
            assert(s.contains(i));
            let k = choose|k: int| 0 <= k < s.len() && s[k] == i;
            let to = if k < j {
                k
            } else {
                k - 1
            };
            assert(rest[to] == i);
        }
        numbers_below_take_room(rest, top as nat);
    }
}

/// Joining lists keeps their elements, and where none is empty, there are at least as many
/// elements as lists.
pub proof fn elements_of_flatten<T>(parts: Seq<Seq<T>>)
    ensures
        forall|w: int, p: int|
            0 <= w < parts.len() && 0 <= p < parts[w].len() ==> parts.flatten().contains(
                #[trigger] parts[w][p],
            ),
        (forall|w: int| 0 <= w < parts.len() ==> (#[trigger] parts[w]).len() > 0) ==> parts.len()
            <= parts.flatten().len(),
    decreases parts.len(),
{
    if parts.len() > 0 {
        let front = parts.drop_last();
        let last = parts.last();
        elements_of_flatten(front);
        front.lemma_flatten_push(last);
        assert(front.push(last) =~= parts);
        let all = parts.flatten();
        let before = front.flatten();
        assert(all == before + last);
        assert forall|w: int, p: int|
            0 <= w < parts.len() && 0 <= p < parts[w].len() implies all.contains(
            #[trigger] parts[w][p],
        ) by {
            if w < front.len() {
                assert(before.contains(front[w][p]));
                let k = choose|k: int| 0 <= k < before.len() && before[k] == parts[w][p];
                assert(all[k] == parts[w][p]);
            } else {
                assert(all[before.len() + p] == parts[w][p]);
            }
        }
        if forall|w: int| 0 <= w < parts.len() ==> (#[trigger] parts[w]).len() > 0 {
            assert forall|w: int| 0 <= w < front.len() implies (#[trigger] front[w]).len() > 0 by {
                assert(front[w] == parts[w]);
            }
            assert(parts[parts.len() - 1].len() > 0);
        }
    }
}

/// One element more is kept exactly when it is another than those before.
pub proof fn distinct_of_one_more<T>(s: Seq<T>, x: T)
    ensures
        distinct(Seq::<T>::empty()) == Seq::<T>::empty(),
        distinct(s.push(x)) == if s.contains(x) {
            distinct(s)
        } else {
            distinct(s).push(x)
        },
{
    distinct_keeps_each_element_once(s);
    assert(s.push(x).drop_last() =~= s);
}

/// An element occurs as often as there are elements that equal it.
pub proof fn occurrences_are_the_equal_elements<T>(s: Seq<T>, x: T)
    ensures
        occurrences(s, x) == s.filter(|y: T| y == x).len(),
    decreases s.len(),
{
    reveal(Seq::filter);
    if s.len() > 0 {
        occurrences_are_the_equal_elements(s.drop_last(), x);
    }
}

/// What is kept of a sequence is its start: all of it, or as much as is allowed.
pub proof fn at_most_is_the_start<T>(s: Seq<T>, n: nat)
    ensures
        at_most(s, n).len() <= n,
        at_most(s, n).len() == n || at_most(s, n).len() == s.len(),
        forall|k: int| 0 <= k < at_most(s, n).len() ==> #[trigger] at_most(s, n)[k] == s[k],
        at_most(s, n).len() <= s.len(),
{
}

} // verus!
