//! Windows: short runs of turns of one session that lie close together in time.

use crate::seqs::{
    distinct, distinct_keeps_each_element_once, distinct_numbers_below, elements_of_flatten,
    numbers_below_take_room,
};
use crate::turns::{positions, session_ids, turn_views, Turn, TurnView};
use vstd::hash_map::StringHashMap;
use vstd::prelude::*;

verus! {

/// The most turns of a window.
pub const WINDOW_SIZE: usize = 4;

/// The longest gap, in seconds, between a turn and the next one of the same window: six hours.
pub const EPISODE_GAP_SECONDS: i64 = 21600;

/// The positions of the turns of a session, in order.
pub open spec fn session_members(turns: Seq<TurnView>, session: Seq<char>) -> Seq<int>
    decreases turns.len(),
{
    if turns.len() == 0 {
        Seq::empty()
    } else {
        let before = session_members(turns.drop_last(), session);
        if turns.last().session_id == session {
            before.push(turns.len() - 1)
        } else {
            before
        }
    }
}

/// Whether more time than a window spans between two turns lies between these.
pub open spec fn starts_episode(turns: Seq<TurnView>, earlier: int, later: int) -> bool {
    turns[later].ts - turns[earlier].ts > EPISODE_GAP_SECONDS
}

/// The windows of the turns at `members`: a window takes each turn as long as there is room and
/// the gap to the turn before is not too long; then the next one starts.
pub open spec fn member_windows(turns: Seq<TurnView>, members: Seq<int>) -> Seq<Seq<int>>
    decreases members.len(),
{
    if members.len() == 0 {
        Seq::empty()
    } else {
        let before = member_windows(turns, members.drop_last());
        let next = members.last();
        if before.len() == 0 || before.last().len() == WINDOW_SIZE || starts_episode(
            turns,
            members[members.len() - 2],
            next,
        ) {
            before.push(seq![next])
        } else {
            before.drop_last().push(before.last().push(next))
        }
    }
}

/// The windows of one session.
pub open spec fn session_windows(turns: Seq<TurnView>, session: Seq<char>) -> Seq<Seq<int>> {
    member_windows(turns, session_members(turns, session))
}

/// The sessions, in the order in which each first occurs.
pub open spec fn sessions(turns: Seq<TurnView>) -> Seq<Seq<char>> {
    distinct(session_ids(turns))
}

/// All windows, session by session.
pub open spec fn windows(turns: Seq<TurnView>) -> Seq<Seq<int>> {
    sessions(turns).map_values(|s: Seq<char>| session_windows(turns, s)).flatten()
}

/// A run of turns, by their positions.
pub struct Window {
    pub turns: Vec<usize>,
}

/// The runs that some windows stand for.
pub open spec fn window_views(list: Seq<Window>) -> Seq<Seq<int>> {
    list.map_values(|w: Window| positions(w.turns@))
}

/// The positions of the turns of each session, session by session.
fn group_sessions(turns: &Vec<Turn>) -> (r: Vec<Vec<usize>>)
    ensures
        r.len() == sessions(turn_views(turns@)).len(),
        forall|k: int|
            0 <= k < r.len() ==> positions((#[trigger] r@[k])@) == session_members(
                turn_views(turns@),
                sessions(turn_views(turns@))[k],
            ),
{
    let ghost all = turn_views(turns@);
    let mut place: StringHashMap<usize> = StringHashMap::new();
    let mut groups: Vec<Vec<usize>> = Vec::new();
    let mut i: usize = 0;
    assert(session_ids(all.take(0)) =~= Seq::empty());
    while i < turns.len()
        invariant
            i <= turns.len(),
            all == turn_views(turns@),
            groups.len() == sessions(all.take(i as int)).len(),
            forall|k: int|
                0 <= k < groups.len() ==> positions((#[trigger] groups@[k])@) == session_members(
                    all.take(i as int),
                    sessions(all.take(i as int))[k],
                ),
            forall|s: Seq<char>|
                #[trigger] place@.contains_key(s) <==> sessions(all.take(i as int)).contains(s),
            forall|s: Seq<char>| #[trigger]
                place@.contains_key(s) ==> place@[s] < groups.len() && sessions(
                    all.take(i as int),
                )[place@[s] as int] == s,
        decreases turns.len() - i,
    {
        let ghost before = all.take(i as int);
        let ghost now = all.take(i + 1);
        let ghost old_groups = groups@;
        let ghost id = turns@[i as int].session_id@;
        proof {
            assert(now.drop_last() =~= before);
            assert(now.last() == all[i as int]);
            assert(session_ids(now).drop_last() =~= session_ids(before));
            assert(session_ids(now).last() == id);
            distinct_keeps_each_element_once(session_ids(before));
        }
        match place.get(turns[i].session_id.as_str()) {
            Some(found) => {
                let k: usize = *found;
                let mut group: Vec<usize> = Vec::new();
                groups.set_and_swap(k, &mut group);
                group.push(i);
                assert(positions(group@) =~= positions(old_groups[k as int]@).push(i as int));
                groups.set(k, group);
                assert forall|m: int| 0 <= m < groups.len() implies positions(
                    (#[trigger] groups@[m])@,
                ) == session_members(now, sessions(now)[m]) by {
                    if m != k {
                        assert(groups@[m] == old_groups[m]);
                        assert(sessions(now)[m] != id);
                    }
                }
            },
            None => {
                let mut group: Vec<usize> = Vec::new();
                group.push(i);
                place.insert(turns[i].session_id.clone(), groups.len());
                groups.push(group);
                proof {
                    new_session_has_no_members(before, id);
                    assert(sessions(now) == sessions(before).push(id));
                    assert(positions(group@) =~= Seq::empty().push(i as int));
                    assert forall|m: int| 0 <= m < groups.len() implies positions(
                        (#[trigger] groups@[m])@,
                    ) == session_members(now, sessions(now)[m]) by {
                        if m < old_groups.len() {
                            assert(groups@[m] == old_groups[m]);
                            assert(sessions(now)[m] == sessions(before)[m]);
                            assert(sessions(before).contains(sessions(before)[m]));
                        }
                    }
                    assert forall|s: Seq<char>| #[trigger]
                        place@.contains_key(s) <==> sessions(now).contains(s) by {
                        if sessions(now).contains(s) && s != id {
                            let j = choose|j: int|
                                0 <= j < sessions(now).len() && sessions(now)[j] == s;
                            assert(sessions(before)[j] == s);
                        }
                        if s == id {
                            assert(sessions(now).last() == s);
                        }
                        if sessions(before).contains(s) {
                            let j = choose|j: int|
                                0 <= j < sessions(before).len() && sessions(before)[j] == s;
                            assert(sessions(now)[j] == s);
                        }
                    }
                }
            },
        }
        i = i + 1;
    }
    assert(all.take(i as int) =~= all);
    groups
}

/// A session that does not occur has no turns.
proof fn new_session_has_no_members(turns: Seq<TurnView>, session: Seq<char>)
    requires
        !session_ids(turns).contains(session),
    ensures
        session_members(turns, session) == Seq::<int>::empty(),
    decreases turns.len(),
{
    if turns.len() > 0 {
        assert(session_ids(turns)[turns.len() - 1] == turns.last().session_id);
        assert forall|i: int| 0 <= i < turns.len() - 1 implies session_ids(turns.drop_last())[i]
            != session by {
            assert(session_ids(turns)[i] == session_ids(turns.drop_last())[i]);
        }
        new_session_has_no_members(turns.drop_last(), session);
    }
}

/// Adds the run `turns` as a window; an empty run makes none.
fn push_window(list: &mut Vec<Window>, turns: Vec<usize>)
    ensures
        window_views(final(list)@) == if turns.len() == 0 {
            window_views(old(list)@)
        } else {
            window_views(old(list)@).push(positions(turns@))
        },
{
    let ghost before = window_views(list@);
    if turns.len() > 0 {
        let ghost run = positions(turns@);
        list.push(Window { turns });
        assert(window_views(list@) =~= before.push(run));
    }
}

/// The windows of a run of positions that are complete, followed by the one that is not.
spec fn with_current(done: Seq<Seq<int>>, current: Seq<int>) -> Seq<Seq<int>> {
    if current.len() == 0 {
        done
    } else {
        done.push(current)
    }
}

/// Adds the windows of the turns at `members`.
fn push_windows(list: &mut Vec<Window>, turns: &Vec<Turn>, members: &Vec<usize>)
    requires
        forall|j: int| 0 <= j < members.len() ==> #[trigger] members@[j] < turns.len(),
    ensures
        window_views(final(list)@) == window_views(old(list)@) + member_windows(
            turn_views(turns@),
            positions(members@),
        ),
{
    let ghost all = turn_views(turns@);
    let ghost run = positions(members@);
    let ghost start = window_views(list@);
    let ghost mut done: Seq<Seq<int>> = Seq::empty();
    let mut current: Vec<usize> = Vec::new();
    let mut j: usize = 0;
    assert(start + done =~= start);
    assert(run.take(0) =~= Seq::empty());
    while j < members.len()
        invariant
            j <= members.len(),
            all == turn_views(turns@),
            run == positions(members@),
            forall|k: int| 0 <= k < members.len() ==> #[trigger] members@[k] < turns.len(),
            current.len() == 0 <==> j == 0,
            current.len() <= WINDOW_SIZE,
            current.len() > 0 ==> current@.last() == members@[j - 1],
            member_windows(all, run.take(j as int)) == with_current(done, positions(current@)),
            j == 0 ==> done.len() == 0,
            window_views(list@) == start + done,
        decreases members.len() - j,
    {
        let next: usize = members[j];
        let ghost old_current = current@;
        let ghost old_done = done;
        proof {
            assert(run.take(j + 1).drop_last() =~= run.take(j as int));
            assert(run.take(j + 1).last() == next as int);
            if j > 0 {
                let before = with_current(done, positions(current@));
                assert(before.last() == positions(current@));
                assert(before.drop_last() =~= done);
                assert(run.take(j + 1)[j - 1] == members@[j - 1]);
            }
        }
        if current.len() > 0 {
            let previous: usize = current[current.len() - 1];
            assert(current@.last() == previous);
            let gap: i128 = turns[next].ts as i128 - turns[previous].ts as i128;
            assert((gap > EPISODE_GAP_SECONDS) == starts_episode(all, previous as int, next as int));
            if current.len() == WINDOW_SIZE || gap > EPISODE_GAP_SECONDS as i128 {
                push_window(list, current);
                proof {
                    done = done.push(positions(old_current));
                    assert(start + done =~= (start + old_done).push(positions(old_current)));
                }
                current = Vec::new();
            }
        }
        let ghost kept = current@;
        current.push(next);
        proof {
            assert(positions(current@) =~= positions(kept).push(next as int));
            if kept.len() == 0 {
                assert(positions(current@) =~= seq![next as int]);
            }
            assert(member_windows(all, run.take(j + 1)) =~= with_current(
                done,
                positions(current@),
            ));
        }
        j = j + 1;
    }
    assert(run.take(j as int) =~= run);
    let ghost last = positions(current@);
    push_window(list, current);
    assert(window_views(list@) =~= start + with_current(done, last));
}

/// The positions of the turns of a session lie among the turns, in increasing order, and are
/// those of the turns that belong to it.
proof fn members_are_the_session(turns: Seq<TurnView>, session: Seq<char>)
    ensures
        forall|k: int|
            0 <= k < session_members(turns, session).len() ==> 0 <= #[trigger] session_members(
                turns,
                session,
            )[k] < turns.len() && turns[session_members(turns, session)[k]].session_id == session,
        forall|a: int, b: int|
            0 <= a < b < session_members(turns, session).len() ==> #[trigger] session_members(
                turns,
                session,
            )[a] < #[trigger] session_members(turns, session)[b],
        forall|i: int|
            0 <= i < turns.len() && (#[trigger] turns[i]).session_id == session
                ==> session_members(turns, session).contains(i),
    decreases turns.len(),
{
    if turns.len() > 0 {
        let before = session_members(turns.drop_last(), session);
        let now = session_members(turns, session);
        members_are_the_session(turns.drop_last(), session);
        assert forall|k: int| 0 <= k < now.len() implies 0 <= #[trigger] now[k] < turns.len()
            && turns[now[k]].session_id == session by {
            if k < before.len() {
                assert(turns.drop_last()[before[k]].session_id == session);
            }
        }
        assert forall|a: int, b: int| 0 <= a < b < now.len() implies #[trigger] now[a]
            < #[trigger] now[b] by {
            if b < before.len() {
                assert(before[a] < before[b]);
            } else {
                assert(before[a] < turns.len() - 1);
            }
        }
        assert forall|i: int|
            0 <= i < turns.len() && (#[trigger] turns[i]).session_id == session implies now.contains(
            i,
        ) by {
            if i < turns.len() - 1 {
                assert(turns.drop_last()[i].session_id == session);
                assert(before.contains(i));
                let k = choose|k: int| 0 <= k < before.len() && before[k] == i;
                assert(now[k] == i);
            } else {
                assert(now.last() == i);
            }
        }
    }
}

/// The windows of `turns`, session by session.
pub fn build_windows(turns: &Vec<Turn>) -> (r: Vec<Window>)
    ensures
        window_views(r@) == windows(turn_views(turns@)),
{
    let ghost all = turn_views(turns@);
    let ghost parts = sessions(all).map_values(|s: Seq<char>| session_windows(all, s));
    let groups = group_sessions(turns);
    let mut list: Vec<Window> = Vec::new();
    let mut k: usize = 0;
    assert(window_views(list@) =~= parts.take(0).flatten());
    while k < groups.len()
        invariant
            k <= groups.len(),
            all == turn_views(turns@),
            parts == sessions(all).map_values(|s: Seq<char>| session_windows(all, s)),
            groups.len() == sessions(all).len(),
            forall|m: int|
                0 <= m < groups.len() ==> positions((#[trigger] groups@[m])@) == session_members(
                    all,
                    sessions(all)[m],
                ),
            window_views(list@) == parts.take(k as int).flatten(),
        decreases groups.len() - k,
    {
        proof {
            let members = positions(groups@[k as int]@);
            members_are_the_session(all, sessions(all)[k as int]);
            assert forall|j: int| 0 <= j < groups@[k as int].len() implies #[trigger] groups@[k as int]@[j]
                < turns.len() by {
                assert(members[j] == groups@[k as int]@[j]);
            }
            assert(parts.take(k + 1) =~= parts.take(k as int).push(parts[k as int]));
            parts.take(k as int).lemma_flatten_push(parts[k as int]);
        }
        push_windows(&mut list, turns, &groups[k]);
        k = k + 1;
    }
    assert(parts.take(k as int) =~= parts);
    list
}

/// A window as it should be: one to four turns of one session, in order, none of them too long
/// after the one before.
pub open spec fn sound_window(turns: Seq<TurnView>, window: Seq<int>) -> bool {
    &&& 1 <= window.len() <= WINDOW_SIZE
    &&& forall|p: int|
        0 <= p < window.len() ==> 0 <= #[trigger] window[p] < turns.len()
            && turns[window[p]].session_id == turns[window[0]].session_id
    &&& forall|p: int, q: int|
        0 <= p < q < window.len() ==> #[trigger] window[p] < #[trigger] window[q]
    &&& forall|p: int, q: int|
        0 <= p && q == p + 1 && q < window.len() ==> !starts_episode(
            turns,
            #[trigger] window[p],
            #[trigger] window[q],
        )
}

/// Whether position `i` stands in one of the windows.
pub open spec fn in_some_window(list: Seq<Seq<int>>, i: int) -> bool {
    exists|w: int, p: int| 0 <= w < list.len() && 0 <= p < list[w].len() && #[trigger] list[w][p] == i
}

/// Whether no position stands twice in the windows.
pub open spec fn apart(list: Seq<Seq<int>>) -> bool {
    forall|w: int, p: int, v: int, q: int|
        0 <= w < list.len() && 0 <= p < list[w].len() && 0 <= v < list.len() && 0 <= q
            < list[v].len() && #[trigger] list[w][p] == #[trigger] list[v][q] ==> w == v && p == q
}

/// Whether a window could not have taken the first turn of the next one.
pub open spec fn closed_by(turns: Seq<TurnView>, window: Seq<int>, next: Seq<int>) -> bool {
    window.len() == WINDOW_SIZE || starts_episode(turns, window.last(), next[0])
}

proof fn member_windows_are_sound(turns: Seq<TurnView>, members: Seq<int>, session: Seq<char>)
    requires
        forall|k: int|
            0 <= k < members.len() ==> 0 <= #[trigger] members[k] < turns.len()
                && turns[members[k]].session_id == session,
        forall|a: int, b: int|
            0 <= a < b < members.len() ==> #[trigger] members[a] < #[trigger] members[b],
    ensures
        ({
            let list = member_windows(turns, members);
            &&& (list.len() == 0 <==> members.len() == 0)
            &&& members.len() > 0 ==> list.last().last() == members.last()
            &&& forall|w: int|
                0 <= w < list.len() ==> sound_window(turns, #[trigger] list[w])
                    && turns[list[w][0]].session_id == session
            &&& forall|i: int| #[trigger] in_some_window(list, i) <==> members.contains(i)
            &&& apart(list)
            &&& forall|w: int, v: int|
                0 <= w && v == w + 1 && v < list.len() ==> closed_by(
                    turns,
                    #[trigger] list[w],
                    #[trigger] list[v],
                )
        }),
    decreases members.len(),
{
    let list = member_windows(turns, members);
    if members.len() == 0 {
        assert forall|i: int| #[trigger] in_some_window(list, i) <==> members.contains(i) by {}
    } else {
        let front = members.drop_last();
        let before = member_windows(turns, front);
        let next = members.last();
        member_windows_are_sound(turns, front, session);
        assert forall|w: int, p: int|
            0 <= w < before.len() && 0 <= p < before[w].len() implies #[trigger] before[w][p]
            < next by {
            assert(in_some_window(before, before[w][p]));
            assert(front.contains(before[w][p]));
            let a = choose|a: int| 0 <= a < front.len() && front[a] == before[w][p];
            assert(members[a] < members[members.len() - 1]);
        }
        if before.len() > 0 {
            assert(before.last().last() == members[members.len() - 2]);
            assert(sound_window(turns, before.last()));
        }
        let fresh = before.len() == 0 || before.last().len() == WINDOW_SIZE || starts_episode(
            turns,
            members[members.len() - 2],
            next,
        );
        if fresh {
            assert(list == before.push(seq![next]));
        } else {
            assert(list == before.drop_last().push(before.last().push(next)));
        }
        assert forall|w: int| 0 <= w < list.len() implies sound_window(turns, #[trigger] list[w])
            && turns[list[w][0]].session_id == session by {
            if w < list.len() - 1 || (!fresh && w < before.len() - 1) {
                assert(list[w] == before[w]);
                assert(sound_window(turns, before[w]));
            } else if !fresh {
                let old = before.last();
                assert(sound_window(turns, old) && turns[old[0]].session_id == session);
                assert(list[w] == old.push(next));
                assert forall|p: int, q: int|
                    0 <= p < q < list[w].len() implies #[trigger] list[w][p] < #[trigger] list[w][q] by {
                    if q == old.len() {
                        assert(before[before.len() - 1][p] < next);
                    } else {
                        assert(old[p] < old[q]);
                    }
                }
                assert forall|p: int, q: int|
                    0 <= p && q == p + 1 && q < list[w].len() implies !starts_episode(
                    turns,
                    #[trigger] list[w][p],
                    #[trigger] list[w][q],
                ) by {
                    if q < old.len() {
                        assert(!starts_episode(turns, old[p], old[q]));
                    }
                }
                assert forall|p: int| 0 <= p < list[w].len() implies 0 <= #[trigger] list[w][p]
                    < turns.len() && turns[list[w][p]].session_id
                    == turns[list[w][0]].session_id by {
                    if p < old.len() {
                        assert(turns[old[p]].session_id == turns[old[0]].session_id);
                    }
                }
            }
        }
        assert forall|i: int| #[trigger] in_some_window(list, i) <==> members.contains(i) by {
            if members.contains(i) {
                if i == next {
                    assert(list.last().last() == i);
                    assert(list[list.len() - 1][list.last().len() - 1] == i);
                } else {
                    let a = choose|a: int| 0 <= a < members.len() && members[a] == i;
                    assert(front[a] == i);
                    assert(in_some_window(before, i));
                    let (w, p) = choose|w: int, p: int|
                        0 <= w < before.len() && 0 <= p < before[w].len() && #[trigger] before[w][p]
                            == i;
                    assert(list[w][p] == i);
                }
            }
            if in_some_window(list, i) {
                let (w, p) = choose|w: int, p: int|
                    0 <= w < list.len() && 0 <= p < list[w].len() && #[trigger] list[w][p] == i;
                if i == next {
                    assert(members[members.len() - 1] == i);
                } else {
                    assert(before[w][p] == i);
                    assert(in_some_window(before, i));
                    assert(front.contains(i));
                    let a = choose|a: int| 0 <= a < front.len() && front[a] == i;
                    assert(members[a] == i);
                }
            }
        }
        assert forall|w: int, p: int, v: int, q: int|
            0 <= w < list.len() && 0 <= p < list[w].len() && 0 <= v < list.len() && 0 <= q
                < list[v].len() && #[trigger] list[w][p] == #[trigger] list[v][q] implies w == v && p
            == q by {
            let last = list.len() - 1;
            let end = list.last().len() - 1;
            if w == last && p == end {
                if !(v == last && q == end) {
                    assert(list[v][q] == before[v][q]);
                }
            } else if v == last && q == end {
                assert(list[w][p] == before[w][p]);
            } else {
                assert(list[w][p] == before[w][p]);
                assert(list[v][q] == before[v][q]);
            }
        }
        assert forall|w: int, v: int| 0 <= w && v == w + 1 && v < list.len() implies closed_by(
            turns,
            #[trigger] list[w],
            #[trigger] list[v],
        ) by {
            assert(list[w] == before[w]);
            if v < before.len() {
                assert(closed_by(turns, before[w], before[v]));
                assert(list[v][0] == before[v][0]);
            } else {
                assert(before[w] == before.last());
            }
        }
    }
}

/// The windows of the first sessions hold exactly the turns of these sessions.
proof fn windows_of_first_sessions(turns: Seq<TurnView>, n: int)
    requires
        0 <= n <= sessions(turns).len(),
    ensures
        ({
            let parts = sessions(turns).map_values(|s: Seq<char>| session_windows(turns, s));
            let list = parts.take(n).flatten();
            &&& forall|w: int| 0 <= w < list.len() ==> sound_window(turns, #[trigger] list[w])
            &&& forall|i: int| #[trigger]
                in_some_window(list, i) <==> 0 <= i < turns.len() && sessions(turns).take(
                    n,
                ).contains(turns[i].session_id)
            &&& apart(list)
            &&& forall|w: int, v: int|
                0 <= w && v == w + 1 && v < list.len() && turns[(#[trigger] list[w])[0]].session_id
                    == turns[(#[trigger] list[v])[0]].session_id ==> closed_by(
                    turns,
                    list[w],
                    list[v],
                )
        }),
    decreases n,
{
    let ids = sessions(turns);
    let parts = ids.map_values(|s: Seq<char>| session_windows(turns, s));
    let list = parts.take(n).flatten();
    if n == 0 {
        assert(parts.take(0) =~= Seq::empty());
        assert(list =~= Seq::empty());
    } else {
        let before = parts.take(n - 1).flatten();
        let own = parts[n - 1];
        let session = ids[n - 1];
        windows_of_first_sessions(turns, n - 1);
        assert(parts.take(n) =~= parts.take(n - 1).push(own));
        parts.take(n - 1).lemma_flatten_push(own);
        assert(list == before + own);
        members_are_the_session(turns, session);
        member_windows_are_sound(turns, session_members(turns, session), session);
        distinct_keeps_each_element_once(session_ids(turns));
        assert(!ids.take(n - 1).contains(session)) by {
            if ids.take(n - 1).contains(session) {
                let first = ids.take(n - 1);
                let k = choose|k: int| 0 <= k < first.len() && first[k] == session;
                assert(ids[k] == ids[n - 1]);
            }
        }
        assert forall|w: int| 0 <= w < list.len() implies sound_window(turns, #[trigger] list[w]) by {
            if w < before.len() {
                assert(list[w] == before[w]);
            } else {
                assert(list[w] == own[w - before.len()]);
            }
        }
        assert forall|i: int| #[trigger] in_some_window(list, i) <==> 0 <= i < turns.len() && ids.take(
            n,
        ).contains(turns[i].session_id) by {
            if in_some_window(list, i) {
                let (w, p) = choose|w: int, p: int|
                    0 <= w < list.len() && 0 <= p < list[w].len() && #[trigger] list[w][p] == i;
                if w < before.len() {
                    assert(before[w][p] == i);
                    assert(in_some_window(before, i));
                    let first = ids.take(n - 1);
                    let k = choose|k: int| 0 <= k < first.len() && first[k] == turns[i].session_id;
                    assert(ids.take(n)[k] == turns[i].session_id);
                } else {
                    assert(own[w - before.len()][p] == i);
                    assert(in_some_window(own, i));
                    assert(session_members(turns, session).contains(i));
                    assert(ids.take(n)[n - 1] == turns[i].session_id);
                }
            }
            if 0 <= i < turns.len() && ids.take(n).contains(turns[i].session_id) {
                let first = ids.take(n);
                let k = choose|k: int| 0 <= k < first.len() && first[k] == turns[i].session_id;
                if k < n - 1 {
                    assert(ids.take(n - 1)[k] == turns[i].session_id);
                    assert(in_some_window(before, i));
                    let (w, p) = choose|w: int, p: int|
                        0 <= w < before.len() && 0 <= p < before[w].len() && #[trigger] before[w][p]
                            == i;
                    assert(list[w][p] == i);
                } else {
                    assert(in_some_window(own, i));
                    let (w, p) = choose|w: int, p: int|
                        0 <= w < own.len() && 0 <= p < own[w].len() && #[trigger] own[w][p] == i;
                    assert(list[w + before.len()][p] == i);
                }
            }
        }
        assert forall|w: int, p: int, v: int, q: int|
            0 <= w < list.len() && 0 <= p < list[w].len() && 0 <= v < list.len() && 0 <= q
                < list[v].len() && #[trigger] list[w][p] == #[trigger] list[v][q] implies w == v && p
            == q by {
            let i = list[w][p];
            let m = before.len();
            if w < m && v < m {
                assert(before[w][p] == before[v][q]);
            } else if w >= m && v >= m {
                assert(own[w - m][p] == own[v - m][q]);
            } else {
                let (a, b, c, d) = if w < m {
                    (w, p, v, q)
                } else {
                    (v, q, w, p)
                };
                assert(before[a][b] == i);
                assert(own[c - m][d] == i);
                assert(in_some_window(before, i));
                assert(in_some_window(own, i));
                assert(session_members(turns, session).contains(i));
                assert(turns[i].session_id == session);
            }
        }
        assert forall|w: int, v: int|
            0 <= w && v == w + 1 && v < list.len() && turns[(#[trigger] list[w])[0]].session_id
                == turns[(#[trigger] list[v])[0]].session_id implies closed_by(
            turns,
            list[w],
            list[v],
        ) by {
            let m = before.len();
            if v < m {
                assert(list[w] == before[w] && list[v] == before[v]);
            } else if w >= m {
                assert(list[w] == own[w - m] && list[v] == own[v - m]);
            } else {
                assert(list[w] == before[w] && list[v] == own[0]);
                assert(sound_window(turns, before[w]));
                assert(before[w][0] == list[w][0]);
                assert(in_some_window(before, before[w][0]));
            }
        }
    }
}

/// Every window holds one to four turns of one session, in order, each at most six hours after
/// the one before.
pub proof fn windows_are_short_runs_of_one_session(turns: Seq<TurnView>)
    ensures
        forall|w: int|
            0 <= w < windows(turns).len() ==> sound_window(turns, #[trigger] windows(turns)[w]),
{
    whole_list_of_windows(turns);
}

/// Every turn stands in exactly one window, at exactly one place.
pub proof fn windows_partition_the_turns(turns: Seq<TurnView>)
    ensures
        forall|i: int| #[trigger] in_some_window(windows(turns), i) <==> 0 <= i < turns.len(),
        apart(windows(turns)),
{
    whole_list_of_windows(turns);
}

/// A window ends only where it must: it is full, or the next window of its session starts more
/// than six hours later.
pub proof fn windows_end_only_where_they_must(turns: Seq<TurnView>)
    ensures
        forall|w: int, v: int|
            0 <= w && v == w + 1 && v < windows(turns).len() && turns[(#[trigger] windows(
                turns,
            )[w])[0]].session_id == turns[(#[trigger] windows(turns)[v])[0]].session_id
                ==> closed_by(turns, windows(turns)[w], windows(turns)[v]),
{
    whole_list_of_windows(turns);
}

proof fn whole_list_of_windows(turns: Seq<TurnView>)
    ensures
        ({
            let list = windows(turns);
            &&& forall|w: int| 0 <= w < list.len() ==> sound_window(turns, #[trigger] list[w])
            &&& forall|i: int| #[trigger] in_some_window(list, i) <==> 0 <= i < turns.len()
            &&& apart(list)
            &&& forall|w: int, v: int|
                0 <= w && v == w + 1 && v < list.len() && turns[(#[trigger] list[w])[0]].session_id
                    == turns[(#[trigger] list[v])[0]].session_id ==> closed_by(
                    turns,
                    list[w],
                    list[v],
                )
        }),
{
    let n = sessions(turns).len() as int;
    let parts = sessions(turns).map_values(|s: Seq<char>| session_windows(turns, s));
    windows_of_first_sessions(turns, n);
    assert(parts.take(n) =~= parts);
    assert(sessions(turns).take(n) =~= sessions(turns));
    distinct_keeps_each_element_once(session_ids(turns));
    assert forall|i: int| #[trigger] in_some_window(windows(turns), i) <==> 0 <= i < turns.len() by {
        if 0 <= i < turns.len() {
            assert(session_ids(turns)[i] == turns[i].session_id);
        }
    }
}

/// There are at least as many windows as sessions and at most as many as turns, and there are not
/// more turns than the windows have room for.
pub proof fn windows_are_as_many_as_the_turns_need(turns: Seq<TurnView>)
    ensures
        sessions(turns).len() <= windows(turns).len(),
        windows(turns).len() <= turns.len(),
        turns.len() <= WINDOW_SIZE * windows(turns).len(),
{
    let list = windows(turns);
    whole_list_of_windows(turns);
    distinct_keeps_each_element_once(session_ids(turns));
    let names = sessions(turns);
    let parts = names.map_values(|s: Seq<char>| session_windows(turns, s));
    assert forall|k: int| 0 <= k < parts.len() implies (#[trigger] parts[k]).len() > 0 by {
        let session = names[k];
        assert(names.contains(session));
        assert(session_ids(turns).contains(session));
        let i = choose|i: int|
            0 <= i < session_ids(turns).len() && session_ids(turns)[i] == session;
        assert(turns[i].session_id == session);
        members_are_the_session(turns, session);
        member_windows_are_sound(turns, session_members(turns, session), session);
    }
    elements_of_flatten(parts);
    let firsts = list.map_values(|w: Seq<int>| w[0]);
    assert forall|w: int| 0 <= w < list.len() implies 0 <= #[trigger] firsts[w] < turns.len() by {
        assert(sound_window(turns, list[w]));
        assert(list[w][0] == firsts[w]);
        assert(in_some_window(list, list[w][0]));
    }
    assert forall|w: int, v: int|
        0 <= w < firsts.len() && 0 <= v < firsts.len() && w != v implies firsts[w] != firsts[v] by {
        assert(sound_window(turns, list[w]) && sound_window(turns, list[v]));
        assert(list[w][0] == firsts[w] && list[v][0] == firsts[v]);
    }
    distinct_numbers_below(firsts, turns.len());
    let all = list.flatten();
    elements_of_flatten(list);
    assert forall|i: int| 0 <= i < turns.len() implies #[trigger] all.contains(i) by {
        assert(in_some_window(list, i));
        let (w, p) = choose|w: int, p: int|
            0 <= w < list.len() && 0 <= p < list[w].len() && #[trigger] list[w][p] == i;
        assert(all.contains(list[w][p]));
    }
    numbers_below_take_room(all, turns.len());
    assert forall|w: int| 0 <= w < list.len() implies (#[trigger] list[w]).len()
        <= WINDOW_SIZE by {
        assert(sound_window(turns, list[w]));
    }
    list.lemma_flatten_and_flatten_alt_are_equivalent();
    list.lemma_flatten_length_le_mul(4);
}

/// Whether every turn that stands in a window has the score of the window.
pub open spec fn spread(list: Seq<Seq<int>>, scores: Seq<u32>, r: Seq<u32>) -> bool {
    forall|w: int, p: int|
        0 <= w < list.len() && 0 <= p < list[w].len() ==> r[#[trigger] list[w][p]] == scores[w]
}

/// The score of each of `count` turns, given those of the windows in which they stand; a turn that
/// stands in none has the score zero.
pub fn spread_scores(windows: &Vec<Window>, scores: &Vec<u32>, count: usize) -> (r: Vec<u32>)
    requires
        scores.len() == windows.len(),
        apart(window_views(windows@)),
        forall|i: int| #[trigger] in_some_window(window_views(windows@), i) ==> 0 <= i < count,
    ensures
        r.len() == count,
        spread(window_views(windows@), scores@, r@),
        forall|i: int|
            0 <= i < count && !in_some_window(window_views(windows@), i) ==> #[trigger] r@[i] == 0,
{
    let ghost list = window_views(windows@);
    let mut r: Vec<u32> = Vec::new();
    while r.len() < count
        invariant
            r.len() <= count,
            forall|i: int| 0 <= i < r.len() ==> #[trigger] r@[i] == 0,
        decreases count - r.len(),
    {
        r.push(0);
    }
    let mut w: usize = 0;
    while w < windows.len()
        invariant
            w <= windows.len(),
            scores.len() == windows.len(),
            list == window_views(windows@),
            apart(list),
            forall|i: int| #[trigger] in_some_window(list, i) ==> 0 <= i < count,
            forall|i: int| 0 <= i < count && !in_some_window(list, i) ==> #[trigger] r@[i] == 0,
            r.len() == count,
            forall|v: int, q: int|
                0 <= v < w && 0 <= q < list[v].len() ==> r@[#[trigger] list[v][q]] == scores@[v],
        decreases windows.len() - w,
    {
        let window = &windows[w];
        let mut p: usize = 0;
        assert(list[w as int] == positions(window.turns@));
        while p < window.turns.len()
            invariant
                w < windows.len(),
                p <= window.turns.len(),
                scores.len() == windows.len(),
                list == window_views(windows@),
                list[w as int] == positions(window.turns@),
                apart(list),
                forall|i: int| #[trigger] in_some_window(list, i) ==> 0 <= i < count,
                forall|i: int|
                    0 <= i < count && !in_some_window(list, i) ==> #[trigger] r@[i] == 0,
                r.len() == count,
                forall|v: int, q: int|
                    0 <= v <= w && 0 <= q < list[v].len() && (v < w || q < p)
                        ==> r@[#[trigger] list[v][q]] == scores@[v],
            decreases window.turns.len() - p,
        {
            let i = window.turns[p];
            let ghost before = r@;
            proof {
                assert(list[w as int][p as int] == i);
                assert(in_some_window(list, i as int));
            }
            r.set(i, scores[w]);
            proof {
                assert forall|v: int, q: int|
                    0 <= v <= w && 0 <= q < list[v].len() && (v < w || q < p
                        + 1) implies r@[#[trigger] list[v][q]] == scores@[v] by {
                    assert(in_some_window(list, list[v][q]));
                    if list[v][q] == i {
                        assert(list[v][q] == list[w as int][p as int]);
                    }
                }
            }
            p = p + 1;
        }
        w = w + 1;
    }
    r
}

/// What every window is: one to four turns of one session, the earlier first, and each at most
/// 21600 seconds after the one before.
pub proof fn windows_hold_turns_close_in_time(turns: Seq<TurnView>, w: int, p: int, q: int)
    requires
        0 <= w < windows(turns).len(),
        0 <= p < q < windows(turns)[w].len() || p == q == 0,
    ensures
        ({
            let window = windows(turns)[w];
            &&& 1 <= window.len() <= 4
            &&& 0 <= window[p] < turns.len()
            &&& 0 <= window[q] < turns.len()
            &&& p < q ==> window[p] < window[q]
            &&& turns[window[p]].session_id == turns[window[q]].session_id
            &&& q == p + 1 ==> turns[window[q]].ts - turns[window[p]].ts <= 21600
        }),
{
    let window = windows(turns)[w];
    windows_are_short_runs_of_one_session(turns);
    assert(sound_window(turns, window));
    assert(0 <= window[p] < turns.len() && turns[window[p]].session_id
        == turns[window[0]].session_id);
    assert(0 <= window[q] < turns.len() && turns[window[q]].session_id
        == turns[window[0]].session_id);
    if q == p + 1 {
        assert(!starts_episode(turns, window[p], window[q]));
    }
}

/// After a member its window goes on with the next member, or ends there, full or before a gap.
proof fn member_windows_go_on(
    turns: Seq<TurnView>,
    members: Seq<int>,
    session: Seq<char>,
    m: int,
    w: int,
    p: int,
)
    requires
        forall|k: int|
            0 <= k < members.len() ==> 0 <= #[trigger] members[k] < turns.len()
                && turns[members[k]].session_id == session,
        forall|a: int, b: int|
            0 <= a < b < members.len() ==> #[trigger] members[a] < #[trigger] members[b],
        0 <= m < members.len() - 1,
        0 <= w < member_windows(turns, members).len(),
        0 <= p < member_windows(turns, members)[w].len(),
        member_windows(turns, members)[w][p] == members[m],
    ensures
        ({
            let window = member_windows(turns, members)[w];
            let gap = turns[members[m + 1]].ts - turns[members[m]].ts;
            if p + 1 < window.len() {
                window[p + 1] == members[m + 1] && gap <= 21600
            } else {
                window.len() == 4 || gap > 21600
            }
        }),
    decreases members.len(),
{
    let list = member_windows(turns, members);
    let front = members.drop_last();
    let before = member_windows(turns, front);
    let next = members.last();
    member_windows_are_sound(turns, members, session);
    assert forall|k: int| 0 <= k < front.len() implies 0 <= #[trigger] front[k] < turns.len()
        && turns[front[k]].session_id == session by {
        assert(front[k] == members[k]);
    }
    assert forall|a: int, b: int| 0 <= a < b < front.len() implies #[trigger] front[a]
        < #[trigger] front[b] by {
        assert(members[a] < members[b]);
    }
    member_windows_are_sound(turns, front, session);
    let fresh = before.len() == 0 || before.last().len() == WINDOW_SIZE || starts_episode(
        turns,
        members[members.len() - 2],
        next,
    );
    let end = before.len() - 1;
    let last = front.len() - 1;
    assert(before.last().last() == front[last]);
    assert(front.contains(members[m])) by {
        assert(front[m] == members[m]);
    }
    assert(in_some_window(before, members[m]));
    let (v, q) = choose|v: int, q: int|
        0 <= v < before.len() && 0 <= q < before[v].len() && #[trigger] before[v][q] == members[m];
    assert(list[v][q] == before[v][q]);
    assert(v == w && q == p);
    if m < last {
        assert(front[m + 1] == members[m + 1]);
        member_windows_go_on(turns, front, session, m, w, p);
        if w == end && p + 1 == before[w].len() {
            assert(before[w][p] == front[last]);
            assert(front[m] < front[last]);
        }
    } else {
        assert(sound_window(turns, before[end]));
        assert(before[end][before[end].len() - 1] == front[last]);
        assert(w == end && p == before[end].len() - 1);
    }
}

/// A window goes on as long as it can: after a turn the next turn of the session stands in the same
/// window, right behind it, unless the window has four turns already or the next turn comes more
/// than 21600 seconds later; in both cases it does not.
pub proof fn windows_go_on_as_long_as_they_can(
    turns: Seq<TurnView>,
    earlier: int,
    later: int,
    w: int,
    p: int,
)
    requires
        0 <= earlier < later < turns.len(),
        turns[earlier].session_id == turns[later].session_id,
        forall|k: int|
            earlier < k < later ==> (#[trigger] turns[k]).session_id != turns[later].session_id,
        0 <= w < windows(turns).len(),
        0 <= p < windows(turns)[w].len(),
        windows(turns)[w][p] == earlier,
    ensures
        ({
            let window = windows(turns)[w];
            let gap = turns[later].ts - turns[earlier].ts;
            if p + 1 < window.len() {
                window[p + 1] == later && gap <= 21600
            } else {
                window.len() == 4 || gap > 21600
            }
        }),
{
    let all = windows(turns);
    let session = turns[later].session_id;
    let names = sessions(turns);
    let parts = names.map_values(|s: Seq<char>| session_windows(turns, s));
    let members = session_members(turns, session);
    members_are_the_session(turns, session);
    member_windows_are_sound(turns, members, session);
    distinct_keeps_each_element_once(session_ids(turns));
    assert(session_ids(turns)[later] == session);
    assert(names.contains(session));
    let k = choose|k: int| 0 <= k < names.len() && names[k] == session;
    assert(turns[earlier].session_id == session && turns[later].session_id == session);
    let m = choose|m: int| 0 <= m < members.len() && members[m] == earlier;
    let n = choose|n: int| 0 <= n < members.len() && members[n] == later;
    assert(m < n) by {
        if n < m {
            assert(members[n] < members[m]);
        }
    }
    assert(n == m + 1) by {
        if n > m + 1 {
            assert(members[m] < members[m + 1] && members[m + 1] < members[n]);
            assert(turns[members[m + 1]].session_id == session);
        }
    }
    let own = member_windows(turns, members);
    assert(parts[k] == own);
    assert(members.contains(earlier));
    assert(in_some_window(own, earlier));
    let (v, q) = choose|v: int, q: int|
        0 <= v < own.len() && 0 <= q < own[v].len() && #[trigger] own[v][q] == earlier;
    elements_of_flatten(parts);
    assert(parts[k][v] == own[v]);
    assert(all.contains(own[v]));
    let u = choose|u: int| 0 <= u < all.len() && all[u] == own[v];
    windows_partition_the_turns(turns);
    assert(all[u][q] == earlier);
    assert(u == w && q == p);
    member_windows_go_on(turns, members, session, m, v, q);
}

/// The sessions are those of the turns, each once.
pub proof fn sessions_are_those_of_the_turns(turns: Seq<TurnView>, session: Seq<char>)
    ensures
        sessions(turns).no_duplicates(),
        sessions(turns).contains(session) <==> exists|i: int|
            0 <= i < turns.len() && (#[trigger] turns[i]).session_id == session,
{
    let ids = session_ids(turns);
    distinct_keeps_each_element_once(ids);
    if ids.contains(session) {
        let i = choose|i: int| 0 <= i < ids.len() && ids[i] == session;
        assert(turns[i].session_id == session);
    }
    if exists|i: int| 0 <= i < turns.len() && (#[trigger] turns[i]).session_id == session {
        let i = choose|i: int|
            0 <= i < turns.len() && (#[trigger] turns[i]).session_id == session;
        assert(ids[i] == session);
    }
}

/// The score of a turn is that of the window in which it stands.
pub proof fn turns_score_as_their_windows(
    turns: Seq<TurnView>,
    scores: Seq<u32>,
    r: Seq<u32>,
    i: int,
)
    requires
        spread(windows(turns), scores, r),
        0 <= i < turns.len(),
    ensures
        exists|w: int|
            0 <= w < windows(turns).len() && (#[trigger] windows(turns)[w]).contains(i) && r[i]
                == scores[w],
{
    let list = windows(turns);
    windows_partition_the_turns(turns);
    assert(in_some_window(list, i));
    let (w, p) = choose|w: int, p: int|
        0 <= w < list.len() && 0 <= p < list[w].len() && #[trigger] list[w][p] == i;
    assert(list[w].contains(i));
}

/// Every turn stands in a window, and wherever a turn is found in windows, it is at one place.
pub proof fn every_turn_stands_at_one_place(
    turns: Seq<TurnView>,
    i: int,
    w: int,
    p: int,
    v: int,
    q: int,
)
    requires
        0 <= i < turns.len(),
    ensures
        exists|u: int| 0 <= u < windows(turns).len() && (#[trigger] windows(turns)[u]).contains(i),
        0 <= w < windows(turns).len() && 0 <= p < windows(turns)[w].len() && 0 <= v < windows(
            turns,
        ).len() && 0 <= q < windows(turns)[v].len() && windows(turns)[w][p] == i && windows(
            turns,
        )[v][q] == i ==> w == v && p == q,
{
    let list = windows(turns);
    windows_partition_the_turns(turns);
    assert(in_some_window(list, i));
    let (u, r) = choose|u: int, r: int|
        0 <= u < list.len() && 0 <= r < list[u].len() && #[trigger] list[u][r] == i;
    assert(list[u].contains(i));
}

/// Windows stand for the positions that they hold, as they are.
pub proof fn windows_stand_for_what_they_hold(list: Seq<Window>, k: int, j: int)
    requires
        0 <= k < list.len(),
    ensures
        window_views(list).len() == list.len(),
        window_views(list)[k].len() == list[k].turns.len(),
        0 <= j < list[k].turns.len() ==> window_views(list)[k][j] == list[k].turns@[j],
{
}

} // verus!
