//! Putting the events of a task in chronological order.

use vstd::prelude::*;
use crate::cct::model::chronological;
use crate::trace::{views, Event, EventView};

verus! {

/// The events with the timestamp `t`, in the order in which they stand.
pub open spec fn at_time(events: Seq<EventView>, t: i64) -> Seq<EventView>
    decreases events.len(),
{
    if events.len() == 0 {
        Seq::empty()
    } else if events.last().timestamp == t {
        at_time(events.drop_last(), t).push(events.last())
    } else {
        at_time(events.drop_last(), t)
    }
}

/// `output` is `input` in chronological order, with events of one timestamp
/// left in the order in which they came.
pub open spec fn is_stable_sort(input: Seq<EventView>, output: Seq<EventView>) -> bool {
    &&& chronological(output)
    &&& output.to_multiset() == input.to_multiset()
    &&& forall|t: i64| at_time(output, t) == at_time(input, t)
}

/// Two chronological sequences run into one, read from their ends: the later
/// of the two last events comes last, and of two events with one timestamp
/// the one of the second sequence.
pub open spec fn merged(a: Seq<EventView>, b: Seq<EventView>) -> Seq<EventView>
    decreases a.len() + b.len(),
{
    if a.len() == 0 {
        b
    } else if b.len() == 0 {
        a
    } else if a.last().timestamp > b.last().timestamp {
        merged(a.drop_last(), b).push(a.last())
    } else {
        merged(a, b.drop_last()).push(b.last())
    }
}

/// The events of a timestamp in two sequences, one after the other, are
/// those in the first followed by those in the second.
pub proof fn lemma_at_time_of_parts(a: Seq<EventView>, b: Seq<EventView>, t: i64)
    ensures
        at_time(a + b, t) == at_time(a, t) + at_time(b, t),
    decreases b.len(),
{
    if b.len() == 0 {
        assert(a + b =~= a);
        assert(at_time(a, t) + at_time(b, t) =~= at_time(a, t));
    } else {
        lemma_at_time_of_parts(a, b.drop_last(), t);
        assert((a + b).drop_last() =~= a + b.drop_last());
        assert((a + b).last() == b.last());
        if b.last().timestamp == t {
            assert((at_time(a, t) + at_time(b.drop_last(), t)).push(b.last()) =~= at_time(a, t)
                + at_time(b, t));
        }
    }
}

/// A chronological sequence holds no event of a timestamp after its last.
proof fn lemma_none_later(events: Seq<EventView>, t: i64)
    requires
        chronological(events),
        events.len() > 0 ==> events.last().timestamp < t,
    ensures
        at_time(events, t) == Seq::<EventView>::empty(),
    decreases events.len(),
{
    if events.len() > 0 {
        let front = events.drop_last();
        assert(chronological(front)) by {
            assert forall|i: int, j: int| 0 <= i <= j < front.len() implies front[i].timestamp
                <= front[j].timestamp by {
                assert(front[i] == events[i] && front[j] == events[j]);
            }
        }
        if front.len() > 0 {
            assert(front.last() == events[front.len() - 1]);
            assert(events[front.len() - 1].timestamp <= events[events.len() - 1].timestamp);
        }
        lemma_none_later(front, t);
    }
}

/// A beginning of a chronological sequence is chronological.
proof fn lemma_front_chronological(events: Seq<EventView>)
    requires
        chronological(events),
        events.len() > 0,
    ensures
        chronological(events.drop_last()),
{
    let front = events.drop_last();
    assert forall|i: int, j: int| 0 <= i <= j < front.len() implies front[i].timestamp
        <= front[j].timestamp by {
        assert(front[i] == events[i] && front[j] == events[j]);
    }
}

/// Running two chronological sequences into one gives a chronological
/// sequence that holds the events of both, those of each timestamp in the
/// order of the first sequence and then of the second.
pub proof fn lemma_merged(a: Seq<EventView>, b: Seq<EventView>)
    requires
        chronological(a),
        chronological(b),
    ensures
        chronological(merged(a, b)),
        merged(a, b).len() == a.len() + b.len(),
        merged(a, b).to_multiset() == a.to_multiset().add(b.to_multiset()),
        forall|t: i64| at_time(merged(a, b), t) == at_time(a, t) + at_time(b, t),
        merged(a, b).len() > 0 ==> merged(a, b).last().timestamp == if a.len() == 0 {
            b.last().timestamp
        } else if b.len() == 0 || a.last().timestamp > b.last().timestamp {
            a.last().timestamp
        } else {
            b.last().timestamp
        },
    decreases a.len() + b.len(),
{
    broadcast use vstd::seq_lib::group_to_multiset_ensures;

    let m = merged(a, b);
    if a.len() == 0 {
        assert(a.to_multiset().add(b.to_multiset()) =~= b.to_multiset());
        assert forall|t: i64| at_time(m, t) == at_time(a, t) + at_time(b, t) by {
            assert(at_time(a, t) + at_time(b, t) =~= at_time(b, t));
        }
    } else if b.len() == 0 {
        assert(a.to_multiset().add(b.to_multiset()) =~= a.to_multiset());
        assert forall|t: i64| at_time(m, t) == at_time(a, t) + at_time(b, t) by {
            assert(at_time(a, t) + at_time(b, t) =~= at_time(a, t));
        }
    } else if a.last().timestamp > b.last().timestamp {
        let front = a.drop_last();
        let last = a.last();
        lemma_front_chronological(a);
        lemma_merged(front, b);
        let rest = merged(front, b);
        assert(a =~= front.push(last));
        assert(m.to_multiset() =~= a.to_multiset().add(b.to_multiset()));
        assert(chronological(m)) by {
            if front.len() > 0 {
                assert(front.last() == a[a.len() - 2]);
                assert(a[a.len() - 2].timestamp <= a[a.len() - 1].timestamp);
            }
            assert forall|i: int, j: int| 0 <= i <= j < m.len() implies m[i].timestamp
                <= m[j].timestamp by {
                if j == m.len() - 1 {
                    if i < j {
                        assert(rest[i].timestamp <= rest[rest.len() - 1].timestamp);
                    }
                } else {
                    assert(rest[i].timestamp <= rest[j].timestamp);
                }
            }
        }
        assert forall|t: i64| at_time(m, t) == at_time(a, t) + at_time(b, t) by {
            assert(m.drop_last() =~= rest);
            assert(m.last() == last);
            assert(at_time(rest, t) == at_time(front, t) + at_time(b, t));
            if last.timestamp == t {
                lemma_none_later(b, t);
                assert(at_time(front, t) + at_time(b, t) =~= at_time(front, t));
                assert(at_time(a, t) + at_time(b, t) =~= at_time(a, t));
            }
        }
    } else {
        let front = b.drop_last();
        let last = b.last();
        lemma_front_chronological(b);
        lemma_merged(a, front);
        let rest = merged(a, front);
        assert(b =~= front.push(last));
        assert(m.to_multiset() =~= a.to_multiset().add(b.to_multiset()));
        assert(chronological(m)) by {
            if front.len() > 0 {
                assert(front.last() == b[b.len() - 2]);
                assert(b[b.len() - 2].timestamp <= b[b.len() - 1].timestamp);
            }
            assert forall|i: int, j: int| 0 <= i <= j < m.len() implies m[i].timestamp
                <= m[j].timestamp by {
                if j == m.len() - 1 {
                    if i < j {
                        assert(rest[i].timestamp <= rest[rest.len() - 1].timestamp);
                    }
                } else {
                    assert(rest[i].timestamp <= rest[j].timestamp);
                }
            }
        }
        assert forall|t: i64| at_time(m, t) == at_time(a, t) + at_time(b, t) by {
            assert(m.drop_last() =~= rest);
            assert(m.last() == last);
            assert(at_time(rest, t) == at_time(a, t) + at_time(front, t));
            if last.timestamp == t {
                assert((at_time(a, t) + at_time(front, t)).push(last) =~= at_time(a, t)
                    + at_time(front, t).push(last));
            }
        }
    }
}

/// An event with the timestamp `t` is among the events of `t`, and where it
/// is the last event it is the last of them.
proof fn lemma_at_time_holds(events: Seq<EventView>, i: int)
    requires
        0 <= i < events.len(),
    ensures
        at_time(events, events[i].timestamp).len() > 0,
        i == events.len() - 1 ==> at_time(events, events[i].timestamp).last() == events[i],
    decreases events.len(),
{
    if i < events.len() - 1 {
        lemma_at_time_holds(events.drop_last(), i);
        assert(events.drop_last()[i] == events[i]);
    }
}

/// Where a sequence has events of the timestamp `t`, one of its events has
/// that timestamp.
proof fn lemma_at_time_from(events: Seq<EventView>, t: i64)
    requires
        at_time(events, t).len() > 0,
    ensures
        exists|i: int| 0 <= i < events.len() && (#[trigger] events[i]).timestamp == t,
    decreases events.len(),
{
    if events.len() > 0 {
        if events.last().timestamp == t {
            assert(events[events.len() - 1].timestamp == t);
        } else {
            lemma_at_time_from(events.drop_last(), t);
            let i = choose|i: int|
                0 <= i < events.drop_last().len() && (#[trigger] events.drop_last()[i]).timestamp
                    == t;
            assert(events[i].timestamp == t);
        }
    }
}

/// Two chronological sequences that hold the same events of every
/// timestamp, in the same order, are one sequence.
pub proof fn lemma_chronological_order_is_unique(x: Seq<EventView>, y: Seq<EventView>)
    requires
        chronological(x),
        chronological(y),
        forall|t: i64| at_time(x, t) == at_time(y, t),
    ensures
        x == y,
    decreases x.len(),
{
    if x.len() == 0 {
        if y.len() > 0 {
            lemma_at_time_holds(y, y.len() - 1);
            assert(at_time(x, y[y.len() - 1].timestamp).len() == 0);
        }
        assert(x =~= y);
    } else {
        let t = x.last().timestamp;
        lemma_at_time_holds(x, x.len() - 1);
        assert(at_time(y, t) == at_time(x, t));
        lemma_at_time_from(y, t);
        let u = y.last().timestamp;
        lemma_at_time_holds(y, y.len() - 1);
        assert(at_time(x, u) == at_time(y, u));
        lemma_at_time_from(x, u);
        let i = choose|i: int| 0 <= i < y.len() && (#[trigger] y[i]).timestamp == t;
        let j = choose|j: int| 0 <= j < x.len() && (#[trigger] x[j]).timestamp == u;
        assert(y[i].timestamp <= y[y.len() - 1].timestamp);
        assert(x[j].timestamp <= x[x.len() - 1].timestamp);
        assert(t == u);
        assert(x.last() == y.last());
        lemma_front_chronological(x);
        lemma_front_chronological(y);
        assert forall|s: i64| at_time(x.drop_last(), s) == at_time(y.drop_last(), s) by {
            assert(at_time(x, s) == at_time(y, s));
            if s == t {
                assert(at_time(x, s).drop_last() =~= at_time(x.drop_last(), s));
                assert(at_time(y, s).drop_last() =~= at_time(y.drop_last(), s));
            }
        }
        lemma_chronological_order_is_unique(x.drop_last(), y.drop_last());
        assert(x =~= x.drop_last().push(x.last()));
        assert(y =~= y.drop_last().push(y.last()));
    }
}

/// A sequence has one stable sort.
pub proof fn lemma_stable_sort_is_unique(
    input: Seq<EventView>,
    first: Seq<EventView>,
    second: Seq<EventView>,
)
    requires
        is_stable_sort(input, first),
        is_stable_sort(input, second),
    ensures
        first == second,
{
    lemma_chronological_order_is_unique(first, second);
}

/// Every event of a sorted sequence is an event of the sequence that was
/// sorted.
pub proof fn lemma_sorted_holds_same(input: Seq<EventView>, output: Seq<EventView>, i: int)
    requires
        is_stable_sort(input, output),
        0 <= i < output.len(),
    ensures
        input.contains(output[i]),
        output.len() == input.len(),
{
    broadcast use vstd::seq_lib::group_to_multiset_ensures;

    assert(output.contains(output[i]));
    assert(output.to_multiset().count(output[i]) > 0);
    assert(input.to_multiset().len() == input.len());
    assert(output.to_multiset().len() == output.len());
}

/// Runs two chronological vectors into one.
fn merge(a: Vec<Event>, b: Vec<Event>) -> (out: Vec<Event>)
    ensures
        views(out@) == merged(views(a@), views(b@)),
{
    let ghost target = merged(views(a@), views(b@));
    let mut a = a;
    let mut b = b;
    let mut tail: Vec<Event> = Vec::new();
    proof {
        assert(views(tail@).reverse() =~= Seq::<EventView>::empty());
        assert(target + Seq::<EventView>::empty() =~= target);
    }
    while a.len() > 0 && b.len() > 0
        invariant
            target == merged(views(a@), views(b@)) + views(tail@).reverse(),
        decreases a@.len() + b@.len(),
    {
        let ghost va = views(a@);
        let ghost vb = views(b@);
        let ghost vt = views(tail@);
        let from_a = a[a.len() - 1].timestamp > b[b.len() - 1].timestamp;
        let event = if from_a {
            a.pop().unwrap()
        } else {
            b.pop().unwrap()
        };
        tail.push(event);
        proof {
            assert(views(tail@) =~= vt.push(event@));
            assert(vt.push(event@).reverse() =~= seq![event@] + vt.reverse());
            if from_a {
                assert(views(a@) =~= va.drop_last());
                assert(va.last() == event@);
                assert(merged(va, vb) == merged(va.drop_last(), vb).push(event@));
            } else {
                assert(views(b@) =~= vb.drop_last());
                assert(vb.last() == event@);
                assert(merged(va, vb) == merged(va, vb.drop_last()).push(event@));
            }
            assert(merged(views(a@), views(b@)).push(event@) + vt.reverse() =~= merged(
                views(a@),
                views(b@),
            ) + (seq![event@] + vt.reverse()));
        }
    }
    let mut out = if a.len() > 0 {
        a
    } else {
        b
    };
    while tail.len() > 0
        invariant
            target == views(out@) + views(tail@).reverse(),
        decreases tail@.len(),
    {
        let ghost vo = views(out@);
        let ghost vt = views(tail@);
        let event = tail.pop().unwrap();
        out.push(event);
        proof {
            assert(views(tail@) =~= vt.drop_last());
            assert(vt.last() == event@);
            assert(views(out@) =~= vo.push(event@));
            assert(vt.reverse() =~= seq![event@] + vt.drop_last().reverse());
            assert(vo.push(event@) + vt.drop_last().reverse() =~= vo + (seq![event@]
                + vt.drop_last().reverse()));
        }
    }
    proof {
        assert(views(tail@).reverse() =~= Seq::<EventView>::empty());
        assert(views(out@) + Seq::<EventView>::empty() =~= views(out@));
    }
    out
}

/// Sorts the events by halving, sorting the halves and running them into
/// one.
fn merge_sort(events: Vec<Event>) -> (out: Vec<Event>)
    ensures
        is_stable_sort(views(events@), views(out@)),
    decreases events@.len(),
{
    let n = events.len();
    let ghost whole = views(events@);
    if n <= 1 {
        return events;
    }
    let mut left = events;
    let right = left.split_off(n / 2);
    let ghost first = views(left@);
    let ghost second = views(right@);
    let a = merge_sort(left);
    let b = merge_sort(right);
    let out = merge(a, b);
    proof {
        broadcast use vstd::seq_lib::group_to_multiset_ensures;

        assert(whole =~= first + second);
        lemma_merged(views(a@), views(b@));
        vstd::seq_lib::lemma_multiset_commutative(first, second);
        assert forall|t: i64| at_time(views(out@), t) == at_time(whole, t) by {
            lemma_at_time_of_parts(first, second, t);
        }
    }
    out
}

/// Puts the events in chronological order. Events of one timestamp stay in
/// the order in which they came.
pub fn sort_by_timestamp(events: &mut Vec<Event>)
    ensures
        is_stable_sort(views(old(events)@), views(final(events)@)),
{
    let mut taken: Vec<Event> = Vec::new();
    std::mem::swap(events, &mut taken);
    let mut sorted = merge_sort(taken);
    std::mem::swap(events, &mut sorted);
}

} // verus!
