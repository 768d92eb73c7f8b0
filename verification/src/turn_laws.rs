//! Whose turn it is while some connections are closed.

use crate::cluster_laws::{
    after_reads, after_writes, leader_search, leader_slot_comes, reads_are_served,
    reads_drop_closed_connections_alone, round_comes, round_fails, round_search, slot_comes,
    try_search, writes_go_to_the_leader,
};
use crate::cluster_view::{above_is_above, first_above, ClusterView, NodeRecord};
use crate::pool::Connection;
use vstd::prelude::*;
use vstd::set_lib::{lemma_int_range, set_int_range};

verus! {

/// How many steps place `i` stands behind place `last` on a ring of `len`
/// places; once round for `last` itself.
pub open spec fn steps_behind(last: int, i: int, len: int) -> int {
    if i > last {
        i - last
    } else {
        i - last + len
    }
}

/// Whether `i` is the first of the places behind `last`.
pub open spec fn is_first_behind(places: Set<int>, len: int, last: int, i: int) -> bool {
    &&& places.contains(i)
    &&& forall|j: int| #[trigger]
        places.contains(j) ==> steps_behind(last, i, len) <= steps_behind(last, j, len)
}

/// The places that are met behind `last` up to `i`.
spec fn met(places: Set<int>, len: int, last: int, i: int) -> Set<int> {
    places.filter(|j: int| steps_behind(last, j, len) <= steps_behind(last, i, len))
}

/// Going from place to place, each is met once before the first comes again.
proof fn round_of_places(places: Set<int>, len: int, at: spec_fn(int) -> int, a: int, d: int)
    requires
        places.finite(),
        forall|i: int| #[trigger] places.contains(i) ==> 0 <= i < len,
        places.contains(at(a)),
        forall|k: int|
            a <= k < a + d ==> is_first_behind(places, len, #[trigger] at(k), at(k + 1)),
        0 < d < places.len(),
    ensures
        at(a + d) != at(a),
        places.contains(at(a + d)),
        met(places, len, at(a), at(a + d)).len() == d,
    decreases d,
{
    let (x, p, q) = (at(a), at(a + d - 1), at(a + d));
    let now = met(places, len, x, q);
    assert(is_first_behind(places, len, at(a + d - 1), at(a + d - 1 + 1)));
    if d == 1 {
        assert(now =~= set![q]) by {
            assert forall|j: int| now.contains(j) implies j == q by {
                assert(places.contains(j));
            }
        }
    } else {
        round_of_places(places, len, at, a, d - 1);
        let before = met(places, len, x, p);
        assert(steps_behind(x, p, len) < len);
        assert(steps_behind(p, x, len) == steps_behind(x, x, len) - steps_behind(x, p, len));
        assert(steps_behind(x, q, len) > steps_behind(x, p, len));
        assert(!before.contains(q));
        assert(now =~= before.insert(q)) by {
            assert forall|j: int| now.contains(j) implies before.insert(q).contains(j) by {
                assert(places.contains(j));
                if j != q && !before.contains(j) {
                    assert(steps_behind(p, q, len) <= steps_behind(p, j, len));
                }
            }
        }
        assert(before.finite());
    }
    assert(now.len() == d);
    if q == x {
        assert(now =~= places);
    }
}

/// Whether the leader's slot `i` can be written to.
pub open spec fn leader_slot_open(v: ClusterView, i: int) -> bool {
    &&& 0 <= i < v.leader_conns.len()
    &&& v.leader_conns[i] matches Some(c)
    &&& !c.closed
}

/// The leader's slots that can be written to.
pub open spec fn leader_slots_open(v: ClusterView) -> Set<int> {
    set_int_range(0, v.per_node).filter(|i: int| leader_slot_open(v, i))
}

/// Steps of the leader's rotation are steps behind the slot of the last turn.
proof fn leader_steps(v: ClusterView, t: int)
    requires
        v.wf(),
        0 <= t < v.per_node,
    ensures
        0 <= v.leader_slot(t) < v.per_node,
        steps_behind(v.last_leader_id as int, v.leader_slot(t), v.per_node) == t + 1,
{
}

/// A write is given the first open connection to the leader behind the slot of
/// the last turn, its slot is the last turn after that, and nothing else
/// changes. Where no connection is open, nothing changes.
pub proof fn write_takes_the_next_open_slot(v: ClusterView)
    requires
        v.wf(),
    ensures
        v.pick(true).conn is Some ==> {
            let after = v.pick(true).after;
            let i = after.last_leader_id as int;
            &&& is_first_behind(leader_slots_open(v), v.per_node, v.last_leader_id as int, i)
            &&& v.pick(true).conn == v.leader_conns[i]
            &&& after == (ClusterView { last_leader_id: after.last_leader_id, ..v })
        },
        v.pick(true).conn is None ==> v.pick(true).after == v,
{
    leader_search(v, 0);
    writes_go_to_the_leader(v);
    if let Some(t) = v.leader_try(0) {
        leader_steps(v, t);
        let i = v.leader_slot(t);
        let open = leader_slots_open(v);
        assert(leader_slot_open(v, i));
        assert(open.contains(i));
        assert forall|j: int| #[trigger] open.contains(j) implies steps_behind(
            v.last_leader_id as int,
            i,
            v.per_node,
        ) <= steps_behind(v.last_leader_id as int, j, v.per_node) by {
            let u = leader_slot_comes(v, j);
            leader_steps(v, u);
            assert(v.leader_open(v.leader_slot(u)));
        }
    }
}

/// Whether the closed connection `c` stands in one of the leader's slots that a
/// write comes to before it is given a connection.
pub open spec fn write_passes(v: ClusterView, c: Connection) -> bool {
    exists|j: int|
        0 <= j < v.leader_conns.len() && #[trigger] v.leader_conns[j] == Some(c) && c.closed && (
        v.pick(true).conn is None || steps_behind(v.last_leader_id as int, j, v.per_node)
            < steps_behind(
            v.last_leader_id as int,
            v.pick(true).after.last_leader_id as int,
            v.per_node,
        ))
}

/// The closed connections of the first `t` slots of the leader's rotation.
proof fn closed_in_slots(v: ClusterView, t: int, c: Connection)
    requires
        v.wf(),
        0 <= t <= v.per_node,
    ensures
        v.leader_closed(t).contains(c) <==> exists|u: int|
            0 <= u < t && v.leader_conns[#[trigger] v.leader_slot(u)] == Some(c) && c.closed,
    decreases t,
{
    if t > 0 {
        closed_in_slots(v, t - 1, c);
        let fewer = v.leader_closed(t - 1);
        let slot = v.leader_slot(t - 1);
        if v.leader_conns[slot] matches Some(d) && d.closed {
            let more = v.leader_closed(t);
            assert(more == fewer.push(v.leader_conns[slot]->0));
            if fewer.contains(c) {
                let i = choose|i: int| 0 <= i < fewer.len() && fewer[i] == c;
                assert(more[i] == c);
            }
            if v.leader_conns[slot] == Some(c) {
                assert(more[fewer.len() as int] == c);
            }
            if more.contains(c) {
                let i = choose|i: int| 0 <= i < more.len() && more[i] == c;
                if i < fewer.len() {
                    assert(fewer[i] == c);
                }
            }
        }
        if exists|u: int|
            0 <= u < t && v.leader_conns[#[trigger] v.leader_slot(u)] == Some(c) && c.closed {
            let u = choose|u: int|
                0 <= u < t && v.leader_conns[#[trigger] v.leader_slot(u)] == Some(c) && c.closed;
            if u < t - 1 {
                assert(v.leader_conns[v.leader_slot(u)] == Some(c));
            }
        }
    }
}

/// A write reports the closed connections that it passes, and no others.
pub proof fn writes_report_what_they_pass(v: ClusterView, c: Connection)
    requires
        v.wf(),
    ensures
        v.pick(true).closed.contains(c) <==> write_passes(v, c),
{
    leader_search(v, 0);
    let t = match v.leader_try(0) {
        Some(t) => t,
        None => v.per_node,
    };
    if t < v.per_node {
        leader_steps(v, t);
    }
    closed_in_slots(v, t, c);
    if v.pick(true).closed.contains(c) {
        let u = choose|u: int|
            0 <= u < t && v.leader_conns[#[trigger] v.leader_slot(u)] == Some(c) && c.closed;
        leader_steps(v, u);
        assert(v.leader_conns[v.leader_slot(u)] == Some(c));
    }
    if write_passes(v, c) {
        let j = choose|j: int|
            0 <= j < v.leader_conns.len() && #[trigger] v.leader_conns[j] == Some(c) && c.closed && (
            v.pick(true).conn is None || steps_behind(v.last_leader_id as int, j, v.per_node)
                < steps_behind(
                v.last_leader_id as int,
                v.pick(true).after.last_leader_id as int,
                v.per_node,
            ));
        let u = leader_slot_comes(v, j);
        leader_steps(v, u);
        assert(v.leader_conns[v.leader_slot(u)] == Some(c));
        if v.leader_try(0) is Some {
            assert(v.pick(true).conn is Some);
        }
    }
}

/// Writes keep the leader's connections.
proof fn writes_keep_connections(v: ClusterView, k: int)
    requires
        v.wf(),
        0 <= k,
    ensures
        after_writes(v, k).wf(),
        after_writes(v, k).per_node == v.per_node,
        after_writes(v, k).leader_conns == v.leader_conns,
        leader_slots_open(after_writes(v, k)) == leader_slots_open(v),
    decreases k,
{
    if k > 0 {
        writes_keep_connections(v, k - 1);
        let before = after_writes(v, k - 1);
        write_takes_the_next_open_slot(before);
        if before.pick(true).conn is Some {
            let i = before.pick(true).after.last_leader_id as int;
            assert(leader_slots_open(before).contains(i));
        }
    }
    let now = after_writes(v, k);
    assert(leader_slots_open(now) =~= leader_slots_open(v)) by {
        assert forall|i: int| leader_slots_open(now).contains(i) == leader_slots_open(v).contains(
            i,
        ) by {
            assert(leader_slot_open(now, i) == leader_slot_open(v, i));
        }
    }
}

/// Any writes in a row that are no more than there are open connections to the
/// leader take different slots, each that of an open connection.
pub proof fn writes_in_a_row_differ(v: ClusterView, a: int, b: int)
    requires
        v.wf(),
        0 <= a < b,
        b - a < leader_slots_open(v).len(),
    ensures
        ({
            let (x, y) = (after_writes(v, a).pick(true), after_writes(v, b).pick(true));
            let (i, j) = (x.after.last_leader_id as int, y.after.last_leader_id as int);
            &&& leader_slot_open(v, i) && x.conn == v.leader_conns[i]
            &&& leader_slot_open(v, j) && y.conn == v.leader_conns[j]
            &&& i != j
        }),
{
    let open = leader_slots_open(v);
    let at = |k: int| after_writes(v, k).pick(true).after.last_leader_id as int;
    lemma_int_range(0, v.per_node);
    assert(open.finite());
    assert forall|k: int| a <= k <= b implies {
        &&& open.contains(#[trigger] at(k))
        &&& after_writes(v, k).pick(true).conn == v.leader_conns[at(k)]
    } by {
        write_is_given(v, k);
    }
    assert forall|k: int| a <= k < a + (b - a) implies is_first_behind(
        open,
        v.per_node,
        #[trigger] at(k),
        at(k + 1),
    ) by {
        write_is_given(v, k + 1);
        assert(after_writes(v, k + 1) == after_writes(v, k).pick(true).after);
    }
    assert(open.contains(at(a)));
    round_of_places(open, v.per_node, at, a, b - a);
    assert(open.contains(at(b)));
}

/// What the write after `k` others is given, while a connection is open.
proof fn write_is_given(v: ClusterView, k: int)
    requires
        v.wf(),
        0 <= k,
        leader_slots_open(v).len() > 0,
    ensures
        ({
            let now = after_writes(v, k);
            let i = now.pick(true).after.last_leader_id as int;
            &&& now.pick(true).conn is Some
            &&& is_first_behind(leader_slots_open(v), v.per_node, now.last_leader_id as int, i)
            &&& now.pick(true).conn == v.leader_conns[i]
        }),
{
    let now = after_writes(v, k);
    writes_keep_connections(v, k);
    writes_go_to_the_leader(now);
    write_takes_the_next_open_slot(now);
    let i = leader_slots_open(v).choose();
    assert(leader_slots_open(now).contains(i));
    assert(now.leader_open(i));
}

/// Whether an open connection stands in `slot` of the follower of record `i`.
pub open spec fn open_at(v: ClusterView, i: int, slot: u32) -> bool {
    &&& 0 <= i < v.history.len()
    &&& v.followers.contains_key((v.history[i].name, slot))
    &&& !v.followers[(v.history[i].name, slot)].closed
}

/// Whether the follower of record `i` has an open connection.
pub open spec fn is_up(v: ClusterView, i: int) -> bool {
    exists|slot: u32| #[trigger] open_at(v, i, slot)
}

/// How far the number `node` is behind the number `last`, where the lowest
/// follows the highest.
pub open spec fn numbers_behind(last: u32, node: u32) -> int {
    steps_behind(last as int, node as int, 0x1_0000_0000)
}

/// How many slots `slot` is past `next` on a ring of `len` slots.
pub open spec fn slots_past(next: u32, slot: u32, len: int) -> int {
    if slot >= next {
        slot - next
    } else {
        slot - next + len
    }
}

/// Whether it is the turn of `slot` of the follower of record `i`: of the
/// followers with an open connection it is the first by number behind the one
/// that had the last turn, and of its open connections that one comes first
/// from its next slot on.
pub open spec fn is_turn_of(v: ClusterView, i: int, slot: u32) -> bool {
    &&& open_at(v, i, slot)
    &&& forall|j: int| #[trigger]
        is_up(v, j) ==> numbers_behind(v.last_node_id, v.history[i].node) <= numbers_behind(
            v.last_node_id,
            v.history[j].node,
        )
    &&& forall|other: u32| #[trigger]
        open_at(v, i, other) ==> slots_past(v.history[i].next_slot, slot, v.per_node)
            <= slots_past(v.history[i].next_slot, other, v.per_node)
}

/// Later rounds are those of numbers further behind.
proof fn rounds_go_by_number(v: ClusterView, q: int, r: int)
    requires
        v.wf(),
        0 <= q < r < v.history.len(),
    ensures
        numbers_behind(v.last_node_id, v.record_in_round(q).node) < numbers_behind(
            v.last_node_id,
            v.record_in_round(r).node,
        ),
{
    above_is_above(v.history, v.last_node_id as int, 0);
    let at = first_above(v.history, v.last_node_id as int, 0);
    let (i, j) = (v.place_in_round(q), v.place_in_round(r));
    v.rounds_are_records(q);
    v.rounds_are_records(r);
    if i < j {
        assert(v.history[i].node < v.history[j].node);
    } else {
        assert(v.history[j].node < v.history[i].node);
    }
}

/// The turn that a read takes.
proof fn turn_is_found(v: ClusterView) -> (found: (int, u32))
    requires
        v.wf(),
        v.pick(false).conn is Some,
    ensures
        is_turn_of(v, found.0, found.1),
        v.open_round(0) is Some,
        ({
            let (r, t) = v.open_round(0)->0;
            &&& 0 <= r < v.history.len()
            &&& 0 <= t < v.per_node
            &&& v.place_in_round(r) == found.0
            &&& v.key_in_try(v.history[found.0], t) == (v.history[found.0].name, found.1)
            &&& v.slot_in_try(v.history[found.0], t) == found.1
        }),
{
    round_search(v, 0);
    let (r, t) = v.open_round(0)->0;
    v.rounds_are_records(r);
    let i = v.place_in_round(r);
    let record = v.history[i];
    try_search(v, record, 0);
    let slot = v.slot_in_try(record, t) as u32;
    assert(v.follower_open(v.key_in_try(record, t)));
    assert(open_at(v, i, slot));
    assert forall|j: int| #[trigger] is_up(v, j) implies numbers_behind(v.last_node_id, record.node)
        <= numbers_behind(v.last_node_id, v.history[j].node) by {
        let other = choose|other: u32| #[trigger] open_at(v, j, other);
        let q = round_comes(v, j);
        if q < r {
            assert(round_fails(v, q));
            try_search(v, v.history[j], 0);
            assert(v.followers.contains_key((v.history[j].name, other)));
            let u = slot_comes(v, v.history[j], other);
            assert(!v.follower_open(v.key_in_try(v.history[j], u)));
        } else if q > r {
            rounds_go_by_number(v, r, q);
        }
    }
    assert forall|other: u32| #[trigger] open_at(v, i, other) implies slots_past(
        record.next_slot,
        slot,
        v.per_node,
    ) <= slots_past(record.next_slot, other, v.per_node) by {
        assert(v.followers.contains_key((record.name, other)));
        let u = slot_comes(v, record, other);
        if u < t {
            assert(!v.follower_open(v.key_in_try(record, u)));
        }
    }
    (i, slot)
}

/// A read is given the connection whose turn it is, whether or not followers
/// without an open connection stand before it. The last turn is then that of its
/// follower, whose next slot is the one behind; nothing else of the records
/// changes, nor anything of the leader.
pub proof fn turn_stands_behind_the_read(v: ClusterView)
    requires
        v.wf(),
        v.pick(false).conn is Some,
    ensures
        exists|i: int, slot: u32| #[trigger]
            is_turn_of(v, i, slot) && {
                let after = v.pick(false).after;
                &&& v.pick(false).conn == Some(v.followers[(v.history[i].name, slot)])
                &&& after.last_node_id == v.history[i].node
                &&& after.history == v.history.update(
                    i,
                    NodeRecord {
                        next_slot: if slot + 1 < v.per_node {
                            (slot + 1) as u32
                        } else {
                            0
                        },
                        ..v.history[i]
                    },
                )
                &&& after == (ClusterView {
                    followers: after.followers,
                    history: after.history,
                    last_node_id: after.last_node_id,
                    ..v
                })
            },
{
    let (i, slot) = turn_is_found(v);
    assert(is_turn_of(v, i, slot));
}

/// A read that is given nothing changes neither the records nor the leader; the
/// last turn is then that of the follower furthest behind, so that the next read
/// starts where this one did.
pub proof fn refused_reads_keep_the_records(v: ClusterView)
    requires
        v.wf(),
        v.pick(false).conn is None,
    ensures
        ({
            let after = v.pick(false).after;
            &&& after == (ClusterView {
                followers: after.followers,
                last_node_id: after.last_node_id,
                ..v
            })
            &&& v.history.len() == 0 ==> after.last_node_id == v.last_node_id
            &&& v.history.len() > 0 ==> exists|i: int|
                0 <= i < v.history.len() && (#[trigger] v.history[i]).node == after.last_node_id
            &&& forall|j: int|
                0 <= j < v.history.len() ==> numbers_behind(
                    v.last_node_id,
                    (#[trigger] v.history[j]).node,
                ) <= numbers_behind(v.last_node_id, after.last_node_id)
        }),
{
    let last = v.history.len() - 1;
    if last >= 0 {
        v.rounds_are_records(last);
        let i = v.place_in_round(last);
        assert(v.history[i].node == v.pick(false).after.last_node_id);
        assert forall|j: int| 0 <= j < v.history.len() implies numbers_behind(
            v.last_node_id,
            (#[trigger] v.history[j]).node,
        ) <= numbers_behind(v.last_node_id, v.history[i].node) by {
            let q = round_comes(v, j);
            if q < last {
                rounds_go_by_number(v, q, last);
            }
        }
    }
}

/// Whether a read that takes the turn of `slot` of the follower of record `i`
/// comes to `key` first.
pub open spec fn read_passes(v: ClusterView, i: int, slot: u32, key: (Seq<char>, u32)) -> bool {
    ||| key.0 == v.history[i].name && slots_past(v.history[i].next_slot, key.1, v.per_node)
        < slots_past(v.history[i].next_slot, slot, v.per_node)
    ||| exists|j: int|
        0 <= j < v.history.len() && (#[trigger] v.history[j]).name == key.0 && numbers_behind(
            v.last_node_id,
            v.history[j].node,
        ) < numbers_behind(v.last_node_id, v.history[i].node)
}

/// A read takes out the connections that it passes, and no others; one that is
/// given nothing passes all.
pub proof fn reads_take_out_what_they_pass(v: ClusterView, i: int, slot: u32, key: (Seq<char>, u32))
    requires
        v.wf(),
        v.followers.contains_key(key),
        v.pick(false).conn is Some ==> is_turn_of(v, i, slot),
    ensures
        v.pick(false).conn is Some ==> (v.pick(false).after.followers.contains_key(key)
            <==> !read_passes(v, i, slot, key)),
        v.pick(false).conn is None ==> !v.pick(false).after.followers.contains_key(key),
{
    let k = choose|k: int| 0 <= k < v.history.len() && (#[trigger] v.history[k]).name == key.0;
    let q = round_comes(v, k);
    assert(v.names_round(q, key));
    if v.pick(false).conn is Some {
        let found = turn_is_found(v);
        turns_are_one(v, found.0, found.1, i, slot);
        let (r, t) = v.open_round(0)->0;
        let record = v.history[i];
        let u = slot_comes(v, v.history[k], key.1);
        assert forall|p: int| 0 <= p < v.history.len() && #[trigger] v.names_round(p, key) implies p
            == q by {
            if p < q {
                v.rounds_differ(p, q);
            } else if q < p {
                v.rounds_differ(q, p);
            }
        }
        assert(v.passed(r, t, key) <==> q < r || (q == r && v.tried(record, t, key)));
        if q < r {
            rounds_go_by_number(v, q, r);
            assert(v.history[k].name == key.0);
            assert(read_passes(v, i, slot, key));
        } else if q == r {
            if v.tried(record, t, key) {
                let w = choose|w: int| 0 <= w < t && #[trigger] v.key_in_try(record, w) == key;
                assert(slots_past(record.next_slot, key.1, v.per_node) == w);
            } else {
                assert(v.key_in_try(record, u) == key);
                assert(u >= t);
            }
            assert forall|j: int|
                0 <= j < v.history.len() && (#[trigger] v.history[j]).name == key.0 implies j
                == i by {
                if j < i {
                    assert(v.history[j].name != v.history[i].name);
                } else if i < j {
                    assert(v.history[i].name != v.history[j].name);
                }
            }
        } else {
            rounds_go_by_number(v, r, q);
            v.rounds_differ(r, q);
            assert forall|j: int|
                0 <= j < v.history.len() && (#[trigger] v.history[j]).name == key.0 implies j
                == k by {
                if j < k {
                    assert(v.history[j].name != v.history[k].name);
                } else if k < j {
                    assert(v.history[k].name != v.history[j].name);
                }
            }
        }
    }
}

/// It is one connection's turn alone.
proof fn turns_are_one(v: ClusterView, i: int, slot: u32, j: int, other: u32)
    requires
        v.wf(),
        is_turn_of(v, i, slot),
        is_turn_of(v, j, other),
    ensures
        i == j,
        slot == other,
{
    assert(is_up(v, i) && is_up(v, j));
    assert(v.history[i].node == v.history[j].node);
    if i < j {
        assert(v.history[i].node < v.history[j].node);
    } else if j < i {
        assert(v.history[j].node < v.history[i].node);
    }
    assert(v.followers.contains_key((v.history[i].name, slot)));
    assert(v.followers.contains_key((v.history[j].name, other)));
}

/// The closed connections of the first `t` steps of a node's rotation.
proof fn closed_in_steps(v: ClusterView, record: NodeRecord, t: int, c: Connection)
    requires
        0 <= t,
    ensures
        v.closed_in_tries(record, t).contains(c) <==> exists|u: int|
            0 <= u < t && v.followers.contains_key(#[trigger] v.key_in_try(record, u))
                && v.followers[v.key_in_try(record, u)] == c && c.closed,
    decreases t,
{
    if t > 0 {
        closed_in_steps(v, record, t - 1, c);
        let fewer = v.closed_in_tries(record, t - 1);
        let more = v.closed_in_tries(record, t);
        let key = v.key_in_try(record, t - 1);
        if v.followers.contains_key(key) && v.followers[key].closed {
            assert(more == fewer.push(v.followers[key]));
            if fewer.contains(c) {
                let i = choose|i: int| 0 <= i < fewer.len() && fewer[i] == c;
                assert(more[i] == c);
            }
            if v.followers[key] == c {
                assert(more[fewer.len() as int] == c);
            }
            if more.contains(c) {
                let i = choose|i: int| 0 <= i < more.len() && more[i] == c;
                if i < fewer.len() {
                    assert(fewer[i] == c);
                }
            }
        }
        if exists|u: int|
            0 <= u < t && v.followers.contains_key(#[trigger] v.key_in_try(record, u))
                && v.followers[v.key_in_try(record, u)] == c && c.closed {
            let u = choose|u: int|
                0 <= u < t && v.followers.contains_key(#[trigger] v.key_in_try(record, u))
                    && v.followers[v.key_in_try(record, u)] == c && c.closed;
            if u < t - 1 {
                assert(v.followers.contains_key(v.key_in_try(record, u)));
            }
        }
    }
}

/// Whether the connection `c` stands closed under a key of round `q`.
spec fn closed_in_round(v: ClusterView, q: int, c: Connection) -> bool {
    exists|key: (Seq<char>, u32)| #[trigger]
        v.followers.contains_key(key) && v.names_round(q, key) && v.followers[key] == c && c.closed
}

/// The closed connections of one round.
proof fn round_is_closed(v: ClusterView, q: int, c: Connection)
    requires
        v.wf(),
        0 <= q < v.history.len(),
    ensures
        v.closed_in_tries(v.record_in_round(q), v.per_node).contains(c) <==> closed_in_round(
            v,
            q,
            c,
        ),
{
    v.rounds_are_records(q);
    let record = v.record_in_round(q);
    closed_in_steps(v, record, v.per_node, c);
    if closed_in_round(v, q, c) {
        let key = choose|key: (Seq<char>, u32)| #[trigger]
            v.followers.contains_key(key) && v.names_round(q, key) && v.followers[key] == c
                && c.closed;
        let u = slot_comes(v, record, key.1);
        assert(v.followers.contains_key(v.key_in_try(record, u)));
    }
    if v.closed_in_tries(record, v.per_node).contains(c) {
        let u = choose|u: int|
            0 <= u < v.per_node && v.followers.contains_key(#[trigger] v.key_in_try(record, u))
                && v.followers[v.key_in_try(record, u)] == c && c.closed;
        let key = v.key_in_try(record, u);
        assert(v.followers.contains_key(key) && v.names_round(q, key));
    }
}

/// The closed connections of the first `r` rounds.
proof fn rounds_are_closed(v: ClusterView, r: int, c: Connection)
    requires
        v.wf(),
        0 <= r <= v.history.len(),
    ensures
        v.closed_in_rounds(r).contains(c) <==> exists|q: int|
            0 <= q < r && #[trigger] closed_in_round(v, q, c),
    decreases r,
{
    if r > 0 {
        rounds_are_closed(v, r - 1, c);
        round_is_closed(v, r - 1, c);
        let fewer = v.closed_in_rounds(r - 1);
        let last = v.closed_in_tries(v.record_in_round(r - 1), v.per_node);
        joined_hold(fewer, last, c);
        assert(v.closed_in_rounds(r) == fewer + last);
    }
}

/// Two sequences together hold what either holds.
proof fn joined_hold(a: Seq<Connection>, b: Seq<Connection>, c: Connection)
    ensures
        (a + b).contains(c) <==> a.contains(c) || b.contains(c),
{
    if a.contains(c) {
        let i = choose|i: int| 0 <= i < a.len() && a[i] == c;
        assert((a + b)[i] == c);
    }
    if b.contains(c) {
        let i = choose|i: int| 0 <= i < b.len() && b[i] == c;
        assert((a + b)[a.len() + i] == c);
    }
    if (a + b).contains(c) {
        let i = choose|i: int| 0 <= i < (a + b).len() && (a + b)[i] == c;
        if i < a.len() {
            assert(a[i] == c);
        } else {
            assert(b[i - a.len()] == c);
        }
    }
}

/// Whether the connection `c` leaves with a read.
pub open spec fn leaves_with_read(v: ClusterView, c: Connection) -> bool {
    exists|key: (Seq<char>, u32)| #[trigger]
        v.followers.contains_key(key) && v.followers[key] == c
            && !v.pick(false).after.followers.contains_key(key)
}

/// A read reports the connections that leave with it, and no others.
pub proof fn reads_report_what_leaves(v: ClusterView, c: Connection)
    requires
        v.wf(),
    ensures
        v.pick(false).closed.contains(c) <==> leaves_with_read(v, c),
{
    round_search(v, 0);
    let (r, t) = match v.open_round(0) {
        Some(found) => found,
        None => (v.history.len() as int, 0int),
    };
    rounds_are_closed(v, r, c);
    assert(v.pick(false).after.followers == v.followers_past(r, t));
    let before = v.closed_in_rounds(r);
    let record = v.record_in_round(r);
    if r < v.history.len() {
        try_search(v, record, 0);
        closed_in_steps(v, record, t, c);
        joined_hold(before, v.closed_in_tries(record, t), c);
    }
    if leaves_with_read(v, c) {
        let key = choose|key: (Seq<char>, u32)| #[trigger]
            v.followers.contains_key(key) && v.followers[key] == c
                && !v.pick(false).after.followers.contains_key(key);
        reads_drop_closed_connections_alone(v, key);
        assert(v.passed(r, t, key));
        if exists|q: int| 0 <= q < r && #[trigger] v.names_round(q, key) {
            let q = choose|q: int| 0 <= q < r && #[trigger] v.names_round(q, key);
            assert(closed_in_round(v, q, c));
        } else {
            let u = choose|u: int| 0 <= u < t && #[trigger] v.key_in_try(record, u) == key;
            assert(v.followers.contains_key(v.key_in_try(record, u)));
        }
    }
    if before.contains(c) {
        let q = choose|q: int| 0 <= q < r && #[trigger] closed_in_round(v, q, c);
        let key = choose|key: (Seq<char>, u32)| #[trigger]
            v.followers.contains_key(key) && v.names_round(q, key) && v.followers[key] == c
                && c.closed;
        assert(v.passed(r, t, key));
        assert(v.followers.contains_key(key));
    } else if v.pick(false).closed.contains(c) {
        let u = choose|u: int|
            0 <= u < t && v.followers.contains_key(#[trigger] v.key_in_try(record, u))
                && v.followers[v.key_in_try(record, u)] == c && c.closed;
        let key = v.key_in_try(record, u);
        assert(v.tried(record, t, key));
        assert(v.names_round(r, key));
        assert(v.passed(r, t, key));
        assert(v.followers.contains_key(key));
    }
}

/// The records of the followers that have an open connection.
pub open spec fn followers_up(v: ClusterView) -> Set<int> {
    set_int_range(0, v.history.len() as int).filter(|i: int| is_up(v, i))
}

/// Reads leave the followers with their numbers, and those that are up.
proof fn reads_keep_followers(v: ClusterView, k: int)
    requires
        v.wf(),
        0 <= k,
        followers_up(v).len() > 0,
    ensures
        ({
            let now = after_reads(v, k);
            &&& now.wf()
            &&& now.history.len() == v.history.len()
            &&& forall|i: int|
                0 <= i < v.history.len() ==> (#[trigger] now.history[i]).name == v.history[i].name
                    && now.history[i].node == v.history[i].node
            &&& followers_up(now) == followers_up(v)
            &&& now.pick(false).conn is Some
        }),
    decreases k,
{
    let now = after_reads(v, k);
    if k > 0 {
        reads_keep_followers(v, k - 1);
        let before = after_reads(v, k - 1);
        let (i, slot) = turn_is_found(before);
        let (r, t) = before.open_round(0)->0;
        before.pick_keeps_wf(r, t);
        assert forall|j: int, s: u32| #[trigger] open_at(now, j, s) == open_at(before, j, s) by {
            let key = (before.history[j].name, s);
            if before.followers.contains_key(key) {
                reads_drop_closed_connections_alone(before, key);
            }
        }
        assert(followers_up(now) =~= followers_up(before)) by {
            assert forall|j: int| is_up(now, j) == is_up(before, j) by {
                if is_up(now, j) {
                    let s = choose|s: u32| #[trigger] open_at(now, j, s);
                    assert(open_at(before, j, s));
                }
                if is_up(before, j) {
                    let s = choose|s: u32| #[trigger] open_at(before, j, s);
                    assert(open_at(now, j, s));
                }
            }
        }
    }
    let i = followers_up(now).choose();
    assert(followers_up(now).contains(i));
    let slot = choose|slot: u32| #[trigger] open_at(now, i, slot);
    assert(now.follower_open((now.history[i].name, slot)));
    reads_are_served(now);
}

/// Whether a read is given a connection of `host`, and the last turn is then that
/// of `host`.
pub open spec fn read_goes_to(v: ClusterView, host: Seq<char>) -> bool {
    exists|i: int, slot: u32| #[trigger]
        open_at(v, i, slot) && v.history[i].name == host && v.pick(false).conn == Some(
            v.followers[(host, slot)],
        ) && v.pick(false).after.last_node_id == v.history[i].node
}

/// Where the record of the follower stands that had the last turn.
spec fn place_of_turn(v: ClusterView) -> int {
    choose|i: int| 0 <= i < v.history.len() && (#[trigger] v.history[i]).node == v.last_node_id
}

/// Where the read after `k` others stands among the records.
proof fn read_is_given(v: ClusterView, k: int)
    requires
        v.wf(),
        0 <= k,
        followers_up(v).len() > 0,
    ensures
        ({
            let i = place_of_turn(after_reads(v, k + 1));
            &&& followers_up(v).contains(i)
            &&& read_goes_to(after_reads(v, k), v.history[i].name)
            &&& k > 0 ==> is_first_behind(
                followers_up(v),
                v.history.len() as int,
                place_of_turn(after_reads(v, k)),
                i,
            )
        }),
{
    let now = after_reads(v, k);
    let next = after_reads(v, k + 1);
    reads_keep_followers(v, k);
    reads_keep_followers(v, k + 1);
    let (i, slot) = turn_is_found(now);
    assert(next == now.pick(false).after);
    assert(next.history[i].node == next.last_node_id);
    let place = place_of_turn(next);
    if place < i {
        assert(next.history[place].node < next.history[i].node);
    } else if i < place {
        assert(next.history[i].node < next.history[place].node);
    }
    assert(open_at(now, i, slot));
    assert(is_up(now, i));
    assert(followers_up(now).contains(i));
    assert(now.history[i].name == v.history[i].name);
    assert(read_goes_to(now, v.history[i].name));
    if k > 0 {
        let before = after_reads(v, k - 1);
        reads_keep_followers(v, k - 1);
        let had = turn_is_found(before).0;
        assert(now.history[had].node == now.last_node_id);
        let last = place_of_turn(now);
        let (up, n) = (followers_up(v), v.history.len() as int);
        assert forall|j: int| #[trigger] up.contains(j) implies steps_behind(last, i, n)
            <= steps_behind(last, j, n) by {
            assert(followers_up(now).contains(j));
            assert(is_up(now, j));
            assert(now.history[last].node == now.last_node_id);
            assert(numbers_behind(now.last_node_id, now.history[i].node) <= numbers_behind(
                now.last_node_id,
                now.history[j].node,
            ));
            places_go_by_number(now, last, i, j);
        }
    }
}

/// Numbers less far behind that of record `last` are fewer places behind it.
proof fn places_go_by_number(v: ClusterView, last: int, i: int, j: int)
    requires
        v.wf(),
        0 <= last < v.history.len(),
        0 <= i < v.history.len(),
        0 <= j < v.history.len(),
        numbers_behind(v.history[last].node, v.history[i].node) <= numbers_behind(
            v.history[last].node,
            v.history[j].node,
        ),
    ensures
        steps_behind(last, i, v.history.len() as int) <= steps_behind(
            last,
            j,
            v.history.len() as int,
        ),
{
    let (x, y, z) = (v.history[last], v.history[i], v.history[j]);
    assert(i < last ==> y.node < x.node);
    assert(last < i ==> x.node < y.node);
    assert(j < last ==> z.node < x.node);
    assert(last < j ==> x.node < z.node);
    assert(i < j ==> y.node < z.node);
    assert(j < i ==> z.node < y.node);
}

/// Any reads in a row that are no more than there are followers with an open
/// connection go to different hosts, whichever connections are closed.
pub proof fn reads_in_a_row_go_to_different_hosts(v: ClusterView, a: int, b: int)
    requires
        v.wf(),
        0 <= a < b,
        b - a < followers_up(v).len(),
    ensures
        exists|x: Seq<char>, y: Seq<char>| #[trigger]
            read_goes_to(after_reads(v, a), x) && #[trigger] read_goes_to(after_reads(v, b), y) && x
                != y,
{
    let (up, n) = (followers_up(v), v.history.len() as int);
    let at = |k: int| place_of_turn(after_reads(v, k + 1));
    lemma_int_range(0, n);
    assert(up.finite());
    assert forall|k: int| a <= k < a + (b - a) implies is_first_behind(
        up,
        n,
        #[trigger] at(k),
        at(k + 1),
    ) by {
        read_is_given(v, k + 1);
    }
    read_is_given(v, a);
    read_is_given(v, b);
    assert(up.contains(at(a)));
    round_of_places(up, n, at, a, b - a);
    let (i, j) = (at(a), at(b));
    assert(up.contains(j));
    assert(i != j);
    if i < j {
        assert(v.history[i].name != v.history[j].name);
    } else {
        assert(v.history[j].name != v.history[i].name);
    }
    assert(read_goes_to(after_reads(v, a), v.history[i].name));
    assert(read_goes_to(after_reads(v, b), v.history[j].name));
}

} // verus!
