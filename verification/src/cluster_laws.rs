//! What holds of the cluster's connections as a whole.

use crate::cluster_view::{around, recorded, ClusterView, NodeRecord};
use vstd::arithmetic::div_mod::{lemma_fundamental_div_mod, lemma_fundamental_div_mod_converse};
use vstd::prelude::*;

verus! {

/// What a search in the leader's rotation finds.
pub(crate) proof fn leader_search(v: ClusterView, t: int)
    ensures
        v.leader_try(t) matches Some(u) ==> t <= u < v.per_node && v.leader_open(v.leader_slot(u))
            && forall|w: int| t <= w < u ==> !v.leader_open(#[trigger] v.leader_slot(w)),
        v.leader_try(t) is None ==> forall|w: int|
            t <= w < v.per_node ==> !v.leader_open(#[trigger] v.leader_slot(w)),
    decreases v.per_node - t,
{
    if t < v.per_node && !v.leader_open(v.leader_slot(t)) {
        leader_search(v, t + 1);
    }
}

/// After how many steps the leader's rotation comes to slot `i`.
pub(crate) proof fn leader_slot_comes(v: ClusterView, i: int) -> (t: int)
    requires
        v.wf(),
        0 <= i < v.per_node,
    ensures
        0 <= t < v.per_node,
        v.leader_slot(t) == i,
{
    let first = v.leader_slot(0);
    if i >= first {
        i - first
    } else {
        i - first + v.per_node
    }
}

/// A write gets an open connection to the leader whenever there is one, and
/// nothing otherwise.
pub proof fn writes_go_to_the_leader(v: ClusterView)
    requires
        v.wf(),
    ensures
        v.pick(true).conn is Some <==> v.any_leader_open(),
        v.pick(true).conn matches Some(c) ==> !c.closed && v.leader_conns.contains(Some(c)),
        v.pick(true).after.followers == v.followers,
        v.pick(true).after.leader_conns == v.leader_conns,
{
    leader_search(v, 0);
    if v.any_leader_open() {
        let i = choose|i: int| 0 <= i < v.leader_conns.len() && #[trigger] v.leader_open(i);
        let t = leader_slot_comes(v, i);
        assert(v.leader_open(v.leader_slot(t)));
    }
    if let Some(t) = v.leader_try(0) {
        assert(v.leader_open(v.leader_slot(t)));
        assert(v.leader_conns[v.leader_slot(t)] == v.pick(true).conn);
    }
}

/// The handler after `k` writes.
pub open spec fn after_writes(v: ClusterView, k: int) -> ClusterView
    decreases k,
{
    if k <= 0 {
        v
    } else {
        after_writes(v, k - 1).pick(true).after
    }
}

/// Whether the leader's rotation comes to slot `i` within one turn of all.
pub open spec fn slot_has_turn(v: ClusterView, i: int) -> bool {
    exists|t: int| 0 <= t < v.per_node && #[trigger] v.leader_slot(t) == i
}

/// While all connections to the leader are open, writes take them in turn: as
/// many writes as there are slots take each slot once.
pub proof fn writes_take_turns(v: ClusterView, k: int)
    requires
        v.wf(),
        0 <= k < v.per_node,
        forall|i: int| 0 <= i < v.per_node ==> #[trigger] v.leader_open(i),
    ensures
        after_writes(v, k).pick(true).conn == v.leader_conns[v.leader_slot(k)],
        forall|i: int| 0 <= i < v.per_node ==> #[trigger] slot_has_turn(v, i),
{
    assert forall|i: int| 0 <= i < v.per_node implies #[trigger] slot_has_turn(v, i) by {
        let t = leader_slot_comes(v, i);
        assert(v.leader_slot(t) == i);
    }
    writes_so_far(v, k);
    let now = after_writes(v, k);
    assert(now.leader_open(now.leader_slot(0))) by {
        assert(v.leader_open(now.leader_slot(0)));
    }
    assert(now.leader_try(0) == Some(0int));
}

/// Where the rotation stands after `k` writes.
proof fn writes_so_far(v: ClusterView, k: int)
    requires
        v.wf(),
        0 <= k < v.per_node,
        forall|i: int| 0 <= i < v.per_node ==> #[trigger] v.leader_open(i),
    ensures
        after_writes(v, k) == (ClusterView {
            last_leader_id: if k == 0 {
                v.last_leader_id
            } else {
                v.leader_slot(k - 1) as u32
            },
            ..v
        }),
        after_writes(v, k).leader_slot(0) == v.leader_slot(k),
    decreases k,
{
    if k > 0 {
        writes_so_far(v, k - 1);
        let before = after_writes(v, k - 1);
        assert(v.leader_open(before.leader_slot(0)));
        assert(before.leader_open(before.leader_slot(0)));
        assert(before.leader_try(0) == Some(0int));
    }
}

/// What a search in a node's rotation finds.
pub(crate) proof fn try_search(v: ClusterView, record: NodeRecord, t: int)
    ensures
        v.open_try(record, t) matches Some(u) ==> t <= u < v.per_node && v.follower_open(
            v.key_in_try(record, u),
        ) && forall|w: int| t <= w < u ==> !v.follower_open(#[trigger] v.key_in_try(record, w)),
        v.open_try(record, t) is None ==> forall|w: int|
            t <= w < v.per_node ==> !v.follower_open(#[trigger] v.key_in_try(record, w)),
    decreases v.per_node - t,
{
    if t < v.per_node && !v.follower_open(v.key_in_try(record, t)) {
        try_search(v, record, t + 1);
    }
}

/// Whether no connection of round `r`'s node is open.
pub(crate) open spec fn round_fails(v: ClusterView, r: int) -> bool {
    v.open_try(v.record_in_round(r), 0) is None
}

/// What a search over the rounds finds.
pub(crate) proof fn round_search(v: ClusterView, r: int)
    requires
        0 <= r,
    ensures
        v.open_round(r) matches Some((q, t)) ==> r <= q < v.history.len() && v.open_try(
            v.record_in_round(q),
            0,
        ) == Some(t) && forall|w: int| r <= w < q ==> #[trigger] round_fails(v, w),
        v.open_round(r) is None ==> forall|w: int|
            r <= w < v.history.len() ==> #[trigger] round_fails(v, w),
    decreases v.history.len() - r,
{
    if r < v.history.len() {
        if v.open_try(v.record_in_round(r), 0) is None {
            assert(round_fails(v, r));
            round_search(v, r + 1);
        }
    }
}

/// In which round the rotation comes to record `i`.
pub(crate) proof fn round_comes(v: ClusterView, i: int) -> (r: int)
    requires
        v.wf(),
        0 <= i < v.history.len(),
    ensures
        0 <= r < v.history.len(),
        v.place_in_round(r) == i,
{
    v.rounds_are_records(0);
    let first = v.place_in_round(0);
    if i >= first {
        i - first
    } else {
        i - first + v.history.len()
    }
}

/// After how many steps a node's rotation comes to `slot`.
pub(crate) proof fn slot_comes(v: ClusterView, record: NodeRecord, slot: u32) -> (t: int)
    requires
        v.wf(),
        record.next_slot < v.per_node,
        slot < v.per_node,
    ensures
        0 <= t < v.per_node,
        v.key_in_try(record, t) == (record.name, slot),
{
    if slot >= record.next_slot {
        slot - record.next_slot
    } else {
        slot - record.next_slot + v.per_node
    }
}

/// A read gets an open connection to a follower whenever there is one, and
/// nothing otherwise.
pub proof fn reads_are_served(v: ClusterView)
    requires
        v.wf(),
    ensures
        v.pick(false).conn is Some <==> v.any_follower_open(),
        v.pick(false).conn matches Some(c) ==> !c.closed && exists|key: (Seq<char>, u32)|
            #[trigger] v.follower_open(key) && v.followers[key] == c,
        v.pick(false).after.leader_conns == v.leader_conns,
{
    round_search(v, 0);
    if let Some((r, t)) = v.open_round(0) {
        v.rounds_are_records(r);
        try_search(v, v.record_in_round(r), 0);
        let key = v.key_in_try(v.record_in_round(r), t);
        assert(v.follower_open(key));
    } else if v.any_follower_open() {
        let key = choose|key: (Seq<char>, u32)| #[trigger] v.follower_open(key);
        assert(v.followers.contains_key(key));
        let i = choose|i: int| 0 <= i < v.history.len() && (#[trigger] v.history[i]).name == key.0;
        let r = round_comes(v, i);
        assert(round_fails(v, r));
        let t = slot_comes(v, v.history[i], key.1);
        try_search(v, v.history[i], 0);
        assert(v.follower_open(v.key_in_try(v.history[i], t)));
    }
}

/// A connection that was seen closed is not given to a request.
pub proof fn closed_connections_are_not_given(v: ClusterView, ids: Seq<u64>, is_write: bool)
    requires
        v.wf(),
    ensures
        v.with_closed(ids).wf(),
        v.with_closed(ids).pick(is_write).conn matches Some(c) ==> !c.closed && !ids.contains(c.id),
{
    let now = v.with_closed(ids);
    assert forall|key: (Seq<char>, u32)| #[trigger]
        now.followers.contains_key(key) implies key.1 < now.per_node && recorded(
        now.history,
        key.0,
    ) by {
        assert(v.followers.contains_key(key));
    }
    if is_write {
        writes_go_to_the_leader(now);
        if let Some(c) = now.pick(true).conn {
            let i = choose|i: int| 0 <= i < now.leader_conns.len() && now.leader_conns[i] == Some(c);
            assert(v.leader_conns[i] is Some);
        }
    } else {
        reads_are_served(now);
        if let Some(c) = now.pick(false).conn {
            let key = choose|key: (Seq<char>, u32)| #[trigger]
                now.follower_open(key) && now.followers[key] == c;
            assert(v.followers.contains_key(key));
        }
    }
}

/// A read takes no open connection out: what leaves was closed, and all else
/// stays as it was.
pub proof fn reads_drop_closed_connections_alone(v: ClusterView, key: (Seq<char>, u32))
    requires
        v.wf(),
        v.followers.contains_key(key),
    ensures
        v.pick(false).after.followers.contains_key(key) ==> v.pick(false).after.followers[key]
            == v.followers[key],
        !v.pick(false).after.followers.contains_key(key) ==> v.followers[key].closed,
{
    round_search(v, 0);
    let (r, t) = match v.open_round(0) {
        Some(found) => found,
        None => (v.history.len() as int, 0int),
    };
    assert(v.pick(false).after.followers == v.followers_past(r, t));
    if v.passed(r, t, key) {
        if exists|q: int| 0 <= q < r && #[trigger] v.names_round(q, key) {
            let q = choose|q: int| 0 <= q < r && #[trigger] v.names_round(q, key);
            assert(round_fails(v, q));
            v.rounds_are_records(q);
            let record = v.record_in_round(q);
            try_search(v, record, 0);
            let u = slot_comes(v, record, key.1);
            assert(!v.follower_open(v.key_in_try(record, u)));
        } else {
            let record = v.record_in_round(r);
            if r < v.history.len() {
                try_search(v, record, 0);
            }
            let u = choose|u: int| 0 <= u < t && #[trigger] v.key_in_try(record, u) == key;
            assert(!v.follower_open(v.key_in_try(record, u)));
        }
    }
}

/// Whether all is well: every follower has all its connections, all open.
pub open spec fn all_well(v: ClusterView) -> bool {
    &&& v.wf()
    &&& v.per_node > 0
    &&& forall|i: int, slot: u32|
        0 <= i < v.history.len() && slot < v.per_node ==> #[trigger] v.follower_open(
            (v.history[i].name, slot),
        )
}

/// The handler after `k` reads.
pub open spec fn after_reads(v: ClusterView, k: int) -> ClusterView
    decreases k,
{
    if k <= 0 {
        v
    } else {
        after_reads(v, k - 1).pick(false).after
    }
}

/// While all is well, a read takes the next slot of the node whose turn it is,
/// and all stays well.
pub proof fn read_takes_the_next_turn(v: ClusterView)
    requires
        all_well(v),
        v.history.len() > 0,
    ensures
        ({
            let i = v.place_in_round(0);
            let after = v.pick(false).after;
            &&& 0 <= i < v.history.len()
            &&& v.pick(false).conn == Some(
                v.followers[(v.history[i].name, v.history[i].next_slot)],
            )
            &&& after.followers == v.followers
            &&& after.per_node == v.per_node
            &&& after.last_node_id == v.history[i].node
            &&& after.place_in_round(0) == around(i + 1, v.history.len() as int)
            &&& after.history == v.history.update(
                i,
                NodeRecord {
                    next_slot: around(v.history[i].next_slot + 1, v.per_node) as u32,
                    ..v.history[i]
                },
            )
            &&& all_well(after)
        }),
{
    v.rounds_are_records(0);
    let i = v.place_in_round(0);
    let record = v.history[i];
    assert(v.key_in_try(record, 0) == (record.name, record.next_slot));
    assert(v.follower_open((record.name, record.next_slot)));
    assert(v.open_try(record, 0) == Some(0int));
    assert(v.open_round(0) == Some((0int, 0int)));
    let after = v.pick(false).after;
    assert(v.followers_past(0, 0) =~= v.followers);
    v.pick_keeps_wf(0, 0);
    after.turn_moves_on(i);
    assert forall|j: int, slot: u32|
        0 <= j < after.history.len() && slot < after.per_node implies #[trigger] after.follower_open(
        (after.history[j].name, slot),
    ) by {
        assert(v.follower_open((v.history[j].name, slot)));
    }
}

/// Whether one of the first `r` rounds is record `i`'s.
spec fn visited(v: ClusterView, r: int, i: int) -> bool {
    exists|q: int| 0 <= q < r && #[trigger] v.place_in_round(q) == i
}

/// Where the rotation stands after `m` turns of all nodes and `r` reads more.
proof fn reads_so_far(v: ClusterView, m: int, r: int)
    requires
        all_well(v),
        v.history.len() > 0,
        0 <= m < v.per_node,
        0 <= r <= v.history.len(),
    ensures
        ({
            let now = after_reads(v, m * v.history.len() + r);
            &&& all_well(now)
            &&& now.followers == v.followers
            &&& now.per_node == v.per_node
            &&& now.history.len() == v.history.len()
            &&& now.place_in_round(0) == v.place_in_round(
                if r < v.history.len() {
                    r
                } else {
                    0
                },
            )
            &&& forall|i: int|
                0 <= i < v.history.len() ==> (#[trigger] now.history[i]).name == v.history[i].name
                    && now.history[i].node == v.history[i].node && now.history[i].next_slot
                    == around(
                    v.history[i].next_slot + m + if visited(v, r, i) {
                        1int
                    } else {
                        0
                    },
                    v.per_node,
                )
        }),
    decreases m, r,
{
    let n = v.history.len() as int;
    let k = m * n + r;
    let now = after_reads(v, k);
    assert(m * n >= 0) by (nonlinear_arith)
        requires
            m >= 0,
            n > 0,
    ;
    v.rounds_are_records(0);
    if r > 0 {
        v.rounds_are_records(r - 1);
        reads_so_far(v, m, r - 1);
        let before = after_reads(v, k - 1);
        read_takes_the_next_turn(before);
        let at = v.place_in_round(r - 1);
        assert(now == before.pick(false).after);
        assert forall|i: int| 0 <= i < n implies (#[trigger] now.history[i]).name
            == v.history[i].name && now.history[i].node == v.history[i].node
            && now.history[i].next_slot == around(
            v.history[i].next_slot + m + if visited(v, r, i) {
                1int
            } else {
                0
            },
            v.per_node,
        ) by {
            assert(before.history[i].name == v.history[i].name);
            if visited(v, r - 1, i) {
                let q = choose|q: int| 0 <= q < r - 1 && #[trigger] v.place_in_round(q) == i;
                assert(0 <= q < r && v.place_in_round(q) == i);
                assert(visited(v, r, i));
                assert(at != i);
            } else if visited(v, r, i) {
                let q = choose|q: int| 0 <= q < r && #[trigger] v.place_in_round(q) == i;
                assert(q == r - 1);
            }
            if i == at {
                assert(visited(v, r, i));
            }
        }
    } else if m > 0 {
        reads_so_far(v, m - 1, n);
        assert((m - 1) * n + n == m * n) by (nonlinear_arith);
        assert forall|i: int| 0 <= i < n implies visited(v, n, i) && !visited(v, 0, i) by {
            let q = round_comes(v, i);
            assert(v.place_in_round(q) == i);
        }
        assert forall|i: int| 0 <= i < n implies (#[trigger] now.history[i]).next_slot == around(
            v.history[i].next_slot + m,
            v.per_node,
        ) by {
            assert(visited(v, n, i));
        }
    } else {
        assert(m * n == 0) by (nonlinear_arith)
            requires
                m == 0,
        ;
        assert(now == v);
    }
}

/// Under what the connection of the read after `k` others is found: the nodes
/// take turns, and each time the turn comes to a node its next slot is taken.
pub open spec fn turn_key(v: ClusterView, k: int) -> (Seq<char>, u32) {
    let n = v.history.len() as int;
    let record = v.record_in_round(k % n);
    (record.name, around(record.next_slot + k / n, v.per_node) as u32)
}

/// Which turn and which place in it the read after `k` others has.
proof fn turn_and_place(v: ClusterView, k: int)
    requires
        v.history.len() > 0,
        0 <= k < v.history.len() * v.per_node,
    ensures
        k == (k / v.history.len() as int) * v.history.len() + k % (v.history.len() as int),
        0 <= k % (v.history.len() as int) < v.history.len(),
        0 <= k / (v.history.len() as int) < v.per_node,
{
    let n = v.history.len() as int;
    let (m, r) = (k / n, k % n);
    lemma_fundamental_div_mod(k, n);
    assert(n * m == m * n) by (nonlinear_arith);
    assert(0 <= r < n);
    assert(m < v.per_node) by (nonlinear_arith)
        requires
            n * m + r == k,
            0 <= r,
            n > 0,
            k < n * v.per_node,
    ;
    assert(0 <= m) by (nonlinear_arith)
        requires
            n * m + r == k,
            r < n,
            n > 0,
            k >= 0,
    ;
}

/// While all is well, the read after `k` others takes the connection whose
/// turn that is.
pub proof fn reads_take_turns(v: ClusterView, k: int)
    requires
        all_well(v),
        v.history.len() > 0,
        0 <= k < v.history.len() * v.per_node,
    ensures
        after_reads(v, k).pick(false).conn == Some(v.followers[turn_key(v, k)]),
        v.followers.contains_key(turn_key(v, k)),
{
    let n = v.history.len() as int;
    let (m, r) = (k / n, k % n);
    turn_and_place(v, k);
    reads_so_far(v, m, r);
    let now = after_reads(v, k);
    read_takes_the_next_turn(now);
    v.rounds_are_records(r);
    let i = v.place_in_round(r);
    assert(!visited(v, r, i)) by {
        if visited(v, r, i) {
            let q = choose|q: int| 0 <= q < r && #[trigger] v.place_in_round(q) == i;
            v.rounds_differ(q, r);
        }
    }
    assert(now.history[i].name == v.history[i].name);
    assert(now.history[i].next_slot == around(v.history[i].next_slot + m, v.per_node));
    assert(v.follower_open((v.history[i].name, now.history[i].next_slot)));
}

/// While all is well, as many reads as there are connections take each
/// connection exactly once.
pub proof fn reads_take_each_connection_once(v: ClusterView)
    requires
        all_well(v),
        v.history.len() > 0,
    ensures
        forall|a: int, b: int|
            0 <= a < b < v.history.len() * v.per_node ==> #[trigger] turn_key(v, a)
                != #[trigger] turn_key(v, b),
        forall|key: (Seq<char>, u32)| #[trigger]
            v.followers.contains_key(key) ==> has_turn(v, key),
{
    let n = v.history.len() as int;
    assert forall|a: int, b: int| 0 <= a < b < n * v.per_node implies #[trigger] turn_key(v, a)
        != #[trigger] turn_key(v, b) by {
        turn_and_place(v, a);
        turn_and_place(v, b);
        if turn_key(v, a) == turn_key(v, b) {
            let (p, q) = (a % n, b % n);
            if p < q {
                v.rounds_differ(p, q);
            } else if q < p {
                v.rounds_differ(q, p);
            }
            assert(p == q);
            assert(a / n == b / n);
        }
    }
    assert forall|key: (Seq<char>, u32)| #[trigger] v.followers.contains_key(key) implies has_turn(
        v,
        key,
    ) by {
        let i = choose|i: int| 0 <= i < n && (#[trigger] v.history[i]).name == key.0;
        let r = round_comes(v, i);
        let from = v.history[i].next_slot;
        let m = if key.1 >= from {
            key.1 - from
        } else {
            key.1 - from + v.per_node
        };
        let k = m * n + r;
        assert(0 <= k < n * v.per_node) by (nonlinear_arith)
            requires
                0 <= m < v.per_node,
                0 <= r < n,
                k == m * n + r,
        ;
        turn_and_place(v, k);
        lemma_fundamental_div_mod_converse(k, n, m, r);
        assert(turn_key(v, k) == key);
    }
}

/// Whether one of as many reads as there are connections takes the connection
/// under `key`.
pub open spec fn has_turn(v: ClusterView, key: (Seq<char>, u32)) -> bool {
    exists|k: int| 0 <= k < v.history.len() * v.per_node && #[trigger] turn_key(v, k) == key
}

/// The host that the read after `k` others goes to.
pub open spec fn host_of_read(v: ClusterView, k: int) -> Seq<char> {
    after_reads(v, k).record_in_round(0).name
}

/// Reads leave all well, and the records with their hosts.
proof fn reads_leave_all_well(v: ClusterView, k: int)
    requires
        all_well(v),
        v.history.len() > 0,
        0 <= k,
    ensures
        all_well(after_reads(v, k)),
        after_reads(v, k).history.len() == v.history.len(),
    decreases k,
{
    if k > 0 {
        reads_leave_all_well(v, k - 1);
        read_takes_the_next_turn(after_reads(v, k - 1));
    }
}

/// Reads after reads are reads.
proof fn reads_add_up(v: ClusterView, a: int, k: int)
    requires
        0 <= a,
        0 <= k,
    ensures
        after_reads(after_reads(v, a), k) == after_reads(v, a + k),
    decreases k,
{
    if k > 0 {
        reads_add_up(v, a, k - 1);
    }
}

/// While all is well, any reads in a row that are no more than there are
/// followers go to different hosts: each to the host in whose slots its
/// connection is found.
pub proof fn reads_in_a_row_differ(v: ClusterView, a: int, b: int)
    requires
        all_well(v),
        0 <= a < b,
        b - a < v.history.len(),
    ensures
        host_of_read(v, a) != host_of_read(v, b),
        ({
            let now = after_reads(v, a);
            now.pick(false).conn == Some(
                now.followers[(host_of_read(v, a), now.record_in_round(0).next_slot)],
            )
        }),
{
    let now = after_reads(v, a);
    reads_leave_all_well(v, a);
    reads_add_up(v, a, b - a);
    read_takes_the_next_turn(now);
    reads_so_far(now, 0, b - a);
    now.rounds_differ(0, b - a);
    assert(0 * now.history.len() + (b - a) == b - a);
    now.rounds_are_records(b - a);
    let i = now.place_in_round(b - a);
    assert(after_reads(now, b - a).history[i].name == now.history[i].name);
}

} // verus!
