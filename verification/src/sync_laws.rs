//! What a synchronisation does to the connections as a whole.

use crate::cluster_laws::all_well;
use crate::cluster_view::{
    filled, filled_touches_node, free_numbers, free_slots, free_slots_are_slots,
    free_slots_depend_on_node, inserted_is_added, number_count, number_used, recorded,
    records_are_kept, ClusterView, NodeRecord, Placing,
};
use crate::pool::Connection;
use vstd::prelude::*;
use vstd::set_lib::{lemma_int_range, lemma_len_subset, set_int_range};

verus! {

/// A leader that stays where it is keeps its connections. One that is found
/// elsewhere has none of them, so that all its slots are to be connected. The
/// followers are left alone.
pub proof fn new_leader_starts_afresh(v: ClusterView, host: Seq<char>)
    requires
        v.wf(),
    ensures
        v.led_from(host).wf(),
        v.leader_host == Some(host) ==> v.led_from(host) == v,
        v.leader_host != Some(host) ==> !v.led_from(host).any_leader_open(),
        v.led_from(host).leader_host == Some(host),
        v.led_from(host).followers == v.followers,
        v.led_from(host).history == v.history,
        v.led_from(host) == (ClusterView {
            leader_conns: v.led_from(host).leader_conns,
            leader_host: Some(host),
            ..v
        }),
        v.led_from(host).leader_conns.len() == v.leader_conns.len(),
        v.leader_host != Some(host) ==> forall|i: int|
            0 <= i < v.leader_conns.len() ==> #[trigger] v.led_from(host).leader_conns[i] is None,
{
}

/// The slots to connect are those without an open connection, each once.
pub proof fn gaps_are_unopened(v: ClusterView, n: int)
    requires
        0 <= n <= v.leader_conns.len(),
    ensures
        forall|i: int| #[trigger]
            v.leader_gaps(n).contains(i) <==> 0 <= i < n && !v.leader_open(i),
        forall|a: int, b: int|
            0 <= a < b < v.leader_gaps(n).len() ==> #[trigger] v.leader_gaps(n)[a]
                < #[trigger] v.leader_gaps(n)[b],
    decreases n,
{
    if n > 0 {
        gaps_are_unopened(v, n - 1);
        let (fewer, gaps) = (v.leader_gaps(n - 1), v.leader_gaps(n));
        assert forall|i: int| #[trigger]
            gaps.contains(i) <==> 0 <= i < n && !v.leader_open(i) by {
            assert(fewer.contains(i) <==> 0 <= i < n - 1 && !v.leader_open(i));
            if fewer.contains(i) {
                let a = choose|a: int| 0 <= a < fewer.len() && fewer[a] == i;
                assert(gaps[a] == i);
            }
            if gaps.contains(i) {
                let a = choose|a: int| 0 <= a < gaps.len() && gaps[a] == i;
                if a < fewer.len() {
                    assert(fewer[a] == i);
                    assert(fewer.contains(i));
                }
            }
            if i == n - 1 && !v.leader_open(i) {
                assert(gaps[fewer.len() as int] == i);
            }
        }
        assert forall|a: int, b: int| 0 <= a < b < gaps.len() implies #[trigger] gaps[a]
            < #[trigger] gaps[b] by {
            assert(gaps[a] == fewer[a]);
            assert(fewer.contains(fewer[a]));
            if b < fewer.len() {
                assert(gaps[b] == fewer[b]);
            }
        }
    }
}

/// The handler once the first `k` of `conns` are connected to the leader in
/// the first `k` of `slots`.
pub open spec fn leader_filled(
    v: ClusterView,
    slots: Seq<int>,
    conns: Seq<Connection>,
    k: int,
) -> ClusterView
    decreases k,
{
    if k <= 0 {
        v
    } else {
        let before = leader_filled(v, slots, conns, k - 1);
        ClusterView {
            leader_conns: before.leader_conns.update(slots[k - 1], Some(conns[k - 1])),
            ..before
        }
    }
}

/// Which slots are open once some were connected.
proof fn leader_is_filled(v: ClusterView, slots: Seq<int>, conns: Seq<Connection>, k: int)
    requires
        0 <= k <= slots.len(),
        k <= conns.len(),
        forall|a: int| 0 <= a < k ==> 0 <= #[trigger] slots[a] < v.leader_conns.len(),
        forall|a: int| 0 <= a < k ==> !(#[trigger] conns[a]).closed,
    ensures
        ({
            let now = leader_filled(v, slots, conns, k);
            &&& now == (ClusterView { leader_conns: now.leader_conns, ..v })
            &&& now.leader_conns.len() == v.leader_conns.len()
            &&& forall|i: int|
                0 <= i < v.leader_conns.len() && v.leader_open(i) ==> #[trigger] now.leader_open(i)
            &&& forall|a: int| 0 <= a < k ==> now.leader_open(#[trigger] slots[a])
        }),
    decreases k,
{
    if k > 0 {
        leader_is_filled(v, slots, conns, k - 1);
        let before = leader_filled(v, slots, conns, k - 1);
        let now = leader_filled(v, slots, conns, k);
        assert forall|i: int| 0 <= i < v.leader_conns.len() && v.leader_open(i) implies #[trigger]
        now.leader_open(i) by {
            assert(before.leader_open(i));
        }
        assert forall|a: int| 0 <= a < k implies now.leader_open(#[trigger] slots[a]) by {
            if a < k - 1 {
                assert(before.leader_open(slots[a]));
            }
        }
    }
}

/// Once the slots that were to be connected are, every slot of the leader is
/// open.
pub proof fn connected_leader_is_open(v: ClusterView, conns: Seq<Connection>)
    requires
        v.wf(),
        conns.len() == v.leader_gaps(v.per_node).len(),
        forall|a: int| 0 <= a < conns.len() ==> !(#[trigger] conns[a]).closed,
    ensures
        forall|i: int|
            0 <= i < v.per_node ==> #[trigger] leader_filled(
                v,
                v.leader_gaps(v.per_node),
                conns,
                conns.len() as int,
            ).leader_open(i),
{
    let gaps = v.leader_gaps(v.per_node);
    gaps_are_unopened(v, v.per_node);
    assert forall|a: int| 0 <= a < gaps.len() implies 0 <= #[trigger] gaps[a]
        < v.leader_conns.len() by {
        assert(gaps.contains(gaps[a]));
    }
    leader_is_filled(v, gaps, conns, conns.len() as int);
    let now = leader_filled(v, gaps, conns, conns.len() as int);
    assert forall|i: int| 0 <= i < v.per_node implies #[trigger] now.leader_open(i) by {
        if !v.leader_open(i) {
            assert(gaps.contains(i));
            let a = choose|a: int| 0 <= a < gaps.len() && gaps[a] == i;
            assert(now.leader_open(gaps[a]));
        }
    }
}

/// A slot is free where it holds no open connection.
proof fn free_slots_are_unopened(
    followers: Map<(Seq<char>, u32), Connection>,
    name: Seq<char>,
    n: int,
    slot: u32,
)
    requires
        n <= u32::MAX,
        slot < n,
    ensures
        free_slots(followers, name, n).contains(slot) <==> !(followers.contains_key((name, slot))
            && !followers[(name, slot)].closed),
    decreases n,
{
    free_slots_are_slots(followers, name, n - 1);
    let (fewer, slots) = (free_slots(followers, name, n - 1), free_slots(followers, name, n));
    if slot < n - 1 {
        free_slots_are_unopened(followers, name, n - 1, slot);
        if fewer.contains(slot) {
            let a = choose|a: int| 0 <= a < fewer.len() && fewer[a] == slot;
            assert(slots[a] == slot);
        }
        if slots.contains(slot) {
            let a = choose|a: int| 0 <= a < slots.len() && slots[a] == slot;
            assert(fewer[a] == slot);
        }
    } else {
        if slots.contains(slot) {
            let a = choose|a: int| 0 <= a < slots.len() && slots[a] == slot;
            if a < fewer.len() {
                assert(fewer[a] == slot);
            }
        }
        if slots.len() > fewer.len() {
            assert(slots[fewer.len() as int] == slot);
        }
    }
}

/// The free slots of a host are those without an open connection, in order.
pub proof fn free_slots_hold_nothing_open(
    followers: Map<(Seq<char>, u32), Connection>,
    name: Seq<char>,
    n: int,
)
    requires
        0 <= n <= u32::MAX,
    ensures
        forall|slot: u32| #[trigger]
            free_slots(followers, name, n).contains(slot) <==> slot < n && (
            followers.contains_key((name, slot)) ==> followers[(name, slot)].closed),
        forall|a: int, b: int|
            0 <= a < b < free_slots(followers, name, n).len() ==> free_slots(followers, name, n)[a]
                < free_slots(followers, name, n)[b],
    decreases n,
{
    free_slots_are_slots(followers, name, n);
    let slots = free_slots(followers, name, n);
    assert forall|slot: u32| #[trigger] slots.contains(slot) <==> slot < n && (
    followers.contains_key((name, slot)) ==> followers[(name, slot)].closed) by {
        if slot < n {
            free_slots_are_unopened(followers, name, n, slot);
        }
    }
    if n > 0 {
        free_slots_hold_nothing_open(followers, name, n - 1);
        free_slots_are_slots(followers, name, n - 1);
        let fewer = free_slots(followers, name, n - 1);
        assert forall|a: int, b: int| 0 <= a < b < slots.len() implies slots[a] < slots[b] by {
            assert(slots[a] == fewer[a]);
            if b < fewer.len() {
                assert(slots[b] == fewer[b]);
            }
        }
    }
}

/// The slots below `n` in which `name` has an open connection.
pub open spec fn slots_in_use(v: ClusterView, name: Seq<char>, n: int) -> Set<int> {
    set_int_range(0, n).filter(
        |slot: int|
            v.followers.contains_key((name, slot as u32)) && !v.followers[(
                name,
                slot as u32,
            )].closed,
    )
}

/// The free slots below `n` and those in use are all.
proof fn slots_are_free_or_in_use(v: ClusterView, name: Seq<char>, n: int)
    requires
        0 <= n <= u32::MAX,
    ensures
        slots_in_use(v, name, n).finite(),
        free_slots(v.followers, name, n).len() + slots_in_use(v, name, n).len() == n,
    decreases n,
{
    lemma_int_range(0, n);
    let used = slots_in_use(v, name, n);
    if n > 0 {
        slots_are_free_or_in_use(v, name, n - 1);
        let fewer = slots_in_use(v, name, n - 1);
        let key = (name, (n - 1) as u32);
        assert(!fewer.contains(n - 1));
        if v.followers.contains_key(key) && !v.followers[key].closed {
            assert(used =~= fewer.insert(n - 1));
        } else {
            assert(used =~= fewer);
        }
    } else {
        assert(used =~= Set::<int>::empty());
    }
}

/// A host has room for as many connections as it has slots without an open one;
/// it is connected where the topology lists it and there is such a slot.
pub proof fn room_is_what_is_not_in_use(v: ClusterView, topology: Seq<Seq<char>>, name: Seq<char>)
    requires
        v.wf(),
    ensures
        v.missing(name) == v.per_node - slots_in_use(v, name, v.per_node).len(),
        v.wanted(topology, name) <==> topology.contains(name) && exists|slot: u32|
            slot < v.per_node && !(#[trigger] v.followers.contains_key((name, slot))
                && !v.followers[(name, slot)].closed),
{
    slots_are_free_or_in_use(v, name, v.per_node);
    free_slots_hold_nothing_open(v.followers, name, v.per_node);
    let slots = free_slots(v.followers, name, v.per_node);
    if slots.len() > 0 {
        assert(slots.contains(slots[0]));
        assert(!(v.followers.contains_key((name, slots[0])) && !v.followers[(
            name,
            slots[0],
        )].closed));
    }
    if exists|slot: u32|
        slot < v.per_node && !(#[trigger] v.followers.contains_key((name, slot))
            && !v.followers[(name, slot)].closed) {
        let slot = choose|slot: u32|
            slot < v.per_node && !(#[trigger] v.followers.contains_key((name, slot))
                && !v.followers[(name, slot)].closed);
        assert(slots.contains(slot));
    }
}

/// A connection counts as open until it is known to be closed, and as held
/// wherever it stands.
pub proof fn open_is_not_closed(v: ClusterView, i: int, key: (Seq<char>, u32), id: u64)
    ensures
        v.leader_open(i) <==> v.leader_conns[i] is Some && !v.leader_conns[i]->0.closed,
        v.follower_open(key) <==> v.followers.contains_key(key) && !v.followers[key].closed,
        0 <= i < v.leader_conns.len() && v.leader_conns[i] is Some && !v.leader_conns[i]->0.closed
            ==> v.any_leader_open(),
        v.any_leader_open() ==> exists|j: int|
            0 <= j < v.leader_conns.len() && (#[trigger] v.leader_conns[j]) is Some
                && !v.leader_conns[j]->0.closed,
        v.followers.contains_key(key) && !v.followers[key].closed ==> v.any_follower_open(),
        v.any_follower_open() ==> exists|k: (Seq<char>, u32)| #[trigger]
            v.followers.contains_key(k) && !v.followers[k].closed,
        0 <= i < v.leader_conns.len() && v.leader_conns[i] is Some && v.leader_conns[i]->0.id == id
            ==> v.holds(id),
        v.followers.contains_key(key) && v.followers[key].id == id ==> v.holds(id),
        v.holds(id) ==> {
            ||| exists|j: int|
                0 <= j < v.leader_conns.len() && (#[trigger] v.leader_conns[j]) is Some
                    && v.leader_conns[j]->0.id == id
            ||| exists|k: (Seq<char>, u32)| #[trigger]
                v.followers.contains_key(k) && v.followers[k].id == id
        },
{
    if 0 <= i < v.leader_conns.len() && v.leader_conns[i] is Some {
        assert(v.leader_open(i) || v.leader_conns[i]->0.closed);
        assert(v.leader_holds(i, v.leader_conns[i]->0.id));
    }
    if v.any_leader_open() {
        let j = choose|j: int| 0 <= j < v.leader_conns.len() && #[trigger] v.leader_open(j);
        assert(v.leader_conns[j] is Some);
    }
    if v.followers.contains_key(key) && !v.followers[key].closed {
        assert(v.follower_open(key));
    }
    if v.any_follower_open() {
        let k = choose|k: (Seq<char>, u32)| #[trigger] v.follower_open(k);
        assert(v.followers.contains_key(k));
    }
    if exists|j: int| 0 <= j < v.leader_conns.len() && #[trigger] v.leader_holds(j, id) {
        let j = choose|j: int| 0 <= j < v.leader_conns.len() && #[trigger] v.leader_holds(j, id);
        assert(v.leader_conns[j] is Some);
    }
}

/// The connections that are seen closed are marked, wherever they stand; all
/// else stays.
pub proof fn only_closed_connections_are_marked(v: ClusterView, ids: Seq<u64>)
    ensures
        ({
            let now = v.with_closed(ids);
            &&& now == (ClusterView {
                leader_conns: now.leader_conns,
                followers: now.followers,
                ..v
            })
            &&& now.leader_conns.len() == v.leader_conns.len()
            &&& forall|i: int|
                0 <= i < v.leader_conns.len() ==> #[trigger] now.leader_conns[i]
                    == match v.leader_conns[i] {
                    Some(c) => Some(
                        Connection { id: c.id, closed: c.closed || ids.contains(c.id) },
                    ),
                    None => None,
                }
            &&& forall|key: (Seq<char>, u32)| #[trigger]
                now.followers.contains_key(key) <==> v.followers.contains_key(key)
            &&& forall|key: (Seq<char>, u32)| #[trigger]
                v.followers.contains_key(key) ==> now.followers[key].id == v.followers[key].id && (
                now.followers[key].closed <==> v.followers[key].closed || ids.contains(
                    v.followers[key].id,
                ))
        }),
{
}

/// The filled slots hold what they were filled with, and no other slot
/// changes.
proof fn filled_holds(
    followers: Map<(Seq<char>, u32), Connection>,
    name: Seq<char>,
    slots: Seq<u32>,
    conns: Seq<Connection>,
    k: int,
)
    requires
        0 <= k <= slots.len(),
        forall|a: int, b: int| 0 <= a < b < slots.len() ==> slots[a] != slots[b],
    ensures
        ({
            let now = filled(followers, name, slots, conns, k);
            &&& forall|a: int|
                0 <= a < k ==> now.contains_key((name, #[trigger] slots[a])) && now[(
                    name,
                    slots[a],
                )] == conns[a]
            &&& forall|slot: u32|
                !slots.contains(slot) ==> (#[trigger] now.contains_key((name, slot))
                    <==> followers.contains_key((name, slot))) && now[(name, slot)] == followers[(
                    name,
                    slot,
                )]
        }),
    decreases k,
{
    if k > 0 {
        filled_holds(followers, name, slots, conns, k - 1);
        let before = filled(followers, name, slots, conns, k - 1);
        let now = filled(followers, name, slots, conns, k);
        assert forall|a: int| 0 <= a < k implies now.contains_key((name, #[trigger] slots[a]))
            && now[(name, slots[a])] == conns[a] by {
            if a < k - 1 {
                assert(before.contains_key((name, slots[a])));
                assert(slots[a] != slots[k - 1]);
            }
        }
        assert forall|slot: u32| !slots.contains(slot) implies (#[trigger] now.contains_key(
            (name, slot),
        ) <==> followers.contains_key((name, slot))) && now[(name, slot)] == followers[(
            name,
            slot,
        )] by {
            assert(slots.contains(slots[k - 1]));
            assert(before.contains_key((name, slot)) <==> followers.contains_key((name, slot)));
        }
    }
}

/// Placing the connections of other nodes leaves what a node has alone.
proof fn others_leave_alone(
    start: Placing,
    topology: Seq<Seq<char>>,
    news: Seq<(Seq<char>, Seq<Connection>)>,
    per_node: int,
    from: int,
    k: int,
    name: Seq<char>,
)
    requires
        0 <= from <= k <= news.len(),
        forall|i: int| from <= i < k ==> (#[trigger] news[i]).0 != name,
    ensures
        ({
            let before = start.placed_all(topology, news, per_node, from);
            let after = start.placed_all(topology, news, per_node, k);
            &&& forall|slot: u32| #[trigger]
                after.followers.contains_key((name, slot)) <==> before.followers.contains_key(
                    (name, slot),
                )
            &&& forall|slot: u32| #[trigger]
                after.followers[(name, slot)] == before.followers[(name, slot)]
        }),
    decreases k - from,
{
    if from < k {
        others_leave_alone(start, topology, news, per_node, from, k - 1, name);
        let before = start.placed_all(topology, news, per_node, k - 1);
        let after = start.placed_all(topology, news, per_node, k);
        let other = news[k - 1].0;
        let slots = free_slots(before.followers, other, per_node);
        assert(other != name);
        filled_touches_node(
            before.followers,
            other,
            slots,
            news[k - 1].1,
            news[k - 1].1.len() as int,
        );
    }
}

/// Where two pools have the same of a node, filling it gives the same.
proof fn same_node_filled_alike(
    a: Map<(Seq<char>, u32), Connection>,
    b: Map<(Seq<char>, u32), Connection>,
    name: Seq<char>,
    slots: Seq<u32>,
    conns: Seq<Connection>,
    k: int,
)
    requires
        forall|slot: u32| #[trigger] a.contains_key((name, slot)) <==> b.contains_key((name, slot)),
        forall|slot: u32|
            b.contains_key((name, slot)) ==> #[trigger] a[(name, slot)] == b[(name, slot)],
    ensures
        forall|slot: u32| #[trigger]
            filled(a, name, slots, conns, k).contains_key((name, slot)) <==> filled(
                b,
                name,
                slots,
                conns,
                k,
            ).contains_key((name, slot)),
        forall|slot: u32|
            filled(b, name, slots, conns, k).contains_key((name, slot)) ==> #[trigger] filled(
                a,
                name,
                slots,
                conns,
                k,
            )[(name, slot)] == filled(b, name, slots, conns, k)[(name, slot)],
    decreases k,
{
    if k > 0 {
        same_node_filled_alike(a, b, name, slots, conns, k - 1);
        let (fa, fb) = (filled(a, name, slots, conns, k - 1), filled(b, name, slots, conns, k - 1));
        assert forall|slot: u32| #[trigger]
            filled(a, name, slots, conns, k).contains_key((name, slot)) <==> filled(
                b,
                name,
                slots,
                conns,
                k,
            ).contains_key((name, slot)) by {
            assert(fa.contains_key((name, slot)) <==> fb.contains_key((name, slot)));
        }
        assert forall|slot: u32|
            filled(b, name, slots, conns, k).contains_key((name, slot)) implies #[trigger] filled(
            a,
            name,
            slots,
            conns,
            k,
        )[(name, slot)] == filled(b, name, slots, conns, k)[(name, slot)] by {
            if slot != slots[k - 1] {
                assert(fb.contains_key((name, slot)));
                assert(fa[(name, slot)] == fb[(name, slot)]);
            }
        }
    }
}

/// Before its turn to be placed, a node that is listed has what it had.
proof fn listed_node_waits(
    v: ClusterView,
    topology: Seq<Seq<char>>,
    news: Seq<(Seq<char>, Seq<Connection>)>,
    k: int,
    name: Seq<char>,
)
    requires
        topology.contains(name),
        0 <= k <= news.len(),
        forall|i: int| 0 <= i < k ==> (#[trigger] news[i]).0 != name,
    ensures
        ({
            let now = v.listed(topology).placed_all(topology, news, v.per_node, k);
            &&& forall|slot: u32| #[trigger]
                now.followers.contains_key((name, slot)) <==> v.followers.contains_key((name, slot))
            &&& forall|slot: u32|
                v.followers.contains_key((name, slot)) ==> #[trigger] now.followers[(name, slot)]
                    == v.followers[(name, slot)]
            &&& free_slots(now.followers, name, v.per_node) == free_slots(
                v.followers,
                name,
                v.per_node,
            )
        }),
{
    let start = v.listed(topology);
    let now = start.placed_all(topology, news, v.per_node, k);
    others_leave_alone(start, topology, news, v.per_node, 0, k, name);
    assert(start.placed_all(topology, news, v.per_node, 0) == start);
    assert forall|slot: u32| #[trigger]
        now.followers.contains_key((name, slot)) <==> v.followers.contains_key((name, slot)) by {
        assert(start.followers.contains_key((name, slot)) <==> v.followers.contains_key(
            (name, slot),
        ));
    }
    assert forall|slot: u32| v.followers.contains_key((name, slot)) implies #[trigger]
    now.followers[(name, slot)] == v.followers[(name, slot)] by {
        assert(start.followers.contains_key((name, slot)));
    }
    free_slots_depend_on_node(now.followers, v.followers, name, v.per_node);
}

/// Placing stays in order.
proof fn placing_stays_in_order(
    v: ClusterView,
    topology: Seq<Seq<char>>,
    news: Seq<(Seq<char>, Seq<Connection>)>,
    k: int,
)
    requires
        v.wf(),
        v.fits(news),
        0 <= k <= news.len(),
    ensures
        v.with_placed(v.listed(topology).placed_all(topology, news, v.per_node, k)).wf(),
        v.listed(topology).placed_all(topology, news, v.per_node, k).numbered(topology),
    decreases k,
{
    v.listed_is_in_order(topology);
    if k > 0 {
        placing_stays_in_order(v, topology, news, k - 1);
        let before = v.listed(topology).placed_all(topology, news, v.per_node, k - 1);
        let name = news[k - 1].0;
        if topology.contains(name) {
            assert forall|i: int| 0 <= i < k - 1 implies (#[trigger] news[i]).0 != name by {}
            listed_node_waits(v, topology, news, k - 1, name);
        }
        v.placing_keeps_order(before, topology, name, news[k - 1].1);
    }
}

/// Whether two pools have the same of a node.
spec fn same_of_node(
    a: Map<(Seq<char>, u32), Connection>,
    b: Map<(Seq<char>, u32), Connection>,
    name: Seq<char>,
) -> bool {
    &&& forall|slot: u32| #[trigger] a.contains_key((name, slot)) <==> b.contains_key((name, slot))
    &&& forall|slot: u32|
        b.contains_key((name, slot)) ==> #[trigger] a[(name, slot)] == b[(name, slot)]
}

/// What the placing of one node's connections comes to in the end. Where 32
/// bits cannot number all nodes that are listed, they may be passed over.
proof fn node_is_placed(
    v: ClusterView,
    topology: Seq<Seq<char>>,
    news: Seq<(Seq<char>, Seq<Connection>)>,
    j: int,
)
    requires
        v.wf(),
        v.fits(news),
        0 <= j < news.len(),
        topology.contains(news[j].0),
    ensures
        ({
            let (name, conns) = news[j];
            let slots = free_slots(v.followers, name, v.per_node);
            let full = filled(v.followers, name, slots, conns, conns.len() as int);
            let now = v.synced(topology, news).followers;
            ||| same_of_node(now, full, name)
            ||| topology.len() > u32::MAX && same_of_node(now, v.followers, name)
        }),
{
    let (name, conns) = news[j];
    let per_node = v.per_node;
    let start = v.listed(topology);
    let before = start.placed_all(topology, news, per_node, j);
    let after = start.placed_all(topology, news, per_node, j + 1);
    let last = start.placed_all(topology, news, per_node, news.len() as int);
    assert forall|i: int| 0 <= i < j implies (#[trigger] news[i]).0 != name by {}
    assert forall|i: int| j + 1 <= i < news.len() implies (#[trigger] news[i]).0 != name by {
        assert(news[j].0 != news[i].0);
    }
    listed_node_waits(v, topology, news, j, name);
    others_leave_alone(start, topology, news, per_node, j + 1, news.len() as int, name);
    placing_stays_in_order(v, topology, news, j);
    if topology.len() <= u32::MAX && !recorded(before.history, name) {
        v.number_is_left(before, topology, name);
    }
    let slots = free_slots(v.followers, name, per_node);
    let full = filled(v.followers, name, slots, conns, conns.len() as int);
    let full_before = filled(before.followers, name, slots, conns, conns.len() as int);
    same_node_filled_alike(before.followers, v.followers, name, slots, conns, conns.len() as int);
    assert(after == before.placed(topology, name, conns, per_node));
    assert(v.synced(topology, news).followers == last.followers);
    if after.followers == full_before {
        assert(same_of_node(last.followers, full, name)) by {
            assert forall|slot: u32| #[trigger]
                last.followers.contains_key((name, slot)) <==> full.contains_key((name, slot)) by {
                assert(full_before.contains_key((name, slot)) <==> full.contains_key((name, slot)));
            }
            assert forall|slot: u32| full.contains_key((name, slot)) implies #[trigger]
            last.followers[(name, slot)] == full[(name, slot)] by {
                assert(full_before[(name, slot)] == full[(name, slot)]);
            }
        }
    } else {
        assert(after.followers == before.followers);
        assert(same_of_node(last.followers, v.followers, name)) by {
            assert forall|slot: u32| #[trigger]
                last.followers.contains_key((name, slot)) <==> v.followers.contains_key(
                    (name, slot),
                ) by {
                assert(before.followers.contains_key((name, slot)) <==> v.followers.contains_key(
                    (name, slot),
                ));
            }
            assert forall|slot: u32| v.followers.contains_key((name, slot)) implies #[trigger]
            last.followers[(name, slot)] == v.followers[(name, slot)] by {
                assert(before.followers[(name, slot)] == v.followers[(name, slot)]);
            }
        }
    }
}

/// A synchronisation takes out the hosts that the topology does not list, with
/// all their connections and their turns.
pub proof fn unlisted_hosts_leave(
    v: ClusterView,
    topology: Seq<Seq<char>>,
    news: Seq<(Seq<char>, Seq<Connection>)>,
    name: Seq<char>,
)
    requires
        v.wf(),
        v.fits(news),
        !topology.contains(name),
    ensures
        !recorded(v.synced(topology, news).history, name),
        forall|slot: u32| !#[trigger] v.synced(topology, news).followers.contains_key((name, slot)),
{
    let now = v.synced(topology, news);
    placing_stays_in_order(v, topology, news, news.len() as int);
    assert forall|i: int| 0 <= i < now.history.len() implies (#[trigger] now.history[i]).name
        != name by {
        assert(topology.contains(now.history[i].name));
    }
    assert forall|slot: u32| !#[trigger] now.followers.contains_key((name, slot)) by {
        assert(now.followers.contains_key((name, slot)) ==> recorded(now.history, name));
    }
}

/// A synchronisation leaves every open connection to a host that the topology
/// lists where it is, and the leader's connections alone.
pub proof fn open_connections_stay(
    v: ClusterView,
    topology: Seq<Seq<char>>,
    news: Seq<(Seq<char>, Seq<Connection>)>,
    key: (Seq<char>, u32),
)
    requires
        v.wf(),
        v.fits(news),
        v.follower_open(key),
        topology.contains(key.0),
    ensures
        v.synced(topology, news).follower_open(key),
        v.synced(topology, news).followers[key] == v.followers[key],
        v.synced(topology, news).leader_conns == v.leader_conns,
{
    let name = key.0;
    assert(key == (name, key.1));
    if exists|j: int| 0 <= j < news.len() && (#[trigger] news[j]).0 == name {
        let j = choose|j: int| 0 <= j < news.len() && (#[trigger] news[j]).0 == name;
        let slots = free_slots(v.followers, name, v.per_node);
        let conns = news[j].1;
        free_slots_are_slots(v.followers, name, v.per_node);
        free_slots_are_unopened(v.followers, name, v.per_node, key.1);
        filled_holds(v.followers, name, slots, conns, conns.len() as int);
        node_is_placed(v, topology, news, j);
        assert(filled(v.followers, name, slots, conns, conns.len() as int).contains_key(
            (name, key.1),
        ));
    } else {
        listed_node_waits(v, topology, news, news.len() as int, name);
    }
}

/// Of a host that the topology lists, a slot into which no new connection goes
/// holds what it held.
pub proof fn other_slots_stay(
    v: ClusterView,
    topology: Seq<Seq<char>>,
    news: Seq<(Seq<char>, Seq<Connection>)>,
    key: (Seq<char>, u32),
)
    requires
        v.wf(),
        v.fits(news),
        topology.contains(key.0),
        forall|j: int, i: int|
            0 <= j < news.len() && news[j].0 == key.0 && 0 <= i < news[j].1.len()
                ==> #[trigger] free_slots(v.followers, news[j].0, v.per_node)[i] != key.1,
    ensures
        v.synced(topology, news).followers.contains_key(key) <==> v.followers.contains_key(key),
        v.followers.contains_key(key) ==> v.synced(topology, news).followers[key]
            == v.followers[key],
{
    let (name, slot) = key;
    assert(key == (name, slot));
    if exists|j: int| 0 <= j < news.len() && (#[trigger] news[j]).0 == name {
        let j = choose|j: int| 0 <= j < news.len() && (#[trigger] news[j]).0 == name;
        let slots = free_slots(v.followers, name, v.per_node);
        let conns = news[j].1;
        let some = slots.take(conns.len() as int);
        free_slots_are_slots(v.followers, name, v.per_node);
        filled_holds(v.followers, name, some, conns, conns.len() as int);
        filled_from_the_first(v.followers, name, slots, conns, conns.len() as int);
        assert(!some.contains(slot)) by {
            if some.contains(slot) {
                let i = choose|i: int| 0 <= i < some.len() && some[i] == slot;
                assert(free_slots(v.followers, news[j].0, v.per_node)[i] == slot);
            }
        }
        node_is_placed(v, topology, news, j);
        let full = filled(v.followers, name, slots, conns, conns.len() as int);
        assert(full.contains_key((name, slot)) <==> v.followers.contains_key((name, slot)));
    } else {
        listed_node_waits(v, topology, news, news.len() as int, name);
    }
}

/// Only the first of the slots are filled.
proof fn filled_from_the_first(
    followers: Map<(Seq<char>, u32), Connection>,
    name: Seq<char>,
    slots: Seq<u32>,
    conns: Seq<Connection>,
    k: int,
)
    requires
        0 <= k <= conns.len() <= slots.len(),
    ensures
        filled(followers, name, slots, conns, k) == filled(
            followers,
            name,
            slots.take(conns.len() as int),
            conns,
            k,
        ),
    decreases k,
{
    if k > 0 {
        filled_from_the_first(followers, name, slots, conns, k - 1);
    }
}

/// The new connections to a host that the topology lists stand in the slots
/// that held no open connection, in order.
pub proof fn new_connections_are_placed(
    v: ClusterView,
    topology: Seq<Seq<char>>,
    news: Seq<(Seq<char>, Seq<Connection>)>,
    j: int,
    i: int,
)
    requires
        v.wf(),
        v.fits(news),
        0 <= j < news.len(),
        0 <= i < news[j].1.len(),
        topology.contains(news[j].0),
        topology.len() <= u32::MAX,
    ensures
        ({
            let key = (news[j].0, free_slots(v.followers, news[j].0, v.per_node)[i]);
            let now = v.synced(topology, news);
            now.followers.contains_key(key) && now.followers[key] == news[j].1[i]
        }),
{
    let name = news[j].0;
    let slots = free_slots(v.followers, name, v.per_node);
    free_slots_are_slots(v.followers, name, v.per_node);
    filled_holds(v.followers, name, slots, news[j].1, news[j].1.len() as int);
    node_is_placed(v, topology, news, j);
    assert(v.synced(topology, news).followers.contains_key((name, slots[i])));
}

/// A host that the topology lists and that got as many open connections as it
/// had room for has an open connection in every slot.
pub proof fn synced_node_is_full(
    v: ClusterView,
    topology: Seq<Seq<char>>,
    news: Seq<(Seq<char>, Seq<Connection>)>,
    j: int,
    slot: u32,
)
    requires
        v.wf(),
        v.fits(news),
        0 <= j < news.len(),
        topology.contains(news[j].0),
        topology.len() <= u32::MAX,
        news[j].1.len() == v.missing(news[j].0),
        forall|i: int| 0 <= i < news[j].1.len() ==> !(#[trigger] news[j].1[i]).closed,
        slot < v.per_node,
    ensures
        v.synced(topology, news).follower_open((news[j].0, slot)),
{
    let name = news[j].0;
    let slots = free_slots(v.followers, name, v.per_node);
    if v.follower_open((name, slot)) {
        open_connections_stay(v, topology, news, (name, slot));
    } else {
        free_slots_are_unopened(v.followers, name, v.per_node, slot);
        let i = choose|i: int| 0 <= i < slots.len() && slots[i] == slot;
        new_connections_are_placed(v, topology, news, j, i);
    }
}

/// Whether the new connections are all that were planned: each host that the
/// topology lists and that has room got as many open connections as it has
/// room for.
pub open spec fn plan_is_met(
    v: ClusterView,
    topology: Seq<Seq<char>>,
    news: Seq<(Seq<char>, Seq<Connection>)>,
) -> bool {
    &&& v.fits(news)
    &&& forall|name: Seq<char>| #[trigger]
        v.wanted(topology, name) ==> exists|j: int|
            0 <= j < news.len() && (#[trigger] news[j]).0 == name && news[j].1.len() == v.missing(
                name,
            )
    &&& forall|j: int, i: int|
        0 <= j < news.len() && 0 <= i < news[j].1.len() ==> !(#[trigger] news[j].1[i]).closed
}

/// Once the plan is met, every host that the topology lists has an open
/// connection in every slot, and all is well.
pub proof fn met_plan_makes_all_well(
    v: ClusterView,
    topology: Seq<Seq<char>>,
    news: Seq<(Seq<char>, Seq<Connection>)>,
)
    requires
        v.wf(),
        v.per_node > 0,
        topology.len() <= u32::MAX,
        plan_is_met(v, topology, news),
    ensures
        all_well(v.synced(topology, news)),
        forall|name: Seq<char>, slot: u32|
            topology.contains(name) && slot < v.per_node ==> #[trigger] v.synced(
                topology,
                news,
            ).follower_open((name, slot)),
{
    let now = v.synced(topology, news);
    placing_stays_in_order(v, topology, news, news.len() as int);
    assert forall|name: Seq<char>, slot: u32|
        topology.contains(name) && slot < v.per_node implies #[trigger] now.follower_open(
        (name, slot),
    ) by {
        if v.wanted(topology, name) {
            let j = choose|j: int|
                0 <= j < news.len() && (#[trigger] news[j]).0 == name && news[j].1.len()
                    == v.missing(name);
            synced_node_is_full(v, topology, news, j, slot);
        } else {
            free_slots_are_unopened(v.followers, name, v.per_node, slot);
            assert(v.follower_open((name, slot)));
            open_connections_stay(v, topology, news, (name, slot));
        }
    }
    assert forall|i: int, slot: u32|
        0 <= i < now.history.len() && slot < now.per_node implies #[trigger] now.follower_open(
        (now.history[i].name, slot),
    ) by {
        assert(topology.contains(now.history[i].name));
    }
}

/// Whether the node `name` has the number `node`.
pub open spec fn has_number(history: Seq<NodeRecord>, name: Seq<char>, node: u32) -> bool {
    exists|i: int|
        0 <= i < history.len() && (#[trigger] history[i]).name == name && history[i].node == node
}

/// Whether a record is that of a host that had none and is among the first `k`
/// with new connections.
spec fn added(
    v: ClusterView,
    news: Seq<(Seq<char>, Seq<Connection>)>,
    k: int,
    x: NodeRecord,
) -> bool {
    &&& !recorded(v.history, x.name)
    &&& x.next_slot == 0
    &&& exists|j: int| 0 <= j < k && (#[trigger] news[j]).0 == x.name && news[j].1.len() > 0
}

/// Placing keeps the records that are there, and gives those that it adds
/// numbers below the count of hosts that are listed.
proof fn records_stay(
    v: ClusterView,
    topology: Seq<Seq<char>>,
    news: Seq<(Seq<char>, Seq<Connection>)>,
    k: int,
)
    requires
        v.wf(),
        v.fits(news),
        0 <= k <= news.len(),
    ensures
        ({
            let start = v.listed(topology).history;
            let now = v.listed(topology).placed_all(topology, news, v.per_node, k).history;
            &&& forall|x: NodeRecord| #[trigger] start.contains(x) ==> now.contains(x)
            &&& forall|x: NodeRecord| #[trigger]
                now.contains(x) ==> start.contains(x) || (x.node < topology.len() && added(
                    v,
                    news,
                    k,
                    x,
                ))
        }),
    decreases k,
{
    if k > 0 {
        records_stay(v, topology, news, k - 1);
        records_are_kept(v.history, topology, v.history.len() as int);
        placing_stays_in_order(v, topology, news, k - 1);
        let before = v.listed(topology).placed_all(topology, news, v.per_node, k - 1);
        let (name, conns) = news[k - 1];
        if topology.contains(name) && conns.len() > 0 && !recorded(before.history, name)
            && before.free_numbers.len() > 0 {
            let number = before.free_numbers[before.free_numbers.len() - 1];
            assert(!number_used(before.history, number as int) && number < topology.len());
            let slots = free_slots(before.followers, name, v.per_node);
            let record = NodeRecord { name, node: number, next_slot: slots[0] };
            inserted_is_added(before.history, record);
            assert(!recorded(v.history, name)) by {
                if recorded(v.history, name) {
                    let i = choose|i: int|
                        0 <= i < v.history.len() && (#[trigger] v.history[i]).name == name;
                    assert(v.listed(topology).history.contains(v.history[i]));
                    assert(before.history.contains(v.history[i]));
                    let b = choose|b: int|
                        0 <= b < before.history.len() && before.history[b] == v.history[i];
                    assert(before.history[b].name == name);
                }
            }
            assert forall|i: int| 0 <= i < k - 1 implies (#[trigger] news[i]).0 != name by {}
            listed_node_waits(v, topology, news, k - 1, name);
            free_slots_hold_nothing_open(v.followers, name, v.per_node);
            assert(!v.followers.contains_key((name, 0u32)));
            assert(slots.contains(0u32));
            let a = choose|a: int| 0 <= a < slots.len() && slots[a] == 0u32;
            if a > 0 {
                assert(slots[0] < slots[a]);
            }
            assert(news[k - 1].0 == name);
            assert(added(v, news, k, record));
        }
        let now = v.listed(topology).placed_all(topology, news, v.per_node, k).history;
        assert forall|x: NodeRecord| #[trigger] now.contains(x) implies v.listed(
            topology,
        ).history.contains(x) || (x.node < topology.len() && added(v, news, k, x)) by {
            if before.history.contains(x) && !v.listed(topology).history.contains(x) {
                assert(added(v, news, k - 1, x));
                let j = choose|j: int|
                    0 <= j < k - 1 && (#[trigger] news[j]).0 == x.name && news[j].1.len() > 0;
                assert(news[j].0 == x.name);
            }
        }
    }
}

/// The free numbers below `n` are those that no record has, in order.
proof fn free_numbers_are_the_others(history: Seq<NodeRecord>, n: int)
    requires
        0 <= n <= u32::MAX,
    ensures
        forall|m: u32| #[trigger]
            free_numbers(history, n).contains(m) <==> m < n && !number_used(history, m as int),
        forall|a: int, b: int|
            0 <= a < b < free_numbers(history, n).len() ==> free_numbers(history, n)[a]
                < free_numbers(history, n)[b],
    decreases n,
{
    let numbers = free_numbers(history, n);
    if n > 0 {
        free_numbers_are_the_others(history, n - 1);
        let fewer = free_numbers(history, n - 1);
        assert forall|a: int| 0 <= a < fewer.len() implies #[trigger] fewer[a] < n - 1 by {
            assert(fewer.contains(fewer[a]));
        }
        assert forall|m: u32| #[trigger] numbers.contains(m) <==> m < n && !number_used(
            history,
            m as int,
        ) by {
            assert(fewer.contains(m) <==> m < n - 1 && !number_used(history, m as int));
            if fewer.contains(m) {
                let a = choose|a: int| 0 <= a < fewer.len() && fewer[a] == m;
                assert(numbers[a] == m);
            }
            if numbers.len() > fewer.len() {
                assert(numbers[fewer.len() as int] == n - 1);
            }
            if numbers.contains(m) {
                let a = choose|a: int| 0 <= a < numbers.len() && numbers[a] == m;
                if a < fewer.len() {
                    assert(fewer[a] == m);
                }
            }
        }
        assert forall|a: int, b: int| 0 <= a < b < numbers.len() implies numbers[a]
            < numbers[b] by {
            assert(numbers[a] == fewer[a]);
            if b < fewer.len() {
                assert(numbers[b] == fewer[b]);
            }
        }
    }
}

/// What is known of the numbers while connections are placed: each is given or
/// left, and those that were given lie above those that are left.
proof fn numbers_go_from_the_top(
    v: ClusterView,
    topology: Seq<Seq<char>>,
    news: Seq<(Seq<char>, Seq<Connection>)>,
    k: int,
)
    requires
        v.wf(),
        v.fits(news),
        0 <= k <= news.len(),
    ensures
        ({
            let start = v.listed(topology).history;
            let now = v.listed(topology).placed_all(topology, news, v.per_node, k);
            let left = now.free_numbers;
            &&& forall|m: u32|
                m < number_count(topology) && !#[trigger] number_used(now.history, m as int)
                    ==> left.contains(m)
            &&& forall|a: int, b: int| 0 <= a < b < left.len() ==> left[a] < left[b]
            &&& forall|x: NodeRecord, a: int|
                #![trigger now.history.contains(x), left[a]]
                now.history.contains(x) && !start.contains(x) && 0 <= a < left.len() ==> left[a]
                    < x.node
        }),
    decreases k,
{
    let start = v.listed(topology).history;
    let now = v.listed(topology).placed_all(topology, news, v.per_node, k);
    if k == 0 {
        free_numbers_are_the_others(start, number_count(topology));
    } else {
        numbers_go_from_the_top(v, topology, news, k - 1);
        placing_stays_in_order(v, topology, news, k - 1);
        let before = v.listed(topology).placed_all(topology, news, v.per_node, k - 1);
        let (name, conns) = news[k - 1];
        if topology.contains(name) && conns.len() > 0 && !recorded(before.history, name)
            && before.free_numbers.len() > 0 {
            let (were, left) = (before.free_numbers, now.free_numbers);
            let number = were[were.len() - 1];
            let slots = free_slots(before.followers, name, v.per_node);
            let record = NodeRecord { name, node: number, next_slot: slots[0] };
            assert(!number_used(before.history, number as int));
            inserted_is_added(before.history, record);
            assert(now.history.contains(record));
            let at = choose|at: int| 0 <= at < now.history.len() && now.history[at] == record;
            assert(number_used(now.history, number as int)) by {
                assert(now.history[at].node == number);
            }
            assert forall|m: u32|
                m < number_count(topology) && !#[trigger] number_used(
                    now.history,
                    m as int,
                ) implies left.contains(m) by {
                if number_used(before.history, m as int) {
                    let i = choose|i: int|
                        0 <= i < before.history.len() && (#[trigger] before.history[i]).node == m;
                    assert(before.history.contains(before.history[i]));
                    assert(now.history.contains(before.history[i]));
                    let j = choose|j: int|
                        0 <= j < now.history.len() && now.history[j] == before.history[i];
                    assert(now.history[j].node == m);
                }
                assert(were.contains(m));
                let a = choose|a: int| 0 <= a < were.len() && were[a] == m;
                assert(left[a] == m);
            }
            assert forall|x: NodeRecord, a: int|
                #![trigger now.history.contains(x), left[a]]
                now.history.contains(x) && !start.contains(x) && 0 <= a < left.len() implies left[a]
                < x.node by {
                assert(left[a] == were[a]);
                if x == record {
                    assert(were[a] < were[were.len() - 1]);
                } else {
                    assert(before.history.contains(x));
                }
            }
        }
    }
}

/// A new host gets the highest number that is left: those above it, below the
/// count of hosts that are listed, all belong to some host.
pub proof fn new_hosts_are_numbered_from_the_top(
    v: ClusterView,
    topology: Seq<Seq<char>>,
    news: Seq<(Seq<char>, Seq<Connection>)>,
    x: NodeRecord,
    m: u32,
)
    requires
        v.wf(),
        v.fits(news),
        v.synced(topology, news).history.contains(x),
        !v.history.contains(x),
        x.node < m < topology.len(),
        topology.len() <= u32::MAX,
    ensures
        exists|i: int|
            0 <= i < v.synced(topology, news).history.len() && (#[trigger] v.synced(
                topology,
                news,
            ).history[i]).node == m,
{
    let start = v.listed(topology).history;
    let now = v.listed(topology).placed_all(topology, news, v.per_node, news.len() as int);
    numbers_go_from_the_top(v, topology, news, news.len() as int);
    assert(now.history.contains(x));
    assert(!start.contains(x)) by {
        if start.contains(x) {
            records_are_kept(v.history, topology, v.history.len() as int);
            let all = v.history.take(v.history.len() as int);
            let b = choose|b: int| 0 <= b < start.len() && start[b] == x;
            assert(all.contains(start[b]));
            let a = choose|a: int| 0 <= a < all.len() && all[a] == x;
            assert(v.history[a] == x);
        }
    }
    if !number_used(now.history, m as int) {
        let left = now.free_numbers;
        assert(left.contains(m));
        let a = choose|a: int| 0 <= a < left.len() && left[a] == m;
        assert(left[a] < x.node);
    }
}

/// What a synchronisation keeps of the records: those of hosts that are listed
/// stay as they are; each other one is of a host that is listed, had no record
/// and has new connections, and starts at its first slot. Apart from the records
/// and the followers' connections nothing changes.
pub proof fn records_are_carried_over(
    v: ClusterView,
    topology: Seq<Seq<char>>,
    news: Seq<(Seq<char>, Seq<Connection>)>,
    x: NodeRecord,
)
    requires
        v.wf(),
        v.fits(news),
    ensures
        v.history.contains(x) && topology.contains(x.name) ==> v.synced(
            topology,
            news,
        ).history.contains(x),
        v.synced(topology, news).history.contains(x) ==> topology.contains(x.name) && (
        v.history.contains(x) || (!recorded(v.history, x.name) && x.next_slot == 0 && exists|j: int|
            0 <= j < news.len() && (#[trigger] news[j]).0 == x.name && news[j].1.len() > 0)),
        v.synced(topology, news) == (ClusterView {
            followers: v.synced(topology, news).followers,
            history: v.synced(topology, news).history,
            ..v
        }),
{
    let start = v.listed(topology).history;
    let now = v.synced(topology, news).history;
    records_stay(v, topology, news, news.len() as int);
    placing_stays_in_order(v, topology, news, news.len() as int);
    records_are_kept(v.history, topology, v.history.len() as int);
    if v.history.contains(x) && topology.contains(x.name) {
        let i = choose|i: int| 0 <= i < v.history.len() && v.history[i] == x;
        assert(start.contains(v.history[i]));
    }
    if now.contains(x) {
        let i = choose|i: int| 0 <= i < now.len() && now[i] == x;
        assert(topology.contains(now[i].name));
        if start.contains(x) {
            let all = v.history.take(v.history.len() as int);
            let b = choose|b: int| 0 <= b < start.len() && start[b] == x;
            assert(all.contains(start[b]));
            let a = choose|a: int| 0 <= a < all.len() && all[a] == x;
            assert(v.history[a] == x);
        }
    }
}

/// A host that the topology lists keeps its number. A host that had none gets
/// one below the count of hosts that are listed. No host has two numbers, and
/// no number two hosts.
pub proof fn numbers_stay(
    v: ClusterView,
    topology: Seq<Seq<char>>,
    news: Seq<(Seq<char>, Seq<Connection>)>,
    name: Seq<char>,
    node: u32,
)
    requires
        v.wf(),
        v.fits(news),
    ensures
        has_number(v.history, name, node) && topology.contains(name) ==> has_number(
            v.synced(topology, news).history,
            name,
            node,
        ),
        has_number(v.synced(topology, news).history, name, node) && !recorded(v.history, name)
            ==> node < topology.len(),
        forall|other: u32|
            has_number(v.synced(topology, news).history, name, node) && #[trigger] has_number(
                v.synced(topology, news).history,
                name,
                other,
            ) ==> other == node,
        forall|other: Seq<char>|
            has_number(v.synced(topology, news).history, name, node) && #[trigger] has_number(
                v.synced(topology, news).history,
                other,
                node,
            ) ==> other == name,
{
    let start = v.listed(topology);
    let now = v.synced(topology, news);
    placing_stays_in_order(v, topology, news, news.len() as int);
    records_stay(v, topology, news, news.len() as int);
    records_are_kept(v.history, topology, v.history.len() as int);
    if has_number(v.history, name, node) && topology.contains(name) {
        let i = choose|i: int|
            0 <= i < v.history.len() && (#[trigger] v.history[i]).name == name && v.history[i].node
                == node;
        assert(start.history.contains(v.history[i]));
        assert(now.history.contains(v.history[i]));
        let a = choose|a: int| 0 <= a < now.history.len() && now.history[a] == v.history[i];
        assert(now.history[a].name == name);
    }
    if has_number(now.history, name, node) {
        let i = choose|i: int|
            0 <= i < now.history.len() && (#[trigger] now.history[i]).name == name
                && now.history[i].node == node;
        if !recorded(v.history, name) {
            let x = now.history[i];
            assert(now.history.contains(x));
            if start.history.contains(x) {
                let all = v.history.take(v.history.len() as int);
                let b = choose|b: int| 0 <= b < start.history.len() && start.history[b] == x;
                assert(all.contains(start.history[b]));
                let a = choose|a: int| 0 <= a < all.len() && all[a] == x;
                assert(v.history[a].name == name);
            }
        }
        assert forall|other: u32| #[trigger] has_number(now.history, name, other) implies other
            == node by {
            let j = choose|j: int|
                0 <= j < now.history.len() && (#[trigger] now.history[j]).name == name
                    && now.history[j].node == other;
            if i < j {
                assert(now.history[i].name != now.history[j].name);
            } else if j < i {
                assert(now.history[j].name != now.history[i].name);
            }
        }
        assert forall|other: Seq<char>| #[trigger] has_number(now.history, other, node) implies other
            == name by {
            let j = choose|j: int|
                0 <= j < now.history.len() && (#[trigger] now.history[j]).name == other
                    && now.history[j].node == node;
            if i < j {
                assert(now.history[i].node != now.history[j].node);
            } else if j < i {
                assert(now.history[j].node != now.history[i].node);
            }
        }
    }
}

/// The slots in which `name` has a connection.
pub open spec fn slots_of(v: ClusterView, name: Seq<char>) -> Set<int> {
    Set::new(|slot: int| 0 <= slot <= u32::MAX && v.followers.contains_key((name, slot as u32)))
}

/// What a synchronisation keeps of the followers, whichever connections could
/// be opened: an open connection to a host that the topology lists stays under
/// the same host, number and slot; every host has one number; slots are below
/// the setting; and no host has more connections than the setting says.
pub proof fn followers_stay_in_order(
    v: ClusterView,
    topology: Seq<Seq<char>>,
    news: Seq<(Seq<char>, Seq<Connection>)>,
    name: Seq<char>,
)
    requires
        v.wf(),
        v.fits(news),
    ensures
        v.synced(topology, news).wf(),
        forall|slot: u32|
            topology.contains(name) && #[trigger] v.follower_open((name, slot)) ==> v.synced(
                topology,
                news,
            ).follower_open((name, slot)) && v.synced(topology, news).followers[(name, slot)]
                == v.followers[(name, slot)],
        forall|node: u32|
            topology.contains(name) && #[trigger] has_number(v.history, name, node) ==> has_number(
                v.synced(topology, news).history,
                name,
                node,
            ),
        forall|slot: u32| #[trigger]
            v.synced(topology, news).followers.contains_key((name, slot)) ==> slot < v.per_node
                && topology.contains(name),
        forall|slot: u32| #[trigger]
            v.synced(topology, news).followers.contains_key((name, slot)) ==> exists|node: u32|
                #[trigger] has_number(v.synced(topology, news).history, name, node),
        forall|a: u32, b: u32| #[trigger]
            has_number(v.synced(topology, news).history, name, a) && #[trigger] has_number(
                v.synced(topology, news).history,
                name,
                b,
            ) ==> a == b,
        slots_of(v.synced(topology, news), name).len() <= v.per_node,
{
    let now = v.synced(topology, news);
    placing_stays_in_order(v, topology, news, news.len() as int);
    assert forall|slot: u32|
        topology.contains(name) && #[trigger] v.follower_open((name, slot)) implies now.follower_open(
        (name, slot),
    ) && now.followers[(name, slot)] == v.followers[(name, slot)] by {
        open_connections_stay(v, topology, news, (name, slot));
    }
    assert forall|node: u32|
        topology.contains(name) && #[trigger] has_number(v.history, name, node) implies has_number(
        now.history,
        name,
        node,
    ) by {
        numbers_stay(v, topology, news, name, node);
    }
    assert forall|slot: u32| #[trigger]
        now.followers.contains_key((name, slot)) implies topology.contains(name) && exists|
        node: u32,
    |
        #[trigger] has_number(now.history, name, node) by {
        assert(recorded(now.history, name));
        let i = choose|i: int|
            0 <= i < now.history.len() && (#[trigger] now.history[i]).name == name;
        assert(topology.contains(now.history[i].name));
        assert(has_number(now.history, name, now.history[i].node));
    }
    assert forall|a: u32, b: u32| #[trigger]
        has_number(now.history, name, a) && #[trigger] has_number(now.history, name, b) implies a
        == b by {
        numbers_stay(v, topology, news, name, a);
    }
    lemma_int_range(0, v.per_node);
    assert(slots_of(now, name).subset_of(set_int_range(0, v.per_node)));
    lemma_len_subset(slots_of(now, name), set_int_range(0, v.per_node));
}

} // verus!
