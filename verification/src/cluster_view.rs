//! The cluster as plain values: what the handler's functions are stated over.

use crate::pool::{closed_by, of_hosts, Connection};
use vstd::prelude::*;
use vstd::seq_lib::seq_to_set_is_finite;
use vstd::set_lib::lemma_len_subset;

verus! {

/// What the load balancer keeps of a follower: its name, the number that no
/// other has, and the slot whose turn is next.
pub struct NodeRecord {
    pub name: Seq<char>,
    pub node: u32,
    pub next_slot: u32,
}

/// The connections of a bridge and the turns of its load balancer.
pub struct ClusterView {
    /// Slots for connections to each node.
    pub per_node: int,
    /// The leader's slots.
    pub leader_conns: Seq<Option<Connection>>,
    /// Where the leader was last found.
    pub leader_host: Option<Seq<char>>,
    /// The followers' connections, by node name and slot.
    pub followers: Map<(Seq<char>, u32), Connection>,
    /// The followers that were connected since they are listed, by number.
    pub history: Seq<NodeRecord>,
    /// Number of the follower that had the last turn.
    pub last_node_id: u32,
    /// Slot of the leader that had the last turn.
    pub last_leader_id: u32,
    /// Whether a synchronisation is under way.
    pub syncing: bool,
}

/// Position `i` on a ring of `len` places, for `i` below twice `len`.
pub open spec fn around(i: int, len: int) -> int {
    if i < len {
        i
    } else {
        i - len
    }
}

/// Whether the records stand in the order of their numbers, each of which one
/// record has.
pub open spec fn by_number(history: Seq<NodeRecord>) -> bool {
    forall|i: int, j: int|
        0 <= i < j < history.len() ==> (#[trigger] history[i]).node < (#[trigger] history[j]).node
}

/// Where the first of the records from `i` on stands whose number is above
/// `node`; the end, where there is none.
pub open spec fn first_above(history: Seq<NodeRecord>, node: int, i: int) -> int
    decreases history.len() - i,
{
    if i >= history.len() {
        history.len() as int
    } else if history[i].node > node {
        i
    } else {
        first_above(history, node, i + 1)
    }
}

/// The records with one more, in its place.
pub open spec fn inserted(history: Seq<NodeRecord>, record: NodeRecord) -> Seq<NodeRecord> {
    history.insert(first_above(history, record.node as int, 0), record)
}

/// Whether the node `name` has a record.
pub open spec fn recorded(history: Seq<NodeRecord>, name: Seq<char>) -> bool {
    exists|i: int| 0 <= i < history.len() && (#[trigger] history[i]).name == name
}

/// What a request is given, which closed connections were met on the way, and
/// what the handler becomes.
pub struct PickView {
    pub conn: Option<Connection>,
    pub closed: Seq<Connection>,
    pub after: ClusterView,
}

impl ClusterView {
    /// What holds of every handler.
    pub open spec fn wf(self) -> bool {
        &&& 0 <= self.per_node <= u32::MAX
        &&& self.leader_conns.len() == self.per_node
        &&& forall|i: int, j: int|
            0 <= i < j < self.history.len() ==> (#[trigger] self.history[i]).name != (
            #[trigger] self.history[j]).name
        &&& by_number(self.history)
        &&& forall|i: int|
            0 <= i < self.history.len() ==> (#[trigger] self.history[i]).next_slot < self.per_node
        &&& forall|key: (Seq<char>, u32)| #[trigger]
            self.followers.contains_key(key) ==> key.1 < self.per_node && recorded(
                self.history,
                key.0,
            )
        &&& self.last_leader_id < self.per_node || self.last_leader_id == 0
    }

    /// The slot that the leader's rotation comes to after `t` steps.
    pub open spec fn leader_slot(self, t: int) -> int {
        let first = if self.last_leader_id + 1 >= self.per_node {
            0
        } else {
            self.last_leader_id + 1
        };
        around(first + t, self.per_node)
    }

    /// Whether the leader's slot `i` holds an open connection.
    pub open spec fn leader_open(self, i: int) -> bool {
        self.leader_conns[i] matches Some(c) && !c.closed
    }

    /// After how many steps, `t` at least, the leader's rotation comes to an
    /// open connection.
    pub open spec fn leader_try(self, t: int) -> Option<int>
        decreases self.per_node - t,
    {
        if t >= self.per_node {
            None
        } else if self.leader_open(self.leader_slot(t)) {
            Some(t)
        } else {
            self.leader_try(t + 1)
        }
    }

    /// The closed connections in the first `t` slots of the leader's rotation.
    pub open spec fn leader_closed(self, t: int) -> Seq<Connection>
        decreases t,
    {
        if t <= 0 {
            Seq::empty()
        } else {
            match self.leader_conns[self.leader_slot(t - 1)] {
                Some(c) => if c.closed {
                    self.leader_closed(t - 1).push(c)
                } else {
                    self.leader_closed(t - 1)
                },
                None => self.leader_closed(t - 1),
            }
        }
    }

    /// What a write is given: the first open connection in the leader's
    /// rotation.
    pub open spec fn leader_pick(self) -> PickView {
        match self.leader_try(0) {
            Some(t) => PickView {
                conn: self.leader_conns[self.leader_slot(t)],
                closed: self.leader_closed(t),
                after: ClusterView { last_leader_id: self.leader_slot(t) as u32, ..self },
            },
            None => PickView {
                conn: None,
                closed: self.leader_closed(self.per_node),
                after: self,
            },
        }
    }

    /// Where the record of the node whose turn is in round `r` stands: the
    /// rotation goes by number, and starts behind the number that had the last
    /// turn.
    pub open spec fn place_in_round(self, r: int) -> int {
        let above = first_above(self.history, self.last_node_id as int, 0);
        let first = if above < self.history.len() {
            above
        } else {
            0
        };
        around(first + r, self.history.len() as int)
    }

    /// The record of the node whose turn is in round `r`.
    pub open spec fn record_in_round(self, r: int) -> NodeRecord {
        self.history[self.place_in_round(r)]
    }

    /// The slot that a node's rotation comes to after `t` steps.
    pub open spec fn slot_in_try(self, record: NodeRecord, t: int) -> int {
        around(record.next_slot + t, self.per_node)
    }

    /// Under what the connection in that slot is found.
    pub open spec fn key_in_try(self, record: NodeRecord, t: int) -> (Seq<char>, u32) {
        (record.name, self.slot_in_try(record, t) as u32)
    }

    /// Whether an open connection is found under `key`.
    pub open spec fn follower_open(self, key: (Seq<char>, u32)) -> bool {
        self.followers.contains_key(key) && !self.followers[key].closed
    }

    /// After how many steps, `t` at least, a node's rotation comes to an open
    /// connection.
    pub open spec fn open_try(self, record: NodeRecord, t: int) -> Option<int>
        decreases self.per_node - t,
    {
        if t >= self.per_node {
            None
        } else if self.follower_open(self.key_in_try(record, t)) {
            Some(t)
        } else {
            self.open_try(record, t + 1)
        }
    }

    /// The round, `r` at least, and the step in it that come to an open
    /// connection.
    pub open spec fn open_round(self, r: int) -> Option<(int, int)>
        decreases self.history.len() - r,
    {
        if r >= self.history.len() {
            None
        } else {
            match self.open_try(self.record_in_round(r), 0) {
                Some(t) => Some((r, t)),
                None => self.open_round(r + 1),
            }
        }
    }

    /// Whether the first `t` steps of a node's rotation come to `key`.
    pub open spec fn tried(self, record: NodeRecord, t: int, key: (Seq<char>, u32)) -> bool {
        exists|u: int| 0 <= u < t && #[trigger] self.key_in_try(record, u) == key
    }

    /// Whether round `r` is `key`'s node's.
    pub open spec fn names_round(self, r: int, key: (Seq<char>, u32)) -> bool {
        self.record_in_round(r).name == key.0
    }

    /// Whether all connections of `key`'s node are met in the first `r`
    /// rounds, or this one in the first `t` steps of round `r`.
    pub open spec fn passed(self, r: int, t: int, key: (Seq<char>, u32)) -> bool {
        ||| exists|q: int| 0 <= q < r && #[trigger] self.names_round(q, key)
        ||| self.names_round(r, key) && self.tried(self.record_in_round(r), t, key)
    }

    /// The followers' connections that are left once those were taken out.
    pub open spec fn followers_past(self, r: int, t: int) -> Map<(Seq<char>, u32), Connection> {
        self.followers.remove_keys(Set::new(|key: (Seq<char>, u32)| self.passed(r, t, key)))
    }

    /// The closed connections in the first `t` slots of a node's rotation.
    pub open spec fn closed_in_tries(self, record: NodeRecord, t: int) -> Seq<Connection>
        decreases t,
    {
        if t <= 0 {
            Seq::empty()
        } else {
            let key = self.key_in_try(record, t - 1);
            if self.followers.contains_key(key) && self.followers[key].closed {
                self.closed_in_tries(record, t - 1).push(self.followers[key])
            } else {
                self.closed_in_tries(record, t - 1)
            }
        }
    }

    /// The closed connections of the nodes of the first `r` rounds.
    pub open spec fn closed_in_rounds(self, r: int) -> Seq<Connection>
        decreases r,
    {
        if r <= 0 {
            Seq::empty()
        } else {
            self.closed_in_rounds(r - 1) + self.closed_in_tries(
                self.record_in_round(r - 1),
                self.per_node,
            )
        }
    }

    /// What a read is given: the nodes take turns, and so do the connections
    /// of each; the first open one is given, and closed ones that are met
    /// before it leave.
    pub open spec fn follower_pick(self) -> PickView {
        match self.open_round(0) {
            Some((r, t)) => {
                let i = self.place_in_round(r);
                let record = self.history[i];
                PickView {
                    conn: Some(self.followers[self.key_in_try(record, t)]),
                    closed: self.closed_in_rounds(r) + self.closed_in_tries(record, t),
                    after: ClusterView {
                        followers: self.followers_past(r, t),
                        history: self.history.update(
                            i,
                            NodeRecord {
                                next_slot: around(
                                    self.slot_in_try(record, t) + 1,
                                    self.per_node,
                                ) as u32,
                                ..record
                            },
                        ),
                        last_node_id: record.node,
                        ..self
                    },
                }
            },
            None => PickView {
                conn: None,
                closed: self.closed_in_rounds(self.history.len() as int),
                after: ClusterView {
                    followers: self.followers_past(self.history.len() as int, 0),
                    last_node_id: if self.history.len() == 0 {
                        self.last_node_id
                    } else {
                        self.record_in_round(self.history.len() - 1).node
                    },
                    ..self
                },
            },
        }
    }
}

/// Numbers up to `node` stand before the place, higher ones from it on.
pub(crate) proof fn above_is_above(history: Seq<NodeRecord>, node: int, from: int)
    requires
        0 <= from <= history.len(),
        by_number(history),
    ensures
        ({
            let at = first_above(history, node, from);
            &&& from <= at <= history.len()
            &&& forall|i: int| from <= i < at ==> (#[trigger] history[i]).node <= node
            &&& forall|i: int| at <= i < history.len() ==> (#[trigger] history[i]).node > node
        }),
    decreases history.len() - from,
{
    if from < history.len() && history[from].node <= node {
        above_is_above(history, node, from + 1);
    }
}

/// What is there once one more record stands in its place.
pub(crate) proof fn inserted_is_added(history: Seq<NodeRecord>, record: NodeRecord)
    requires
        by_number(history),
        !number_used(history, record.node as int),
    ensures
        by_number(inserted(history, record)),
        inserted(history, record).len() == history.len() + 1,
        forall|x: NodeRecord| #[trigger]
            inserted(history, record).contains(x) <==> history.contains(x) || x == record,
{
    let at = first_above(history, record.node as int, 0);
    let more = inserted(history, record);
    above_is_above(history, record.node as int, 0);
    assert forall|i: int, j: int| 0 <= i < j < more.len() implies (#[trigger] more[i]).node < (
    #[trigger] more[j]).node by {
        assert(i < at ==> more[i] == history[i] && history[i].node <= record.node);
        assert(i > at ==> more[i] == history[i - 1]);
        assert(j < at ==> more[j] == history[j]);
        assert(j > at ==> more[j] == history[j - 1] && history[j - 1].node > record.node);
        if i < at && j == at {
            assert(history[i].node != record.node);
        }
        if i < at && j > at {
            assert(history[i].node <= record.node);
        }
    }
    assert forall|x: NodeRecord| #[trigger]
        more.contains(x) <==> history.contains(x) || x == record by {
        if more.contains(x) {
            let j = choose|j: int| 0 <= j < more.len() && more[j] == x;
            if j < at {
                assert(history[j] == x);
            } else if j > at {
                assert(history[j - 1] == x);
            }
        }
        if history.contains(x) {
            let i = choose|i: int| 0 <= i < history.len() && history[i] == x;
            if i < at {
                assert(more[i] == x);
            } else {
                assert(more[i + 1] == x);
            }
        }
        if x == record {
            assert(more[at] == x);
        }
    }
}

/// Records under other names stay apart from one more.
pub(crate) proof fn inserted_names_differ(history: Seq<NodeRecord>, record: NodeRecord)
    requires
        by_number(history),
        !recorded(history, record.name),
        forall|i: int, j: int|
            0 <= i < j < history.len() ==> (#[trigger] history[i]).name != (
            #[trigger] history[j]).name,
    ensures
        forall|i: int, j: int|
            0 <= i < j < inserted(history, record).len() ==> (#[trigger] inserted(
                history,
                record,
            )[i]).name != (#[trigger] inserted(history, record)[j]).name,
{
    let at = first_above(history, record.node as int, 0);
    let more = inserted(history, record);
    above_is_above(history, record.node as int, 0);
    assert forall|i: int, j: int| 0 <= i < j < more.len() implies (#[trigger] more[i]).name != (
    #[trigger] more[j]).name by {
        let x = if i < at {
            i
        } else {
            i - 1
        };
        let y = if j < at {
            j
        } else {
            j - 1
        };
        if i == at {
            assert(more[j] == history[y]);
        } else if j == at {
            assert(more[i] == history[x]);
        } else {
            assert(more[i] == history[x] && more[j] == history[y]);
        }
    }
}

impl ClusterView {
    /// After the turn of record `i`, the turn is the next record's.
    pub(crate) proof fn turn_moves_on(self, i: int)
        requires
            self.wf(),
            0 <= i < self.history.len(),
            self.last_node_id == self.history[i].node,
        ensures
            self.place_in_round(0) == around(i + 1, self.history.len() as int),
    {
        above_is_above(self.history, self.last_node_id as int, 0);
        let at = first_above(self.history, self.last_node_id as int, 0);
        assert(at > i) by {
            if at <= i {
                assert(self.history[i].node > self.last_node_id);
            }
        }
        if at > i + 1 {
            assert(self.history[i].node < self.history[i + 1].node);
        }
    }

    /// The rotation starts at a record.
    pub(crate) proof fn rounds_are_records(self, r: int)
        requires
            self.wf(),
            0 <= r < self.history.len(),
        ensures
            0 <= self.place_in_round(r) < self.history.len(),
    {
        above_is_above(self.history, self.last_node_id as int, 0);
    }

    /// No two rounds are the same node's.
    pub(crate) proof fn rounds_differ(self, q: int, r: int)
        requires
            self.wf(),
            0 <= q < r < self.history.len(),
        ensures
            self.record_in_round(q).name != self.record_in_round(r).name,
    {
        self.rounds_are_records(q);
        self.rounds_are_records(r);
        let (i, j) = (self.place_in_round(q), self.place_in_round(r));
        if i < j {
            assert(self.history[i].name != self.history[j].name);
        } else {
            assert(self.history[j].name != self.history[i].name);
        }
    }

    /// What step `t` of round `r` comes to was not met before.
    pub(crate) proof fn try_is_new(self, r: int, t: int)
        requires
            self.wf(),
            0 <= r < self.history.len(),
            0 <= t < self.per_node,
        ensures
            !self.passed(r, t, self.key_in_try(self.record_in_round(r), t)),
    {
        self.rounds_are_records(r);
        let record = self.record_in_round(r);
        let key = self.key_in_try(record, t);
        assert forall|q: int| 0 <= q < r implies !#[trigger] self.names_round(q, key) by {
            self.rounds_differ(q, r);
        }
        assert forall|u: int| 0 <= u < t implies #[trigger] self.key_in_try(record, u) != key by {
            assert(self.slot_in_try(record, u) != self.slot_in_try(record, t));
        }
    }

    /// One more step takes out what it comes to.
    pub(crate) proof fn past_one_try(self, r: int, t: int)
        requires
            self.wf(),
            0 <= r < self.history.len(),
            0 <= t < self.per_node,
        ensures
            self.followers_past(r, t + 1) == self.followers_past(r, t).remove(
                self.key_in_try(self.record_in_round(r), t),
            ),
    {
        let record = self.record_in_round(r);
        let key = self.key_in_try(record, t);
        assert forall|k: (Seq<char>, u32)|
            self.passed(r, t + 1, k) <==> (#[trigger] self.passed(r, t, k) || k == key) by {
            if self.tried(record, t + 1, k) {
                let u = choose|u: int| 0 <= u < t + 1 && #[trigger] self.key_in_try(record, u) == k;
                if u < t {
                    assert(self.tried(record, t, k));
                }
            }
            if self.tried(record, t, k) {
                let u = choose|u: int| 0 <= u < t && #[trigger] self.key_in_try(record, u) == k;
                assert(self.tried(record, t + 1, k));
            }
            if k == key {
                assert(self.tried(record, t + 1, k));
            }
        }
        assert(self.followers_past(r, t + 1) =~= self.followers_past(r, t).remove(key));
    }

    /// A whole round takes out all connections of its node.
    pub(crate) proof fn past_all_tries(self, r: int)
        requires
            self.wf(),
            0 <= r < self.history.len(),
        ensures
            self.followers_past(r, self.per_node) == self.followers_past(r + 1, 0),
    {
        let record = self.record_in_round(r);
        self.rounds_are_records(r);
        assert forall|k: (Seq<char>, u32)| #[trigger]
            self.followers.contains_key(k) implies (self.passed(r, self.per_node, k)
            <==> self.passed(r + 1, 0, k)) by {
            if self.passed(r, self.per_node, k) {
                if exists|q: int| 0 <= q < r && #[trigger] self.names_round(q, k) {
                    let q = choose|q: int| 0 <= q < r && #[trigger] self.names_round(q, k);
                    assert(0 <= q < r + 1 && self.names_round(q, k));
                } else {
                    assert(self.names_round(r, k));
                }
            }
            if self.passed(r + 1, 0, k) {
                let q = choose|q: int| 0 <= q < r + 1 && #[trigger] self.names_round(q, k);
                if q == r {
                    let u = if k.1 >= record.next_slot {
                        k.1 - record.next_slot
                    } else {
                        k.1 - record.next_slot + self.per_node
                    };
                    assert(self.key_in_try(record, u) == k);
                    assert(self.tried(record, self.per_node, k));
                }
            }
        }
        assert(self.followers_past(r, self.per_node) =~= self.followers_past(r + 1, 0));
    }

    /// What a read leaves behind is in order.
    pub(crate) proof fn pick_keeps_wf(self, r: int, t: int)
        requires
            self.wf(),
            0 <= r < self.history.len(),
            self.open_round(0) == Some((r, t)),
            0 <= t < self.per_node,
        ensures
            self.follower_pick().after.wf(),
    {
        self.rounds_are_records(r);
        let after = self.follower_pick().after;
        assert(forall|j: int|
            0 <= j < self.history.len() ==> (#[trigger] after.history[j]).name
                == self.history[j].name && after.history[j].node == self.history[j].node);
        assert forall|key: (Seq<char>, u32)| #[trigger]
            after.followers.contains_key(key) implies key.1 < after.per_node && recorded(
            after.history,
            key.0,
        ) by {
            assert(self.followers.contains_key(key));
            let j = choose|j: int|
                0 <= j < self.history.len() && (#[trigger] self.history[j]).name == key.0;
            assert(after.history[j].name == key.0);
        }
    }
}

impl ClusterView {
    /// What a request is given.
    pub open spec fn pick(self, is_write: bool) -> PickView {
        if is_write {
            self.leader_pick()
        } else {
            self.follower_pick()
        }
    }

    /// Whether any connection to the leader is open.
    pub open spec fn any_leader_open(self) -> bool {
        exists|i: int| 0 <= i < self.leader_conns.len() && #[trigger] self.leader_open(i)
    }

    /// Whether any connection to a follower is open.
    pub open spec fn any_follower_open(self) -> bool {
        exists|key: (Seq<char>, u32)| #[trigger] self.follower_open(key)
    }

    /// Whether the leader's slot `i` holds the connection with the handle `id`.
    pub open spec fn leader_holds(self, i: int, id: u64) -> bool {
        self.leader_conns[i] matches Some(c) && c.id == id
    }

    /// Whether a slot holds the connection with the handle `id`.
    pub open spec fn holds(self, id: u64) -> bool {
        ||| exists|i: int| 0 <= i < self.leader_conns.len() && #[trigger] self.leader_holds(i, id)
        ||| exists|key: (Seq<char>, u32)| #[trigger]
            self.followers.contains_key(key) && self.followers[key].id == id
    }

    /// The handler once the connections with those handles are seen closed.
    pub open spec fn with_closed(self, ids: Seq<u64>) -> ClusterView {
        ClusterView {
            leader_conns: self.leader_conns.map_values(
                |slot: Option<Connection>|
                    match slot {
                        Some(c) => Some(closed_by(c, ids)),
                        None => None,
                    },
            ),
            followers: self.followers.map_values(|c: Connection| closed_by(c, ids)),
            ..self
        }
    }

    /// The handler once the leader is known to be at `host`: connections to
    /// another host are dropped.
    pub open spec fn led_from(self, host: Seq<char>) -> ClusterView {
        if self.leader_host == Some(host) {
            self
        } else {
            ClusterView {
                leader_conns: Seq::new(self.leader_conns.len(), |i: int| None::<Connection>),
                leader_host: Some(host),
                ..self
            }
        }
    }

    /// The leader's slots below `n` that hold no open connection, in order.
    pub open spec fn leader_gaps(self, n: int) -> Seq<int>
        decreases n,
    {
        if n <= 0 {
            Seq::empty()
        } else if self.leader_open(n - 1) {
            self.leader_gaps(n - 1)
        } else {
            self.leader_gaps(n - 1).push(n - 1)
        }
    }
}

/// The slots below `n` in which `name` has no open connection, in order.
pub open spec fn free_slots(
    followers: Map<(Seq<char>, u32), Connection>,
    name: Seq<char>,
    n: int,
) -> Seq<u32>
    decreases n,
{
    if n <= 0 {
        Seq::empty()
    } else {
        let key = (name, (n - 1) as u32);
        if followers.contains_key(key) && !followers[key].closed {
            free_slots(followers, name, n - 1)
        } else {
            free_slots(followers, name, n - 1).push((n - 1) as u32)
        }
    }
}

/// `followers` with the first `k` of `conns` put in the first `k` of `slots`
/// of the node `name`.
pub open spec fn filled(
    followers: Map<(Seq<char>, u32), Connection>,
    name: Seq<char>,
    slots: Seq<u32>,
    conns: Seq<Connection>,
    k: int,
) -> Map<(Seq<char>, u32), Connection>
    decreases k,
{
    if k <= 0 {
        followers
    } else {
        filled(followers, name, slots, conns, k - 1).insert((name, slots[k - 1]), conns[k - 1])
    }
}

impl ClusterView {
    /// How many connections to `name` there are room for: one for each slot
    /// without an open connection.
    pub open spec fn missing(self, name: Seq<char>) -> int {
        free_slots(self.followers, name, self.per_node).len() as int
    }

    /// Whether connections to `name` are to be opened: the topology lists it
    /// and it has room.
    pub open spec fn wanted(self, topology: Seq<Seq<char>>, name: Seq<char>) -> bool {
        topology.contains(name) && self.missing(name) > 0
    }

    /// What placing starts from, where the topology lists `topology`: the
    /// hosts that it does not list are gone.
    pub open spec fn listed(self, topology: Seq<Seq<char>>) -> Placing {
        let history = records_of(self.history, topology, self.history.len() as int);
        Placing {
            followers: of_hosts(self.followers, topology),
            history,
            free_numbers: free_numbers(history, number_count(topology)),
        }
    }

    /// The handler once the hosts that the topology does not list are gone and
    /// the new connections to those that it lists are placed.
    pub open spec fn synced(
        self,
        topology: Seq<Seq<char>>,
        new_conns: Seq<(Seq<char>, Seq<Connection>)>,
    ) -> ClusterView {
        let end = self.listed(topology).placed_all(
            topology,
            new_conns,
            self.per_node,
            new_conns.len() as int,
        );
        self.with_placed(end)
    }

    /// The handler with the followers' connections and records of `placing`.
    pub open spec fn with_placed(self, placing: Placing) -> ClusterView {
        ClusterView { followers: placing.followers, history: placing.history, ..self }
    }

    /// Whether the slots without an open connection can take the new
    /// connections.
    pub open spec fn fits(self, new_conns: Seq<(Seq<char>, Seq<Connection>)>) -> bool {
        &&& forall|i: int, j: int|
            0 <= i < j < new_conns.len() ==> (#[trigger] new_conns[i]).0 != (
            #[trigger] new_conns[j]).0
        &&& forall|i: int|
            0 <= i < new_conns.len() ==> (#[trigger] new_conns[i]).1.len() <= self.missing(
                new_conns[i].0,
            )
    }
}

/// The records among the first `n` whose nodes are listed, in order.
pub open spec fn records_of(
    history: Seq<NodeRecord>,
    topology: Seq<Seq<char>>,
    n: int,
) -> Seq<NodeRecord>
    decreases n,
{
    if n <= 0 {
        Seq::empty()
    } else if topology.contains(history[n - 1].name) {
        records_of(history, topology, n - 1).push(history[n - 1])
    } else {
        records_of(history, topology, n - 1)
    }
}

/// Whether a record has the number `node`.
pub open spec fn number_used(history: Seq<NodeRecord>, node: int) -> bool {
    exists|i: int| 0 <= i < history.len() && (#[trigger] history[i]).node == node
}

/// How many numbers there are for the nodes that are listed: one for each, as
/// far as 32 bits go.
pub open spec fn number_count(topology: Seq<Seq<char>>) -> int {
    if topology.len() <= u32::MAX {
        topology.len() as int
    } else {
        u32::MAX as int
    }
}

/// The numbers below `n` that no record has, in order.
pub open spec fn free_numbers(history: Seq<NodeRecord>, n: int) -> Seq<u32>
    decreases n,
{
    if n <= 0 {
        Seq::empty()
    } else if number_used(history, n - 1) {
        free_numbers(history, n - 1)
    } else {
        free_numbers(history, n - 1).push((n - 1) as u32)
    }
}

/// How far placing new connections has come.
pub struct Placing {
    pub followers: Map<(Seq<char>, u32), Connection>,
    pub history: Seq<NodeRecord>,
    /// The numbers that are left for new nodes; the last is given next.
    pub free_numbers: Seq<u32>,
}

impl Placing {
    /// Places the new connections of one node in its free slots, where the
    /// topology lists it. A node without a record gets one, with the last free
    /// number. There are as many as the topology lists nodes without a record,
    /// unless it lists more nodes than 32 bits can number: a node for which no
    /// number is left is passed over.
    pub open spec fn placed(
        self,
        topology: Seq<Seq<char>>,
        name: Seq<char>,
        conns: Seq<Connection>,
        per_node: int,
    ) -> Placing {
        let slots = free_slots(self.followers, name, per_node);
        let followers = filled(self.followers, name, slots, conns, conns.len() as int);
        if !topology.contains(name) || conns.len() == 0 {
            self
        } else if recorded(self.history, name) {
            Placing { followers, ..self }
        } else if self.free_numbers.len() == 0 {
            self
        } else {
            Placing {
                followers,
                history: inserted(
                    self.history,
                    NodeRecord { name, node: self.free_numbers.last(), next_slot: slots[0] },
                ),
                free_numbers: self.free_numbers.drop_last(),
            }
        }
    }

    /// Places the new connections of the first `k` nodes.
    pub open spec fn placed_all(
        self,
        topology: Seq<Seq<char>>,
        new_conns: Seq<(Seq<char>, Seq<Connection>)>,
        per_node: int,
        k: int,
    ) -> Placing
        decreases k,
    {
        if k <= 0 {
            self
        } else {
            self.placed_all(topology, new_conns, per_node, k - 1).placed(
                topology,
                new_conns[k - 1].0,
                new_conns[k - 1].1,
                per_node,
            )
        }
    }

    /// What holds of the records and of the numbers that are left: all nodes
    /// are listed, no number is given twice, and each number is given or left.
    pub open spec fn numbered(self, topology: Seq<Seq<char>>) -> bool {
        &&& forall|i: int|
            0 <= i < self.history.len() ==> topology.contains((#[trigger] self.history[i]).name)
        &&& forall|a: int|
            0 <= a < self.free_numbers.len() ==> (#[trigger] self.free_numbers[a]) < number_count(
                topology,
            ) && !number_used(self.history, self.free_numbers[a] as int)
        &&& forall|a: int, b: int|
            0 <= a < b < self.free_numbers.len() ==> self.free_numbers[a] != self.free_numbers[b]
        &&& self.free_numbers.len() + self.history.len() >= number_count(topology)
    }
}

/// Free slots are below the bound, without repetition.
pub(crate) proof fn free_slots_are_slots(
    followers: Map<(Seq<char>, u32), Connection>,
    name: Seq<char>,
    n: int,
)
    requires
        n <= u32::MAX,
    ensures
        forall|i: int|
            0 <= i < free_slots(followers, name, n).len() ==> #[trigger] free_slots(
                followers,
                name,
                n,
            )[i] < n,
        forall|i: int, j: int|
            0 <= i < j < free_slots(followers, name, n).len() ==> free_slots(
                followers,
                name,
                n,
            )[i] != free_slots(followers, name, n)[j],
    decreases n,
{
    if n > 0 {
        free_slots_are_slots(followers, name, n - 1);
        let fewer = free_slots(followers, name, n - 1);
        let slots = free_slots(followers, name, n);
        assert forall|i: int| 0 <= i < slots.len() implies #[trigger] slots[i] < n by {
            if i < fewer.len() {
                assert(slots[i] == fewer[i]);
            }
        }
        assert forall|i: int, j: int| 0 <= i < j < slots.len() implies slots[i] != slots[j] by {
            assert(slots[i] == fewer[i]);
            if j < fewer.len() {
                assert(slots[j] == fewer[j]);
            }
        }
    }
}

/// Free slots depend on which connections of the node are open alone.
pub(crate) proof fn free_slots_depend_on_node(
    a: Map<(Seq<char>, u32), Connection>,
    b: Map<(Seq<char>, u32), Connection>,
    name: Seq<char>,
    n: int,
)
    requires
        forall|slot: u32| a.contains_key((name, slot)) <==> b.contains_key((name, slot)),
        forall|slot: u32| a.contains_key((name, slot)) ==> a[(name, slot)] == b[(name, slot)],
    ensures
        free_slots(a, name, n) == free_slots(b, name, n),
    decreases n,
{
    if n > 0 {
        free_slots_depend_on_node(a, b, name, n - 1);
    }
}

/// Filling the slots of one node leaves the other nodes alone, and adds no
/// slot but those named.
pub(crate) proof fn filled_touches_node(
    followers: Map<(Seq<char>, u32), Connection>,
    name: Seq<char>,
    slots: Seq<u32>,
    conns: Seq<Connection>,
    k: int,
)
    ensures
        forall|key: (Seq<char>, u32)|
            key.0 != name ==> (#[trigger] filled(followers, name, slots, conns, k).contains_key(key)
                <==> followers.contains_key(key)),
        forall|key: (Seq<char>, u32)|
            key.0 != name ==> #[trigger] filled(followers, name, slots, conns, k)[key]
                == followers[key],
        forall|key: (Seq<char>, u32)| #[trigger]
            filled(followers, name, slots, conns, k).contains_key(key) ==> followers.contains_key(
                key,
            ) || key.0 == name && exists|i: int| 0 <= i < k && slots[i] == key.1,
    decreases k,
{
    if k > 0 {
        filled_touches_node(followers, name, slots, conns, k - 1);
        let before = filled(followers, name, slots, conns, k - 1);
        assert forall|key: (Seq<char>, u32)| #[trigger]
            filled(followers, name, slots, conns, k).contains_key(key) implies followers.contains_key(
            key,
        ) || key.0 == name && exists|i: int| 0 <= i < k && slots[i] == key.1 by {
            if key == (name, slots[k - 1]) {
            } else {
                assert(before.contains_key(key));
            }
        }
    }
}

/// Distinct values that are all in a list are no more than the list has.
pub(crate) proof fn distinct_fit<A>(distinct: Seq<A>, list: Seq<A>)
    requires
        distinct.no_duplicates(),
        forall|i: int| 0 <= i < distinct.len() ==> list.contains(#[trigger] distinct[i]),
    ensures
        distinct.len() <= list.len(),
{
    distinct.unique_seq_to_set();
    list.lemma_cardinality_of_set();
    seq_to_set_is_finite(list);
    assert(distinct.to_set().subset_of(list.to_set()));
    lemma_len_subset(distinct.to_set(), list.to_set());
}

/// The names of the records.
pub open spec fn names_of(history: Seq<NodeRecord>) -> Seq<Seq<char>> {
    history.map_values(|r: NodeRecord| r.name)
}

/// The records that are kept are some of those that were there, and all whose
/// nodes are listed.
pub(crate) proof fn records_are_kept(history: Seq<NodeRecord>, topology: Seq<Seq<char>>, n: int)
    requires
        0 <= n <= history.len(),
    ensures
        records_of(history, topology, n).len() <= n,
        forall|i: int|
            0 <= i < records_of(history, topology, n).len() ==> topology.contains(
                (#[trigger] records_of(history, topology, n)[i]).name,
            ) && history.take(n).contains(records_of(history, topology, n)[i]),
        forall|i: int|
            0 <= i < n && topology.contains((#[trigger] history[i]).name) ==> records_of(
                history,
                topology,
                n,
            ).contains(history[i]),
    decreases n,
{
    if n > 0 {
        records_are_kept(history, topology, n - 1);
        let (fewer, kept) = (
            records_of(history, topology, n - 1),
            records_of(history, topology, n),
        );
        assert forall|i: int| 0 <= i < kept.len() implies topology.contains(
            (#[trigger] kept[i]).name,
        ) && history.take(n).contains(kept[i]) by {
            if i < fewer.len() {
                assert(kept[i] == fewer[i]);
                let first = history.take(n - 1);
                let a = choose|a: int| 0 <= a < first.len() && first[a] == fewer[i];
                assert(history.take(n)[a] == kept[i]);
            } else {
                assert(history.take(n)[n - 1] == kept[i]);
            }
        }
        assert forall|i: int|
            0 <= i < n && topology.contains((#[trigger] history[i]).name) implies kept.contains(
            history[i],
        ) by {
            if i < n - 1 {
                let a = choose|a: int| 0 <= a < fewer.len() && fewer[a] == history[i];
                assert(kept[a] == history[i]);
            } else {
                assert(kept[fewer.len() as int] == history[i]);
            }
        }
    }
}

/// The records that are kept stay apart and in order.
pub(crate) proof fn kept_records_differ(history: Seq<NodeRecord>, topology: Seq<Seq<char>>, n: int)
    requires
        0 <= n <= history.len(),
        by_number(history),
        forall|i: int, j: int|
            0 <= i < j < history.len() ==> (#[trigger] history[i]).name != (
            #[trigger] history[j]).name,
    ensures
        by_number(records_of(history, topology, n)),
        forall|i: int, j: int|
            0 <= i < j < records_of(history, topology, n).len() ==> (#[trigger] records_of(
                history,
                topology,
                n,
            )[i]).name != (#[trigger] records_of(history, topology, n)[j]).name,
    decreases n,
{
    if n > 0 {
        kept_records_differ(history, topology, n - 1);
        records_are_kept(history, topology, n - 1);
        let (fewer, kept) = (
            records_of(history, topology, n - 1),
            records_of(history, topology, n),
        );
        assert forall|i: int, j: int| 0 <= i < j < kept.len() implies (#[trigger] kept[i]).name != (
        #[trigger] kept[j]).name && kept[i].node < kept[j].node by {
            assert(kept[i] == fewer[i]);
            if j < fewer.len() {
                assert(kept[j] == fewer[j]);
            } else {
                let first = history.take(n - 1);
                let a = choose|a: int| 0 <= a < first.len() && first[a] == fewer[i];
                assert(history[a].name != history[n - 1].name);
                assert(history[a].node < history[n - 1].node);
            }
        }
    }
}

/// Free numbers are below the bound, no record has one, and none is listed
/// twice.
pub(crate) proof fn free_numbers_are_free(history: Seq<NodeRecord>, n: int)
    requires
        0 <= n <= u32::MAX,
    ensures
        forall|a: int|
            0 <= a < free_numbers(history, n).len() ==> (#[trigger] free_numbers(history, n)[a]) < n
                && !number_used(history, free_numbers(history, n)[a] as int),
        forall|a: int, b: int|
            0 <= a < b < free_numbers(history, n).len() ==> free_numbers(history, n)[a]
                != free_numbers(history, n)[b],
    decreases n,
{
    if n > 0 {
        free_numbers_are_free(history, n - 1);
        let (fewer, free) = (free_numbers(history, n - 1), free_numbers(history, n));
        assert forall|a: int| 0 <= a < free.len() implies (#[trigger] free[a]) < n && !number_used(
            history,
            free[a] as int,
        ) by {
            if a < fewer.len() {
                assert(free[a] == fewer[a]);
            }
        }
        assert forall|a: int, b: int| 0 <= a < b < free.len() implies free[a] != free[b] by {
            assert(free[a] == fewer[a]);
            if b < fewer.len() {
                assert(free[b] == fewer[b]);
            }
        }
    }
}

/// The numbers below `n` that a record has, in order.
spec fn used_numbers(history: Seq<NodeRecord>, n: int) -> Seq<int>
    decreases n,
{
    if n <= 0 {
        Seq::empty()
    } else if number_used(history, n - 1) {
        used_numbers(history, n - 1).push(n - 1)
    } else {
        used_numbers(history, n - 1)
    }
}

/// Each number is free or used.
proof fn numbers_are_free_or_used(history: Seq<NodeRecord>, n: int)
    requires
        0 <= n,
    ensures
        free_numbers(history, n).len() + used_numbers(history, n).len() == n,
        used_numbers(history, n).no_duplicates(),
        forall|a: int|
            0 <= a < used_numbers(history, n).len() ==> 0 <= #[trigger] used_numbers(history, n)[a]
                < n && number_used(history, used_numbers(history, n)[a]),
    decreases n,
{
    if n > 0 {
        numbers_are_free_or_used(history, n - 1);
        let (fewer, used) = (used_numbers(history, n - 1), used_numbers(history, n));
        assert forall|a: int| 0 <= a < used.len() implies 0 <= #[trigger] used[a] < n
            && number_used(history, used[a]) by {
            if a < fewer.len() {
                assert(used[a] == fewer[a]);
            }
        }
        assert forall|a: int, b: int| 0 <= a < b < used.len() implies used[a] != used[b] by {
            assert(used[a] == fewer[a]);
            if b < fewer.len() {
                assert(used[b] == fewer[b]);
            }
        }
    }
}

/// There are as many free numbers as the bound leaves beside the records.
pub(crate) proof fn enough_numbers_are_free(history: Seq<NodeRecord>, n: int)
    requires
        0 <= n,
    ensures
        free_numbers(history, n).len() + history.len() >= n,
{
    numbers_are_free_or_used(history, n);
    let used = used_numbers(history, n);
    let numbers = history.map_values(|r: NodeRecord| r.node as int);
    assert forall|a: int| 0 <= a < used.len() implies numbers.contains(#[trigger] used[a]) by {
        assert(number_used(history, used[a]));
        let i = choose|i: int| 0 <= i < history.len() && (#[trigger] history[i]).node == used[a];
        assert(numbers[i] == used[a]);
    }
    distinct_fit(used, numbers);
}

impl ClusterView {
    /// What placing starts from is in order.
    pub(crate) proof fn listed_is_in_order(self, topology: Seq<Seq<char>>)
        requires
            self.wf(),
        ensures
            self.with_placed(self.listed(topology)).wf(),
            self.listed(topology).numbered(topology),
    {
        let n = self.history.len() as int;
        let start = self.listed(topology);
        records_are_kept(self.history, topology, n);
        kept_records_differ(self.history, topology, n);
        free_numbers_are_free(start.history, number_count(topology));
        enough_numbers_are_free(start.history, number_count(topology));
        assert forall|i: int| 0 <= i < start.history.len() implies (
        #[trigger] start.history[i]).next_slot < self.per_node by {
            let all = self.history.take(n);
            let a = choose|a: int| 0 <= a < all.len() && all[a] == start.history[i];
            assert(self.history[a] == start.history[i]);
        }
        assert forall|key: (Seq<char>, u32)| #[trigger]
            start.followers.contains_key(key) implies key.1 < self.per_node && recorded(
            start.history,
            key.0,
        ) by {
            assert(self.followers.contains_key(key));
            let i = choose|i: int|
                0 <= i < self.history.len() && (#[trigger] self.history[i]).name == key.0;
            assert(start.history.contains(self.history[i]));
            let a = choose|a: int|
                0 <= a < start.history.len() && start.history[a] == self.history[i];
            assert(start.history[a].name == key.0);
        }
    }

    /// A node that is listed and has no record finds a free number, where 32
    /// bits can number all that are listed.
    pub(crate) proof fn number_is_left(
        self,
        placing: Placing,
        topology: Seq<Seq<char>>,
        name: Seq<char>,
    )
        requires
            self.with_placed(placing).wf(),
            placing.numbered(topology),
            topology.len() <= u32::MAX,
            topology.contains(name),
            !recorded(placing.history, name),
        ensures
            placing.free_numbers.len() > 0,
    {
        let names = names_of(placing.history).push(name);
        let v = self.with_placed(placing);
        assert forall|i: int, j: int| 0 <= i < j < names.len() implies names[i] != names[j] by {
            assert(names[i] == v.history[i].name);
            if j < v.history.len() {
                assert(names[j] == v.history[j].name);
            }
        }
        assert forall|i: int| 0 <= i < names.len() implies topology.contains(#[trigger] names[i]) by {
            if i < v.history.len() {
                assert(names[i] == placing.history[i].name);
            }
        }
        distinct_fit(names, topology);
    }

    /// Placing the connections of one node keeps the handler in order.
    pub(crate) proof fn placing_keeps_order(
        self,
        placing: Placing,
        topology: Seq<Seq<char>>,
        name: Seq<char>,
        conns: Seq<Connection>,
    )
        requires
            self.with_placed(placing).wf(),
            placing.numbered(topology),
            topology.contains(name) ==> conns.len() <= free_slots(
                placing.followers,
                name,
                self.per_node,
            ).len(),
        ensures
            self.with_placed(placing.placed(topology, name, conns, self.per_node)).wf(),
            placing.placed(topology, name, conns, self.per_node).numbered(topology),
    {
        let slots = free_slots(placing.followers, name, self.per_node);
        let before = self.with_placed(placing);
        let after = placing.placed(topology, name, conns, self.per_node);
        let new = !recorded(placing.history, name);
        if topology.contains(name) && conns.len() > 0 && !(new && placing.free_numbers.len() == 0) {
            free_slots_are_slots(placing.followers, name, self.per_node);
            filled_touches_node(placing.followers, name, slots, conns, conns.len() as int);
            let number = placing.free_numbers.last();
            let left = placing.free_numbers.len() - 1;
            let record = NodeRecord { name, node: number, next_slot: slots[0] };
            if new {
                assert(placing.free_numbers[left] == number);
                inserted_is_added(placing.history, record);
                inserted_names_differ(placing.history, record);
            }
            assert forall|i: int| 0 <= i < placing.history.len() implies after.history.contains(
                #[trigger] placing.history[i],
            ) by {
                assert(placing.history.contains(placing.history[i]));
            }
            assert forall|key: (Seq<char>, u32)| #[trigger]
                after.followers.contains_key(key) implies key.1 < self.per_node && recorded(
                after.history,
                key.0,
            ) by {
                let x = if before.followers.contains_key(key) {
                    assert(recorded(before.history, key.0));
                    let i = choose|i: int|
                        0 <= i < placing.history.len() && (#[trigger] placing.history[i]).name
                            == key.0;
                    placing.history[i]
                } else if new {
                    record
                } else {
                    let i = choose|i: int|
                        0 <= i < placing.history.len() && (#[trigger] placing.history[i]).name
                            == name;
                    placing.history[i]
                };
                assert(after.history.contains(x));
                let a = choose|a: int| 0 <= a < after.history.len() && after.history[a] == x;
                assert(after.history[a].name == key.0);
            }
            if new {
                assert forall|i: int| 0 <= i < after.history.len() implies (
                #[trigger] after.history[i]).next_slot < self.per_node && topology.contains(
                    after.history[i].name,
                ) by {
                    let x = after.history[i];
                    assert(after.history.contains(x));
                    if x != record {
                        let a = choose|a: int|
                            0 <= a < placing.history.len() && placing.history[a] == x;
                        assert(placing.history[a] == x);
                    }
                }
                assert forall|a: int| 0 <= a < after.free_numbers.len() implies (
                #[trigger] after.free_numbers[a]) < number_count(topology) && !number_used(
                    after.history,
                    after.free_numbers[a] as int,
                ) by {
                    assert(after.free_numbers[a] == placing.free_numbers[a]);
                    assert(placing.free_numbers[a] != placing.free_numbers[left]);
                    if number_used(after.history, after.free_numbers[a] as int) {
                        let i = choose|i: int|
                            0 <= i < after.history.len() && (#[trigger] after.history[i]).node
                                == after.free_numbers[a];
                        let x = after.history[i];
                        assert(after.history.contains(x));
                        assert(placing.history.contains(x));
                        let b = choose|b: int|
                            0 <= b < placing.history.len() && placing.history[b] == x;
                        assert(placing.history[b].node == after.free_numbers[a]);
                    }
                }
            }
        }
    }
}

} // verus!
