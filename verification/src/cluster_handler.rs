//! The bridge's side of the cluster: which connections it holds to the leader
//! and to the followers, and which of them the next request takes.

use crate::cluster_laws::reads_are_served;
use crate::cluster_view::{
    above_is_above, filled, filled_touches_node, first_above, free_numbers, free_slots,
    free_slots_depend_on_node, inserted, number_used, recorded, records_of, ClusterView,
    NodeRecord, Placing,
};
use crate::config::Config;
use crate::pool::{contains_id, Connection, FollowerPool};
use crate::text::{lists_text, texts};
use vstd::prelude::*;

verus! {

/// What the load balancer keeps of a follower: its name, the number that no
/// other has, and the slot whose turn is next.
#[derive(Debug)]
pub struct HistoryEntry {
    pub name: String,
    pub node: u32,
    pub next_slot: u32,
}

impl View for HistoryEntry {
    type V = NodeRecord;

    open spec fn view(&self) -> NodeRecord {
        NodeRecord { name: self.name@, node: self.node, next_slot: self.next_slot }
    }
}

/// The turns of the rotation.
#[derive(Debug)]
struct LoadBalancer {
    follower_history: Vec<HistoryEntry>,
    last_node_id: u32,
    last_leader_id: u32,
}

/// The connections of the bridge and the turns of its load balancer.
#[derive(Debug)]
pub struct ClusterHandler {
    conn_per_roomzin_node: usize,
    leader_conns: Vec<Option<Connection>>,
    leader_host: Option<String>,
    followers: FollowerPool,
    load_balancer: LoadBalancer,
    syncing: bool,
}

/// The connection that a request is given, if any, and the closed connections
/// that were met before it.
#[derive(Debug)]
pub struct Pick {
    pub conn: Option<Connection>,
    pub closed: Vec<Connection>,
}

impl View for ClusterHandler {
    type V = ClusterView;

    closed spec fn view(&self) -> ClusterView {
        ClusterView {
            per_node: self.conn_per_roomzin_node as int,
            leader_conns: self.leader_conns@,
            leader_host: match self.leader_host {
                Some(host) => Some(host@),
                None => None,
            },
            followers: self.followers@,
            history: self.load_balancer.follower_history@.map_values(|e: HistoryEntry| e@),
            last_node_id: self.load_balancer.last_node_id,
            last_leader_id: self.load_balancer.last_leader_id,
            syncing: self.syncing,
        }
    }
}

impl ClusterHandler {
    /// What holds of every handler that this module builds.
    pub closed spec fn wf(self) -> bool {
        self@.wf() && self.followers.wf()
    }

    /// What [`ClusterHandler::wf`] says of the plain values.
    pub proof fn wf_of_view(self)
        requires
            self.wf(),
        ensures
            self@.wf(),
    {
    }

    /// A handler without connections. Slots are numbered with 32 bits.
    pub fn new(cfg: &Config) -> (handler: Self)
        requires
            cfg.conn_per_roomzin_node <= u32::MAX,
        ensures
            handler.wf(),
            handler@.per_node == cfg.conn_per_roomzin_node,
            handler@.leader_conns == Seq::new(
                cfg.conn_per_roomzin_node as nat,
                |i: int| None::<Connection>,
            ),
            handler@.leader_host is None,
            handler@.followers == Map::<(Seq<char>, u32), Connection>::empty(),
            handler@.history.len() == 0,
            handler@.last_node_id == 0,
            handler@.last_leader_id == 0,
            !handler@.syncing,
    {
        let mut leader_conns: Vec<Option<Connection>> = Vec::new();
        let mut i: usize = 0;
        while i < cfg.conn_per_roomzin_node
            invariant
                i <= cfg.conn_per_roomzin_node,
                leader_conns@ == Seq::new(i as nat, |k: int| None::<Connection>),
            decreases cfg.conn_per_roomzin_node - i,
        {
            leader_conns.push(None);
            proof {
                assert(leader_conns@ =~= Seq::new((i + 1) as nat, |k: int| None::<Connection>));
            }
            i = i + 1;
        }
        ClusterHandler {
            conn_per_roomzin_node: cfg.conn_per_roomzin_node,
            leader_conns,
            leader_host: None,
            followers: FollowerPool::new(),
            load_balancer: LoadBalancer {
                follower_history: Vec::new(),
                last_node_id: 0,
                last_leader_id: 0,
            },
            syncing: false,
        }
    }

    /// Gives a write its connection.
    pub fn next_leader_conn(&mut self) -> (pick: Pick)
        requires
            old(self).wf(),
        ensures
            final(self).wf(),
            pick.conn == old(self)@.leader_pick().conn,
            pick.closed@ == old(self)@.leader_pick().closed,
            final(self)@ == old(self)@.leader_pick().after,
    {
        let ghost v = self@;
        let per_node: usize = self.conn_per_roomzin_node;
        let mut next: usize = self.load_balancer.last_leader_id as usize;
        if next >= per_node || next + 1 >= per_node {
            next = 0;
        } else {
            next = next + 1;
        }
        let mut closed: Vec<Connection> = Vec::new();
        let mut tried: usize = 0;
        while tried < per_node
            invariant
                *self == *old(self),
                v == self@,
                self.wf(),
                per_node == v.per_node,
                tried <= per_node,
                tried < per_node ==> next == v.leader_slot(tried as int),
                v.leader_try(0) == v.leader_try(tried as int),
                closed@ == v.leader_closed(tried as int),
            decreases per_node - tried,
        {
            if let Some(conn) = self.leader_conns[next] {
                if !conn.is_closed() {
                    self.load_balancer.last_leader_id = next as u32;
                    proof {
                        assert(self@.history =~= v.history);
                    }
                    return Pick { conn: Some(conn), closed };
                }
                closed.push(conn);
            }
            tried = tried + 1;
            next = next + 1;
            if next >= per_node {
                next = 0;
            }
        }
        Pick { conn: None, closed }
    }

    /// Where the first record stands whose number is above `node`.
    fn place_above(&self, node: u32) -> (at: usize)
        ensures
            at == first_above(self@.history, node as int, 0),
    {
        let mut at: usize = 0;
        while at < self.load_balancer.follower_history.len()
            invariant
                at <= self.load_balancer.follower_history@.len(),
                first_above(self@.history, node as int, 0) == first_above(
                    self@.history,
                    node as int,
                    at as int,
                ),
            decreases self.load_balancer.follower_history@.len() - at,
        {
            proof {
                assert(self@.history[at as int]
                    == self.load_balancer.follower_history@[at as int]@);
            }
            if self.load_balancer.follower_history[at].node > node {
                return at;
            }
            at = at + 1;
        }
        at
    }

    /// Gives a read its connection.
    pub fn next_follower_conn(&mut self) -> (pick: Pick)
        requires
            old(self).wf(),
        ensures
            final(self).wf(),
            pick.conn == old(self)@.follower_pick().conn,
            pick.closed@ == old(self)@.follower_pick().closed,
            final(self)@ == old(self)@.follower_pick().after,
            pick.conn is Some <==> old(self)@.any_follower_open(),
    {
        let ghost v = self@;
        let per_node: u32 = self.conn_per_roomzin_node as u32;
        let nodes: usize = self.load_balancer.follower_history.len();
        let mut closed: Vec<Connection> = Vec::new();
        let mut round: usize = 0;
        let above: usize = self.place_above(self.load_balancer.last_node_id);
        let mut turn: usize = if above < nodes {
            above
        } else {
            0
        };
        proof {
            reads_are_served(v);
            assert(v.followers_past(0, 0) =~= v.followers);
        }
        while round < nodes
            invariant
                v == old(self)@,
                v.wf(),
                self.followers.wf(),
                per_node == v.per_node,
                nodes == v.history.len(),
                round <= nodes,
                nodes > 0 ==> turn < nodes,
                round < nodes ==> turn == v.place_in_round(round as int),
                self@ == (ClusterView {
                    followers: v.followers_past(round as int, 0),
                    last_node_id: if round == 0 {
                        v.last_node_id
                    } else {
                        v.record_in_round(round - 1).node
                    },
                    ..v
                }),
                v.open_round(0) == v.open_round(round as int),
                closed@ == v.closed_in_rounds(round as int),
                v.follower_pick().conn is Some <==> v.any_follower_open(),
            decreases nodes - round,
        {
            let i: usize = turn;
            let ghost record = v.history[i as int];
            let name: String = self.load_balancer.follower_history[i].name.clone();
            let node: u32 = self.load_balancer.follower_history[i].node;
            self.load_balancer.last_node_id = node;
            let mut slot: u32 = self.load_balancer.follower_history[i].next_slot;
            let mut tried: u32 = 0;
            proof {
                assert(self@.history =~= v.history);
            }
            while tried < per_node
                invariant
                    v == old(self)@,
                    v.wf(),
                    self.followers.wf(),
                    per_node == v.per_node,
                    nodes == v.history.len(),
                    round < nodes,
                    i == v.place_in_round(round as int),
                    0 <= i < v.history.len(),
                    record == v.history[i as int],
                    name@ == record.name,
                    node == record.node,
                    tried <= per_node,
                    tried < per_node ==> slot == v.slot_in_try(record, tried as int),
                    self@ == (ClusterView {
                        followers: v.followers_past(round as int, tried as int),
                        last_node_id: node,
                        ..v
                    }),
                    v.open_round(0) == v.open_round(round as int),
                    v.open_try(record, 0) == v.open_try(record, tried as int),
                    closed@ == v.closed_in_rounds(round as int) + v.closed_in_tries(
                        record,
                        tried as int,
                    ),
                    v.follower_pick().conn is Some <==> v.any_follower_open(),
                decreases per_node - tried,
            {
                proof {
                    v.try_is_new(round as int, tried as int);
                    v.past_one_try(round as int, tried as int);
                }
                let ghost key = v.key_in_try(record, tried as int);
                match self.followers.get(&name, slot) {
                    Some(conn) => {
                        if conn.is_closed() {
                            closed.push(conn);
                            self.followers.remove(&name, slot);
                            proof {
                                assert(self@.history =~= v.history);
                            }
                        } else {
                            let next_slot: u32 = if slot + 1 >= per_node {
                                0
                            } else {
                                slot + 1
                            };
                            let entry: HistoryEntry = HistoryEntry { name, node, next_slot };
                            self.load_balancer.follower_history.set(i, entry);
                            proof {
                                let after = v.follower_pick().after;
                                assert(v.follower_open(key));
                                assert(v.open_try(record, tried as int) == Some(tried as int));
                                assert(v.open_round(round as int) == Some(
                                    (round as int, tried as int),
                                ));
                                assert(self@.history =~= after.history);
                                assert(self@ == after);
                                v.pick_keeps_wf(round as int, tried as int);
                            }
                            return Pick { conn: Some(conn), closed };
                        }
                    },
                    None => {
                        proof {
                            assert(self.followers@ =~= self.followers@.remove(key));
                        }
                    },
                }
                tried = tried + 1;
                slot = if slot + 1 >= per_node {
                    0
                } else {
                    slot + 1
                };
            }
            proof {
                v.past_all_tries(round as int);
                if round + 1 < nodes {
                    v.rounds_are_records(round + 1);
                }
            }
            turn = if turn + 1 >= nodes {
                0
            } else {
                turn + 1
            };
            round = round + 1;
        }
        Pick { conn: None, closed }
    }

    /// Gives a request its connection: a write one to the leader, a read one
    /// to a follower.
    pub fn next_conn(&mut self, is_write: bool) -> (pick: Pick)
        requires
            old(self).wf(),
        ensures
            final(self).wf(),
            pick.conn == old(self)@.pick(is_write).conn,
            pick.closed@ == old(self)@.pick(is_write).closed,
            final(self)@ == old(self)@.pick(is_write).after,
    {
        if is_write {
            self.next_leader_conn()
        } else {
            self.next_follower_conn()
        }
    }

    /// Takes note of which connections are closed.
    pub fn observe_closed(&mut self, ids: &Vec<u64>)
        requires
            old(self).wf(),
        ensures
            final(self).wf(),
            final(self)@ == old(self)@.with_closed(ids@),
    {
        let ghost v = self@;
        self.followers.observe_closed(ids);
        let mut i: usize = 0;
        while i < self.leader_conns.len()
            invariant
                v == old(self)@,
                v.wf(),
                self.followers.wf(),
                i <= self.leader_conns@.len(),
                self@ == (ClusterView {
                    leader_conns: self.leader_conns@,
                    followers: v.with_closed(ids@).followers,
                    ..v
                }),
                self.leader_conns@.len() == v.leader_conns.len(),
                forall|k: int|
                    0 <= k < i ==> #[trigger] self.leader_conns@[k] == v.with_closed(
                        ids@,
                    ).leader_conns[k],
                forall|k: int|
                    i <= k < v.leader_conns.len() ==> #[trigger] self.leader_conns@[k]
                        == v.leader_conns[k],
            decreases self.leader_conns@.len() - i,
        {
            if let Some(conn) = self.leader_conns[i] {
                let closed: bool = conn.closed || contains_id(ids, conn.id);
                self.leader_conns.set(i, Some(Connection { id: conn.id, closed }));
            }
            proof {
                assert(self@.history =~= v.history);
            }
            i = i + 1;
        }
        proof {
            assert(self.leader_conns@ =~= v.with_closed(ids@).leader_conns);
        }
    }

    /// Whether a slot holds the connection with the handle `id`. One that no
    /// slot holds can be dropped.
    pub fn holds(&self, id: u64) -> (is: bool)
        requires
            self.wf(),
        ensures
            is == self@.holds(id),
    {
        let mut i: usize = 0;
        while i < self.leader_conns.len()
            invariant
                i <= self.leader_conns@.len(),
                forall|k: int| 0 <= k < i ==> !#[trigger] self@.leader_holds(k, id),
            decreases self.leader_conns@.len() - i,
        {
            if let Some(conn) = self.leader_conns[i] {
                if conn.id == id {
                    proof {
                        assert(self@.leader_holds(i as int, id));
                    }
                    return true;
                }
            }
            i = i + 1;
        }
        let held: bool = self.followers.holds(id);
        proof {
            if held {
                let key = choose|key: (Seq<char>, u32)| #[trigger]
                    self.followers@.contains_key(key) && self.followers@[key].id == id;
                assert(self@.followers.contains_key(key) && self@.followers[key].id == id);
            }
            if self@.holds(id) {
                let key = choose|key: (Seq<char>, u32)| #[trigger]
                    self@.followers.contains_key(key) && self@.followers[key].id == id;
                assert(self.followers@.contains_key(key) && self.followers@[key].id == id);
            }
        }
        held
    }

    /// Whether the cluster has to be looked at without delay: no connection to
    /// the leader or none to a follower is open.
    pub fn needs_sync(&self) -> (needs: bool)
        requires
            self.wf(),
        ensures
            needs == !(self@.any_leader_open() && self@.any_follower_open()),
    {
        let mut i: usize = 0;
        let mut any_leader: bool = false;
        while i < self.leader_conns.len()
            invariant
                i <= self.leader_conns@.len(),
                any_leader == exists|k: int| 0 <= k < i && #[trigger] self@.leader_open(k),
            decreases self.leader_conns@.len() - i,
        {
            if let Some(conn) = self.leader_conns[i] {
                if !conn.is_closed() {
                    any_leader = true;
                    proof {
                        assert(self@.leader_open(i as int));
                    }
                }
            }
            i = i + 1;
        }
        let any_follower: bool = self.followers.any_open();
        proof {
            if any_follower {
                let key = choose|key: (Seq<char>, u32)| #[trigger]
                    self.followers@.contains_key(key) && !self.followers@[key].closed;
                assert(self@.follower_open(key));
            }
            if self@.any_follower_open() {
                let key = choose|key: (Seq<char>, u32)| #[trigger] self@.follower_open(key);
                assert(self.followers@.contains_key(key));
            }
        }
        !any_leader || !any_follower
    }

    /// Starts a synchronisation, unless one is under way.
    pub fn begin_sync(&mut self) -> (started: bool)
        requires
            old(self).wf(),
        ensures
            final(self).wf(),
            started == !old(self)@.syncing,
            final(self)@ == (ClusterView { syncing: true, ..old(self)@ }),
    {
        let started: bool = !self.syncing;
        self.syncing = true;
        proof {
            assert(self@.history =~= old(self)@.history);
        }
        started
    }

    /// Ends a synchronisation.
    pub fn end_sync(&mut self)
        requires
            old(self).wf(),
        ensures
            final(self).wf(),
            final(self)@ == (ClusterView { syncing: false, ..old(self)@ }),
    {
        self.syncing = false;
        proof {
            assert(self@.history =~= old(self)@.history);
        }
    }

    /// Takes note of where the leader is. Where that changed, the leader's
    /// connections are dropped. Returns the slots to connect.
    pub fn sync_leader(&mut self, leader_host: String) -> (slots: Vec<usize>)
        requires
            old(self).wf(),
        ensures
            final(self).wf(),
            final(self)@ == old(self)@.led_from(leader_host@),
            slots@.map_values(|i: usize| i as int) == old(self)@.led_from(
                leader_host@,
            ).leader_gaps(old(self)@.per_node),
    {
        let ghost v = self@;
        let changed: bool = match &self.leader_host {
            Some(current) => *current != leader_host,
            None => true,
        };
        if changed {
            let mut i: usize = 0;
            while i < self.leader_conns.len()
                invariant
                    v == old(self)@,
                    v.wf(),
                    self.followers.wf(),
                    i <= self.leader_conns@.len(),
                    self.leader_conns@.len() == v.leader_conns.len(),
                    self@ == (ClusterView { leader_conns: self.leader_conns@, ..v }),
                    forall|k: int| 0 <= k < i ==> #[trigger] self.leader_conns@[k] is None,
                decreases self.leader_conns@.len() - i,
            {
                self.leader_conns.set(i, None);
                proof {
                    assert(self@.history =~= v.history);
                }
                i = i + 1;
            }
            self.leader_host = Some(leader_host);
            proof {
                assert(self.leader_conns@ =~= v.led_from(leader_host@).leader_conns);
            }
        }
        proof {
            assert(self@.history =~= v.history);
            assert(self@ == v.led_from(leader_host@));
        }
        let ghost led = self@;
        let mut slots: Vec<usize> = Vec::new();
        let mut i: usize = 0;
        while i < self.leader_conns.len()
            invariant
                led == self@,
                i <= self.leader_conns@.len(),
                slots@.map_values(|k: usize| k as int) == led.leader_gaps(i as int),
            decreases self.leader_conns@.len() - i,
        {
            let gap: bool = match self.leader_conns[i] {
                Some(conn) => conn.is_closed(),
                None => true,
            };
            let ghost before = slots@;
            if gap {
                slots.push(i);
            }
            proof {
                assert(before.push(i).map_values(|k: usize| k as int) =~= before.map_values(
                    |k: usize| k as int,
                ).push(i as int));
            }
            i = i + 1;
        }
        slots
    }

    /// Puts a new connection to the leader at `leader_host` in slot `i`.
    pub fn leader_connected(&mut self, leader_host: String, i: usize, conn: Connection)
        requires
            old(self).wf(),
            i < old(self)@.leader_conns.len(),
        ensures
            final(self).wf(),
            final(self)@ == (ClusterView {
                leader_conns: old(self)@.leader_conns.update(i as int, Some(conn)),
                leader_host: Some(leader_host@),
                ..old(self)@
            }),
    {
        self.leader_conns.set(i, Some(conn));
        self.leader_host = Some(leader_host);
        proof {
            assert(self@.history =~= old(self)@.history);
        }
    }

    /// How many connections to `name` there are room for: one for each slot
    /// without an open connection.
    pub fn missing_conns(&self, name: &String) -> (missing: u32)
        requires
            self.wf(),
        ensures
            missing == self@.missing(name@),
    {
        let per_node: u32 = self.conn_per_roomzin_node as u32;
        let mut missing: u32 = 0;
        let mut slot: u32 = 0;
        while slot < per_node
            invariant
                self.wf(),
                per_node == self@.per_node,
                missing <= slot <= per_node,
                missing == free_slots(self@.followers, name@, slot as int).len(),
            decreases per_node - slot,
        {
            if self.is_free(name, slot) {
                missing = missing + 1;
            }
            slot = slot + 1;
        }
        missing
    }

    /// Whether `slot` of `name` holds no open connection.
    fn is_free(&self, name: &String, slot: u32) -> (free: bool)
        requires
            self.wf(),
        ensures
            free == !self@.follower_open((name@, slot)),
    {
        match self.followers.get(name, slot) {
            Some(conn) => conn.is_closed(),
            None => true,
        }
    }

    /// Adds `name` and the number of connections it has room for to `plan`,
    /// where it has room and is not listed yet.
    fn plan_node(&self, plan: &mut Vec<(String, u32)>, name: &String)
        requires
            self.wf(),
            plan_lists(*self, old(plan)@),
        ensures
            plan_lists(*self, final(plan)@),
            forall|n: Seq<char>| #[trigger]
                listed(final(plan)@, n) <==> (listed(old(plan)@, n) || n == name@ && self@.missing(
                    n,
                ) > 0),
    {
        let ghost before = plan@;
        let mut i: usize = 0;
        while i < plan.len()
            invariant
                i <= plan@.len(),
                plan@ == before,
                plan_lists(*self, before),
                forall|k: int| 0 <= k < i ==> (#[trigger] plan@[k]).0@ != name@,
            decreases plan@.len() - i,
        {
            if plan[i].0 == *name {
                proof {
                    assert(self@.missing(plan@[i as int].0@) > 0);
                }
                return ;
            }
            i = i + 1;
        }
        let missing: u32 = self.missing_conns(name);
        if missing > 0 {
            plan.push((name.clone(), missing));
            proof {
                assert forall|n: Seq<char>|
                    listed(plan@, n) <==> (listed(before, n) || n == name@) by {
                    if listed(before, n) {
                        let k = choose|k: int|
                            0 <= k < before.len() && (#[trigger] before[k]).0@ == n;
                        assert(plan@[k].0@ == n);
                    }
                    if n == name@ {
                        assert(plan@[before.len() as int].0@ == n);
                    }
                }
            }
        }
    }

    /// Plans which connections to open to the followers of the topology.
    pub fn required_conns(&self, followers: &Vec<String>) -> (plan: Vec<(String, u32)>)
        requires
            self.wf(),
        ensures
            forall|i: int, j: int|
                0 <= i < j < plan@.len() ==> (#[trigger] plan@[i]).0@ != (#[trigger] plan@[j]).0@,
            forall|i: int|
                0 <= i < plan@.len() ==> (#[trigger] plan@[i]).1 == self@.missing(plan@[i].0@),
            forall|name: Seq<char>|
                listed(plan@, name) <==> self@.wanted(
                    followers@.map_values(|f: String| f@),
                    name,
                ),
    {
        let ghost topology = followers@.map_values(|f: String| f@);
        let mut plan: Vec<(String, u32)> = Vec::new();
        let mut i: usize = 0;
        while i < followers.len()
            invariant
                self.wf(),
                topology == followers@.map_values(|f: String| f@),
                i <= followers@.len(),
                plan_lists(*self, plan@),
                forall|name: Seq<char>|
                    listed(plan@, name) <==> (topology.take(i as int).contains(name)
                        && self@.missing(name) > 0),
            decreases followers@.len() - i,
        {
            self.plan_node(&mut plan, &followers[i]);
            proof {
                let (fewer, more) = (topology.take(i as int), topology.take(i + 1));
                assert(more =~= fewer.push(topology[i as int]));
                assert forall|name: Seq<char>| #[trigger]
                    more.contains(name) <==> (fewer.contains(name) || name == followers@[i as int]@) by {
                    if fewer.contains(name) {
                        let k = choose|k: int| 0 <= k < fewer.len() && fewer[k] == name;
                        assert(more[k] == name);
                    }
                    if name == followers@[i as int]@ {
                        assert(more[i as int] == name);
                    }
                }
            }
            i = i + 1;
        }
        proof {
            assert(topology.take(i as int) =~= topology);
            assert forall|name: Seq<char>|
                listed(plan@, name) <==> #[trigger] self@.wanted(topology, name) by {}
        }
        plan
    }

    /// Whether a record has the number `node`.
    fn number_is_used(&self, node: u32) -> (used: bool)
        ensures
            used == number_used(self@.history, node as int),
    {
        let mut i: usize = 0;
        while i < self.load_balancer.follower_history.len()
            invariant
                i <= self.load_balancer.follower_history@.len(),
                forall|k: int| 0 <= k < i ==> (#[trigger] self@.history[k]).node != node,
            decreases self.load_balancer.follower_history@.len() - i,
        {
            proof {
                assert(self@.history[i as int]
                    == self.load_balancer.follower_history@[i as int]@);
            }
            if self.load_balancer.follower_history[i].node == node {
                return true;
            }
            i = i + 1;
        }
        false
    }

    /// Whether the node `name` has a record.
    fn has_record(&self, name: &String) -> (has: bool)
        ensures
            has == recorded(self@.history, name@),
    {
        let mut i: usize = 0;
        while i < self.load_balancer.follower_history.len()
            invariant
                i <= self.load_balancer.follower_history@.len(),
                forall|k: int| 0 <= k < i ==> (#[trigger] self@.history[k]).name != name@,
            decreases self.load_balancer.follower_history@.len() - i,
        {
            proof {
                assert(self@.history[i as int]
                    == self.load_balancer.follower_history@[i as int]@);
            }
            if self.load_balancer.follower_history[i].name == *name {
                return true;
            }
            i = i + 1;
        }
        false
    }

    /// The slots in which `name` has no open connection.
    fn open_places(&self, name: &String) -> (slots: Vec<u32>)
        requires
            self.wf(),
        ensures
            slots@ == free_slots(self@.followers, name@, self@.per_node),
    {
        let per_node: u32 = self.conn_per_roomzin_node as u32;
        let mut slots: Vec<u32> = Vec::new();
        let mut slot: u32 = 0;
        while slot < per_node
            invariant
                self.wf(),
                per_node == self@.per_node,
                slot <= per_node,
                slots@ == free_slots(self@.followers, name@, slot as int),
            decreases per_node - slot,
        {
            if self.is_free(name, slot) {
                slots.push(slot);
            }
            slot = slot + 1;
        }
        slots
    }

    /// Drops the nodes that the topology does not list.
    fn keep_listed(&mut self, followers: &Vec<String>)
        requires
            old(self).wf(),
        ensures
            final(self).wf(),
            final(self)@ == old(self)@.with_placed(old(self)@.listed(texts(followers@))),
    {
        let ghost v = self@;
        let ghost topology = texts(followers@);
        proof {
            v.listed_is_in_order(topology);
        }
        self.followers.keep_hosts(followers);
        let ghost pool = self.followers@;
        let mut i: usize = 0;
        let ghost mut seen: int = 0;
        proof {
            assert(v.history.skip(0) =~= v.history);
            assert(self@.history =~= v.history);
            assert(records_of(v.history, topology, 0) + v.history.skip(0) =~= v.history);
        }
        while i < self.load_balancer.follower_history.len()
            invariant
                topology == texts(followers@),
                self.followers.wf(),
                0 <= seen <= v.history.len(),
                i == records_of(v.history, topology, seen).len(),
                self@ == (ClusterView {
                    followers: pool,
                    history: records_of(v.history, topology, seen) + v.history.skip(seen),
                    ..v
                }),
            decreases v.history.len() - seen,
        {
            let ghost kept = records_of(v.history, topology, seen);
            let ghost rest = v.history.skip(seen);
            let ghost before = self.load_balancer.follower_history@;
            proof {
                assert((kept + rest).len() == before.len());
                assert(rest.len() > 0);
                assert((kept + rest)[i as int] == rest[0]);
                assert(before[i as int]@ == rest[0]);
                assert(rest[0] == v.history[seen]);
                assert(rest.skip(1) =~= v.history.skip(seen + 1));
            }
            if lists_text(followers, &self.load_balancer.follower_history[i].name) {
                i = i + 1;
                proof {
                    assert(kept + rest =~= kept.push(rest[0]) + rest.skip(1));
                }
            } else {
                let _gone: HistoryEntry = self.load_balancer.follower_history.remove(i);
                proof {
                    assert(self@.history =~= (kept + rest).remove(i as int));
                    assert((kept + rest).remove(i as int) =~= kept + rest.skip(1));
                }
            }
            proof {
                seen = seen + 1;
            }
        }
        proof {
            let n = v.history.len() as int;
            assert(self@.history.len() == i);
            assert(v.history.skip(seen).len() == 0);
            assert(seen == n);
            assert(records_of(v.history, topology, n) + v.history.skip(n) =~= records_of(
                v.history,
                topology,
                n,
            ));
            assert(self@ == v.with_placed(v.listed(topology)));
        }
    }

    /// Places the new connections of one node, where the topology lists it.
    fn place_node(
        &mut self,
        followers: &Vec<String>,
        new: &NodeConns,
        free_numbers: &mut Vec<u32>,
    )
        requires
            old(self).wf(),
            (Placing {
                followers: old(self)@.followers,
                history: old(self)@.history,
                free_numbers: old(free_numbers)@,
            }).numbered(texts(followers@)),
            texts(followers@).contains(new.name@) ==> new.conns@.len() <= old(self)@.missing(
                new.name@,
            ),
        ensures
            final(self).wf(),
            ({
                let before = Placing {
                    followers: old(self)@.followers,
                    history: old(self)@.history,
                    free_numbers: old(free_numbers)@,
                };
                let after = before.placed(
                    texts(followers@),
                    new.name@,
                    new.conns@,
                    old(self)@.per_node,
                );
                &&& final(self)@ == old(self)@.with_placed(after)
                &&& final(free_numbers)@ == after.free_numbers
                &&& after.numbered(texts(followers@))
            }),
    {
        let ghost v = self@;
        let ghost topology = texts(followers@);
        let ghost before = Placing {
            followers: v.followers,
            history: v.history,
            free_numbers: free_numbers@,
        };
        proof {
            assert(v.with_placed(before) == v);
            v.placing_keeps_order(before, topology, new.name@, new.conns@);
        }
        if new.conns.len() == 0 || !lists_text(followers, &new.name) {
            return ;
        }
        let slots: Vec<u32> = self.open_places(&new.name);
        if !self.has_record(&new.name) {
            match free_numbers.pop() {
                None => {
                    return ;
                },
                Some(node) => {
                    let entry: HistoryEntry = HistoryEntry {
                        name: new.name.clone(),
                        node,
                        next_slot: slots[0],
                    };
                    let at: usize = self.place_above(node);
                    proof {
                        above_is_above(v.history, node as int, 0);
                    }
                    self.load_balancer.follower_history.insert(at, entry);
                    proof {
                        assert(self@.history =~= inserted(v.history, entry@));
                    }
                },
            }
        }
        let ghost recorded_now = self@;
        let mut i: usize = 0;
        while i < new.conns.len()
            invariant
                self.followers.wf(),
                i <= new.conns@.len(),
                new.conns@.len() <= slots@.len(),
                self@ == (ClusterView {
                    followers: filled(v.followers, new.name@, slots@, new.conns@, i as int),
                    ..recorded_now
                }),
            decreases new.conns@.len() - i,
        {
            self.followers.insert(&new.name, slots[i], new.conns[i]);
            proof {
                assert(self@.history =~= recorded_now.history);
            }
            i = i + 1;
        }
    }

    /// Brings the followers in step with the topology, which lists
    /// `followers`: those that it does not list are dropped, with all their
    /// connections, and the new connections to those that it lists are placed.
    /// Nodes are numbered with 32 bits; where the topology lists more, a node
    /// for which no number is left is passed over.
    pub fn sync_followers(&mut self, followers: &Vec<String>, new_conns: &Vec<NodeConns>)
        requires
            old(self).wf(),
            old(self)@.fits(new_conns@.map_values(|n: NodeConns| n@)),
        ensures
            final(self).wf(),
            final(self)@ == old(self)@.synced(
                texts(followers@),
                new_conns@.map_values(|n: NodeConns| n@),
            ),
            forall|key: (Seq<char>, u32)| #[trigger]
                final(self)@.followers.contains_key(key) ==> texts(followers@).contains(key.0),
    {
        let ghost v = self@;
        let ghost topology = texts(followers@);
        let ghost news = new_conns@.map_values(|n: NodeConns| n@);
        proof {
            v.listed_is_in_order(topology);
        }
        self.keep_listed(followers);
        let ghost start = v.listed(topology);
        let mut free: Vec<u32> = Vec::new();
        let count: u32 = if followers.len() <= u32::MAX as usize {
            followers.len() as u32
        } else {
            u32::MAX
        };
        let mut node: u32 = 0;
        while node < count
            invariant
                self@.history == start.history,
                self@ == v.with_placed(start),
                self.wf(),
                node <= count,
                free@ == free_numbers(start.history, node as int),
            decreases count - node,
        {
            if !self.number_is_used(node) {
                free.push(node);
            }
            node = node + 1;
        }
        proof {
            assert forall|j: int|
                0 <= j < news.len() && topology.contains((#[trigger] news[j]).0) implies free_slots(
                self@.followers,
                news[j].0,
                v.per_node,
            ) == free_slots(v.followers, news[j].0, v.per_node) by {
                free_slots_depend_on_node(self@.followers, v.followers, news[j].0, v.per_node);
            }
        }
        let mut k: usize = 0;
        while k < new_conns.len()
            invariant
                k <= new_conns@.len(),
                topology == texts(followers@),
                    v.fits(news),
                news == new_conns@.map_values(|n: NodeConns| n@),
                self.wf(),
                start == v.listed(topology),
                self@ == v.with_placed(start.placed_all(topology, news, v.per_node, k as int)),
                free@ == start.placed_all(topology, news, v.per_node, k as int).free_numbers,
                start.placed_all(topology, news, v.per_node, k as int).numbered(topology),
                forall|j: int|
                    k <= j < news.len() && topology.contains((#[trigger] news[j]).0) ==> free_slots(
                        self@.followers,
                        news[j].0,
                        v.per_node,
                    ) == free_slots(v.followers, news[j].0, v.per_node),
            decreases new_conns@.len() - k,
        {
            let ghost before = self@.followers;
            let ghost name = news[k as int].0;
            let ghost slots = free_slots(before, name, v.per_node);
            let ghost placing = start.placed_all(topology, news, v.per_node, k as int);
            proof {
                assert(news[k as int] == new_conns@[k as int]@);
                assert(placing == Placing {
                    followers: self@.followers,
                    history: self@.history,
                    free_numbers: free@,
                });
                if topology.contains(name) {
                    filled_touches_node(
                        before,
                        name,
                        slots,
                        news[k as int].1,
                        news[k as int].1.len() as int,
                    );
                }
            }
            self.place_node(followers, &new_conns[k], &mut free);
            proof {
                assert forall|j: int|
                    k + 1 <= j < news.len() && topology.contains(
                        (#[trigger] news[j]).0,
                    ) implies free_slots(self@.followers, news[j].0, v.per_node) == free_slots(
                    v.followers,
                    news[j].0,
                    v.per_node,
                ) by {
                    assert(news[k as int].0 != news[j].0);
                    free_slots_depend_on_node(self@.followers, before, news[j].0, v.per_node);
                }
            }
            k = k + 1;
        }
        proof {
            assert forall|key: (Seq<char>, u32)| #[trigger]
                self@.followers.contains_key(key) implies topology.contains(key.0) by {
                self.wf_of_view();
                let i = choose|i: int|
                    0 <= i < self@.history.len() && (#[trigger] self@.history[i]).name == key.0;
                assert(topology.contains(self@.history[i].name));
            }
        }
    }
}

/// Whether `name` is in the plan.
pub open spec fn listed(plan: Seq<(String, u32)>, name: Seq<char>) -> bool {
    exists|i: int| 0 <= i < plan.len() && (#[trigger] plan[i]).0@ == name
}

/// Whether no node is listed twice and each has its room beside it.
spec fn plan_lists(handler: ClusterHandler, plan: Seq<(String, u32)>) -> bool {
    &&& forall|i: int, j: int|
        0 <= i < j < plan.len() ==> (#[trigger] plan[i]).0@ != (#[trigger] plan[j]).0@
    &&& forall|i: int|
        0 <= i < plan.len() ==> (#[trigger] plan[i]).1 == handler@.missing(plan[i].0@) && plan[i].1
            > 0
}

/// New connections to one node.
#[derive(Debug)]
pub struct NodeConns {
    pub name: String,
    pub conns: Vec<Connection>,
}

impl View for NodeConns {
    type V = (Seq<char>, Seq<Connection>);

    open spec fn view(&self) -> (Seq<char>, Seq<Connection>) {
        (self.name@, self.conns@)
    }
}

} // verus!
