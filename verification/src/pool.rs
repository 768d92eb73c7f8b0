//! The connections to the followers, by node name and slot.

use crate::text::{lists_text, texts};
use vstd::prelude::*;

verus! {

/// A connection to a Roomzin node: its handle, and whether it was last seen
/// closed.
#[derive(Debug, Clone, Copy)]
pub struct Connection {
    pub id: u64,
    pub closed: bool,
}

impl Connection {
    /// Whether the connection was last seen closed.
    pub fn is_closed(&self) -> (closed: bool)
        ensures
            closed == self.closed,
    {
        self.closed
    }
}

/// Whether `id` is one of `ids`.
pub fn contains_id(ids: &Vec<u64>, id: u64) -> (found: bool)
    ensures
        found == ids@.contains(id),
{
    let mut i: usize = 0;
    while i < ids.len()
        invariant
            i <= ids@.len(),
            forall|k: int| 0 <= k < i ==> ids@[k] != id,
        decreases ids@.len() - i,
    {
        if ids[i] == id {
            return true;
        }
        i = i + 1;
    }
    false
}

/// `conn`, seen closed where its handle is one of `ids`.
pub open spec fn closed_by(conn: Connection, ids: Seq<u64>) -> Connection {
    Connection { id: conn.id, closed: conn.closed || ids.contains(conn.id) }
}

/// One entry of a pool.
#[derive(Debug)]
pub struct PoolEntry {
    pub name: String,
    pub slot: u32,
    pub conn: Connection,
}

impl PoolEntry {
    /// Under what the entry is found.
    pub open spec fn key(self) -> (Seq<char>, u32) {
        (self.name@, self.slot)
    }
}

/// Connections by node name and slot, at most one for each.
#[derive(Debug)]
pub struct FollowerPool {
    entries: Vec<PoolEntry>,
}

/// What is left of `pool` once only the nodes of the list have connections.
pub open spec fn of_hosts(
    pool: Map<(Seq<char>, u32), Connection>,
    hosts: Seq<Seq<char>>,
) -> Map<(Seq<char>, u32), Connection> {
    pool.restrict(Set::new(|key: (Seq<char>, u32)| hosts.contains(key.0)))
}

/// Where `key` stands in `entries`.
spec fn stands_at(entries: Seq<PoolEntry>, key: (Seq<char>, u32), i: int) -> bool {
    0 <= i < entries.len() && entries[i].key() == key
}

impl View for FollowerPool {
    type V = Map<(Seq<char>, u32), Connection>;

    closed spec fn view(&self) -> Map<(Seq<char>, u32), Connection> {
        Map::new(
            |key: (Seq<char>, u32)| exists|i: int| stands_at(self.entries@, key, i),
            |key: (Seq<char>, u32)| self.entries@[choose|i: int| stands_at(self.entries@, key, i)].conn,
        )
    }
}

impl FollowerPool {
    /// No two entries share name and slot.
    pub closed spec fn wf(self) -> bool {
        forall|i: int, j: int|
            0 <= i < j < self.entries@.len() ==> self.entries@[i].key() != self.entries@[j].key()
    }

    /// An entry is what its key maps to.
    proof fn entry_is_mapped(self, i: int)
        requires
            self.wf(),
            0 <= i < self.entries@.len(),
        ensures
            self@.contains_key(self.entries@[i].key()),
            self@[self.entries@[i].key()] == self.entries@[i].conn,
    {
        let key = self.entries@[i].key();
        assert(stands_at(self.entries@, key, i));
        let j = choose|j: int| stands_at(self.entries@, key, j);
        assert(i == j);
    }

    /// A key that is mapped has an entry.
    proof fn mapped_has_entry(self, key: (Seq<char>, u32)) -> (i: int)
        requires
            self@.contains_key(key),
        ensures
            0 <= i < self.entries@.len(),
            self.entries@[i].key() == key,
            self@[key] == self.entries@[i].conn,
    {
        choose|i: int| stands_at(self.entries@, key, i)
    }

    /// A pool without connections.
    pub fn new() -> (pool: Self)
        ensures
            pool.wf(),
            pool@ == Map::<(Seq<char>, u32), Connection>::empty(),
    {
        let pool: FollowerPool = FollowerPool { entries: Vec::new() };
        proof {
            assert(pool@ =~= Map::<(Seq<char>, u32), Connection>::empty());
        }
        pool
    }

    /// Where the connection to `name` in `slot` stands.
    fn find(&self, name: &String, slot: u32) -> (found: Option<usize>)
        requires
            self.wf(),
        ensures
            found matches Some(i) ==> i < self.entries@.len() && self.entries@[i as int].key() == (
                name@,
                slot,
            ),
            found is Some <==> self@.contains_key((name@, slot)),
    {
        let mut i: usize = 0;
        while i < self.entries.len()
            invariant
                self.wf(),
                i <= self.entries@.len(),
                forall|k: int| 0 <= k < i ==> self.entries@[k].key() != (name@, slot),
            decreases self.entries@.len() - i,
        {
            if self.entries[i].slot == slot && self.entries[i].name == *name {
                proof {
                    self.entry_is_mapped(i as int);
                }
                return Some(i);
            }
            i = i + 1;
        }
        proof {
            if self@.contains_key((name@, slot)) {
                let k = self.mapped_has_entry((name@, slot));
            }
        }
        None
    }

    /// The connection to `name` in `slot`.
    pub fn get(&self, name: &String, slot: u32) -> (conn: Option<Connection>)
        requires
            self.wf(),
        ensures
            conn is Some <==> self@.contains_key((name@, slot)),
            conn matches Some(c) ==> c == self@[(name@, slot)],
    {
        match self.find(name, slot) {
            Some(i) => {
                proof {
                    self.entry_is_mapped(i as int);
                }
                Some(self.entries[i].conn)
            },
            None => None,
        }
    }

    /// Puts `conn` in `slot` of `name`, in place of what stood there.
    pub fn insert(&mut self, name: &String, slot: u32, conn: Connection)
        requires
            old(self).wf(),
        ensures
            final(self).wf(),
            final(self)@ == old(self)@.insert((name@, slot), conn),
    {
        let ghost before = *self;
        let ghost key = (name@, slot);
        let ghost mut at = self.entries@.len() as int;
        match self.find(name, slot) {
            Some(i) => {
                proof {
                    at = i as int;
                }
                let entry: PoolEntry = PoolEntry { name: name.clone(), slot, conn };
                self.entries.set(i, entry);
                proof {
                    assert(forall|k: int|
                        0 <= k < self.entries@.len() ==> self.entries@[k].key()
                            == before.entries@[k].key());
                }
            },
            None => {
                let entry: PoolEntry = PoolEntry { name: name.clone(), slot, conn };
                self.entries.push(entry);
                proof {
                    assert forall|k: int| 0 <= k < before.entries@.len() implies #[trigger]
                    before.entries@[k].key() != key by {
                        before.entry_is_mapped(k);
                    }
                    assert forall|a: int, b: int|
                        0 <= a < b < self.entries@.len() implies self.entries@[a].key()
                        != self.entries@[b].key() by {
                        assert(self.entries@[a] == before.entries@[a]);
                        if b < before.entries@.len() {
                            assert(self.entries@[b] == before.entries@[b]);
                        }
                    }
                }
            },
        }
        proof {
            let after = *self;
            assert forall|k: (Seq<char>, u32)|
                after@.contains_key(k) <==> #[trigger] before@.insert(key, conn).contains_key(k) by {
                if after@.contains_key(k) {
                    let i = after.mapped_has_entry(k);
                    if k != key {
                        assert(after.entries@[i] == before.entries@[i]);
                        before.entry_is_mapped(i);
                    }
                }
                if before@.insert(key, conn).contains_key(k) {
                    if k != key {
                        let i = before.mapped_has_entry(k);
                        assert(after.entries@[i] == before.entries@[i]);
                        after.entry_is_mapped(i);
                    } else {
                        after.entry_is_mapped(at);
                    }
                }
            }
            assert forall|k: (Seq<char>, u32)| #[trigger] after@.contains_key(k) implies after@[k]
                == before@.insert(key, conn)[k] by {
                let i = after.mapped_has_entry(k);
                if k != key {
                    assert(after.entries@[i] == before.entries@[i]);
                    before.entry_is_mapped(i);
                }
            }
            assert(after@ =~= before@.insert(key, conn));
        }
    }

    /// Takes out entry `at`; the others keep their order.
    fn take_out(&mut self, at: usize)
        requires
            old(self).wf(),
            at < old(self).entries@.len(),
        ensures
            final(self).wf(),
            final(self).entries@ == old(self).entries@.remove(at as int),
            final(self)@ == old(self)@.remove(old(self).entries@[at as int].key()),
    {
        let ghost before = *self;
        let ghost key = self.entries@[at as int].key();
        let _gone: PoolEntry = self.entries.remove(at);
        proof {
            let after = *self;
            assert forall|a: int, b: int| 0 <= a < b < after.entries@.len() implies after.entries@[a].key()
                != after.entries@[b].key() by {
                let x = if a < at {
                    a
                } else {
                    a + 1
                };
                let y = if b < at {
                    b
                } else {
                    b + 1
                };
                assert(after.entries@[a] == before.entries@[x]);
                assert(after.entries@[b] == before.entries@[y]);
            }
            assert forall|k: (Seq<char>, u32)|
                after@.contains_key(k) <==> #[trigger] before@.remove(key).contains_key(k) by {
                if after@.contains_key(k) {
                    let i = after.mapped_has_entry(k);
                    let x = if i < at {
                        i
                    } else {
                        i + 1
                    };
                    assert(after.entries@[i] == before.entries@[x]);
                    before.entry_is_mapped(x);
                }
                if before@.remove(key).contains_key(k) {
                    let x = before.mapped_has_entry(k);
                    let i = if x < at {
                        x
                    } else {
                        x - 1
                    };
                    assert(after.entries@[i] == before.entries@[x]);
                    after.entry_is_mapped(i);
                }
            }
            assert forall|k: (Seq<char>, u32)| #[trigger] after@.contains_key(k) implies after@[k]
                == before@.remove(key)[k] by {
                let i = after.mapped_has_entry(k);
                let x = if i < at {
                    i
                } else {
                    i + 1
                };
                assert(after.entries@[i] == before.entries@[x]);
                before.entry_is_mapped(x);
            }
            assert(after@ =~= before@.remove(key));
        }
    }

    /// Takes out the connection in `slot` of `name`, if there is one.
    pub fn remove(&mut self, name: &String, slot: u32)
        requires
            old(self).wf(),
        ensures
            final(self).wf(),
            final(self)@ == old(self)@.remove((name@, slot)),
    {
        match self.find(name, slot) {
            Some(at) => {
                self.take_out(at);
            },
            None => {
                proof {
                    assert(self@ =~= self@.remove((name@, slot)));
                }
            },
        }
    }

    /// Takes out the connections to nodes that the list does not name.
    pub fn keep_hosts(&mut self, hosts: &Vec<String>)
        requires
            old(self).wf(),
        ensures
            final(self).wf(),
            final(self)@ == of_hosts(old(self)@, texts(hosts@)),
    {
        let ghost before = *self;
        let mut i: usize = 0;
        while i < self.entries.len()
            invariant
                self.wf(),
                i <= self.entries@.len(),
                of_hosts(self@, texts(hosts@)) == of_hosts(before@, texts(hosts@)),
                forall|k: int|
                    0 <= k < i ==> texts(hosts@).contains((#[trigger] self.entries@[k]).name@),
            decreases self.entries@.len() - i,
        {
            if lists_text(hosts, &self.entries[i].name) {
                i = i + 1;
            } else {
                let name: String = self.entries[i].name.clone();
                let slot: u32 = self.entries[i].slot;
                let ghost now = *self;
                self.take_out(i);
                proof {
                    let key = (name@, slot);
                    assert(of_hosts(now@.remove(key), texts(hosts@)) =~= of_hosts(
                        now@,
                        texts(hosts@),
                    ));
                }
            }
        }
        proof {
            assert forall|key: (Seq<char>, u32)| #[trigger] self@.contains_key(key) implies texts(
                hosts@,
            ).contains(key.0) by {
                let k = self.mapped_has_entry(key);
            }
            assert(of_hosts(self@, texts(hosts@)) =~= self@);
        }
    }

    /// Whether any connection of the pool is open.
    pub fn any_open(&self) -> (open: bool)
        requires
            self.wf(),
        ensures
            open == exists|key: (Seq<char>, u32)|
                #[trigger] self@.contains_key(key) && !self@[key].closed,
    {
        let mut i: usize = 0;
        while i < self.entries.len()
            invariant
                self.wf(),
                i <= self.entries@.len(),
                forall|k: int| 0 <= k < i ==> (#[trigger] self.entries@[k]).conn.closed,
            decreases self.entries@.len() - i,
        {
            if !self.entries[i].conn.closed {
                proof {
                    self.entry_is_mapped(i as int);
                }
                return true;
            }
            i = i + 1;
        }
        proof {
            assert forall|key: (Seq<char>, u32)| #[trigger]
                self@.contains_key(key) implies self@[key].closed by {
                let k = self.mapped_has_entry(key);
            }
        }
        false
    }

    /// Whether the connection with the handle `id` is in the pool.
    pub fn holds(&self, id: u64) -> (is: bool)
        requires
            self.wf(),
        ensures
            is == exists|key: (Seq<char>, u32)|
                #[trigger] self@.contains_key(key) && self@[key].id == id,
    {
        let mut i: usize = 0;
        while i < self.entries.len()
            invariant
                self.wf(),
                i <= self.entries@.len(),
                forall|k: int| 0 <= k < i ==> (#[trigger] self.entries@[k]).conn.id != id,
            decreases self.entries@.len() - i,
        {
            if self.entries[i].conn.id == id {
                proof {
                    self.entry_is_mapped(i as int);
                }
                return true;
            }
            i = i + 1;
        }
        proof {
            assert forall|key: (Seq<char>, u32)| #[trigger]
                self@.contains_key(key) implies self@[key].id != id by {
                let k = self.mapped_has_entry(key);
            }
        }
        false
    }

    /// Takes note of which connections are closed.
    pub fn observe_closed(&mut self, ids: &Vec<u64>)
        requires
            old(self).wf(),
        ensures
            final(self).wf(),
            final(self)@ == old(self)@.map_values(|c: Connection| closed_by(c, ids@)),
    {
        let ghost before = *self;
        let mut i: usize = 0;
        while i < self.entries.len()
            invariant
                before.wf(),
                self.entries@.len() == before.entries@.len(),
                i <= self.entries@.len(),
                forall|k: int|
                    0 <= k < self.entries@.len() ==> (#[trigger] self.entries@[k]).key()
                        == before.entries@[k].key(),
                forall|k: int|
                    0 <= k < i ==> (#[trigger] self.entries@[k]).conn == closed_by(
                        before.entries@[k].conn,
                        ids@,
                    ),
                forall|k: int|
                    i <= k < self.entries@.len() ==> (#[trigger] self.entries@[k])
                        == before.entries@[k],
            decreases self.entries@.len() - i,
        {
            let conn: Connection = self.entries[i].conn;
            let closed: bool = conn.closed || contains_id(ids, conn.id);
            let entry: PoolEntry = PoolEntry {
                name: self.entries[i].name.clone(),
                slot: self.entries[i].slot,
                conn: Connection { id: conn.id, closed },
            };
            self.entries.set(i, entry);
            i = i + 1;
        }
        proof {
            let after = *self;
            let seen = before@.map_values(|c: Connection| closed_by(c, ids@));
            assert(after.wf());
            assert forall|k: (Seq<char>, u32)|
                after@.contains_key(k) <==> #[trigger] seen.contains_key(k) by {
                if after@.contains_key(k) {
                    let i = after.mapped_has_entry(k);
                    before.entry_is_mapped(i);
                }
                if before@.contains_key(k) {
                    let i = before.mapped_has_entry(k);
                    assert(after.entries@[i].key() == k);
                    after.entry_is_mapped(i);
                }
            }
            assert forall|k: (Seq<char>, u32)| #[trigger] after@.contains_key(k) implies after@[k]
                == seen[k] by {
                let i = after.mapped_has_entry(k);
                before.entry_is_mapped(i);
            }
            assert(after@ =~= seen);
        }
    }
}

} // verus!
