//! A message database held in memory: the bodies of the messages and their
//! sizes, by id.
use crate::errors::{MemDbError, MemDbErrorTy};
use crate::store::uuid::{same_msg, Uuid};
use vstd::prelude::*;

verus! {

/// Messages held in memory, by id.
pub struct MemDb {
    msgs: Vec<(Uuid, Vec<u8>)>,
    byte_size_data: Vec<(Uuid, u64)>,
}

/// The value that `entries` hold for the id `u`: that of the first entry that
/// names the same message.
pub open spec fn value_of<V>(entries: Seq<(Uuid, V)>, u: Uuid) -> Option<V>
    decreases entries.len(),
{
    if entries.len() == 0 {
        None
    } else if same_msg(entries[0].0, u) {
        Some(entries[0].1)
    } else {
        value_of(entries.drop_first(), u)
    }
}

/// The place of the first entry that names the message `u`, or the length.
pub open spec fn entry_index<V>(entries: Seq<(Uuid, V)>, u: Uuid) -> nat
    decreases entries.len(),
{
    if entries.len() == 0 || same_msg(entries[0].0, u) {
        0
    } else {
        1 + entry_index(entries.drop_first(), u)
    }
}

/// No two entries name the same message.
pub open spec fn keys_unique<V>(entries: Seq<(Uuid, V)>) -> bool {
    forall|a: int, c: int|
        0 <= a < c < entries.len() ==> !same_msg(#[trigger] entries[a].0, #[trigger] entries[c].0)
}

/// The message bodies of a list of entries.
pub open spec fn bodies(v: Seq<(Uuid, Vec<u8>)>) -> Seq<(Uuid, Seq<u8>)> {
    v.map_values(|e: (Uuid, Vec<u8>)| (e.0, e.1@))
}

proof fn lemma_find<V>(entries: Seq<(Uuid, V)>, u: Uuid, i: int)
    requires
        0 <= i <= entries.len(),
        forall|j: int| 0 <= j < i ==> !same_msg((#[trigger] entries[j]).0, u),
        i < entries.len() ==> same_msg(entries[i].0, u),
    ensures
        entry_index(entries, u) == i,
    decreases i,
{
    if i > 0 {
        let r = entries.drop_first();
        assert forall|j: int| 0 <= j < i - 1 implies !same_msg((#[trigger] r[j]).0, u) by {
            assert(r[j] == entries[j + 1]);
        }
        assert(!same_msg(entries[0].0, u));
        lemma_find(r, u, i - 1);
    }
}

proof fn lemma_entry_index<V>(entries: Seq<(Uuid, V)>, u: Uuid)
    ensures
        entry_index(entries, u) <= entries.len(),
        forall|j: int| 0 <= j < entry_index(entries, u) ==> !same_msg((#[trigger] entries[j]).0, u),
        entry_index(entries, u) < entries.len() ==> same_msg(
            entries[entry_index(entries, u) as int].0,
            u,
        ),
    decreases entries.len(),
{
    if entries.len() > 0 && !same_msg(entries[0].0, u) {
        let r = entries.drop_first();
        lemma_entry_index(r, u);
        assert forall|j: int| 0 <= j < entry_index(entries, u) implies !same_msg(
            (#[trigger] entries[j]).0,
            u,
        ) by {
            if j > 0 {
                assert(entries[j] == r[j - 1]);
            }
        }
    }
}

/// Setting the entry of `u` (or adding one) changes what is held for ids that
/// name the same message as `u`, and nothing else.
proof fn lemma_set_entry<V>(entries: Seq<(Uuid, V)>, u: Uuid, x: V, v: Uuid)
    ensures
        ({
            let i = entry_index(entries, u) as int;
            let after = if i < entries.len() {
                entries.update(i, (u, x))
            } else {
                entries.push((u, x))
            };
            value_of(after, v) == if same_msg(u, v) {
                Some(x)
            } else {
                value_of(entries, v)
            }
        }),
    decreases entries.len(),
{
    let i = entry_index(entries, u) as int;
    let expect = if same_msg(u, v) {
        Some(x)
    } else {
        value_of(entries, v)
    };
    if entries.len() == 0 {
        let after = entries.push((u, x));
        assert(after.drop_first() =~= Seq::<(Uuid, V)>::empty());
        assert(after[0] == (u, x));
        assert(value_of(entries, v) is None);
        assert(value_of(after.drop_first(), v) is None);
        assert(value_of(after, v) == expect);
    } else if same_msg(entries[0].0, u) {
        let after = entries.update(0, (u, x));
        assert(after.drop_first() =~= entries.drop_first());
        assert(after[0] == (u, x));
        assert(value_of(after, v) == expect);
    } else {
        let r = entries.drop_first();
        lemma_set_entry(r, u, x, v);
        assert(entry_index(r, u) == i - 1);
        if i < entries.len() {
            let after = entries.update(i, (u, x));
            assert(after.drop_first() =~= r.update(i - 1, (u, x)));
            assert(after[0] == entries[0]);
            assert(value_of(after, v) == expect);
        } else {
            let after = entries.push((u, x));
            assert(after.drop_first() =~= r.push((u, x)));
            assert(after[0] == entries[0]);
            assert(value_of(after, v) == expect);
        }
    }
}

/// Setting the entry of `u` (or adding one) keeps keys unique.
proof fn lemma_set_entry_unique<V>(entries: Seq<(Uuid, V)>, u: Uuid, x: V)
    requires
        keys_unique(entries),
    ensures
        ({
            let i = entry_index(entries, u) as int;
            keys_unique(
                if i < entries.len() {
                    entries.update(i, (u, x))
                } else {
                    entries.push((u, x))
                },
            )
        }),
{
    lemma_entry_index(entries, u);
    let i = entry_index(entries, u) as int;
    let after = if i < entries.len() {
        entries.update(i, (u, x))
    } else {
        entries.push((u, x))
    };
    assert forall|a: int, c: int| 0 <= a < c < after.len() implies !same_msg(
        #[trigger] after[a].0,
        #[trigger] after[c].0,
    ) by {
        if i < entries.len() {
            if a == i {
                assert(!same_msg(entries[i].0, entries[c].0));
            } else if c == i {
                assert(!same_msg(entries[a].0, entries[i].0));
            } else {
                assert(after[a] == entries[a] && after[c] == entries[c]);
            }
        } else {
            if c == entries.len() {
                assert(after[a] == entries[a]);
            } else {
                assert(after[a] == entries[a] && after[c] == entries[c]);
            }
        }
    }
}

/// Removing the entry of `u`, where keys are unique, leaves nothing for ids
/// that name the same message as `u` and changes nothing else.
proof fn lemma_remove_entry<V>(entries: Seq<(Uuid, V)>, u: Uuid, v: Uuid)
    requires
        keys_unique(entries),
    ensures
        ({
            let i = entry_index(entries, u) as int;
            let after = if i < entries.len() {
                entries.remove(i)
            } else {
                entries
            };
            &&& value_of(after, v) == if same_msg(u, v) {
                None
            } else {
                value_of(entries, v)
            }
            &&& keys_unique(after)
        }),
    decreases entries.len(),
{
    let i = entry_index(entries, u) as int;
    if entries.len() == 0 {
    } else {
        let r = entries.drop_first();
        assert(keys_unique(r)) by {
            assert forall|a: int, c: int| 0 <= a < c < r.len() implies !same_msg(
                #[trigger] r[a].0,
                #[trigger] r[c].0,
            ) by {
                assert(r[a] == entries[a + 1] && r[c] == entries[c + 1]);
            }
        }
        if same_msg(entries[0].0, u) {
            assert(entries.remove(0) =~= r);
            if same_msg(u, v) {
                assert forall|k: int| 0 <= k < r.len() implies !same_msg((#[trigger] r[k]).0, v) by {
                    assert(r[k] == entries[k + 1]);
                    assert(!same_msg(entries[0].0, entries[k + 1].0));
                }
                lemma_value_none(r, v);
            }
        } else {
            lemma_remove_entry(r, u, v);
            if i < entries.len() {
                assert(entries.remove(i) =~= seq![entries[0]] + r.remove(i - 1));
                assert(entries.remove(i).drop_first() =~= r.remove(i - 1));
                let after = entries.remove(i);
                assert forall|a: int, c: int| 0 <= a < c < after.len() implies !same_msg(
                    #[trigger] after[a].0,
                    #[trigger] after[c].0,
                ) by {
                    let a0 = if a < i {
                        a
                    } else {
                        a + 1
                    };
                    let c0 = if c < i {
                        c
                    } else {
                        c + 1
                    };
                    assert(after[a] == entries[a0] && after[c] == entries[c0]);
                }
            }
        }
    }
}

proof fn lemma_value_none<V>(entries: Seq<(Uuid, V)>, v: Uuid)
    requires
        forall|k: int| 0 <= k < entries.len() ==> !same_msg((#[trigger] entries[k]).0, v),
    ensures
        value_of(entries, v) is None,
    decreases entries.len(),
{
    if entries.len() > 0 {
        let r = entries.drop_first();
        assert forall|k: int| 0 <= k < r.len() implies !same_msg((#[trigger] r[k]).0, v) by {
            assert(r[k] == entries[k + 1]);
        }
        lemma_value_none(r, v);
    }
}

proof fn lemma_value_at<V>(entries: Seq<(Uuid, V)>, v: Uuid)
    ensures
        value_of(entries, v) == if entry_index(entries, v) < entries.len() {
            Some(entries[entry_index(entries, v) as int].1)
        } else {
            None::<V>
        },
    decreases entries.len(),
{
    if entries.len() > 0 && !same_msg(entries[0].0, v) {
        lemma_value_at(entries.drop_first(), v);
    }
}

proof fn lemma_index_bodies(m: Seq<(Uuid, Vec<u8>)>, u: Uuid)
    ensures
        entry_index(bodies(m), u) == entry_index(m, u),
        bodies(m).len() == m.len(),
    decreases m.len(),
{
    if m.len() > 0 {
        assert(bodies(m).drop_first() =~= bodies(m.drop_first()));
        lemma_index_bodies(m.drop_first(), u);
    }
}

fn find_entry<V>(entries: &Vec<(Uuid, V)>, u: &Uuid) -> (i: usize)
    ensures
        i == entry_index(entries@, *u),
        i <= entries@.len(),
{
    let mut i: usize = 0;
    while i < entries.len() && !entries[i].0.same_msg(u)
        invariant
            i <= entries@.len(),
            forall|j: int| 0 <= j < i ==> !same_msg((#[trigger] entries@[j]).0, *u),
        decreases entries@.len() - i,
    {
        i = i + 1;
    }
    proof {
        lemma_find(entries@, *u, i as int);
    }
    i
}

fn copy_bytes(v: &Vec<u8>) -> (r: Vec<u8>)
    ensures
        r@ == v@,
{
    let mut r: Vec<u8> = Vec::new();
    let mut i: usize = 0;
    while i < v.len()
        invariant
            i <= v@.len(),
            r@ == v@.take(i as int),
        decreases v@.len() - i,
    {
        r.push(v[i]);
        assert(v@.take(i as int + 1) =~= v@.take(i as int).push(v@[i as int]));
        i = i + 1;
    }
    assert(v@.take(i as int) =~= v@);
    r
}

impl MemDb {
    /// The body held for the message `u`.
    pub closed spec fn body(&self, u: Uuid) -> Option<Seq<u8>> {
        value_of(bodies(self.msgs@), u)
    }

    /// The size held for the message `u`.
    pub closed spec fn size(&self, u: Uuid) -> Option<u64> {
        value_of(self.byte_size_data@, u)
    }

    /// No two entries name the same message.
    pub closed spec fn wf(&self) -> bool {
        &&& keys_unique(bodies(self.msgs@))
        &&& keys_unique(self.byte_size_data@)
    }

    /// An empty database.
    pub fn new() -> (db: MemDb)
        ensures
            db.wf(),
            forall|u: Uuid| db.body(u) is None && db.size(u) is None,
    {
        let db = MemDb { msgs: Vec::new(), byte_size_data: Vec::new() };
        assert(bodies(db.msgs@) =~= Seq::<(Uuid, Seq<u8>)>::empty());
        db
    }

    /// Keeps the body and size of the message `uuid`, in place of any it had.
    pub fn add(&mut self, uuid: Uuid, msg: Vec<u8>, msg_byte_size: u64) -> (r: Result<(), MemDbError>)
        requires
            old(self).wf(),
        ensures
            final(self).wf(),
            r is Ok,
            forall|v: Uuid|
                #![trigger final(self).body(v)]
                #![trigger final(self).size(v)]
                final(self).body(v) == (if same_msg(uuid, v) {
                    Some(msg@)
                } else {
                    old(self).body(v)
                }) && final(self).size(v) == (if same_msg(uuid, v) {
                    Some(msg_byte_size)
                } else {
                    old(self).size(v)
                }),
    {
        let ghost before = bodies(self.msgs@);
        let ghost sizes = self.byte_size_data@;
        let ghost mv = msg@;
        let i = find_entry(&self.msgs, &uuid);
        proof {
            lemma_index_bodies(self.msgs@, uuid);
        }
        if i < self.msgs.len() {
            self.msgs.set(i, (uuid, msg));
            assert(bodies(self.msgs@) =~= before.update(i as int, (uuid, mv)));
        } else {
            self.msgs.push((uuid, msg));
            assert(bodies(self.msgs@) =~= before.push((uuid, mv)));
        }
        let j = find_entry(&self.byte_size_data, &uuid);
        if j < self.byte_size_data.len() {
            self.byte_size_data.set(j, (uuid, msg_byte_size));
        } else {
            self.byte_size_data.push((uuid, msg_byte_size));
        }
        proof {
            assert forall|v: Uuid|
                #![trigger self.body(v)]
                #![trigger self.size(v)]
                self.body(v) == (if same_msg(uuid, v) {
                    Some(mv)
                } else {
                    value_of(before, v)
                }) && self.size(v) == (if same_msg(uuid, v) {
                    Some(msg_byte_size)
                } else {
                    value_of(sizes, v)
                }) by {
                lemma_set_entry(before, uuid, mv, v);
                lemma_set_entry(sizes, uuid, msg_byte_size, v);
            }
            lemma_set_entry_unique(before, uuid, mv);
            lemma_set_entry_unique(sizes, uuid, msg_byte_size);
        }
        Ok(())
    }

    /// The body of the message `uuid`; fails with `MsgNotFound` when there is none.
    pub fn get(&mut self, uuid: Uuid) -> (r: Result<Vec<u8>, MemDbError>)
        requires
            old(self).wf(),
        ensures
            *final(self) == *old(self),
            match old(self).body(uuid) {
                Some(b) => r matches Ok(m) && m@ == b,
                None => r matches Err(e) && e.error_ty == MemDbErrorTy::MsgNotFound,
            },
    {
        let i = find_entry(&self.msgs, &uuid);
        proof {
            lemma_index_bodies(self.msgs@, uuid);
            lemma_value_at(bodies(self.msgs@), uuid);
        }
        if i < self.msgs.len() {
            Ok(copy_bytes(&self.msgs[i].1))
        } else {
            Err(MemDbError::new(MemDbErrorTy::MsgNotFound, "src/database.rs", 0, None))
        }
    }

    /// Forgets the message `uuid`.
    pub fn del(&mut self, uuid: Uuid) -> (r: Result<(), MemDbError>)
        requires
            old(self).wf(),
        ensures
            final(self).wf(),
            r is Ok,
            forall|v: Uuid|
                #![trigger final(self).body(v)]
                #![trigger final(self).size(v)]
                final(self).body(v) == (if same_msg(uuid, v) {
                    None
                } else {
                    old(self).body(v)
                }) && final(self).size(v) == (if same_msg(uuid, v) {
                    None
                } else {
                    old(self).size(v)
                }),
    {
        let ghost before = bodies(self.msgs@);
        let ghost sizes = self.byte_size_data@;
        let i = find_entry(&self.msgs, &uuid);
        proof {
            lemma_index_bodies(self.msgs@, uuid);
        }
        if i < self.msgs.len() {
            self.msgs.remove(i);
            assert(bodies(self.msgs@) =~= before.remove(i as int));
        }
        let j = find_entry(&self.byte_size_data, &uuid);
        if j < self.byte_size_data.len() {
            self.byte_size_data.remove(j);
        }
        proof {
            assert forall|v: Uuid|
                #![trigger self.body(v)]
                #![trigger self.size(v)]
                self.body(v) == (if same_msg(uuid, v) {
                    None
                } else {
                    value_of(before, v)
                }) && self.size(v) == (if same_msg(uuid, v) {
                    None
                } else {
                    value_of(sizes, v)
                }) by {
                lemma_remove_entry(before, uuid, v);
                lemma_remove_entry(sizes, uuid, v);
            }
            lemma_remove_entry(before, uuid, uuid);
            lemma_remove_entry(sizes, uuid, uuid);
        }
        Ok(())
    }

    /// What the database offers to rebuild a store from: an in-memory database
    /// holds nothing across restarts, so nothing.
    pub fn fetch(&mut self) -> (r: Result<Vec<(Uuid, u64)>, MemDbError>)
        ensures
            *final(self) == *old(self),
            r matches Ok(v) && v@.len() == 0,
    {
        Ok(Vec::new())
    }
}

} // verus!
