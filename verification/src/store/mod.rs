//! The message store: priority groups with size limits, and the rules that
//! decide which messages are forwarded first and which are burned to make room.
//!
//! Messages are forwarded on a highest priority then oldest basis, and burned
//! on a lowest priority then oldest basis. Messages are only burned once the
//! store (or a group) would go past its size limit; a message never burns a
//! message of higher priority to make room for itself.
pub mod base;
pub mod laws;
pub mod lemmas;
pub mod model;
pub mod order;
pub mod query_laws;
pub mod uuid;

pub use crate::store::base::Store;

use crate::store::lemmas::{
    lemma_msgs_total_at_least, lemma_msgs_total_split, lemma_pos_of_unique,
    lemma_prune_count, lemma_prune_count_step,
};
use crate::store::model::{
    groups_total, ids_of, msgs_total, pos_of, prune_count, prune_groups, GroupView, MsgV, };
use crate::store::uuid::{Uuid, UuidManagerError};
use std::sync::Arc;
use vstd::prelude::*;

verus! {

/// The kinds of store failure.
#[derive(Debug, Clone, Copy, PartialEq, Eq, Structural)]
pub enum StoreErrorTy {
    /// The message is larger than the store's limit.
    ExceedesStoreMax,
    /// The message is larger than its group's limit.
    ExceedesGroupMax,
    /// The store cannot hold the message without burning messages of higher priority.
    LacksPriority,
    /// The store's records disagree with each other, or with the request.
    SyncError,
    /// No id could be made.
    UuidManagerError(UuidManagerError),
}

/// A store failure.
#[derive(Debug, PartialEq, Eq)]
pub struct StoreError {
    pub err_ty: StoreErrorTy,
    pub msg: Option<String>,
}

/// Whether a message has been deleted.
pub enum Deleted {
    True,
    False,
}

/// The store's own defaults.
pub struct StoreDefaults {
    pub max_byte_size: Option<u64>,
}

/// The defaults for one priority group.
#[derive(Debug, Clone, Copy, PartialEq, Eq, Structural)]
pub struct GroupDefaults {
    pub max_byte_size: Option<u64>,
}

/// A priority group: its size limit, its size, and its messages oldest first.
pub struct Group {
    pub max_byte_size: Option<u64>,
    pub byte_size: u64,
    pub msgs_map: Vec<(Uuid, u64)>,
}

/// The id, priority and size of a stored message.
#[derive(Debug, PartialEq, Eq, Clone)]
pub struct PacketMetaData {
    pub uuid: Arc<Uuid>,
    pub priority: u32,
    pub byte_size: u64,
}

/// What an insert reports: the new message's id, and what was burned to make room.
pub struct AddResult {
    pub uuid: Arc<Uuid>,
    pub bytes_removed: u64,
    pub groups_removed: Vec<u32>,
    pub msgs_removed: Vec<Arc<Uuid>>,
}

/// The messages burned from one group.
pub struct RemovedMsgs {
    pub priority: u32,
    pub msgs: Vec<Uuid>,
}

impl RemovedMsgs {
    pub fn new(priority: u32) -> (r: RemovedMsgs)
        ensures
            r.priority == priority,
            r.msgs@ == Seq::<Uuid>::empty(),
    {
        RemovedMsgs { priority, msgs: Vec::new() }
    }

    pub fn add(&mut self, uuid: Uuid)
        ensures
            final(self).priority == old(self).priority,
            final(self).msgs@ == old(self).msgs@.push(uuid),
    {
        self.msgs.push(uuid);
    }
}

impl Group {
    /// The group's messages, oldest first.
    pub open spec fn msgs(&self) -> Seq<MsgV> {
        self.msgs_map@
    }

    /// The group's size matches its messages.
    pub open spec fn sized(&self) -> bool {
        self.byte_size == msgs_total(self.msgs_map@)
    }

    /// An empty group with the given limit.
    pub fn new(max_byte_size: Option<u64>) -> (g: Group)
        ensures
            g.max_byte_size == max_byte_size,
            g.byte_size == 0,
            g.msgs() == Seq::<MsgV>::empty(),
            g.sized(),
    {
        Group { max_byte_size, byte_size: 0, msgs_map: Vec::new() }
    }

    /// Takes the limit from the group defaults.
    pub fn update_from_config(&mut self, defaults: GroupDefaults)
        ensures
            final(self).max_byte_size == defaults.max_byte_size,
            final(self).byte_size == old(self).byte_size,
            final(self).msgs() == old(self).msgs(),
    {
        self.max_byte_size = defaults.max_byte_size;
    }

    /// The number of messages in the group.
    pub fn msg_count(&self) -> (n: usize)
        ensures
            n == self.msgs().len(),
    {
        self.msgs_map.len()
    }

    /// The id and size of the `i`-th message, oldest first.
    pub fn msg_at(&self, i: usize) -> (m: (Uuid, u64))
        requires
            i < self.msgs().len(),
        ensures
            m == self.msgs()[i as int],
    {
        self.msgs_map[i]
    }
}

pub open spec fn view_of_group(e: (u32, Group)) -> GroupView {
    GroupView { priority: e.0, max_byte_size: e.1.max_byte_size, msgs: e.1.msgs() }
}

pub open spec fn groups_view(v: Seq<(u32, Group)>) -> Seq<GroupView> {
    v.map_values(|e: (u32, Group)| view_of_group(e))
}

pub open spec fn groups_sized(v: Seq<(u32, Group)>) -> bool {
    forall|i: int| 0 <= i < v.len() ==> (#[trigger] v[i]).1.sized()
}

/// Removes the oldest messages of `g` so that `cur`, less what goes, is at most
/// `limit` (or all of them); gives back the bytes and the ids that went.
fn prune_front(g: &mut Group, cur: u64, limit: u64) -> (res: (u64, Vec<Uuid>))
    requires
        old(g).sized(),
        cur >= msgs_total(old(g).msgs()),
    ensures
        ({
            let ms = old(g).msgs();
            let k = prune_count(ms, cur as int, limit as int);
            &&& final(g).msgs() == ms.skip(k as int)
            &&& final(g).max_byte_size == old(g).max_byte_size
            &&& final(g).sized()
            &&& res.0 == msgs_total(ms.take(k as int))
            &&& res.1@ == ids_of(ms.take(k as int))
        }),
{
    let ghost ms = g.msgs();
    let mut i: usize = 0;
    let mut rem: u64 = cur;
    let mut bytes: u64 = 0;
    let mut ids: Vec<Uuid> = Vec::new();
    proof {
        lemma_msgs_total_split(ms, 0);
        assert(ms.take(0) =~= Seq::<MsgV>::empty());
        assert(ms.skip(0) =~= ms);
        assert(ids_of(ms.take(0)) =~= Seq::<Uuid>::empty());
    }
    while i < g.msgs_map.len() && rem > limit
        invariant
            g.msgs() == ms,
            g.sized(),
            cur >= msgs_total(ms),
            i <= ms.len(),
            rem == cur - msgs_total(ms.take(i as int)),
            bytes == msgs_total(ms.take(i as int)),
            ids@ == ids_of(ms.take(i as int)),
            prune_count(ms, cur as int, limit as int) == i + prune_count(
                ms.skip(i as int),
                rem as int,
                limit as int,
            ),
            msgs_total(ms.skip(i as int)) <= rem,
        decreases ms.len() - i,
    {
        let (u, sz) = g.msgs_map[i];
        proof {
            lemma_prune_count_step(ms, i as int, rem as int, limit as int);
            assert(ms.skip(i as int)[0] == ms[i as int]);
            lemma_msgs_total_at_least(ms.skip(i as int), 0);
            assert(ms.take(i as int + 1) =~= ms.take(i as int).push(ms[i as int]));
            crate::store::lemmas::lemma_msgs_total_push(ms.take(i as int), ms[i as int]);
            lemma_msgs_total_split(ms, i as int);
            lemma_msgs_total_split(ms, i as int + 1);
            assert(ids_of(ms.take(i as int + 1)) =~= ids_of(ms.take(i as int)).push(u));
        }
        rem = rem - sz;
        bytes = bytes + sz;
        ids.push(u);
        i = i + 1;
    }
    proof {
        if i == ms.len() {
            assert(ms.skip(i as int).len() == 0);
        }
        lemma_msgs_total_split(ms, i as int);
    }
    let kept = g.msgs_map.split_off(i);
    g.msgs_map = kept;
    g.byte_size = g.byte_size - bytes;
    (bytes, ids)
}

/// Prunes the groups of priority at most `p`, lowest priority and oldest message
/// first, until the store's size `cur` is at most `limit`; groups that lose all
/// their messages go. Gives back the bytes, the ids and the priorities that went.
fn prune_groups_exec(groups: &mut Vec<(u32, Group)>, cur: u64, limit: u64, p: u32) -> (res: (
    u64,
    Vec<Uuid>,
    Vec<u32>,
))
    requires
        groups_sized(old(groups)@),
        cur >= groups_total(groups_view(old(groups)@)),
    ensures
        ({
            let po = prune_groups(groups_view(old(groups)@), cur as int, limit as int, p);
            &&& groups_view(final(groups)@) == po.kept
            &&& groups_sized(final(groups)@)
            &&& res.0 == po.bytes
            &&& res.1@ == po.removed
            &&& res.2@ == po.groups_removed
        }),
{
    let ghost v0 = groups_view(groups@);
    let ghost po = prune_groups(v0, cur as int, limit as int, p);
    let mut i: usize = 0;
    let mut emptied: usize = 0;
    let mut rem: u64 = cur;
    let mut bytes: u64 = 0;
    let mut removed: Vec<Uuid> = Vec::new();
    let mut gremoved: Vec<u32> = Vec::new();
    proof {
        assert(v0.skip(0) =~= v0);
        assert(groups_view(groups@).subrange(0, 0) =~= Seq::<GroupView>::empty());
    }
    while i < groups.len() && groups[i].0 <= p && rem > limit
        invariant
            groups@.len() == v0.len(),
            emptied <= i <= v0.len(),
            groups_view(groups@).skip(i as int) == v0.skip(i as int),
            groups_sized(groups@),
            emptied == i || (emptied + 1 == i && rem <= limit),
            po == prune_groups(v0, cur as int, limit as int, p),
            po.kept == groups_view(groups@).subrange(emptied as int, i as int) + prune_groups(
                v0.skip(i as int),
                rem as int,
                limit as int,
                p,
            ).kept,
            po.removed == removed@ + prune_groups(
                v0.skip(i as int),
                rem as int,
                limit as int,
                p,
            ).removed,
            po.groups_removed == gremoved@ + prune_groups(
                v0.skip(i as int),
                rem as int,
                limit as int,
                p,
            ).groups_removed,
            po.bytes == bytes + prune_groups(v0.skip(i as int), rem as int, limit as int, p).bytes,
            rem + bytes == cur,
            rem >= groups_total(v0.skip(i as int)),
        decreases v0.len() - i,
    {
        let ghost gv_before = groups_view(groups@);
        let ghost g0 = v0[i as int];
        let ghost pr = prune_groups(v0.skip(i as int), rem as int, limit as int, p);
        let ghost k = prune_count(g0.msgs, rem as int, limit as int);
        proof {
            assert(v0.skip(i as int)[0] == v0[i as int]);
            assert(gv_before[i as int] == gv_before.skip(i as int)[0]);
            assert(v0.skip(i as int).drop_first() =~= v0.skip(i as int + 1));
            crate::store::lemmas::lemma_groups_total_split(v0.skip(i as int), 1);
            assert(v0.skip(i as int).take(1) =~= seq![g0]);
            crate::store::lemmas::lemma_groups_total_single(g0);
            assert(v0.skip(i as int).skip(1) =~= v0.skip(i as int + 1));
            lemma_prune_count(g0.msgs, rem as int, limit as int);
            lemma_msgs_total_split(g0.msgs, k as int);
            assert(groups@[i as int].1.msgs() == g0.msgs);
        }
        let (b, mut ids) = prune_front(&mut groups[i].1, rem, limit);
        let ghost pr2 = prune_groups(v0.skip(i as int + 1), (rem - b) as int, limit as int, p);
        proof {
            assert(pr.removed == ids@ + pr2.removed);
            assert(pr.bytes == b + pr2.bytes);
        }
        let now_empty = groups[i].1.msgs_map.len() == 0;
        if now_empty {
            gremoved.push(groups[i].0);
            emptied = emptied + 1;
        }
        removed.append(&mut ids);
        rem = rem - b;
        bytes = bytes + b;
        i = i + 1;
        proof {
            let gv = groups_view(groups@);
            assert(gv =~= gv_before.update(i - 1, gv[i - 1]));
            assert(gv.skip(i as int) =~= v0.skip(i as int)) by {
                assert forall|j: int| 0 <= j < gv.skip(i as int).len() implies gv.skip(
                    i as int,
                )[j] == v0.skip(i as int)[j] by {
                    assert(gv.skip(i as int)[j] == gv_before.skip(i as int - 1)[j + 1]);
                }
            }
            if now_empty {
                assert(gv.subrange(emptied as int, i as int) =~= Seq::<GroupView>::empty());
                assert(gv_before.subrange(emptied - 1, i - 1) =~= Seq::<GroupView>::empty());
            } else {
                assert(gv.subrange(emptied as int, i as int) =~= seq![gv[i - 1]]);
                assert(gv_before.subrange(emptied as int, i - 1) =~= Seq::<GroupView>::empty());
            }
        }
    }
    let ghost gv_end = groups_view(groups@);
    let ghost g_end = groups@;
    proof {
        assert(gv_end.subrange(emptied as int, i as int) + v0.skip(i as int) =~= gv_end.skip(
            emptied as int,
        ));
    }
    let kept = groups.split_off(emptied);
    *groups = kept;
    proof {
        assert(groups@ =~= g_end.skip(emptied as int));
        assert(groups_view(groups@) =~= gv_end.skip(emptied as int));
        assert forall|j: int| 0 <= j < groups@.len() implies (#[trigger] groups@[j]).1.sized() by {
            assert(groups@[j] == g_end[j + emptied]);
        }
    }
    (bytes, removed, gremoved)
}

/// Where a group of priority `p` stands among the groups, or would be inserted.
fn find_pos(groups: &Vec<(u32, Group)>, p: u32) -> (i: usize)
    requires
        crate::store::model::groups_sorted(groups_view(groups@)),
    ensures
        i == pos_of(groups_view(groups@), p),
        i <= groups@.len(),
{
    let ghost gv = groups_view(groups@);
    let mut i: usize = 0;
    while i < groups.len() && groups[i].0 < p
        invariant
            gv == groups_view(groups@),
            i <= groups@.len(),
            forall|j: int| 0 <= j < i ==> (#[trigger] gv[j]).priority < p,
        decreases groups@.len() - i,
    {
        i = i + 1;
    }
    proof {
        lemma_pos_of_unique(gv, p, i as int);
    }
    i
}

} // verus!
