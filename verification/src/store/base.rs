//! The store itself: its groups, its defaults and its limits, and the
//! operations that insert, find, delete and burn messages.
use crate::store::lemmas::{
    lemma_default_pos_unique, lemma_group_wf_remove, lemma_group_wf_skip,
    lemma_groups_total_remove, lemma_groups_total_split, lemma_groups_total_update,
    lemma_groups_wf_remove, lemma_groups_wf_update, lemma_msgs_total_remove,
    lemma_all_meta_push, lemma_insert_wf, lemma_remove_default_sorted, lemma_set_default_sorted, lemma_keep_ids_append, lemma_keep_ids_push, lemma_msg_index, lemma_msg_index_unique, lemma_msg_pos_unique,
    lemma_msgs_total_insert, lemma_msgs_total_split, lemma_pos_of, lemma_prune_count, lemma_prune_groups_no_group, lemma_prune_groups_total,
    lemma_prune_groups_wf, lemma_with_group, lemma_without_group,
};
use crate::store::model::{
    add_spec, all_meta, make_room_spec, contains_msg, del_spec, delete_group_spec, empty_store, meta_of,
    metadata_spec, update_group_spec, update_store_spec, forward_ids, get_n_keeps, get_n_spec, get_spec,
    keep_ids, default_of, default_pos, defaults_sorted, group_at, group_room,
    group_wf, groups_sorted, groups_total, has_group, higher_total, ids_of, msg_pos, msgs_total, pos_of, prune_count, prune_groups, store_total, store_wf,
    target_group, with_group, without_group, AddView, GroupView, MsgV, StoreFailure, StoreView,
};
use crate::store::uuid::{made_before, same_msg, Uuid, UuidManager, UuidManagerError};
use crate::store::{
    find_pos, groups_sized, groups_view, prune_front, prune_groups_exec, view_of_group, AddResult,
    Group, GroupDefaults, PacketMetaData, StoreDefaults, StoreError, StoreErrorTy,
};
use std::sync::Arc;
use vstd::prelude::*;

verus! {

/// The message store: it keeps the ids and sizes of the messages in priority
/// groups, and decides which message is forwarded next and which are burned to
/// make room.
pub struct Store {
    max_byte_size: Option<u64>,
    byte_size: u64,
    group_defaults: Vec<(u32, GroupDefaults)>,
    uuid_manager: UuidManager,
    groups_map: Vec<(u32, Group)>,
}

/// The group defaults as (priority, limit) pairs.
pub open spec fn defaults_view(v: Seq<(u32, GroupDefaults)>) -> Seq<(u32, Option<u64>)> {
    v.map_values(|e: (u32, GroupDefaults)| (e.0, e.1.max_byte_size))
}

impl View for Store {
    type V = StoreView;

    closed spec fn view(&self) -> StoreView {
        StoreView {
            max_byte_size: self.max_byte_size,
            defaults: defaults_view(self.group_defaults@),
            groups: groups_view(self.groups_map@),
        }
    }
}

/// Where the default of priority `p` stands among the defaults, or would be inserted.
fn find_default_pos(ds: &Vec<(u32, GroupDefaults)>, p: u32) -> (i: usize)
    requires
        defaults_sorted(defaults_view(ds@)),
    ensures
        i == default_pos(defaults_view(ds@), p),
        i <= ds@.len(),
{
    let ghost dv = defaults_view(ds@);
    let mut i: usize = 0;
    while i < ds.len() && ds[i].0 < p
        invariant
            dv == defaults_view(ds@),
            i <= ds@.len(),
            forall|j: int| 0 <= j < i ==> (#[trigger] dv[j]).0 < p,
        decreases ds@.len() - i,
    {
        i = i + 1;
    }
    proof {
        lemma_default_pos_unique(dv, p, i as int);
    }
    i
}

/// The defaults set for priority `p`, if any.
fn find_default(ds: &Vec<(u32, GroupDefaults)>, p: u32) -> (r: Option<GroupDefaults>)
    requires
        defaults_sorted(defaults_view(ds@)),
    ensures
        match r {
            Some(d) => default_of(defaults_view(ds@), p) == Some(d.max_byte_size),
            None => default_of(defaults_view(ds@), p) is None,
        },
{
    let i = find_default_pos(ds, p);
    if i < ds.len() && ds[i].0 == p {
        Some(ds[i].1)
    } else {
        None
    }
}

/// Puts the group `g` of priority `p` back among the groups, where it belongs.
fn put_group(groups: &mut Vec<(u32, Group)>, p: u32, g: Group)
    requires
        groups_sorted(groups_view(old(groups)@)),
        !has_group(groups_view(old(groups)@), p),
    ensures
        groups_view(final(groups)@) == with_group(
            groups_view(old(groups)@),
            view_of_group((p, g)),
        ),
        groups_sized(old(groups)@) && g.sized() ==> groups_sized(final(groups)@),
{
    let ghost old_v = groups@;
    let i = find_pos(groups, p);
    groups.insert(i, (p, g));
    proof {
        assert(groups_view(groups@) =~= groups_view(old_v).insert(i as int, view_of_group((p, g))));
        if groups_sized(old_v) && g.sized() {
            assert forall|j: int| 0 <= j < groups@.len() implies (#[trigger] groups@[j]).1.sized() by {
                if j < i {
                    assert(groups@[j] == old_v[j]);
                } else if j > i {
                    assert(groups@[j] == old_v[j - 1]);
                }
            }
        }
    }
}

/// Whether the message that `u` names is among the groups.
fn holds_msg(groups: &Vec<(u32, Group)>, u: &Uuid) -> (r: bool)
    requires
        groups_sorted(groups_view(groups@)),
    ensures
        r == contains_msg(groups_view(groups@), *u),
{
    let ghost gv = groups_view(groups@);
    let i = find_pos(groups, u.priority);
    if i < groups.len() && groups[i].0 == u.priority {
        let g = &groups[i].1;
        let ghost ms = g.msgs();
        assert(group_at(gv, u.priority).msgs == ms);
        let mut k: usize = 0;
        while k < g.msgs_map.len() && !g.msgs_map[k].0.same_msg(u)
            invariant
                ms == g.msgs(),
                k <= ms.len(),
                forall|j: int| 0 <= j < k ==> !same_msg((#[trigger] ms[j]).0, *u),
            decreases ms.len() - k,
        {
            k = k + 1;
        }
        proof {
            lemma_msg_index_unique(ms, *u, k as int);
        }
        k < g.msgs_map.len()
    } else {
        false
    }
}

/// The bytes held by the groups from the place of priority `p` on.
fn higher_total_exec(groups: &Vec<(u32, Group)>, p: u32) -> (t: u64)
    requires
        groups_sorted(groups_view(groups@)),
        groups_sized(groups@),
        groups_total(groups_view(groups@)) <= u64::MAX,
    ensures
        t == higher_total(groups_view(groups@), p),
{
    let ghost gv = groups_view(groups@);
    let i = find_pos(groups, p);
    let mut j: usize = groups.len();
    let mut t: u64 = 0;
    proof {
        assert(gv.skip(j as int) =~= Seq::<GroupView>::empty());
    }
    while j > i
        invariant
            gv == groups_view(groups@),
            groups_sized(groups@),
            groups_total(gv) <= u64::MAX,
            i <= j <= gv.len(),
            t == groups_total(gv.skip(j as int)),
        decreases j,
    {
        j = j - 1;
        proof {
            assert(gv.skip(j as int).drop_first() =~= gv.skip(j as int + 1));
            assert(gv.skip(j as int)[0] == gv[j as int]);
            assert(groups@[j as int].1.sized());
            lemma_groups_total_split(gv, j as int);
            assert(groups_total(gv.skip(j as int)) == msgs_total(gv[j as int].msgs) + t);
        }
        t = t + groups[j].1.byte_size;
    }
    t
}

/// Where a message `u` goes among the messages of `g`, kept oldest first.
fn find_insert_pos(g: &Group, u: &Uuid) -> (i: usize)
    ensures
        i == msg_pos(g.msgs(), *u),
        i <= g.msgs().len(),
{
    let ghost ms = g.msgs();
    let mut i: usize = 0;
    while i < g.msgs_map.len() && g.msgs_map[i].0.made_before(u)
        invariant
            ms == g.msgs(),
            i <= ms.len(),
            forall|j: int| 0 <= j < i ==> made_before((#[trigger] ms[j]).0, *u),
        decreases ms.len() - i,
    {
        i = i + 1;
    }
    proof {
        lemma_msg_pos_unique(ms, *u, i as int);
    }
    i
}

/// The ids that a list of shared ids names.
pub open spec fn ids_view(v: Seq<Arc<Uuid>>) -> Seq<Uuid> {
    v.map_values(|a: Arc<Uuid>| *a)
}

/// Appends the ids of `ids`, each shared, to `out`.
fn push_shared(out: &mut Vec<Arc<Uuid>>, ids: &Vec<Uuid>)
    ensures
        ids_view(final(out)@) == ids_view(old(out)@) + ids@,
{
    let ghost start = ids_view(out@);
    let mut i: usize = 0;
    while i < ids.len()
        invariant
            i <= ids@.len(),
            ids_view(out@) == start + ids@.take(i as int),
        decreases ids@.len() - i,
    {
        let ghost before = out@;
        out.push(Arc::new(ids[i]));
        proof {
            assert(ids_view(out@) =~= ids_view(before).push(ids@[i as int]));
            assert(ids@.take(i as int + 1) =~= ids@.take(i as int).push(ids@[i as int]));
        }
        i = i + 1;
    }
    assert(ids@.take(i as int) =~= ids@);
}

/// The error kind that the store reports for a failure of the model.
pub open spec fn failure_ty(f: StoreFailure) -> StoreErrorTy {
    match f {
        StoreFailure::ExceedesStoreMax => StoreErrorTy::ExceedesStoreMax,
        StoreFailure::ExceedesGroupMax => StoreErrorTy::ExceedesGroupMax,
        StoreFailure::LacksPriority => StoreErrorTy::LacksPriority,
        StoreFailure::SyncError => StoreErrorTy::SyncError,
    }
}

/// What an insert report says.
pub open spec fn add_view(a: AddResult) -> AddView {
    AddView {
        uuid: *a.uuid,
        bytes_removed: a.bytes_removed as nat,
        msgs_removed: ids_view(a.msgs_removed@),
        groups_removed: a.groups_removed@,
    }
}

/// Whether `r` is the outcome `v` of the model.
pub open spec fn add_outcome(r: Result<AddResult, StoreError>, v: Result<AddView, StoreFailure>) -> bool {
    match v {
        Ok(av) => r matches Ok(a) && add_view(a) == av,
        Err(f) => r matches Err(e) && e.err_ty == failure_ty(f),
    }
}

/// The id that an optional shared id names.
pub open spec fn opt_id(o: Option<Arc<Uuid>>) -> Option<Uuid> {
    match o {
        Some(a) => Some(*a),
        None => None,
    }
}

/// Whether `r` is the outcome `v` of the model for `get`.
pub open spec fn get_outcome(r: Result<Option<Arc<Uuid>>, StoreError>, v: Result<Option<Uuid>, StoreFailure>) -> bool {
    match v {
        Ok(o) => r matches Ok(x) && opt_id(x) == o,
        Err(f) => r matches Err(e) && e.err_ty == failure_ty(f),
    }
}

/// The ids of all messages in forwarding order: highest priority first, oldest
/// first within a priority.
fn forward_order(groups: &Vec<(u32, Group)>) -> (v: Vec<Uuid>)
    ensures
        v@ == forward_ids(groups_view(groups@)),
{
    let ghost gv = groups_view(groups@);
    let mut v: Vec<Uuid> = Vec::new();
    let mut j: usize = groups.len();
    assert(gv.skip(j as int) =~= Seq::<GroupView>::empty());
    while j > 0
        invariant
            gv == groups_view(groups@),
            j <= gv.len(),
            v@ == forward_ids(gv.skip(j as int)),
        decreases j,
    {
        j = j - 1;
        let g = &groups[j].1;
        let ghost ms = g.msgs();
        let ghost base = v@;
        proof {
            assert(gv.skip(j as int).drop_first() =~= gv.skip(j as int + 1));
            assert(gv.skip(j as int)[0].msgs == ms);
            assert(ids_of(ms.take(0)) =~= Seq::<Uuid>::empty());
        }
        let mut k: usize = 0;
        while k < g.msgs_map.len()
            invariant
                ms == g.msgs(),
                k <= ms.len(),
                v@ == base + ids_of(ms.take(k as int)),
            decreases ms.len() - k,
        {
            v.push(g.msgs_map[k].0);
            proof {
                assert(ids_of(ms.take(k as int + 1)) =~= ids_of(ms.take(k as int)).push(ms[k as int].0));
            }
            k = k + 1;
        }
        assert(ms.take(k as int) =~= ms);
    }
    assert(gv.skip(0) =~= gv);
    v
}

/// The ids of `v` in the opposite order.
fn reversed(v: &Vec<Uuid>) -> (r: Vec<Uuid>)
    ensures
        r@ == v@.reverse(),
{
    let mut r: Vec<Uuid> = Vec::new();
    let n = v.len();
    let mut i: usize = 0;
    while i < n
        invariant
            n == v@.len(),
            i <= n,
            r@.len() == i,
            forall|k: int| 0 <= k < i ==> r@[k] == v@[n - 1 - k],
        decreases n - i,
    {
        r.push(v[n - 1 - i]);
        i = i + 1;
    }
    if n == 0 {
        assert(r@ =~= v@.reverse());
    } else {
        assert(r@ =~= v@.reverse());
    }
    r
}

/// Whether `u` passes the filters of `get_n`.
fn keeps_id(u: &Uuid, starting_priority: Option<u32>, after: Option<Uuid>) -> (b: bool)
    ensures
        b == get_n_keeps(*u, starting_priority, after),
{
    let below = match starting_priority {
        Some(sp) => u.priority <= sp,
        None => true,
    };
    let later = match after {
        Some(a) => u.priority < a.priority || (u.priority == a.priority && (u.timestamp
            > a.timestamp || (u.timestamp == a.timestamp && u.sequence > a.sequence))),
        None => true,
    };
    below && later
}

/// What a metadata entry says: id, priority and size.
pub open spec fn meta_view(m: PacketMetaData) -> (Uuid, u32, u64) {
    (*m.uuid, m.priority, m.byte_size)
}

/// What a list of metadata entries says.
pub open spec fn metas_view(v: Seq<PacketMetaData>) -> Seq<(Uuid, u32, u64)> {
    v.map_values(|m: PacketMetaData| meta_view(m))
}

/// Appends the metadata of the messages of group `g` of priority `p`.
fn push_group_meta(out: &mut Vec<(Uuid, u32, u64)>, p: u32, g: &Group)
    ensures
        final(out)@ == old(out)@ + meta_of(view_of_group((p, *g))),
{
    let ghost base = out@;
    let ghost gv = view_of_group((p, *g));
    let mut k: usize = 0;
    assert(meta_of(gv).take(0) =~= Seq::<(Uuid, u32, u64)>::empty());
    assert(base + meta_of(gv).take(0) =~= base);
    while k < g.msgs_map.len()
        invariant
            gv == view_of_group((p, *g)),
            k <= gv.msgs.len(),
            out@ == base + meta_of(gv).take(k as int),
        decreases gv.msgs.len() - k,
    {
        let (u, sz) = g.msgs_map[k];
        out.push((u, p, sz));
        proof {
            assert(meta_of(gv).take(k as int + 1) =~= meta_of(gv).take(k as int).push((u, p, sz)));
        }
        k = k + 1;
    }
    assert(meta_of(gv).take(k as int) =~= meta_of(gv));
}

/// Whether `u` is an id made after the one whose timestamp and sequence are
/// `last`: a new timestamp starts the sequence at 1, the same timestamp takes
/// the next sequence number; so `u` is never that last id.
pub open spec fn made_after(last: (u128, u32), u: Uuid) -> bool {
    &&& u.sequence == if u.timestamp == last.0 {
        last.1 + 1
    } else {
        1
    }
    &&& !(u.timestamp == last.0 && u.sequence == last.1)
}

impl Store {
    /// The store's records agree with each other: groups in ascending priority,
    /// each holding messages of its priority oldest first, sizes that add up, and
    /// defaults in ascending priority.
    pub closed spec fn wf(&self) -> bool {
        &&& store_wf(self@)
        &&& groups_sized(self.groups_map@)
        &&& self.byte_size == store_total(self@)
    }

    /// The node that the store's ids name.
    pub closed spec fn node_id(&self) -> u32 {
        self.uuid_manager.node_id
    }

    /// The timestamp and sequence number of the last id that the store made (of
    /// the clock reading it started from, before it made any).
    pub closed spec fn last_id(&self) -> (u128, u32) {
        (self.uuid_manager.timestamp, self.uuid_manager.sequence)
    }

    /// A well-formed store's view is well-formed, so the laws about the model
    /// apply to it.
    pub proof fn lemma_wf(&self)
        requires
            self.wf(),
        ensures
            store_wf(self@),
    {
    }

    /// Takes the group of priority `p` out of the store, or makes a new empty one
    /// with the default limit for `p`. The store's size still counts the group.
    fn take_group(&mut self, p: u32) -> (g: Group)
        requires
            old(self).wf(),
        ensures
            view_of_group((p, g)) == target_group(old(self)@, p),
            g.sized(),
            groups_view(final(self).groups_map@) == without_group(old(self)@.groups, p),
            groups_sized(final(self).groups_map@),
            final(self).max_byte_size == old(self).max_byte_size,
            final(self).byte_size == old(self).byte_size,
            final(self).group_defaults == old(self).group_defaults,
            final(self).uuid_manager == old(self).uuid_manager,
    {
        let ghost gv = groups_view(self.groups_map@);
        let ghost old_g = self.groups_map@;
        let i = find_pos(&self.groups_map, p);
        if i < self.groups_map.len() && self.groups_map[i].0 == p {
            let (_, g) = self.groups_map.remove(i);
            proof {
                assert(groups_view(self.groups_map@) =~= gv.remove(i as int));
                assert forall|j: int| 0 <= j < self.groups_map@.len() implies (
                #[trigger] self.groups_map@[j]).1.sized() by {
                    if j < i {
                        assert(self.groups_map@[j] == old_g[j]);
                    } else {
                        assert(self.groups_map@[j] == old_g[j + 1]);
                    }
                }
                assert(old_g[i as int].1.sized());
            }
            g
        } else {
            let d = find_default(&self.group_defaults, p);
            let m = match d {
                Some(d) => d.max_byte_size,
                None => None,
            };
            let g = Group::new(m);
            assert(g.msgs() =~= Seq::<crate::store::model::MsgV>::empty());
            g
        }
    }

    /// Puts a group that `take_group` took back in its place.
    fn return_group(&mut self, p: u32, g: Group)
        requires
            store_wf((StoreView { groups: groups_view(old(self).groups_map@), ..old(self)@ })),
            !has_group(groups_view(old(self).groups_map@), p),
            groups_sized(old(self).groups_map@),
            g.sized(),
        ensures
            final(self)@ == (StoreView {
                groups: with_group(groups_view(old(self).groups_map@), view_of_group((p, g))),
                ..old(self)@
            }),
            final(self).byte_size == old(self).byte_size,
            final(self).uuid_manager == old(self).uuid_manager,
            groups_sized(final(self).groups_map@),
    {
        put_group(&mut self.groups_map, p, g);
    }

    /// Inserts a message under an id that the store does not hold, with the
    /// given size. (A second message under a held id would be counted twice in
    /// the sizes while only one of them could be found, deleted or burned; the
    /// caller keeps such ids out, as `add` does.)
    ///
    /// Fails, and changes nothing, when the message is larger than the store's
    /// limit. Fails when the message is larger than its group's limit, or than
    /// what the messages of the same or higher priority leave free of the
    /// store's limit; a group made for the message then stays in the store.
    /// Otherwise burns what must go to make room (see `add_spec`) and inserts
    /// the message.
    #[verifier::rlimit(30)]
    pub fn add_with_uuid(&mut self, uuid: Arc<Uuid>, msg_byte_size: u64)
        -> (r: Result<AddResult, StoreError>)
        requires
            old(self).wf(),
            store_total(old(self)@) + msg_byte_size <= u64::MAX,
            !contains_msg(old(self)@.groups, *uuid),
        ensures
            final(self).wf(),
            final(self)@ == add_spec(old(self)@, *uuid, msg_byte_size).0,
            add_outcome(r, add_spec(old(self)@, *uuid, msg_byte_size).1),
            final(self).node_id() == old(self).node_id(),
            final(self).last_id() == old(self).last_id(),
    {
        let u: Uuid = *uuid;
        let x = msg_byte_size;
        let p = u.priority;
        let ghost s = self@;
        if let Some(m) = self.max_byte_size {
            if x > m {
                return Err(StoreError { err_ty: StoreErrorTy::ExceedesStoreMax, msg: None });
            }
        }
        proof {
            lemma_without_group(s.groups, p);
            lemma_pos_of(s.groups, p);
        }
        let g = self.take_group(p);
        let ghost gv = view_of_group((p, g));
        let ghost others = without_group(s.groups, p);
        proof {
            if has_group(s.groups, p) {
                assert(group_wf(s.groups[pos_of(s.groups, p) as int]));
                lemma_msg_index(gv.msgs, u);
            } else {
                assert(gv.msgs.len() == 0);
            }
            assert(group_wf(gv));
            assert(forall|k: int| 0 <= k < gv.msgs.len() ==> !same_msg((#[trigger] gv.msgs[k]).0, u));
            assert(groups_total(others) + msgs_total(gv.msgs) == store_total(s));
        }
        if let Some(gm) = g.max_byte_size {
            if x > gm {
                self.return_group(p, g);
                proof {
                    lemma_with_group(others, gv);
                }
                return Err(StoreError { err_ty: StoreErrorTy::ExceedesGroupMax, msg: None });
            }
        }
        let hi = higher_total_exec(&self.groups_map, p);
        if let Some(m) = self.max_byte_size {
            if hi > m - x {
                self.return_group(p, g);
                proof {
                    lemma_with_group(others, gv);
                }
                return Err(StoreError { err_ty: StoreErrorTy::LacksPriority, msg: None });
            }
        }
        let ghost t = self@;
        proof {
            assert(t == StoreView { groups: others, ..s });
        }
        Ok(self.make_room_and_insert(g, uuid, x))
    }

    /// Makes room for the message `uuid` of `x` bytes in its group `g`, which has
    /// been taken out of the store, and inserts it (see `make_room_spec`).
    #[verifier::rlimit(40)]
    fn make_room_and_insert(&mut self, g: Group, uuid: Arc<Uuid>, x: u64) -> (r: AddResult)
        requires
            store_wf(old(self)@),
            groups_sized(old(self).groups_map@),
            !has_group(old(self)@.groups, uuid.priority),
            old(self).byte_size == groups_total(old(self)@.groups) + msgs_total(g.msgs()),
            old(self).byte_size + x <= u64::MAX,
            g.sized(),
            group_wf(view_of_group((uuid.priority, g))),
            forall|k: int| 0 <= k < g.msgs().len() ==> !same_msg((#[trigger] g.msgs()[k]).0, *uuid),
            g.max_byte_size matches Some(gm) ==> x <= gm,
            old(self).max_byte_size matches Some(m) ==> x <= m,
        ensures
            final(self).wf(),
            final(self).uuid_manager == old(self).uuid_manager,
            final(self)@ == make_room_spec(old(self)@, view_of_group((uuid.priority, g)), *uuid, x).0,
            add_view(r) == make_room_spec(old(self)@, view_of_group((uuid.priority, g)), *uuid, x).1,
    {
        let u: Uuid = *uuid;
        let p = u.priority;
        let ghost t = self@;
        let ghost gv = view_of_group((p, g));
        let mut g = g;
        // the group burns its oldest messages until the new one fits its limit
        let gb = g.byte_size;
        let glim = match g.max_byte_size {
            Some(gm) => gm - x,
            None => gb,
        };
        let ghost k1 = prune_count(gv.msgs, msgs_total(gv.msgs) as int, group_room(gv, x));
        proof {
            lemma_prune_count(gv.msgs, msgs_total(gv.msgs) as int, group_room(gv, x));
            lemma_msgs_total_split(gv.msgs, k1 as int);
        }
        let (b1, ids1) = prune_front(&mut g, gb, glim);
        let ghost g1 = view_of_group((p, g));
        assert(g1 == GroupView { msgs: gv.msgs.skip(k1 as int), ..gv });
        let cur = self.byte_size - b1;
        // the store burns messages of priority at most `p` until the new one fits its limit
        let lim = match self.max_byte_size {
            Some(m) => m - x,
            None => cur,
        };
        proof {
            lemma_prune_groups_total(t.groups, cur as int, lim as int, p);
            lemma_prune_groups_wf(t.groups, cur as int, lim as int, p);
            lemma_prune_groups_no_group(t.groups, cur as int, lim as int, p, p);
        }
        let ghost po = prune_groups(t.groups, cur as int, lim as int, p);
        let (pb, pids, pgs) = prune_groups_exec(&mut self.groups_map, cur, lim, p);
        let ghost k3 = prune_count(g1.msgs, cur - pb, lim as int);
        proof {
            lemma_prune_count(g1.msgs, cur - pb, lim as int);
            lemma_msgs_total_split(g1.msgs, k3 as int);
        }
        let (b3, ids3) = prune_front(&mut g, cur - pb, lim);
        let ghost g2 = view_of_group((p, g));
        assert(g2 == GroupView { msgs: g1.msgs.skip(k3 as int), ..g1 });
        // the message goes in
        proof {
            lemma_group_wf_skip(gv, k1 as int);
            lemma_group_wf_skip(g1, k3 as int);
            assert forall|k: int| 0 <= k < g2.msgs.len() implies !same_msg(
                (#[trigger] g2.msgs[k]).0,
                u,
            ) by {
                assert(g2.msgs[k] == gv.msgs[k + k1 + k3]);
            }
            lemma_insert_wf(g2, u, x);
        }
        let ip = find_insert_pos(&g, &u);
        let ghost before = g.msgs();
        g.msgs_map.insert(ip, (u, x));
        proof {
            lemma_msgs_total_insert(before, ip as int, (u, x));
        }
        g.byte_size = g.byte_size + x;
        let ghost g_fin = view_of_group((p, g));
        assert(g_fin == GroupView { msgs: g2.msgs.insert(msg_pos(g2.msgs, u) as int, (u, x)), ..g2 });
        self.return_group(p, g);
        proof {
            lemma_with_group(po.kept, g_fin);
        }
        self.byte_size = cur - pb - b3 + x;
        let mut msgs_removed: Vec<Arc<Uuid>> = Vec::new();
        push_shared(&mut msgs_removed, &ids1);
        push_shared(&mut msgs_removed, &pids);
        push_shared(&mut msgs_removed, &ids3);
        assert(ids_view(Seq::<Arc<Uuid>>::empty()) =~= Seq::<Uuid>::empty());
        assert(Seq::<Uuid>::empty() + ids1@ =~= ids1@);
        AddResult { uuid, bytes_removed: b1 + pb + b3, groups_removed: pgs, msgs_removed }
    }

    /// An empty store, without limits or defaults, whose ids name the node
    /// `node_id` (0 when absent). Fails when the system clock reads a time before
    /// the Unix epoch.
    pub fn new(node_id: Option<u32>) -> (r: Result<Store, StoreError>)
        ensures
            match r {
                Ok(st) => st.wf() && st@ == empty_store() && st.last_id().1 == 1 && st.node_id() == match node_id {
                    Some(n) => n,
                    None => 0u32,
                },
                Err(e) => e.err_ty == StoreErrorTy::UuidManagerError(
                    UuidManagerError::ClockBeforeEpoch,
                ),
            },
    {
        let uuid_manager = match UuidManager::new(node_id) {
            Ok(m) => m,
            Err(e) => {
                return Err(StoreError { err_ty: StoreErrorTy::UuidManagerError(e), msg: None });
            },
        };
        let st = Store {
            max_byte_size: None,
            byte_size: 0,
            group_defaults: Vec::new(),
            uuid_manager,
            groups_map: Vec::new(),
        };
        proof {
            assert(st@.groups =~= Seq::<GroupView>::empty());
            assert(st@.defaults =~= Seq::<(u32, Option<u64>)>::empty());
        }
        Ok(st)
    }

    /// A new id for a message of the given priority, made from the clock. The
    /// store itself does not change.
    pub fn uuid(&mut self, priority: u32) -> (r: Result<Arc<Uuid>, StoreError>)
        requires
            old(self).wf(),
        ensures
            final(self).wf(),
            final(self)@ == old(self)@,
            final(self).node_id() == old(self).node_id(),
            match r {
                Ok(u) => u.priority == priority && u.node_id == old(self).node_id() && made_after(
                    old(self).last_id(),
                    *u,
                ) && final(self).last_id() == (u.timestamp, u.sequence),
                Err(e) => e.err_ty is UuidManagerError && final(self).last_id() == old(
                    self,
                ).last_id() && (e.err_ty == StoreErrorTy::UuidManagerError(
                    UuidManagerError::SequenceExhausted,
                ) ==> old(self).last_id().1 == u32::MAX),
            },
    {
        match self.uuid_manager.next(priority) {
            Ok(u) => Ok(Arc::new(u)),
            Err(e) => Err(StoreError { err_ty: StoreErrorTy::UuidManagerError(e), msg: None }),
        }
    }

    /// Inserts a message of the given priority and size under a new id (see
    /// `add_with_uuid`). Fails, and changes nothing, when no id can be made, or
    /// with `SyncError` when the store already holds the id that was made.
    pub fn add(&mut self, priority: u32, msg_byte_size: u64) -> (r: Result<AddResult, StoreError>)
        requires
            old(self).wf(),
            store_total(old(self)@) + msg_byte_size <= u64::MAX,
        ensures
            final(self).wf(),
            final(self).node_id() == old(self).node_id(),
            match r {
                Ok(a) => a.uuid.priority == priority && a.uuid.node_id == old(self).node_id()
                    && made_after(old(self).last_id(), *a.uuid) && final(self).last_id() == (
                    a.uuid.timestamp,
                    a.uuid.sequence,
                ) && final(self)@ == add_spec(old(self)@, *a.uuid, msg_byte_size).0
                    && add_spec(old(self)@, *a.uuid, msg_byte_size).1 == Ok::<
                    AddView,
                    StoreFailure,
                >(add_view(a)),
                Err(e) => if e.err_ty is UuidManagerError {
                    final(self)@ == old(self)@ && final(self).last_id() == old(self).last_id() && (
                    e.err_ty == StoreErrorTy::UuidManagerError(
                        UuidManagerError::SequenceExhausted,
                    ) ==> old(self).last_id().1 == u32::MAX)
                } else {
                    exists|u: Uuid|
                        u.priority == priority && u.node_id == old(self).node_id() && made_after(
                            old(self).last_id(),
                            u,
                        ) && final(self).last_id() == (u.timestamp, u.sequence) && final(self)@
                            == add_spec(old(self)@, u, msg_byte_size).0 && #[trigger] add_outcome(
                            r,
                            add_spec(old(self)@, u, msg_byte_size).1,
                        )
                },
            },
    {
        let uuid = self.uuid(priority)?;
        let ghost u = *uuid;
        if holds_msg(&self.groups_map, &*uuid) {
            let r = Err(StoreError { err_ty: StoreErrorTy::SyncError, msg: None });
            proof {
                assert(add_spec(old(self)@, u, msg_byte_size).0 == old(self)@);
                assert(add_outcome(r, add_spec(old(self)@, u, msg_byte_size).1));
            }
            return r;
        }
        let r = self.add_with_uuid(uuid, msg_byte_size);
        proof {
            if r is Err {
                assert(add_outcome(r, add_spec(old(self)@, u, msg_byte_size).1));
            }
        }
        r
    }

    /// Deletes the message that `uuid` names, if the store holds it; its group
    /// goes with it when it was the group's last message.
    pub fn del(&mut self, uuid: Arc<Uuid>) -> (r: Result<(), StoreError>)
        requires
            old(self).wf(),
        ensures
            final(self).wf(),
            final(self)@ == del_spec(old(self)@, *uuid),
            final(self).node_id() == old(self).node_id(),
            final(self).last_id() == old(self).last_id(),
            r is Ok,
    {
        let u: Uuid = *uuid;
        let ghost s = self@;
        let ghost old_g = self.groups_map@;
        let i = find_pos(&self.groups_map, u.priority);
        if !(i < self.groups_map.len() && self.groups_map[i].0 == u.priority) {
            return Ok(());
        }
        let ghost ms = self.groups_map@[i as int].1.msgs();
        let mut k: usize = 0;
        while k < self.groups_map[i].1.msgs_map.len() && !self.groups_map[i].1.msgs_map[k].0.same_msg(&u)
            invariant
                i < self.groups_map@.len(),
                ms == self.groups_map@[i as int].1.msgs(),
                k <= ms.len(),
                forall|j: int| 0 <= j < k ==> !same_msg((#[trigger] ms[j]).0, u),
            decreases ms.len() - k,
        {
            k = k + 1;
        }
        proof {
            lemma_msg_index_unique(ms, u, k as int);
        }
        if k == self.groups_map[i].1.msgs_map.len() {
            return Ok(());
        }
        let (gp, mut g) = self.groups_map.remove(i);
        let (_, sz) = g.msgs_map.remove(k);
        proof {
            lemma_msgs_total_remove(ms, k as int);
            lemma_groups_total_update(s.groups, i as int, GroupView { msgs: ms.remove(k as int), ..s.groups[i as int] });
            lemma_groups_total_remove(s.groups, i as int);
            assert(old_g[i as int].1.sized());
            lemma_group_wf_remove(s.groups[i as int], k as int);
        }
        g.byte_size = g.byte_size - sz;
        self.byte_size = self.byte_size - sz;
        if g.msgs_map.len() == 0 {
            proof {
                lemma_groups_wf_remove(s.groups, i as int);
                assert(groups_view(self.groups_map@) =~= s.groups.remove(i as int));
                assert forall|j: int| 0 <= j < self.groups_map@.len() implies (
                #[trigger] self.groups_map@[j]).1.sized() by {
                    if j < i {
                        assert(self.groups_map@[j] == old_g[j]);
                    } else {
                        assert(self.groups_map@[j] == old_g[j + 1]);
                    }
                }
                assert(msgs_total(ms.remove(k as int)) == 0);
            }
        } else {
            let ghost mid = self.groups_map@;
            self.groups_map.insert(i, (gp, g));
            proof {
                let ng = GroupView { msgs: ms.remove(k as int), ..s.groups[i as int] };
                lemma_groups_wf_update(s.groups, i as int, ng);
                assert(groups_view(self.groups_map@) =~= s.groups.update(i as int, ng));
                assert forall|j: int| 0 <= j < self.groups_map@.len() implies (
                #[trigger] self.groups_map@[j]).1.sized() by {
                    if j != i {
                        assert(self.groups_map@[j] == old_g[j]);
                    }
                }
            }
        }
        Ok(())
    }

    /// Deletes the group of the given priority and all its messages.
    pub fn del_group(&mut self, priority: &u32) -> (r: Result<(), StoreError>)
        requires
            old(self).wf(),
        ensures
            final(self).wf(),
            final(self)@ == (StoreView { groups: without_group(old(self)@.groups, *priority), ..old(self)@ }),
            final(self).node_id() == old(self).node_id(),
            final(self).last_id() == old(self).last_id(),
            r is Ok,
    {
        let p = *priority;
        let ghost s = self@;
        proof {
            lemma_without_group(s.groups, p);
        }
        let g = self.take_group(p);
        self.byte_size = self.byte_size - g.byte_size;
        Ok(())
    }

    /// Gets a message id: with `uuid`, that id if the store holds it; else with
    /// `priority`, the oldest message of that group (the youngest with
    /// `reverse`); else the next message store-wide: the oldest of the highest
    /// priority group (with `reverse`, the youngest of the lowest). Fails when
    /// that group holds no message.
    pub fn get(&self, uuid: Option<Arc<Uuid>>, priority: Option<u32>, reverse: bool) -> (r: Result<
        Option<Arc<Uuid>>,
        StoreError,
    >)
        requires
            self.wf(),
        ensures
            get_outcome(r, get_spec(self@, opt_id(uuid), priority, reverse)),
    {
        let ghost gv = self@.groups;
        match uuid {
            Some(a) => {
                if holds_msg(&self.groups_map, &*a) {
                    Ok(Some(a))
                } else {
                    Ok(None)
                }
            },
            None => match priority {
                Some(p) => {
                    let i = find_pos(&self.groups_map, p);
                    if i < self.groups_map.len() && self.groups_map[i].0 == p {
                        let g = &self.groups_map[i].1;
                        let n = g.msgs_map.len();
                        assert(group_at(gv, p).msgs == g.msgs());
                        if n == 0 {
                            Ok(None)
                        } else if !reverse {
                            Ok(Some(Arc::new(g.msgs_map[0].0)))
                        } else {
                            Ok(Some(Arc::new(g.msgs_map[n - 1].0)))
                        }
                    } else {
                        Ok(None)
                    }
                },
                None => {
                    let n = self.groups_map.len();
                    if n == 0 {
                        Ok(None)
                    } else {
                        let g = if !reverse {
                            &self.groups_map[n - 1].1
                        } else {
                            &self.groups_map[0].1
                        };
                        let k = g.msgs_map.len();
                        if k == 0 {
                            Err(StoreError { err_ty: StoreErrorTy::SyncError, msg: None })
                        } else if !reverse {
                            Ok(Some(Arc::new(g.msgs_map[0].0)))
                        } else {
                            Ok(Some(Arc::new(g.msgs_map[k - 1].0)))
                        }
                    }
                },
            },
        }
    }

    /// Up to `n` message ids in forwarding order (highest priority first, oldest
    /// first within a priority), or in the opposite order with `reverse`: those of
    /// priority at most `starting_priority`, and coming after `after_uuid` in
    /// forwarding order, where these are given.
    pub fn get_n(
        &self,
        n: usize,
        starting_priority: Option<u32>,
        after_uuid: Option<Arc<Uuid>>,
        reverse: bool,
    ) -> (r: Vec<Arc<Uuid>>)
        requires
            self.wf(),
        ensures
            ids_view(r@) == get_n_spec(self@, n as nat, starting_priority, opt_id(after_uuid), reverse),
    {
        let after: Option<Uuid> = match after_uuid {
            Some(a) => Some(*a),
            None => None,
        };
        let fwd = forward_order(&self.groups_map);
        let order = if !reverse {
            fwd
        } else {
            reversed(&fwd)
        };
        let ghost all = order@;
        let mut out: Vec<Arc<Uuid>> = Vec::new();
        let mut i: usize = 0;
        assert(all.take(0) =~= Seq::<Uuid>::empty());
        assert(ids_view(out@) =~= Seq::<Uuid>::empty());
        while i < order.len() && out.len() < n
            invariant
                all == order@,
                i <= all.len(),
                out@.len() <= n,
                ids_view(out@) == keep_ids(all.take(i as int), starting_priority, after),
            decreases all.len() - i,
        {
            let u = order[i];
            proof {
                assert(all.take(i as int + 1) =~= all.take(i as int).push(u));
                lemma_keep_ids_push(all.take(i as int), u, starting_priority, after);
            }
            let ghost before = out@;
            if keeps_id(&u, starting_priority, after) {
                out.push(Arc::new(u));
                assert(ids_view(out@) =~= ids_view(before).push(u));
            }
            i = i + 1;
        }
        proof {
            let kept = keep_ids(all, starting_priority, after);
            assert(all =~= all.take(i as int) + all.skip(i as int));
            lemma_keep_ids_append(all.take(i as int), all.skip(i as int), starting_priority, after);
            if i == all.len() {
                assert(all.take(i as int) =~= all);
            } else {
                assert(kept.take(n as int) =~= ids_view(out@));
            }
        }
        out
    }

    /// The metadata (id, priority, size) of the messages of group `priority`, or
    /// of all messages (lowest priority first), oldest first within a group: the
    /// entries from index `range.0` through index `range.1` (none when `range.1`
    /// comes before `range.0`).
    pub fn get_metadata(&mut self, range: (u32, u32), priority: Option<u32>) -> (r: Vec<
        PacketMetaData,
    >)
        requires
            old(self).wf(),
        ensures
            *final(self) == *old(self),
            metas_view(r@) == metadata_spec(old(self)@, range.0, range.1, priority),
    {
        let ghost gv = self@.groups;
        let (start, end) = range;
        let mut all: Vec<(Uuid, u32, u64)> = Vec::new();
        match priority {
            Some(p) => {
                let i = find_pos(&self.groups_map, p);
                if i < self.groups_map.len() && self.groups_map[i].0 == p {
                    push_group_meta(&mut all, p, &self.groups_map[i].1);
                    assert(all@ =~= meta_of(group_at(gv, p)));
                } else {
                    assert(all@ =~= Seq::<(Uuid, u32, u64)>::empty());
                }
            },
            None => {
                let mut j: usize = 0;
                assert(gv.take(0) =~= Seq::<GroupView>::empty());
                while j < self.groups_map.len()
                    invariant
                        gv == groups_view(self.groups_map@),
                        j <= gv.len(),
                        all@ == all_meta(gv.take(j as int)),
                    decreases gv.len() - j,
                {
                    proof {
                        assert(gv.take(j as int + 1) =~= gv.take(j as int).push(gv[j as int]));
                        lemma_all_meta_push(gv.take(j as int), gv[j as int]);
                    }
                    push_group_meta(&mut all, self.groups_map[j].0, &self.groups_map[j].1);
                    j = j + 1;
                }
                assert(gv.take(j as int) =~= gv);
            },
        }
        let ghost a = all@;
        let len = all.len();
        let s0: usize = if (start as usize) <= len {
            start as usize
        } else {
            len
        };
        let ghost rest = if start <= a.len() {
            a.skip(start as int)
        } else {
            Seq::<(Uuid, u32, u64)>::empty()
        };
        assert(rest =~= a.skip(s0 as int));
        let mut out: Vec<PacketMetaData> = Vec::new();
        let mut i: usize = s0;
        let mut taken: u64 = 0;
        let count: u64 = if start <= end {
            (end - start) as u64 + 1
        } else {
            0
        };
        assert(metas_view(out@) =~= rest.take(0));
        while i < len && taken < count
            invariant
                a == all@,
                len == a.len(),
                s0 <= i <= len,
                taken == i - s0,
                taken <= count,
                count == (if start <= end {
                    (end - start + 1) as nat
                } else {
                    0nat
                }),
                rest =~= a.skip(s0 as int),
                metas_view(out@) == rest.take(taken as int),
            decreases len - i,
        {
            let (u, pr, sz) = all[i];
            let ghost before = out@;
            out.push(PacketMetaData { uuid: Arc::new(u), priority: pr, byte_size: sz });
            proof {
                assert(rest[taken as int] == a[i as int]);
                assert(metas_view(out@) =~= metas_view(before).push(a[i as int]));
                assert(rest.take(taken as int + 1) =~= rest.take(taken as int).push(rest[taken as int]));
            }
            i = i + 1;
            taken = taken + 1;
        }
        proof {
            if i == len {
                assert(rest.take(taken as int) =~= rest);
            }
        }
        out
    }

    /// Gives the group at place `i` the limit `m`, and burns its oldest messages
    /// until it fits; gives back the bytes and the ids that went.
    fn limit_group(&mut self, i: usize, m: Option<u64>) -> (r: (u64, Vec<Uuid>))
        requires
            old(self).wf(),
            i < old(self).groups_map@.len(),
        ensures
            final(self).wf(),
            final(self).uuid_manager == old(self).uuid_manager,
            ({
                let s = old(self)@;
                let g = s.groups[i as int];
                let k = match m {
                    Some(gm) => prune_count(g.msgs, msgs_total(g.msgs) as int, gm as int),
                    None => 0,
                };
                &&& final(self)@ == (StoreView {
                    groups: s.groups.update(
                        i as int,
                        GroupView { max_byte_size: m, msgs: g.msgs.skip(k as int), ..g },
                    ),
                    ..s
                })
                &&& r.0 == msgs_total(g.msgs.take(k as int))
                &&& r.1@ == ids_of(g.msgs.take(k as int))
            }),
    {
        let ghost s = self@;
        let ghost old_g = self.groups_map@;
        let (gp, mut g) = self.groups_map.remove(i);
        let ghost gv = s.groups[i as int];
        let ghost ms = gv.msgs;
        assert(g.msgs() == ms);
        g.max_byte_size = m;
        let gb = g.byte_size;
        proof {
            assert(old_g[i as int].1.sized());
        }
        let (b, ids) = match m {
            Some(gm) => prune_front(&mut g, gb, gm),
            None => {
                assert(ms.skip(0) =~= ms);
                assert(ms.take(0) =~= Seq::<MsgV>::empty());
                assert(ids_of(ms.take(0)) =~= Seq::<Uuid>::empty());
                (0, Vec::new())
            },
        };
        let ghost k = match m {
            Some(gm) => prune_count(ms, msgs_total(ms) as int, gm as int),
            None => 0,
        };
        let ghost ng = GroupView { max_byte_size: m, msgs: ms.skip(k as int), ..gv };
        proof {
            lemma_prune_count(
                ms,
                msgs_total(ms) as int,
                match m {
                    Some(gm) => gm as int,
                    None => 0,
                },
            );
            lemma_msgs_total_split(ms, k as int);
            lemma_group_wf_skip(gv, k as int);
            lemma_groups_wf_update(s.groups, i as int, ng);
            lemma_groups_total_update(s.groups, i as int, ng);
        }
        self.groups_map.insert(i, (gp, g));
        self.byte_size = self.byte_size - b;
        proof {
            assert(groups_view(self.groups_map@) =~= s.groups.update(i as int, ng));
            assert forall|j: int| 0 <= j < self.groups_map@.len() implies (
            #[trigger] self.groups_map@[j]).1.sized() by {
                if j != i {
                    assert(self.groups_map@[j] == old_g[j]);
                }
            }
        }
        (b, ids)
    }

    /// Sets the defaults of group `priority`. An existing group takes the new
    /// limit and burns its oldest messages until it fits; gives back the bytes
    /// and the ids that went.
    pub fn update_group_defaults(&mut self, priority: u32, defaults: &GroupDefaults) -> (r: Result<
        (u64, Vec<Arc<Uuid>>),
        StoreError,
    >)
        requires
            old(self).wf(),
        ensures
            final(self).wf(),
            final(self).node_id() == old(self).node_id(),
            final(self).last_id() == old(self).last_id(),
            final(self)@ == update_group_spec(old(self)@, priority, defaults.max_byte_size).0,
            r matches Ok(res) && res.0 == msgs_total(
                update_group_spec(old(self)@, priority, defaults.max_byte_size).1,
            ) && ids_view(res.1@) == ids_of(
                update_group_spec(old(self)@, priority, defaults.max_byte_size).1,
            ),
    {
        let ghost s = self@;
        let m = defaults.max_byte_size;
        let di = find_default_pos(&self.group_defaults, priority);
        let ghost old_d = self.group_defaults@;
        if di < self.group_defaults.len() && self.group_defaults[di].0 == priority {
            self.group_defaults.set(di, (priority, *defaults));
            assert(defaults_view(self.group_defaults@) =~= defaults_view(old_d).update(
                di as int,
                (priority, m),
            ));
        } else {
            self.group_defaults.insert(di, (priority, *defaults));
            assert(defaults_view(self.group_defaults@) =~= defaults_view(old_d).insert(
                di as int,
                (priority, m),
            ));
        }
        proof {
            lemma_set_default_sorted(s.defaults, priority, m);
        }
        let i = find_pos(&self.groups_map, priority);
        let mut removed: Vec<Arc<Uuid>> = Vec::new();
        assert(ids_view(removed@) =~= Seq::<Uuid>::empty());
        if i < self.groups_map.len() && self.groups_map[i].0 == priority {
            let (b, ids) = self.limit_group(i, m);
            push_shared(&mut removed, &ids);
            assert(Seq::<Uuid>::empty() + ids@ =~= ids@);
            Ok((b, removed))
        } else {
            proof {
                assert(ids_of(Seq::<MsgV>::empty()) =~= Seq::<Uuid>::empty());
                assert(msgs_total(Seq::<MsgV>::empty()) == 0);
            }
            Ok((0, removed))
        }
    }

    /// Removes the defaults of group `priority`; an existing group is left
    /// without a limit.
    pub fn delete_group_defaults(&mut self, priority: u32)
        requires
            old(self).wf(),
        ensures
            final(self).wf(),
            final(self).node_id() == old(self).node_id(),
            final(self).last_id() == old(self).last_id(),
            final(self)@ == delete_group_spec(old(self)@, priority),
    {
        let ghost s = self@;
        let ghost old_g = self.groups_map@;
        let ghost old_d = self.group_defaults@;
        let di = find_default_pos(&self.group_defaults, priority);
        if di < self.group_defaults.len() && self.group_defaults[di].0 == priority {
            self.group_defaults.remove(di);
            assert(defaults_view(self.group_defaults@) =~= defaults_view(old_d).remove(di as int));
        }
        proof {
            lemma_remove_default_sorted(s.defaults, priority);
        }
        let i = find_pos(&self.groups_map, priority);
        if i < self.groups_map.len() && self.groups_map[i].0 == priority {
            let (gp, mut g) = self.groups_map.remove(i);
            g.max_byte_size = None;
            self.groups_map.insert(i, (gp, g));
            proof {
                let ng = GroupView { max_byte_size: None, ..s.groups[i as int] };
                assert(groups_view(self.groups_map@) =~= s.groups.update(i as int, ng));
                lemma_groups_wf_update(s.groups, i as int, ng);
                lemma_groups_total_update(s.groups, i as int, ng);
                assert forall|j: int| 0 <= j < self.groups_map@.len() implies (
                #[trigger] self.groups_map@[j]).1.sized() by {
                    if j != i {
                        assert(self.groups_map@[j] == old_g[j]);
                    } else {
                        assert(old_g[j].1.sized());
                    }
                }
            }
        }
    }

    /// Sets the store's limit, and burns messages, lowest priority and oldest
    /// first, until the store fits it. Gives back the bytes, the priorities of
    /// the groups and the ids that went.
    pub fn update_store_defaults(&mut self, defaults: &StoreDefaults) -> (r: Result<
        (u64, Vec<u32>, Vec<Arc<Uuid>>),
        StoreError,
    >)
        requires
            old(self).wf(),
        ensures
            final(self).wf(),
            final(self).node_id() == old(self).node_id(),
            final(self).last_id() == old(self).last_id(),
            final(self)@ == update_store_spec(old(self)@, defaults.max_byte_size).0,
            r matches Ok(res) && res.0 == update_store_spec(old(self)@, defaults.max_byte_size).1.bytes
                && res.1@ == update_store_spec(old(self)@, defaults.max_byte_size).1.groups_removed
                && ids_view(res.2@) == update_store_spec(
                old(self)@,
                defaults.max_byte_size,
            ).1.removed,
    {
        let ghost s = self@;
        self.max_byte_size = defaults.max_byte_size;
        let total = self.byte_size;
        let lim = match defaults.max_byte_size {
            Some(mx) => mx,
            None => total,
        };
        proof {
            lemma_prune_groups_total(s.groups, total as int, lim as int, u32::MAX);
            lemma_prune_groups_wf(s.groups, total as int, lim as int, u32::MAX);
        }
        let (b, ids, gs) = prune_groups_exec(&mut self.groups_map, total, lim, u32::MAX);
        self.byte_size = total - b;
        let mut removed: Vec<Arc<Uuid>> = Vec::new();
        push_shared(&mut removed, &ids);
        proof {
            assert(ids_view(Seq::<Arc<Uuid>>::empty()) =~= Seq::<Uuid>::empty());
            assert(Seq::<Uuid>::empty() + ids@ =~= ids@);
        }
        Ok((b, gs, removed))
    }

    /// The number of bytes the store holds.
    pub fn byte_size(&self) -> (r: u64)
        requires
            self.wf(),
        ensures
            r == store_total(self@),
    {
        self.byte_size
    }

    /// The store's size limit.
    pub fn max_byte_size(&self) -> (r: Option<u64>)
        ensures
            r == self@.max_byte_size,
    {
        self.max_byte_size
    }

    /// Sets the store's size limit, burning nothing; the limit holds from the
    /// next insert on.
    pub fn set_max_byte_size(&mut self, max_byte_size: Option<u64>)
        requires
            old(self).wf(),
        ensures
            final(self).wf(),
            final(self).node_id() == old(self).node_id(),
            final(self).last_id() == old(self).last_id(),
            final(self)@ == (StoreView { max_byte_size, ..old(self)@ }),
    {
        self.max_byte_size = max_byte_size;
    }

    /// The group of the given priority, if the store has one.
    pub fn group(&self, priority: u32) -> (r: Option<&Group>)
        requires
            self.wf(),
        ensures
            match r {
                Some(g) => has_group(self@.groups, priority) && view_of_group((priority, *g))
                    == group_at(self@.groups, priority) && g.sized(),
                None => !has_group(self@.groups, priority),
            },
    {
        let i = find_pos(&self.groups_map, priority);
        if i < self.groups_map.len() && self.groups_map[i].0 == priority {
            Some(&self.groups_map[i].1)
        } else {
            None
        }
    }

    /// Sets the size limit of the group of the given priority, burning nothing;
    /// the limit holds from the next insert on. Gives back whether there is such
    /// a group.
    pub fn set_group_max_byte_size(&mut self, priority: u32, max_byte_size: Option<u64>) -> (r: bool)
        requires
            old(self).wf(),
        ensures
            final(self).wf(),
            final(self).node_id() == old(self).node_id(),
            final(self).last_id() == old(self).last_id(),
            r == has_group(old(self)@.groups, priority),
            final(self)@ == if r {
                StoreView {
                    groups: old(self)@.groups.update(
                        pos_of(old(self)@.groups, priority) as int,
                        GroupView { max_byte_size, ..group_at(old(self)@.groups, priority) },
                    ),
                    ..old(self)@
                }
            } else {
                old(self)@
            },
    {
        let ghost s = self@;
        let ghost old_g = self.groups_map@;
        let i = find_pos(&self.groups_map, priority);
        if i < self.groups_map.len() && self.groups_map[i].0 == priority {
            let (gp, mut g) = self.groups_map.remove(i);
            g.max_byte_size = max_byte_size;
            self.groups_map.insert(i, (gp, g));
            proof {
                let ng = GroupView { max_byte_size, ..s.groups[i as int] };
                assert(groups_view(self.groups_map@) =~= s.groups.update(i as int, ng));
                lemma_groups_wf_update(s.groups, i as int, ng);
                lemma_groups_total_update(s.groups, i as int, ng);
                assert forall|j: int| 0 <= j < self.groups_map@.len() implies (
                #[trigger] self.groups_map@[j]).1.sized() by {
                    if j != i {
                        assert(self.groups_map@[j] == old_g[j]);
                    } else {
                        assert(old_g[j].1.sized());
                    }
                }
            }
            true
        } else {
            false
        }
    }

    /// The priority of the message that `uuid` names, if the store holds it.
    pub fn msg_priority(&self, uuid: &Uuid) -> (r: Option<u32>)
        requires
            self.wf(),
        ensures
            r == if contains_msg(self@.groups, *uuid) {
                Some(uuid.priority)
            } else {
                None
            },
    {
        if holds_msg(&self.groups_map, uuid) {
            Some(uuid.priority)
        } else {
            None
        }
    }

    /// The defaults set for the group of the given priority, if any.
    pub fn group_defaults(&self, priority: u32) -> (r: Option<GroupDefaults>)
        requires
            self.wf(),
        ensures
            match r {
                Some(d) => default_of(self@.defaults, priority) == Some(d.max_byte_size),
                None => default_of(self@.defaults, priority) is None,
            },
    {
        find_default(&self.group_defaults, priority)
    }

    /// The groups, in ascending priority.
    pub fn groups(&self) -> (r: &Vec<(u32, Group)>)
        requires
            self.wf(),
        ensures
            groups_view(r@) == self@.groups,
            groups_sized(r@),
    {
        &self.groups_map
    }

    /// The group defaults, in ascending priority.
    pub fn defaults(&self) -> (r: &Vec<(u32, GroupDefaults)>)
        ensures
            defaults_view(r@) == self@.defaults,
    {
        &self.group_defaults
    }
}

} // verus!
