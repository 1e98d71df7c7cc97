//! The mathematical model of a store: priority groups in ascending priority,
//! each holding its messages oldest first, and what each operation does to it.
use crate::store::uuid::{made_before, same_msg, Uuid};
use vstd::prelude::*;

verus! {

/// A message as the store keeps it: its id and its size in bytes.
pub type MsgV = (Uuid, u64);

/// A priority group: its priority, its size limit and its messages, oldest first.
pub struct GroupView {
    pub priority: u32,
    pub max_byte_size: Option<u64>,
    pub msgs: Seq<MsgV>,
}

/// The whole store.
pub struct StoreView {
    /// The store's size limit.
    pub max_byte_size: Option<u64>,
    /// The size limit that a new group of each priority starts with, in ascending priority.
    pub defaults: Seq<(u32, Option<u64>)>,
    /// The groups, in ascending priority.
    pub groups: Seq<GroupView>,
}

/// What the store reports back from a successful insert.
pub struct AddView {
    pub uuid: Uuid,
    pub bytes_removed: nat,
    pub msgs_removed: Seq<Uuid>,
    pub groups_removed: Seq<u32>,
}

/// The kinds of store failure, as the model sees them.
pub enum StoreFailure {
    ExceedesStoreMax,
    ExceedesGroupMax,
    LacksPriority,
    SyncError,
}

// ---------------------------------------------------------------------------
// sizes

pub open spec fn msgs_total(ms: Seq<MsgV>) -> nat
    decreases ms.len(),
{
    if ms.len() == 0 {
        0
    } else {
        ms[0].1 as nat + msgs_total(ms.drop_first())
    }
}

pub open spec fn groups_total(gs: Seq<GroupView>) -> nat
    decreases gs.len(),
{
    if gs.len() == 0 {
        0
    } else {
        msgs_total(gs[0].msgs) + groups_total(gs.drop_first())
    }
}

/// The number of bytes the store holds.
pub open spec fn store_total(s: StoreView) -> nat {
    groups_total(s.groups)
}

pub open spec fn ids_of(ms: Seq<MsgV>) -> Seq<Uuid> {
    ms.map_values(|m: MsgV| m.0)
}

// ---------------------------------------------------------------------------
// well-formedness

pub open spec fn group_wf(g: GroupView) -> bool {
    &&& forall|k: int| 0 <= k < g.msgs.len() ==> (#[trigger] g.msgs[k]).0.priority == g.priority
    &&& forall|k: int, l: int|
        0 <= k < l < g.msgs.len() ==> made_before(#[trigger] g.msgs[k].0, #[trigger] g.msgs[l].0)
}

pub open spec fn groups_sorted(gs: Seq<GroupView>) -> bool {
    forall|i: int, j: int|
        0 <= i < j < gs.len() ==> (#[trigger] gs[i]).priority < (#[trigger] gs[j]).priority
}

pub open spec fn groups_wf(gs: Seq<GroupView>) -> bool {
    &&& groups_sorted(gs)
    &&& forall|i: int| 0 <= i < gs.len() ==> group_wf(#[trigger] gs[i])
}

pub open spec fn defaults_sorted(ds: Seq<(u32, Option<u64>)>) -> bool {
    forall|i: int, j: int| 0 <= i < j < ds.len() ==> (#[trigger] ds[i]).0 < (#[trigger] ds[j]).0
}

pub open spec fn store_wf(s: StoreView) -> bool {
    &&& groups_wf(s.groups)
    &&& defaults_sorted(s.defaults)
    &&& store_total(s) <= u64::MAX
}

// ---------------------------------------------------------------------------
// lookups

/// The number of leading groups whose priority is below `p`: where a group of
/// priority `p` stands, or would be inserted.
pub open spec fn pos_of(gs: Seq<GroupView>, p: u32) -> nat
    decreases gs.len(),
{
    if gs.len() == 0 || gs[0].priority >= p {
        0
    } else {
        1 + pos_of(gs.drop_first(), p)
    }
}

pub open spec fn has_group(gs: Seq<GroupView>, p: u32) -> bool {
    pos_of(gs, p) < gs.len() && gs[pos_of(gs, p) as int].priority == p
}

pub open spec fn group_at(gs: Seq<GroupView>, p: u32) -> GroupView {
    gs[pos_of(gs, p) as int]
}

/// The groups with the group of priority `g.priority` put in its place
/// (where `gs` holds no group of that priority).
pub open spec fn with_group(gs: Seq<GroupView>, g: GroupView) -> Seq<GroupView> {
    gs.insert(pos_of(gs, g.priority) as int, g)
}

/// The groups without the group of priority `p` (where there is one).
pub open spec fn without_group(gs: Seq<GroupView>, p: u32) -> Seq<GroupView> {
    if has_group(gs, p) {
        gs.remove(pos_of(gs, p) as int)
    } else {
        gs
    }
}

/// The number of leading defaults whose priority is below `p`.
pub open spec fn default_pos(ds: Seq<(u32, Option<u64>)>, p: u32) -> nat
    decreases ds.len(),
{
    if ds.len() == 0 || ds[0].0 >= p {
        0
    } else {
        1 + default_pos(ds.drop_first(), p)
    }
}

/// The default set for priority `p`, if any.
pub open spec fn default_of(ds: Seq<(u32, Option<u64>)>, p: u32) -> Option<Option<u64>> {
    let i = default_pos(ds, p);
    if i < ds.len() && ds[i as int].0 == p {
        Some(ds[i as int].1)
    } else {
        None
    }
}

/// The defaults with the default for `p` set to `m`.
pub open spec fn set_default(ds: Seq<(u32, Option<u64>)>, p: u32, m: Option<u64>) -> Seq<
    (u32, Option<u64>),
> {
    let i = default_pos(ds, p);
    if i < ds.len() && ds[i as int].0 == p {
        ds.update(i as int, (p, m))
    } else {
        ds.insert(i as int, (p, m))
    }
}

/// The defaults without a default for `p`.
pub open spec fn remove_default(ds: Seq<(u32, Option<u64>)>, p: u32) -> Seq<(u32, Option<u64>)> {
    let i = default_pos(ds, p);
    if i < ds.len() && ds[i as int].0 == p {
        ds.remove(i as int)
    } else {
        ds
    }
}

/// The index of the message that `u` names among `ms`, or the length when none.
pub open spec fn msg_index(ms: Seq<MsgV>, u: Uuid) -> nat
    decreases ms.len(),
{
    if ms.len() == 0 || same_msg(ms[0].0, u) {
        0
    } else {
        1 + msg_index(ms.drop_first(), u)
    }
}

/// Whether the store holds the message that `u` names.
pub open spec fn contains_msg(gs: Seq<GroupView>, u: Uuid) -> bool {
    has_group(gs, u.priority) && msg_index(group_at(gs, u.priority).msgs, u) < group_at(
        gs,
        u.priority,
    ).msgs.len()
}

/// The number of leading messages made before `u`: where `u` is inserted.
pub open spec fn msg_pos(ms: Seq<MsgV>, u: Uuid) -> nat
    decreases ms.len(),
{
    if ms.len() == 0 || !made_before(ms[0].0, u) {
        0
    } else {
        1 + msg_pos(ms.drop_first(), u)
    }
}

// ---------------------------------------------------------------------------
// pruning

/// How many of the oldest messages go so that `cur`, less what goes, is at most
/// `limit` (all of them when even that is not enough).
pub open spec fn prune_count(ms: Seq<MsgV>, cur: int, limit: int) -> nat
    decreases ms.len(),
{
    if cur <= limit || ms.len() == 0 {
        0
    } else {
        1 + prune_count(ms.drop_first(), cur - ms[0].1, limit)
    }
}

/// What pruning the groups of priority at most `p` does, lowest priority first and
/// oldest message first, until the store's size `cur` is at most `limit`.
pub struct PruneView {
    /// The groups that remain.
    pub kept: Seq<GroupView>,
    /// The ids of the messages that went, in the order they went.
    pub removed: Seq<Uuid>,
    /// The priorities of the groups that lost all their messages and went.
    pub groups_removed: Seq<u32>,
    /// The bytes that went.
    pub bytes: nat,
}

pub open spec fn prune_groups(gs: Seq<GroupView>, cur: int, limit: int, p: u32) -> PruneView
    decreases gs.len(),
{
    if gs.len() == 0 || gs[0].priority > p || cur <= limit {
        PruneView { kept: gs, removed: Seq::empty(), groups_removed: Seq::empty(), bytes: 0 }
    } else {
        let g = gs[0];
        let k = prune_count(g.msgs, cur, limit);
        let b = msgs_total(g.msgs.take(k as int));
        let rest = prune_groups(gs.drop_first(), cur - b, limit, p);
        if k == g.msgs.len() {
            PruneView {
                kept: rest.kept,
                removed: ids_of(g.msgs.take(k as int)) + rest.removed,
                groups_removed: seq![g.priority] + rest.groups_removed,
                bytes: b + rest.bytes,
            }
        } else {
            PruneView {
                kept: seq![GroupView { msgs: g.msgs.skip(k as int), ..g }] + rest.kept,
                removed: ids_of(g.msgs.take(k as int)) + rest.removed,
                groups_removed: rest.groups_removed,
                bytes: b + rest.bytes,
            }
        }
    }
}

// ---------------------------------------------------------------------------
// operations

/// The store that `new` makes: no limit, no defaults, no groups.
pub open spec fn empty_store() -> StoreView {
    StoreView { max_byte_size: None, defaults: Seq::empty(), groups: Seq::empty() }
}

/// The group that a message of priority `p` goes into: the existing one, or a new
/// empty one with the default limit for `p`.
pub open spec fn target_group(s: StoreView, p: u32) -> GroupView {
    if has_group(s.groups, p) {
        group_at(s.groups, p)
    } else {
        GroupView {
            priority: p,
            max_byte_size: match default_of(s.defaults, p) {
                Some(m) => m,
                None => None,
            },
            msgs: Seq::empty(),
        }
    }
}

/// The bytes held by groups of priority above `p` (among groups that hold no group `p`).
pub open spec fn higher_total(gs: Seq<GroupView>, p: u32) -> nat {
    groups_total(gs.skip(pos_of(gs, p) as int))
}

/// The size that a group may keep before a message of `x` bytes goes in: its
/// limit less `x`, or all it holds when it has no limit.
pub open spec fn group_room(g: GroupView, x: u64) -> int {
    match g.max_byte_size {
        Some(gm) => gm - x,
        None => msgs_total(g.msgs) as int,
    }
}

/// The size that the store, holding `cur` bytes, may keep before a message of
/// `x` bytes goes in: its limit less `x`, or `cur` when it has no limit.
pub open spec fn store_room(s: StoreView, cur: int, x: u64) -> int {
    match s.max_byte_size {
        Some(m) => m - x,
        None => cur,
    }
}

/// What making room for a message `u` of `x` bytes in its group `g` and then
/// inserting it does, where `t` is the store with `g` taken out: the group burns
/// its oldest messages until the message fits its limit; then the store burns
/// messages of priority at most the message's, lowest priority and oldest first,
/// the message's own group last, until the message fits the store's limit.
pub open spec fn make_room_spec(t: StoreView, g: GroupView, u: Uuid, x: u64) -> (StoreView, AddView) {
    let p = u.priority;
    let k1 = prune_count(g.msgs, msgs_total(g.msgs) as int, group_room(g, x));
    let g1 = GroupView { msgs: g.msgs.skip(k1 as int), ..g };
    let cur = (groups_total(t.groups) + msgs_total(g1.msgs)) as int;
    let lim = store_room(t, cur, x);
    let po = prune_groups(t.groups, cur, lim, p);
    let k3 = prune_count(g1.msgs, cur - po.bytes, lim);
    let g2 = GroupView { msgs: g1.msgs.skip(k3 as int), ..g1 };
    let g_fin = GroupView { msgs: g2.msgs.insert(msg_pos(g2.msgs, u) as int, (u, x)), ..g2 };
    (
        StoreView { groups: with_group(po.kept, g_fin), ..t },
        AddView {
            uuid: u,
            bytes_removed: msgs_total(g.msgs.take(k1 as int)) + po.bytes + msgs_total(
                g1.msgs.take(k3 as int),
            ),
            msgs_removed: ids_of(g.msgs.take(k1 as int)) + po.removed + ids_of(
                g1.msgs.take(k3 as int),
            ),
            groups_removed: po.groups_removed,
        },
    )
}

/// What inserting a message `u` of `x` bytes does: the new store, and the report
/// or the failure.
///
/// The checks come in this order: the id is already held (a second entry under
/// one id is refused, see `Store::add_with_uuid`); the message is larger
/// than the store's limit; larger than its group's limit; larger than what the
/// groups of the same or higher priority leave free. Then room is made and the
/// message goes in (see `make_room_spec`).
pub open spec fn add_spec(s: StoreView, u: Uuid, x: u64) -> (StoreView, Result<AddView, StoreFailure>) {
    let p = u.priority;
    if contains_msg(s.groups, u) {
        (s, Err(StoreFailure::SyncError))
    } else if s.max_byte_size matches Some(m) && x > m {
        (s, Err(StoreFailure::ExceedesStoreMax))
    } else {
        let g = target_group(s, p);
        let others = without_group(s.groups, p);
        let back = StoreView { groups: with_group(others, g), ..s };
        if g.max_byte_size matches Some(gm) && x > gm {
            (back, Err(StoreFailure::ExceedesGroupMax))
        } else if s.max_byte_size matches Some(m) && higher_total(others, p) + x > m {
            (back, Err(StoreFailure::LacksPriority))
        } else {
            let made = make_room_spec(StoreView { groups: others, ..s }, g, u, x);
            (made.0, Ok(made.1))
        }
    }
}

/// What deleting the message `u` does: it goes, and its group goes with it when
/// it was the group's last message.
pub open spec fn del_spec(s: StoreView, u: Uuid) -> StoreView {
    if contains_msg(s.groups, u) {
        let i = pos_of(s.groups, u.priority) as int;
        let g = s.groups[i];
        let ms = g.msgs.remove(msg_index(g.msgs, u) as int);
        if ms.len() == 0 {
            StoreView { groups: s.groups.remove(i), ..s }
        } else {
            StoreView { groups: s.groups.update(i, GroupView { msgs: ms, ..g }), ..s }
        }
    } else {
        s
    }
}

/// What getting a message gives: the named message if the store holds it; else
/// the oldest (or with `reverse` the youngest) of the given group; else the
/// oldest message of the highest priority group (or with `reverse` the youngest
/// of the lowest).
pub open spec fn get_spec(s: StoreView, uuid: Option<Uuid>, priority: Option<u32>, reverse: bool) -> Result<
    Option<Uuid>,
    StoreFailure,
> {
    match uuid {
        Some(u) => Ok(
            if contains_msg(s.groups, u) {
                Some(u)
            } else {
                None
            },
        ),
        None => match priority {
            Some(p) => {
                if !has_group(s.groups, p) || group_at(s.groups, p).msgs.len() == 0 {
                    Ok(None)
                } else if !reverse {
                    Ok(Some(group_at(s.groups, p).msgs[0].0))
                } else {
                    Ok(Some(group_at(s.groups, p).msgs.last().0))
                }
            },
            None => {
                if s.groups.len() == 0 {
                    Ok(None)
                } else {
                    let g = if !reverse {
                        s.groups.last()
                    } else {
                        s.groups[0]
                    };
                    if g.msgs.len() == 0 {
                        Err(StoreFailure::SyncError)
                    } else if !reverse {
                        Ok(Some(g.msgs[0].0))
                    } else {
                        Ok(Some(g.msgs.last().0))
                    }
                }
            },
        },
    }
}

/// What changing the defaults of group `p` does: the default is set, and an
/// existing group takes the new limit and loses its oldest messages until it fits.
pub open spec fn update_group_spec(s: StoreView, p: u32, m: Option<u64>) -> (StoreView, Seq<MsgV>) {
    let ds = set_default(s.defaults, p, m);
    if has_group(s.groups, p) {
        let i = pos_of(s.groups, p) as int;
        let g = s.groups[i];
        let k = match m {
            Some(gm) => prune_count(g.msgs, msgs_total(g.msgs) as int, gm as int),
            None => 0,
        };
        (
            StoreView {
                defaults: ds,
                groups: s.groups.update(
                    i,
                    GroupView { max_byte_size: m, msgs: g.msgs.skip(k as int), ..g },
                ),
                ..s
            },
            g.msgs.take(k as int),
        )
    } else {
        (StoreView { defaults: ds, ..s }, Seq::empty())
    }
}

/// What removing the defaults of group `p` does: the default goes, and an
/// existing group is left without a limit.
pub open spec fn delete_group_spec(s: StoreView, p: u32) -> StoreView {
    let ds = remove_default(s.defaults, p);
    if has_group(s.groups, p) {
        let i = pos_of(s.groups, p) as int;
        StoreView {
            defaults: ds,
            groups: s.groups.update(i, GroupView { max_byte_size: None, ..s.groups[i] }),
            ..s
        }
    } else {
        StoreView { defaults: ds, ..s }
    }
}

/// What changing the store's limit does: the limit is set and the groups are
/// pruned, lowest priority and oldest first, until the store fits.
pub open spec fn update_store_spec(s: StoreView, m: Option<u64>) -> (StoreView, PruneView) {
    let total = store_total(s) as int;
    let lim = match m {
        Some(mx) => mx as int,
        None => total,
    };
    let po = prune_groups(s.groups, total, lim, u32::MAX);
    (StoreView { max_byte_size: m, groups: po.kept, ..s }, po)
}

/// The ids in forwarding order: highest priority first, oldest first within a priority.
pub open spec fn forward_ids(gs: Seq<GroupView>) -> Seq<Uuid>
    decreases gs.len(),
{
    if gs.len() == 0 {
        Seq::empty()
    } else {
        forward_ids(gs.drop_first()) + ids_of(gs[0].msgs)
    }
}

/// Whether `a` comes after `b` in forwarding order.
pub open spec fn comes_after(a: Uuid, b: Uuid) -> bool {
    a.priority < b.priority || (a.priority == b.priority && (a.timestamp > b.timestamp || (
    a.timestamp == b.timestamp && a.sequence > b.sequence)))
}

/// Whether an id passes the filters of `get_n`.
pub open spec fn get_n_keeps(u: Uuid, starting_priority: Option<u32>, after: Option<Uuid>) -> bool {
    (match starting_priority {
        Some(sp) => u.priority <= sp,
        None => true,
    }) && (match after {
        Some(a) => comes_after(u, a),
        None => true,
    })
}

/// The ids of `ids` that pass the filters, in order.
pub open spec fn keep_ids(ids: Seq<Uuid>, starting_priority: Option<u32>, after: Option<Uuid>) -> Seq<
    Uuid,
>
    decreases ids.len(),
{
    if ids.len() == 0 {
        Seq::empty()
    } else {
        let rest = keep_ids(ids.drop_last(), starting_priority, after);
        if get_n_keeps(ids.last(), starting_priority, after) {
            rest.push(ids.last())
        } else {
            rest
        }
    }
}

/// What `get_n` gives: up to `n` ids that pass the filters, in forwarding order,
/// or with `reverse` in the opposite order.
pub open spec fn get_n_spec(
    s: StoreView,
    n: nat,
    starting_priority: Option<u32>,
    after: Option<Uuid>,
    reverse: bool,
) -> Seq<Uuid> {
    let order = if !reverse {
        forward_ids(s.groups)
    } else {
        forward_ids(s.groups).reverse()
    };
    let kept = keep_ids(order, starting_priority, after);
    if kept.len() <= n {
        kept
    } else {
        kept.take(n as int)
    }
}

/// A message's metadata: id, priority and size.
pub open spec fn meta_of(g: GroupView) -> Seq<(Uuid, u32, u64)> {
    g.msgs.map_values(|m: MsgV| (m.0, g.priority, m.1))
}

/// The metadata of all messages, lowest priority first, oldest first within a priority.
pub open spec fn all_meta(gs: Seq<GroupView>) -> Seq<(Uuid, u32, u64)>
    decreases gs.len(),
{
    if gs.len() == 0 {
        Seq::empty()
    } else {
        meta_of(gs[0]) + all_meta(gs.drop_first())
    }
}

/// The entries of `s` from index `start` on, at most `count` of them.
pub open spec fn window<A>(s: Seq<A>, start: nat, count: nat) -> Seq<A> {
    let rest = if start <= s.len() {
        s.skip(start as int)
    } else {
        Seq::empty()
    };
    if rest.len() <= count {
        rest
    } else {
        rest.take(count as int)
    }
}

/// What `get_metadata` gives: from the metadata of the group `p` (or of the whole
/// store), the entries from index `start` through index `end` (none when `end`
/// comes before `start`).
pub open spec fn metadata_spec(s: StoreView, start: u32, end: u32, priority: Option<u32>) -> Seq<
    (Uuid, u32, u64),
> {
    let all = match priority {
        Some(p) => if has_group(s.groups, p) {
            meta_of(group_at(s.groups, p))
        } else {
            Seq::empty()
        },
        None => all_meta(s.groups),
    };
    window(
        all,
        start as nat,
        if start <= end {
            (end - start + 1) as nat
        } else {
            0
        },
    )
}

} // verus!
