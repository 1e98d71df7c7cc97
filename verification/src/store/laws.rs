//! What holds of the store across its operations: where an inserted message
//! is found, which messages an insert may burn, the limits the store and its
//! groups are kept to, and what deleting and changing defaults leave behind.
use crate::store::lemmas::{
    lemma_group_wf_skip, lemma_groups_total_split, lemma_insert_wf, lemma_msg_index,
    lemma_msg_pos, lemma_msgs_total_insert, lemma_msgs_total_split, lemma_pos_of,
    lemma_prune_count, lemma_prune_groups_drains, lemma_prune_groups_keeps_higher,
    lemma_prune_groups_no_group, lemma_prune_groups_total, lemma_prune_groups_wf,
    lemma_with_group, lemma_without_group, lemma_no_group, lemma_groups_wf_remove,
    lemma_pos_of_unique, lemma_prune_groups_fit, lemma_default_set, lemma_default_removed,
    lemma_prune_groups_derived, lemma_msgs_total_remove, lemma_groups_total_remove,
    lemma_groups_total_update, lemma_msg_index_unique, derived_from, derived_from_one, lemma_prune_groups_suffix,
};
use crate::store::model::{
    add_spec, contains_msg, default_of, del_spec, delete_group_spec, forward_ids, get_n_spec,
    get_spec, group_at, ids_of, keep_ids, update_group_spec, update_store_spec, StoreFailure, group_room, group_wf, groups_total, groups_wf, has_group,
    higher_total, make_room_spec, msg_index, msg_pos, msgs_total, pos_of, prune_count,
    prune_groups, store_room, store_total, store_wf, target_group, with_group, without_group,
    groups_sorted, GroupView, MsgV, StoreView,
};
use crate::store::uuid::{made_before, same_msg, Uuid};
use vstd::multiset::Multiset;
use vstd::prelude::*;
use vstd::seq_lib::lemma_multiset_commutative;

verus! {

/// What making room and inserting leaves, where the checks before it passed.
proof fn lemma_make_room(t: StoreView, g: GroupView, u: Uuid, x: u64)
    requires
        groups_wf(t.groups),
        !has_group(t.groups, u.priority),
        group_wf(g),
        g.priority == u.priority,
        forall|k: int| 0 <= k < g.msgs.len() ==> !same_msg((#[trigger] g.msgs[k]).0, u),
        g.max_byte_size matches Some(gm) ==> x <= gm,
        t.max_byte_size matches Some(m) ==> x <= m,
    ensures
        ({
            let r = make_room_spec(t, g, u, x);
            let p = u.priority;
            &&& groups_wf(r.0.groups)
            &&& contains_msg(r.0.groups, u)
            &&& group_at(r.0.groups, p).max_byte_size == g.max_byte_size
            &&& groups_total(r.0.groups) + r.1.bytes_removed == groups_total(t.groups) + msgs_total(
                g.msgs,
            ) + x
            &&& forall|i: int|
                0 <= i < t.groups.len() && (#[trigger] t.groups[i]).priority > p
                    ==> r.0.groups.contains(t.groups[i])
            &&& (g.max_byte_size matches Some(gm) ==> msgs_total(group_at(r.0.groups, p).msgs)
                <= gm)
            &&& (t.max_byte_size matches Some(m) ==> (higher_total(t.groups, p) + x <= m
                ==> groups_total(r.0.groups) <= m))
        }),
{
    let p = u.priority;
    let k1 = prune_count(g.msgs, msgs_total(g.msgs) as int, group_room(g, x));
    let g1 = GroupView { msgs: g.msgs.skip(k1 as int), ..g };
    let cur = (groups_total(t.groups) + msgs_total(g1.msgs)) as int;
    let lim = store_room(t, cur, x);
    let po = prune_groups(t.groups, cur, lim, p);
    let k3 = prune_count(g1.msgs, cur - po.bytes, lim);
    let g2 = GroupView { msgs: g1.msgs.skip(k3 as int), ..g1 };
    let g_fin = GroupView { msgs: g2.msgs.insert(msg_pos(g2.msgs, u) as int, (u, x)), ..g2 };
    let r = make_room_spec(t, g, u, x);
    assert(r.0.groups == with_group(po.kept, g_fin));
    lemma_prune_count(g.msgs, msgs_total(g.msgs) as int, group_room(g, x));
    lemma_msgs_total_split(g.msgs, k1 as int);
    lemma_prune_groups_total(t.groups, cur, lim, p);
    lemma_prune_groups_wf(t.groups, cur, lim, p);
    lemma_prune_groups_no_group(t.groups, cur, lim, p, p);
    lemma_prune_count(g1.msgs, cur - po.bytes, lim);
    lemma_msgs_total_split(g1.msgs, k3 as int);
    lemma_group_wf_skip(g, k1 as int);
    lemma_group_wf_skip(g1, k3 as int);
    assert forall|k: int| 0 <= k < g2.msgs.len() implies !same_msg((#[trigger] g2.msgs[k]).0, u) by {
        assert(g2.msgs[k] == g.msgs[k + k1 + k3]);
    }
    lemma_insert_wf(g2, u, x);
    lemma_msg_pos(g2.msgs, u);
    lemma_msgs_total_insert(g2.msgs, msg_pos(g2.msgs, u) as int, (u, x));
    lemma_with_group(po.kept, g_fin);
    // the new message is found
    let ip = msg_pos(g2.msgs, u) as int;
    assert(g_fin.msgs[ip] == (u, x));
    lemma_msg_index(g_fin.msgs, u);
    assert(msg_index(g_fin.msgs, u) < g_fin.msgs.len());
    // groups of higher priority stay
    lemma_prune_groups_keeps_higher(t.groups, cur, lim, p);
    assert forall|i: int| 0 <= i < t.groups.len() && (#[trigger] t.groups[i]).priority > p implies r.0.groups.contains(
        t.groups[i],
    ) by {
        let j = choose|j: int| 0 <= j < po.kept.len() && po.kept[j] == t.groups[i];
        let w = with_group(po.kept, g_fin);
        let q = pos_of(po.kept, p) as int;
        if j < q {
            assert(w[j] == po.kept[j]);
        } else {
            assert(w[j + 1] == po.kept[j]);
        }
    }
    // the store fits its limit
    if let Some(m) = t.max_byte_size {
        if higher_total(t.groups, p) + x <= m {
            lemma_no_group(t.groups, p);
            lemma_pos_of(t.groups, p);
            lemma_prune_groups_drains(t.groups, cur, lim, p);
            lemma_groups_total_split(t.groups, pos_of(t.groups, p) as int);
        }
    }
}

/// Facts about a successful insert: the checks passed, so making room applies.
proof fn lemma_add_ok(s: StoreView, u: Uuid, x: u64)
    requires
        store_wf(s),
        add_spec(s, u, x).1 is Ok,
    ensures
        ({
            let p = u.priority;
            let g = target_group(s, p);
            let t = StoreView { groups: without_group(s.groups, p), ..s };
            &&& add_spec(s, u, x).0 == make_room_spec(t, g, u, x).0
            &&& add_spec(s, u, x).1 == Ok::<_, crate::store::model::StoreFailure>(
                make_room_spec(t, g, u, x).1,
            )
            &&& groups_wf(t.groups)
            &&& !has_group(t.groups, p)
            &&& group_wf(g)
            &&& g.priority == p
            &&& forall|k: int| 0 <= k < g.msgs.len() ==> !same_msg((#[trigger] g.msgs[k]).0, u)
            &&& (g.max_byte_size matches Some(gm) ==> x <= gm)
            &&& (t.max_byte_size matches Some(m) ==> x <= m)
            &&& (t.max_byte_size matches Some(m) ==> higher_total(t.groups, p) + x <= m)
            &&& groups_total(t.groups) + msgs_total(g.msgs) == store_total(s)
        }),
{
    let p = u.priority;
    lemma_without_group(s.groups, p);
    lemma_pos_of(s.groups, p);
    let g = target_group(s, p);
    if has_group(s.groups, p) {
        assert(group_wf(s.groups[pos_of(s.groups, p) as int]));
        lemma_msg_index(g.msgs, u);
    } else {
        assert(g.msgs.len() == 0);
    }
}

/// A message that was inserted is found in the store.
pub proof fn law_add_then_holds(s: StoreView, u: Uuid, x: u64)
    requires
        store_wf(s),
        add_spec(s, u, x).1 is Ok,
    ensures
        contains_msg(add_spec(s, u, x).0.groups, u),
{
    lemma_add_ok(s, u, x);
    lemma_make_room(
        StoreView { groups: without_group(s.groups, u.priority), ..s },
        target_group(s, u.priority),
        u,
        x,
    );
}

/// An insert accounts for every byte: the store's new size and the bytes it
/// reports burned add up to its old size and the message.
pub proof fn law_add_accounts_bytes(s: StoreView, u: Uuid, x: u64)
    requires
        store_wf(s),
        add_spec(s, u, x).1 is Ok,
    ensures
        store_total(add_spec(s, u, x).0) + add_spec(s, u, x).1->Ok_0.bytes_removed == store_total(s)
            + x,
{
    lemma_add_ok(s, u, x);
    lemma_make_room(
        StoreView { groups: without_group(s.groups, u.priority), ..s },
        target_group(s, u.priority),
        u,
        x,
    );
}

/// Inserting an element keeps every element that was there.
proof fn lemma_insert_keeps(gs: Seq<GroupView>, i: int, g: GroupView, h: GroupView)
    requires
        0 <= i <= gs.len(),
        gs.contains(h),
    ensures
        gs.insert(i, g).contains(h),
{
    let j = choose|j: int| 0 <= j < gs.len() && gs[j] == h;
    if j < i {
        assert(gs.insert(i, g)[j] == h);
    } else {
        assert(gs.insert(i, g)[j + 1] == h);
    }
}

/// The groups other than that of priority `p` keep every group of higher priority.
proof fn lemma_without_keeps_higher(gs: Seq<GroupView>, p: u32)
    requires
        groups_wf(gs),
    ensures
        forall|i: int|
            0 <= i < gs.len() && (#[trigger] gs[i]).priority > p ==> without_group(gs, p).contains(
                gs[i],
            ),
{
    lemma_pos_of(gs, p);
    let o = without_group(gs, p);
    assert forall|i: int| 0 <= i < gs.len() && (#[trigger] gs[i]).priority > p implies o.contains(
        gs[i],
    ) by {
        if has_group(gs, p) {
            let q = pos_of(gs, p) as int;
            assert(i > q);
            assert(o[i - 1] == gs[i]);
        } else {
            assert(o[i] == gs[i]);
        }
    }
}

/// An insert burns no message of higher priority than its own: every group of
/// higher priority stays as it was, whether the insert succeeds or not.
pub proof fn law_add_spares_higher(s: StoreView, u: Uuid, x: u64)
    requires
        store_wf(s),
    ensures
        forall|i: int|
            0 <= i < s.groups.len() && (#[trigger] s.groups[i]).priority > u.priority
                ==> add_spec(s, u, x).0.groups.contains(s.groups[i]),
{
    let p = u.priority;
    let r = add_spec(s, u, x);
    lemma_without_group(s.groups, p);
    lemma_without_keeps_higher(s.groups, p);
    let o = without_group(s.groups, p);
    if contains_msg(s.groups, u) || (s.max_byte_size matches Some(m) && x > m) {
        assert forall|i: int| 0 <= i < s.groups.len() && (#[trigger] s.groups[i]).priority > p implies r.0.groups.contains(
            s.groups[i],
        ) by {
            assert(r.0.groups[i] == s.groups[i]);
        }
    } else if r.1 is Ok {
        let g = target_group(s, p);
        lemma_add_ok(s, u, x);
        lemma_make_room(StoreView { groups: o, ..s }, g, u, x);
        assert forall|i: int| 0 <= i < s.groups.len() && (#[trigger] s.groups[i]).priority > p implies r.0.groups.contains(
            s.groups[i],
        ) by {
            let j = choose|j: int| 0 <= j < o.len() && o[j] == s.groups[i];
            assert(o[j].priority > p);
        }
    } else {
        let g = target_group(s, p);
        lemma_pos_of(o, p);
        assert(r.0.groups == with_group(o, g));
        assert forall|i: int| 0 <= i < s.groups.len() && (#[trigger] s.groups[i]).priority > p implies r.0.groups.contains(
            s.groups[i],
        ) by {
            lemma_insert_keeps(o, pos_of(o, p) as int, g, s.groups[i]);
        }
    }
}

/// After an insert the store holds no more than its limit.
pub proof fn law_add_fits_store(s: StoreView, u: Uuid, x: u64)
    requires
        store_wf(s),
        add_spec(s, u, x).1 is Ok,
    ensures
        s.max_byte_size matches Some(m) ==> store_total(add_spec(s, u, x).0) <= m,
{
    lemma_add_ok(s, u, x);
    lemma_make_room(
        StoreView { groups: without_group(s.groups, u.priority), ..s },
        target_group(s, u.priority),
        u,
        x,
    );
}

/// After an insert the message's group holds no more than its limit.
pub proof fn law_add_fits_group(s: StoreView, u: Uuid, x: u64)
    requires
        store_wf(s),
        add_spec(s, u, x).1 is Ok,
    ensures
        has_group(add_spec(s, u, x).0.groups, u.priority),
        group_at(add_spec(s, u, x).0.groups, u.priority).max_byte_size matches Some(gm)
            ==> msgs_total(group_at(add_spec(s, u, x).0.groups, u.priority).msgs) <= gm,
{
    lemma_add_ok(s, u, x);
    let t = StoreView { groups: without_group(s.groups, u.priority), ..s };
    let g = target_group(s, u.priority);
    lemma_make_room(t, g, u, x);
}

/// A deleted message is no longer in the store.
pub proof fn law_del_then_absent(s: StoreView, u: Uuid)
    requires
        store_wf(s),
    ensures
        !contains_msg(del_spec(s, u).groups, u),
{
    let p = u.priority;
    if contains_msg(s.groups, u) {
        lemma_pos_of(s.groups, p);
        let i = pos_of(s.groups, p) as int;
        let g = s.groups[i];
        assert(group_wf(g));
        lemma_msg_index(g.msgs, u);
        let k = msg_index(g.msgs, u) as int;
        let ms = g.msgs.remove(k);
        let r = del_spec(s, u);
        if ms.len() == 0 {
            lemma_groups_wf_remove(s.groups, i);
            assert forall|j: int| 0 <= j < r.groups.len() implies (#[trigger] r.groups[j]).priority
                != p by {
                if j < i {
                    assert(r.groups[j] == s.groups[j]);
                } else {
                    assert(r.groups[j] == s.groups[j + 1]);
                    assert(s.groups[i].priority < s.groups[j + 1].priority);
                }
            }
            lemma_no_group(r.groups, p);
        } else {
            let ng = GroupView { msgs: ms, ..g };
            assert(r.groups == s.groups.update(i, ng));
            assert forall|j: int| 0 <= j < i implies (#[trigger] r.groups[j]).priority < p by {
                assert(r.groups[j] == s.groups[j]);
            }
            lemma_pos_of_unique(r.groups, p, i);
            assert forall|j: int| 0 <= j < ms.len() implies !same_msg((#[trigger] ms[j]).0, u) by {
                if j >= k {
                    assert(ms[j] == g.msgs[j + 1]);
                    assert(made_before(g.msgs[k].0, g.msgs[j + 1].0));
                }
            }
            lemma_msg_index(ms, u);
        }
    }
}

/// A deleted group is no longer in the store, and the other groups stay.
pub proof fn law_del_group_then_absent(s: StoreView, p: u32)
    requires
        store_wf(s),
    ensures
        !has_group(without_group(s.groups, p), p),
        forall|i: int|
            0 <= i < s.groups.len() && (#[trigger] s.groups[i]).priority != p ==> without_group(
                s.groups,
                p,
            ).contains(s.groups[i]),
{
    lemma_without_group(s.groups, p);
    lemma_pos_of(s.groups, p);
    let o = without_group(s.groups, p);
    assert forall|i: int| 0 <= i < s.groups.len() && (#[trigger] s.groups[i]).priority != p implies o.contains(
        s.groups[i],
    ) by {
        if has_group(s.groups, p) {
            let q = pos_of(s.groups, p) as int;
            if i < q {
                assert(o[i] == s.groups[i]);
            } else {
                assert(i > q);
                assert(o[i - 1] == s.groups[i]);
            }
        } else {
            assert(o[i] == s.groups[i]);
        }
    }
}

/// After the store's limit is changed the store holds no more than the limit.
pub proof fn law_update_store_fits(s: StoreView, m: Option<u64>)
    requires
        store_wf(s),
    ensures
        update_store_spec(s, m).0.max_byte_size == m,
        m matches Some(mx) ==> store_total(update_store_spec(s, m).0) <= mx,
{
    let total = store_total(s) as int;
    let lim = match m {
        Some(mx) => mx as int,
        None => total,
    };
    lemma_prune_groups_total(s.groups, total, lim, u32::MAX);
    lemma_prune_groups_fit(s.groups, total, lim, u32::MAX);
    let po = prune_groups(s.groups, total, lim, u32::MAX);
    if po.kept.len() > 0 && !(total - po.bytes <= lim) {
        assert(po.kept[0].priority > u32::MAX);
    }
    if po.kept.len() == 0 {
        assert(groups_total(po.kept) == 0);
    }
}

/// After a group's defaults are set they read back, and an existing group
/// holds no more than the new limit.
pub proof fn law_update_group_fits(s: StoreView, p: u32, m: Option<u64>)
    requires
        store_wf(s),
    ensures
        default_of(update_group_spec(s, p, m).0.defaults, p) == Some(m),
        has_group(update_group_spec(s, p, m).0.groups, p) == has_group(s.groups, p),
        has_group(s.groups, p) ==> group_at(update_group_spec(s, p, m).0.groups, p).max_byte_size
            == m,
        has_group(s.groups, p) && m is Some ==> msgs_total(
            group_at(update_group_spec(s, p, m).0.groups, p).msgs,
        ) <= m->Some_0,
{
    lemma_default_set(s.defaults, p, m);
    if has_group(s.groups, p) {
        lemma_pos_of(s.groups, p);
        let i = pos_of(s.groups, p) as int;
        let g = s.groups[i];
        let r = update_group_spec(s, p, m).0;
        assert forall|j: int| 0 <= j < i implies (#[trigger] r.groups[j]).priority < p by {
            assert(r.groups[j] == s.groups[j]);
        }
        lemma_pos_of_unique(r.groups, p, i);
        if let Some(gm) = m {
            let k = prune_count(g.msgs, msgs_total(g.msgs) as int, gm as int);
            lemma_prune_count(g.msgs, msgs_total(g.msgs) as int, gm as int);
            lemma_msgs_total_split(g.msgs, k as int);
            if k == g.msgs.len() {
                assert(g.msgs.skip(k as int).len() == 0);
                assert(msgs_total(g.msgs.skip(k as int)) == 0);
            }
        }
    }
}

/// After a group's defaults are removed none reads back, and an existing group
/// has no limit.
pub proof fn law_delete_group_defaults_clears(s: StoreView, p: u32)
    requires
        store_wf(s),
    ensures
        default_of(delete_group_spec(s, p).defaults, p) is None,
        has_group(delete_group_spec(s, p).groups, p) == has_group(s.groups, p),
        has_group(s.groups, p) ==> group_at(delete_group_spec(s, p).groups, p).max_byte_size
            is None,
{
    lemma_default_removed(s.defaults, p);
    if has_group(s.groups, p) {
        lemma_pos_of(s.groups, p);
        let i = pos_of(s.groups, p) as int;
        let r = delete_group_spec(s, p);
        assert forall|j: int| 0 <= j < i implies (#[trigger] r.groups[j]).priority < p by {
            assert(r.groups[j] == s.groups[j]);
        }
        lemma_pos_of_unique(r.groups, p, i);
    }
}

/// The first id of the forwarding order is the oldest message of the highest
/// priority group, and the last is the youngest message of the lowest.
proof fn lemma_forward_ends(gs: Seq<GroupView>)
    requires
        gs.len() > 0,
    ensures
        gs.last().msgs.len() > 0 ==> forward_ids(gs).len() > 0 && forward_ids(gs)[0]
            == gs.last().msgs[0].0,
        gs[0].msgs.len() > 0 ==> forward_ids(gs).len() > 0 && forward_ids(gs).last()
            == gs[0].msgs.last().0,
    decreases gs.len(),
{
    let rest = gs.drop_first();
    if rest.len() > 0 {
        lemma_forward_ends(rest);
        assert(rest.last() == gs.last());
    } else {
        assert(forward_ids(rest) =~= Seq::<Uuid>::empty());
        assert(forward_ids(gs) =~= ids_of(gs[0].msgs));
    }
}

/// With no filter, `get_n` keeps every id.
proof fn lemma_keep_all(ids: Seq<Uuid>)
    ensures
        keep_ids(ids, None, None) == ids,
    decreases ids.len(),
{
    if ids.len() > 0 {
        lemma_keep_all(ids.drop_last());
        assert(ids.drop_last().push(ids.last()) =~= ids);
    }
}

/// The next message that `get` gives without an id or a priority is the first
/// that `get_n` gives, in either order, when the group it comes from holds a
/// message.
pub proof fn law_get_is_first_of_get_n(s: StoreView, reverse: bool)
    requires
        store_wf(s),
        s.groups.len() > 0,
        (if !reverse {
            s.groups.last()
        } else {
            s.groups[0]
        }).msgs.len() > 0,
    ensures
        get_n_spec(s, 1, None, None, reverse).len() == 1,
        get_spec(s, None, None, reverse) == Ok::<Option<Uuid>, StoreFailure>(
            Some(get_n_spec(s, 1, None, None, reverse)[0]),
        ),
{
    let f = forward_ids(s.groups);
    lemma_forward_ends(s.groups);
    if !reverse {
        lemma_keep_all(f);
    } else {
        lemma_keep_all(f.reverse());
        assert(f.reverse()[0] == f.last());
    }
}

/// A message that fits burns nothing: where the store and the message's group
/// have room for it under their limits, an insert burns no message.
pub proof fn law_add_burns_only_when_full(s: StoreView, u: Uuid, x: u64)
    requires
        store_wf(s),
        add_spec(s, u, x).1 is Ok,
        s.max_byte_size matches Some(m) ==> store_total(s) + x <= m,
        target_group(s, u.priority).max_byte_size matches Some(gm) ==> msgs_total(
            target_group(s, u.priority).msgs,
        ) + x <= gm,
    ensures
        add_spec(s, u, x).1->Ok_0.bytes_removed == 0,
        add_spec(s, u, x).1->Ok_0.msgs_removed.len() == 0,
        add_spec(s, u, x).1->Ok_0.groups_removed.len() == 0,
{
    let p = u.priority;
    let g = target_group(s, p);
    let t = StoreView { groups: without_group(s.groups, p), ..s };
    lemma_add_ok(s, u, x);
    let k1 = prune_count(g.msgs, msgs_total(g.msgs) as int, group_room(g, x));
    assert(k1 == 0);
    assert(g.msgs.take(0) =~= Seq::<(Uuid, u64)>::empty());
    assert(g.msgs.skip(0) =~= g.msgs);
    let g1 = GroupView { msgs: g.msgs.skip(k1 as int), ..g };
    let cur = (groups_total(t.groups) + msgs_total(g1.msgs)) as int;
    let lim = store_room(t, cur, x);
    assert(cur <= lim);
    let po = prune_groups(t.groups, cur, lim, p);
    assert(po.bytes == 0 && po.removed.len() == 0 && po.groups_removed.len() == 0);
    let k3 = prune_count(g1.msgs, cur - po.bytes, lim);
    assert(k3 == 0);
    assert(g1.msgs.take(0) =~= Seq::<(Uuid, u64)>::empty());
    assert(ids_of(Seq::<(Uuid, u64)>::empty()) =~= Seq::<Uuid>::empty());
}

/// An insert burns a group's oldest messages first: every group of another
/// priority that it leaves is a group of the store before less some of its
/// oldest messages.
pub proof fn law_add_burns_oldest_first(s: StoreView, u: Uuid, x: u64)
    requires
        store_wf(s),
        add_spec(s, u, x).1 is Ok,
    ensures
        forall|j: int|
            0 <= j < add_spec(s, u, x).0.groups.len() && (#[trigger] add_spec(s, u, x).0.groups[j]).priority
                != u.priority ==> derived_from_one(add_spec(s, u, x).0.groups[j], s.groups),
{
    let p = u.priority;
    let g = target_group(s, p);
    let o = without_group(s.groups, p);
    let t = StoreView { groups: o, ..s };
    lemma_add_ok(s, u, x);
    lemma_without_group(s.groups, p);
    let k1 = prune_count(g.msgs, msgs_total(g.msgs) as int, group_room(g, x));
    let g1 = GroupView { msgs: g.msgs.skip(k1 as int), ..g };
    let cur = (groups_total(o) + msgs_total(g1.msgs)) as int;
    let lim = store_room(t, cur, x);
    let po = prune_groups(o, cur, lim, p);
    let k3 = prune_count(g1.msgs, cur - po.bytes, lim);
    let g2 = GroupView { msgs: g1.msgs.skip(k3 as int), ..g1 };
    let g_fin = GroupView { msgs: g2.msgs.insert(msg_pos(g2.msgs, u) as int, (u, x)), ..g2 };
    let r = add_spec(s, u, x).0;
    assert(r.groups == with_group(po.kept, g_fin));
    lemma_prune_groups_derived(o, cur, lim, p);
    lemma_prune_groups_wf(o, cur, lim, p);
    lemma_pos_of(po.kept, p);
    lemma_insert_derived(po.kept, g_fin, o, s.groups);
}

/// Inserting a group into groups that each come from one of `o`, whose
/// groups all stand in `gs`, leaves every other group derived from `gs`.
proof fn lemma_insert_derived(kept: Seq<GroupView>, g: GroupView, o: Seq<GroupView>, gs: Seq<GroupView>)
    requires
        pos_of(kept, g.priority) <= kept.len(),
        forall|j: int| 0 <= j < kept.len() ==> derived_from_one(#[trigger] kept[j], o),
        forall|j: int|
            0 <= j < o.len() ==> exists|i: int| 0 <= i < gs.len() && #[trigger] o[j] == gs[i],
    ensures
        forall|j: int|
            0 <= j < with_group(kept, g).len() && (#[trigger] with_group(kept, g)[j]).priority
                != g.priority ==> derived_from_one(with_group(kept, g)[j], gs),
{
    let r = with_group(kept, g);
    let q = pos_of(kept, g.priority) as int;
    assert forall|j: int|
        0 <= j < r.len() && (#[trigger] r[j]).priority != g.priority implies derived_from_one(
        r[j],
        gs,
    ) by {
        let h = if j < q {
            kept[j]
        } else {
            kept[j - 1]
        };
        assert(j != q);
        assert(r[j] == h);
        assert(derived_from_one(h, o));
        let i = choose|i: int| 0 <= i < o.len() && #[trigger] derived_from(h, o[i]);
        let k = choose|k: int| 0 <= k < gs.len() && #[trigger] o[i] == gs[k];
        assert(derived_from(h, gs[k]));
    }
}

/// What making room leaves of the other groups is a suffix of them, of which
/// only the first may have lost some of its oldest messages.
proof fn lemma_make_room_suffix(t: StoreView, g: GroupView, u: Uuid, x: u64)
    requires
        groups_wf(t.groups),
        !has_group(t.groups, u.priority),
        group_wf(g),
        g.priority == u.priority,
        forall|k: int| 0 <= k < g.msgs.len() ==> !same_msg((#[trigger] g.msgs[k]).0, u),
    ensures
        ({
            let ro = without_group(make_room_spec(t, g, u, x).0.groups, u.priority);
            let d = t.groups.len() - ro.len();
            &&& ro.len() <= t.groups.len()
            &&& forall|j: int| 1 <= j < ro.len() ==> #[trigger] ro[j] == t.groups[j + d]
            &&& ro.len() > 0 ==> derived_from(ro[0], t.groups[d])
        }),
{
    let p = u.priority;
    let k1 = prune_count(g.msgs, msgs_total(g.msgs) as int, group_room(g, x));
    let g1 = GroupView { msgs: g.msgs.skip(k1 as int), ..g };
    let cur = (groups_total(t.groups) + msgs_total(g1.msgs)) as int;
    let lim = store_room(t, cur, x);
    let po = prune_groups(t.groups, cur, lim, p);
    let k3 = prune_count(g1.msgs, cur - po.bytes, lim);
    let g2 = GroupView { msgs: g1.msgs.skip(k3 as int), ..g1 };
    let g_fin = GroupView { msgs: g2.msgs.insert(msg_pos(g2.msgs, u) as int, (u, x)), ..g2 };
    assert(make_room_spec(t, g, u, x).0.groups == with_group(po.kept, g_fin));
    lemma_prune_count(g.msgs, msgs_total(g.msgs) as int, group_room(g, x));
    lemma_prune_count(g1.msgs, cur - po.bytes, lim);
    lemma_prune_groups_wf(t.groups, cur, lim, p);
    lemma_prune_groups_no_group(t.groups, cur, lim, p, p);
    lemma_group_wf_skip(g, k1 as int);
    lemma_group_wf_skip(g1, k3 as int);
    assert forall|k: int| 0 <= k < g2.msgs.len() implies !same_msg((#[trigger] g2.msgs[k]).0, u) by {
        assert(g2.msgs[k] == g.msgs[k + k1 + k3]);
    }
    lemma_insert_wf(g2, u, x);
    lemma_with_group(po.kept, g_fin);
    lemma_prune_groups_suffix(t.groups, cur, lim, p);
}

/// An insert burns the lowest priorities first: of the groups of other
/// priorities, what stays is a suffix, so the groups that went are the lowest,
/// and only the lowest group that stays may have lost (its oldest) messages.
pub proof fn law_add_burns_lowest_first(s: StoreView, u: Uuid, x: u64)
    requires
        store_wf(s),
        add_spec(s, u, x).1 is Ok,
    ensures
        ({
            let o = without_group(s.groups, u.priority);
            let ro = without_group(add_spec(s, u, x).0.groups, u.priority);
            let d = o.len() - ro.len();
            &&& ro.len() <= o.len()
            &&& forall|j: int| 1 <= j < ro.len() ==> #[trigger] ro[j] == o[j + d]
            &&& ro.len() > 0 ==> derived_from(ro[0], o[d])
        }),
{
    let p = u.priority;
    lemma_add_ok(s, u, x);
    let t = StoreView { groups: without_group(s.groups, p), ..s };
    lemma_make_room_suffix(t, target_group(s, p), u, x);
}

/// Pruning groups that all hold messages, where no message goes, leaves them
/// as they are.
proof fn lemma_prune_groups_nothing(gs: Seq<GroupView>, cur: int, limit: int, p: u32)
    requires
        forall|j: int| 0 <= j < gs.len() ==> (#[trigger] gs[j]).msgs.len() > 0,
        prune_groups(gs, cur, limit, p).removed.len() == 0,
    ensures
        prune_groups(gs, cur, limit, p).kept == gs,
{
    if !(gs.len() == 0 || gs[0].priority > p || cur <= limit) {
        let g = gs[0];
        assert(g.msgs.len() > 0);
        let k = prune_count(g.msgs, cur, limit);
        assert(k >= 1);
        lemma_prune_count(g.msgs, cur, limit);
        assert(ids_of(g.msgs.take(k as int)).len() == k);
    }
}

/// Making room that burns nothing just puts the message in its group.
proof fn lemma_make_room_burns_nothing(t: StoreView, g: GroupView, u: Uuid, x: u64)
    requires
        forall|j: int| 0 <= j < t.groups.len() ==> (#[trigger] t.groups[j]).msgs.len() > 0,
        make_room_spec(t, g, u, x).1.msgs_removed.len() == 0,
    ensures
        make_room_spec(t, g, u, x).0 == (StoreView {
            groups: with_group(
                t.groups,
                GroupView { msgs: g.msgs.insert(msg_pos(g.msgs, u) as int, (u, x)), ..g },
            ),
            ..t
        }),
{
    let p = u.priority;
    let k1 = prune_count(g.msgs, msgs_total(g.msgs) as int, group_room(g, x));
    let g1 = GroupView { msgs: g.msgs.skip(k1 as int), ..g };
    let cur = (groups_total(t.groups) + msgs_total(g1.msgs)) as int;
    let lim = store_room(t, cur, x);
    let po = prune_groups(t.groups, cur, lim, p);
    let k3 = prune_count(g1.msgs, cur - po.bytes, lim);
    lemma_prune_count(g.msgs, msgs_total(g.msgs) as int, group_room(g, x));
    lemma_prune_count(g1.msgs, cur - po.bytes, lim);
    assert(ids_of(g.msgs.take(k1 as int)).len() == k1);
    assert(ids_of(g1.msgs.take(k3 as int)).len() == k3);
    assert(k1 == 0);
    assert(g1.msgs =~= g.msgs);
    assert(g1 == g);
    assert(k3 == 0);
    assert(g1.msgs.skip(0) =~= g.msgs);
    lemma_prune_groups_nothing(t.groups, cur, lim, p);
}

/// A message put into a list where no message names it is found where it was
/// put, and taking it out again gives the list back.
proof fn lemma_index_of_inserted(ms: Seq<MsgV>, u: Uuid, x: u64)
    requires
        forall|k: int, l: int|
            0 <= k < l < ms.len() ==> made_before(#[trigger] ms[k].0, #[trigger] ms[l].0),
        forall|k: int| 0 <= k < ms.len() ==> !same_msg((#[trigger] ms[k]).0, u),
    ensures
        msg_pos(ms, u) <= ms.len(),
        msg_index(ms.insert(msg_pos(ms, u) as int, (u, x)), u) == msg_pos(ms, u),
        ms.insert(msg_pos(ms, u) as int, (u, x)).remove(msg_pos(ms, u) as int) == ms,
{
    lemma_msg_pos(ms, u);
    let ip = msg_pos(ms, u) as int;
    let ns = ms.insert(ip, (u, x));
    assert forall|j: int| 0 <= j < ip implies !same_msg((#[trigger] ns[j]).0, u) by {
        assert(ns[j] == ms[j]);
    }
    assert(ns[ip] == (u, x));
    lemma_msg_index_unique(ns, u, ip);
    assert(ns.remove(ip) =~= ms);
}

/// A group put among sorted groups that hold none of its priority is found at
/// the place where it was put.
proof fn lemma_found_in_with_group(o: Seq<GroupView>, g: GroupView)
    requires
        groups_sorted(o),
        !has_group(o, g.priority),
    ensures
        pos_of(with_group(o, g), g.priority) == pos_of(o, g.priority),
        with_group(o, g)[pos_of(o, g.priority) as int] == g,
        has_group(with_group(o, g), g.priority),
{
    let p = g.priority;
    lemma_pos_of(o, p);
    let q = pos_of(o, p) as int;
    let w = o.insert(q, g);
    assert forall|j: int| 0 <= j < q implies (#[trigger] w[j]).priority < p by {
        assert(w[j] == o[j]);
    }
    lemma_pos_of_unique(w, p, q);
}

/// Deleting a message just put into its group gives back the store without it.
proof fn lemma_del_after_insert(s: StoreView, u: Uuid, x: u64)
    requires
        groups_wf(s.groups),
        forall|j: int| 0 <= j < s.groups.len() ==> (#[trigger] s.groups[j]).msgs.len() > 0,
        group_wf(target_group(s, u.priority)),
        forall|k: int|
            0 <= k < target_group(s, u.priority).msgs.len() ==> !same_msg(
                (#[trigger] target_group(s, u.priority).msgs[k]).0,
                u,
            ),
    ensures
        ({
            let g = target_group(s, u.priority);
            let g_fin = GroupView { msgs: g.msgs.insert(msg_pos(g.msgs, u) as int, (u, x)), ..g };
            del_spec(
                StoreView { groups: with_group(without_group(s.groups, u.priority), g_fin), ..s },
                u,
            ) == s
        }),
{
    let p = u.priority;
    let g = target_group(s, p);
    let o = without_group(s.groups, p);
    let i = pos_of(s.groups, p) as int;
    let ip = msg_pos(g.msgs, u) as int;
    let g_fin = GroupView { msgs: g.msgs.insert(ip, (u, x)), ..g };
    let r = StoreView { groups: with_group(o, g_fin), ..s };
    assert(groups_sorted(o) && !has_group(o, p) && pos_of(o, p) == i && i <= s.groups.len()) by {
        lemma_without_group(s.groups, p);
        lemma_pos_of(s.groups, p);
    }
    assert(msg_index(g_fin.msgs, u) == ip && g_fin.msgs.remove(ip) == g.msgs && ip
        <= g.msgs.len()) by {
        lemma_index_of_inserted(g.msgs, u, x);
    }
    lemma_found_in_with_group(o, g_fin);
    assert(contains_msg(r.groups, u));
    if has_group(s.groups, p) {
        assert(s.groups[i].msgs.len() > 0);
        assert(g == s.groups[i]);
        assert(o == s.groups.remove(i));
        assert(GroupView { msgs: g.msgs, ..g_fin } == g);
        assert(r.groups.update(i, g) =~= s.groups);
    } else {
        assert(o == s.groups);
        assert(g.msgs.len() == 0);
        assert(r.groups.remove(i) =~= s.groups);
    }
}

/// Inserting a message that burns nothing and then deleting it gives back the
/// store as it was, where every group holds a message: a group made for the
/// message goes again with it. Deleting it a second time changes nothing.
pub proof fn law_add_then_del_restores(s: StoreView, u: Uuid, x: u64)
    requires
        store_wf(s),
        forall|j: int| 0 <= j < s.groups.len() ==> (#[trigger] s.groups[j]).msgs.len() > 0,
        add_spec(s, u, x).1 matches Ok(a) && a.msgs_removed.len() == 0,
    ensures
        del_spec(add_spec(s, u, x).0, u) == s,
        del_spec(del_spec(add_spec(s, u, x).0, u), u) == s,
{
    let p = u.priority;
    lemma_add_ok(s, u, x);
    lemma_without_group(s.groups, p);
    let o = without_group(s.groups, p);
    assert forall|j: int| 0 <= j < o.len() implies (#[trigger] o[j]).msgs.len() > 0 by {
        let i = choose|i: int| 0 <= i < s.groups.len() && o[j] == s.groups[i];
    }
    lemma_make_room_burns_nothing(StoreView { groups: o, ..s }, target_group(s, p), u, x);
    lemma_del_after_insert(s, u, x);
    assert(!contains_msg(s.groups, u));
}

/// A place among groups is never past their end.
proof fn lemma_pos_of_bound(gs: Seq<GroupView>, p: u32)
    ensures
        pos_of(gs, p) <= gs.len(),
    decreases gs.len(),
{
    if gs.len() > 0 && gs[0].priority < p {
        lemma_pos_of_bound(gs.drop_first(), p);
    }
}

/// The place of a new message among messages is never past their end.
proof fn lemma_msg_pos_bound(ms: Seq<MsgV>, u: Uuid)
    ensures
        msg_pos(ms, u) <= ms.len(),
    decreases ms.len(),
{
    if ms.len() > 0 && made_before(ms[0].0, u) {
        lemma_msg_pos_bound(ms.drop_first(), u);
    }
}

/// Pruning groups that all hold messages leaves only groups that hold messages:
/// a group either goes whole or keeps some.
proof fn lemma_prune_groups_filled(gs: Seq<GroupView>, cur: int, limit: int, p: u32)
    requires
        forall|j: int| 0 <= j < gs.len() ==> (#[trigger] gs[j]).msgs.len() > 0,
    ensures
        forall|j: int|
            0 <= j < prune_groups(gs, cur, limit, p).kept.len() ==> (#[trigger] prune_groups(
                gs,
                cur,
                limit,
                p,
            ).kept[j]).msgs.len() > 0,
    decreases gs.len(),
{
    if !(gs.len() == 0 || gs[0].priority > p || cur <= limit) {
        let g = gs[0];
        let rest_gs = gs.drop_first();
        let k = prune_count(g.msgs, cur, limit);
        let b = msgs_total(g.msgs.take(k as int));
        lemma_prune_count(g.msgs, cur, limit);
        assert forall|j: int| 0 <= j < rest_gs.len() implies (#[trigger] rest_gs[j]).msgs.len() > 0 by {
            assert(rest_gs[j] == gs[j + 1]);
        }
        lemma_prune_groups_filled(rest_gs, cur - b, limit, p);
        let po = prune_groups(gs, cur, limit, p);
        let rest = prune_groups(rest_gs, cur - b, limit, p);
        if k < g.msgs.len() {
            assert forall|j: int| 0 <= j < po.kept.len() implies (#[trigger] po.kept[j]).msgs.len() > 0 by {
                if j > 0 {
                    assert(po.kept[j] == rest.kept[j - 1]);
                }
            }
        }
    }
}

/// Making room keeps every group filled where the other groups were.
proof fn lemma_make_room_filled(t: StoreView, g: GroupView, u: Uuid, x: u64)
    requires
        g.priority == u.priority,
        forall|j: int| 0 <= j < t.groups.len() ==> (#[trigger] t.groups[j]).msgs.len() > 0,
    ensures
        forall|j: int|
            0 <= j < make_room_spec(t, g, u, x).0.groups.len() ==> (#[trigger] make_room_spec(
                t,
                g,
                u,
                x,
            ).0.groups[j]).msgs.len() > 0,
{
    let p = u.priority;
    let k1 = prune_count(g.msgs, msgs_total(g.msgs) as int, group_room(g, x));
    let g1 = GroupView { msgs: g.msgs.skip(k1 as int), ..g };
    let cur = (groups_total(t.groups) + msgs_total(g1.msgs)) as int;
    let lim = store_room(t, cur, x);
    let po = prune_groups(t.groups, cur, lim, p);
    let k3 = prune_count(g1.msgs, cur - po.bytes, lim);
    let g2 = GroupView { msgs: g1.msgs.skip(k3 as int), ..g1 };
    let g_fin = GroupView { msgs: g2.msgs.insert(msg_pos(g2.msgs, u) as int, (u, x)), ..g2 };
    lemma_prune_count(g.msgs, msgs_total(g.msgs) as int, group_room(g, x));
    lemma_prune_count(g1.msgs, cur - po.bytes, lim);
    lemma_msg_pos_bound(g2.msgs, u);
    assert(g_fin.msgs.len() > 0);
    lemma_prune_groups_filled(t.groups, cur, lim, p);
    let r = make_room_spec(t, g, u, x).0.groups;
    assert(r == with_group(po.kept, g_fin));
    let q = pos_of(po.kept, p) as int;
    lemma_pos_of_bound(po.kept, p);
    assert(r.len() == po.kept.len() + 1);
    assert forall|j: int| 0 <= j < r.len() implies (#[trigger] r[j]).msgs.len() > 0 by {
        if j < q {
            assert(r[j] == po.kept[j]);
        } else if j > q {
            assert(r[j] == po.kept[j - 1]);
        }
    }
}

/// A successful insert leaves no group without a message, where there was none
/// before: groups are burned whole or keep some, and the message's own group
/// holds the message.
pub proof fn law_add_keeps_groups_filled(s: StoreView, u: Uuid, x: u64)
    requires
        store_wf(s),
        forall|j: int| 0 <= j < s.groups.len() ==> (#[trigger] s.groups[j]).msgs.len() > 0,
        add_spec(s, u, x).1 is Ok,
    ensures
        forall|j: int|
            0 <= j < add_spec(s, u, x).0.groups.len() ==> (#[trigger] add_spec(
                s,
                u,
                x,
            ).0.groups[j]).msgs.len() > 0,
{
    let p = u.priority;
    lemma_add_ok(s, u, x);
    lemma_without_group(s.groups, p);
    let o = without_group(s.groups, p);
    assert forall|j: int| 0 <= j < o.len() implies (#[trigger] o[j]).msgs.len() > 0 by {
        let i = choose|i: int| 0 <= i < s.groups.len() && o[j] == s.groups[i];
    }
    lemma_make_room_filled(StoreView { groups: o, ..s }, target_group(s, p), u, x);
}

/// The ids that groups hold, group by group, oldest first within each.
pub open spec fn stored_ids(gs: Seq<GroupView>) -> Seq<Uuid>
    decreases gs.len(),
{
    if gs.len() == 0 {
        Seq::empty()
    } else {
        ids_of(gs[0].msgs) + stored_ids(gs.drop_first())
    }
}

proof fn lemma_stored_ids_single(h: GroupView)
    ensures
        stored_ids(seq![h]) == ids_of(h.msgs),
{
    let e = seq![h].drop_first();
    assert(e =~= Seq::<GroupView>::empty());
    assert(stored_ids(e) =~= Seq::<Uuid>::empty());
    assert(stored_ids(seq![h]) =~= ids_of(h.msgs));
}

proof fn lemma_stored_ids_append(a: Seq<GroupView>, b: Seq<GroupView>)
    ensures
        stored_ids(a + b) == stored_ids(a) + stored_ids(b),
    decreases a.len(),
{
    if a.len() == 0 {
        assert(a + b =~= b);
        assert(stored_ids(a) + stored_ids(b) =~= stored_ids(b));
    } else {
        assert((a + b).drop_first() =~= a.drop_first() + b);
        lemma_stored_ids_append(a.drop_first(), b);
        assert((a + b)[0] == a[0]);
        assert(stored_ids(a + b) =~= stored_ids(a) + stored_ids(b));
    }
}

/// The ids held after a group is put among others: those of the others and
/// those of the group.
proof fn lemma_stored_ids_insert(x: Seq<GroupView>, q: int, h: GroupView)
    requires
        0 <= q <= x.len(),
    ensures
        stored_ids(x.insert(q, h)).to_multiset() == stored_ids(x).to_multiset().add(
            ids_of(h.msgs).to_multiset(),
        ),
{
    let a = x.take(q);
    let b = x.skip(q);
    assert(x =~= a + b);
    assert(x.insert(q, h) =~= a + (seq![h] + b));
    lemma_stored_ids_append(a, b);
    lemma_stored_ids_append(seq![h], b);
    lemma_stored_ids_append(a, seq![h] + b);
    lemma_stored_ids_single(h);
    lemma_multiset_commutative(stored_ids(a), ids_of(h.msgs) + stored_ids(b));
    lemma_multiset_commutative(ids_of(h.msgs), stored_ids(b));
    lemma_multiset_commutative(stored_ids(a), stored_ids(b));
    assert(stored_ids(a).to_multiset().add(ids_of(h.msgs).to_multiset().add(stored_ids(b).to_multiset()))
        =~= stored_ids(a).to_multiset().add(stored_ids(b).to_multiset()).add(ids_of(h.msgs).to_multiset()));
}

/// The ids of messages split into the oldest `k` and the rest.
proof fn lemma_ids_of_split(ms: Seq<MsgV>, k: int)
    requires
        0 <= k <= ms.len(),
    ensures
        ids_of(ms) == ids_of(ms.take(k)) + ids_of(ms.skip(k)),
{
    assert(ids_of(ms) =~= ids_of(ms.take(k)) + ids_of(ms.skip(k)));
}

/// Pruning groups keeps the ids in order: those that went, then those that
/// stay, are the ids held before.
proof fn lemma_prune_groups_ids(gs: Seq<GroupView>, cur: int, limit: int, p: u32)
    ensures
        prune_groups(gs, cur, limit, p).removed + stored_ids(prune_groups(gs, cur, limit, p).kept)
            == stored_ids(gs),
    decreases gs.len(),
{
    let po = prune_groups(gs, cur, limit, p);
    if gs.len() == 0 || gs[0].priority > p || cur <= limit {
        assert(po.removed + stored_ids(po.kept) =~= stored_ids(gs));
    } else {
        let g = gs[0];
        let rest_gs = gs.drop_first();
        let k = prune_count(g.msgs, cur, limit);
        let b = msgs_total(g.msgs.take(k as int));
        lemma_prune_count(g.msgs, cur, limit);
        let rest = prune_groups(rest_gs, cur - b, limit, p);
        lemma_prune_groups_ids(rest_gs, cur - b, limit, p);
        lemma_ids_of_split(g.msgs, k as int);
        if k == g.msgs.len() {
            assert(g.msgs.skip(k as int) =~= Seq::<MsgV>::empty());
            assert(ids_of(g.msgs.skip(k as int)) =~= Seq::<Uuid>::empty());
            assert(po.removed + stored_ids(po.kept) =~= stored_ids(gs));
        } else {
            assert(rest.kept == rest_gs);
            assert(rest.removed =~= Seq::<Uuid>::empty());
            let h = GroupView { msgs: g.msgs.skip(k as int), ..g };
            assert(po.kept == seq![h] + rest_gs);
            lemma_stored_ids_append(seq![h], rest_gs);
            lemma_stored_ids_single(h);
            assert(po.removed + stored_ids(po.kept) =~= stored_ids(gs));
        }
    }
}

/// What making room and inserting does to the ids: the ids held before and the
/// new one are the ids held after and those reported burned.
proof fn lemma_make_room_ids(t: StoreView, g: GroupView, u: Uuid, x: u64)
    requires
        g.priority == u.priority,
    ensures
        stored_ids(t.groups).to_multiset().add(ids_of(g.msgs).to_multiset()).insert(u)
            == stored_ids(make_room_spec(t, g, u, x).0.groups).to_multiset().add(
            make_room_spec(t, g, u, x).1.msgs_removed.to_multiset(),
        ),
{
    broadcast use vstd::multiset::group_multiset_axioms;

    let p = u.priority;
    let k1 = prune_count(g.msgs, msgs_total(g.msgs) as int, group_room(g, x));
    let g1 = GroupView { msgs: g.msgs.skip(k1 as int), ..g };
    let cur = (groups_total(t.groups) + msgs_total(g1.msgs)) as int;
    let lim = store_room(t, cur, x);
    let po = prune_groups(t.groups, cur, lim, p);
    let k3 = prune_count(g1.msgs, cur - po.bytes, lim);
    let g2 = GroupView { msgs: g1.msgs.skip(k3 as int), ..g1 };
    let ip = msg_pos(g2.msgs, u) as int;
    let g_fin = GroupView { msgs: g2.msgs.insert(ip, (u, x)), ..g2 };
    let r = make_room_spec(t, g, u, x);
    assert(r.0.groups == with_group(po.kept, g_fin));
    lemma_prune_count(g.msgs, msgs_total(g.msgs) as int, group_room(g, x));
    lemma_prune_count(g1.msgs, cur - po.bytes, lim);
    lemma_msg_pos_bound(g2.msgs, u);
    lemma_pos_of_bound(po.kept, p);
    let a1 = ids_of(g.msgs.take(k1 as int));
    let a3 = ids_of(g1.msgs.take(k3 as int));
    let ig2 = ids_of(g2.msgs);
    lemma_ids_of_split(g.msgs, k1 as int);
    lemma_ids_of_split(g1.msgs, k3 as int);
    assert(ids_of(g_fin.msgs) =~= ig2.insert(ip, u));
    lemma_prune_groups_ids(t.groups, cur, lim, p);
    lemma_stored_ids_insert(po.kept, pos_of(po.kept, p) as int, g_fin);
    // ids of the group before: what went first, what went last, what stays
    lemma_multiset_commutative(a1, ids_of(g1.msgs));
    lemma_multiset_commutative(a3, ig2);
    lemma_multiset_commutative(po.removed, stored_ids(po.kept));
    lemma_multiset_commutative(a1 + po.removed, a3);
    lemma_multiset_commutative(a1, po.removed);
    assert(r.1.msgs_removed == a1 + po.removed + a3);
    assert(ig2.insert(ip, u).to_multiset() == ig2.to_multiset().insert(u)) by {
        vstd::seq_lib::to_multiset_insert(ig2, ip, u);
    }
    let mk = stored_ids(po.kept).to_multiset();
    let mr = po.removed.to_multiset();
    let m1 = a1.to_multiset();
    let m3 = a3.to_multiset();
    let m2 = ig2.to_multiset();
    assert(stored_ids(t.groups).to_multiset() == mr.add(mk));
    assert(ids_of(g.msgs).to_multiset() == m1.add(m3.add(m2)));
    assert(stored_ids(r.0.groups).to_multiset() == mk.add(m2.insert(u)));
    assert(r.1.msgs_removed.to_multiset() == m1.add(mr).add(m3));
    assert(mr.add(mk).add(m1.add(m3.add(m2))).insert(u) =~= mk.add(m2.insert(u)).add(m1.add(mr).add(m3)));
}

/// An insert accounts for every id: the ids held before and the new one are
/// the ids held after and the ids it reports burned, each as often.
pub proof fn law_add_accounts_ids(s: StoreView, u: Uuid, x: u64)
    requires
        store_wf(s),
        add_spec(s, u, x).1 is Ok,
    ensures
        stored_ids(s.groups).to_multiset().insert(u) == stored_ids(add_spec(s, u, x).0.groups).to_multiset().add(
            add_spec(s, u, x).1->Ok_0.msgs_removed.to_multiset(),
        ),
{
    broadcast use vstd::multiset::group_multiset_axioms;

    let p = u.priority;
    lemma_add_ok(s, u, x);
    lemma_without_group(s.groups, p);
    lemma_pos_of(s.groups, p);
    let g = target_group(s, p);
    let o = without_group(s.groups, p);
    lemma_make_room_ids(StoreView { groups: o, ..s }, g, u, x);
    if has_group(s.groups, p) {
        let i = pos_of(s.groups, p) as int;
        assert(s.groups =~= o.insert(i, g));
        lemma_stored_ids_insert(o, i, g);
    } else {
        assert(ids_of(g.msgs) =~= Seq::<Uuid>::empty());
        assert forall|v: Uuid| ids_of(g.msgs).to_multiset().count(v) == 0 by {
            vstd::seq_lib::to_multiset_contains(ids_of(g.msgs), v);
        }
        assert(ids_of(g.msgs).to_multiset() =~= Multiset::<Uuid>::empty());
        assert(stored_ids(o).to_multiset().add(ids_of(g.msgs).to_multiset()) =~= stored_ids(o).to_multiset());
    }
}

/// Deleting a message that the store holds takes exactly its bytes off the
/// store's size.
pub proof fn law_del_accounts_bytes(s: StoreView, u: Uuid)
    requires
        store_wf(s),
        contains_msg(s.groups, u),
    ensures
        store_total(del_spec(s, u)) + group_at(s.groups, u.priority).msgs[msg_index(
            group_at(s.groups, u.priority).msgs,
            u,
        ) as int].1 == store_total(s),
{
    let p = u.priority;
    lemma_pos_of(s.groups, p);
    let i = pos_of(s.groups, p) as int;
    let g = s.groups[i];
    let k = msg_index(g.msgs, u) as int;
    lemma_msg_index(g.msgs, u);
    let ms = g.msgs.remove(k);
    lemma_msgs_total_remove(g.msgs, k);
    if ms.len() == 0 {
        lemma_groups_total_remove(s.groups, i);
        assert(msgs_total(ms) == 0);
    } else {
        lemma_groups_total_update(s.groups, i, GroupView { msgs: ms, ..g });
    }
}

} // verus!
