//! Facts about the store model that the operations' proofs use.
use crate::store::model::{
    all_meta, default_of, default_pos, defaults_sorted, get_n_keeps, group_at, group_wf, groups_sorted,
    groups_total, groups_wf, has_group, keep_ids, meta_of, msg_index, msg_pos, msgs_total, pos_of,
    prune_count, prune_groups, remove_default, set_default, with_group, without_group, GroupView,
    MsgV,
};
use crate::store::uuid::{made_before, same_msg, Uuid};
use vstd::prelude::*;

verus! {

pub proof fn lemma_msgs_total_append(a: Seq<MsgV>, b: Seq<MsgV>)
    ensures
        msgs_total(a + b) == msgs_total(a) + msgs_total(b),
    decreases a.len(),
{
    if a.len() == 0 {
        assert(a + b =~= b);
    } else {
        assert((a + b).drop_first() =~= a.drop_first() + b);
        lemma_msgs_total_append(a.drop_first(), b);
    }
}

pub proof fn lemma_msgs_total_split(ms: Seq<MsgV>, k: int)
    requires
        0 <= k <= ms.len(),
    ensures
        msgs_total(ms) == msgs_total(ms.take(k)) + msgs_total(ms.skip(k)),
{
    assert(ms =~= ms.take(k) + ms.skip(k));
    lemma_msgs_total_append(ms.take(k), ms.skip(k));
}

pub proof fn lemma_msgs_total_single(m: MsgV)
    ensures
        msgs_total(seq![m]) == m.1,
{
    assert(seq![m].drop_first() =~= Seq::<MsgV>::empty());
    assert(msgs_total(Seq::<MsgV>::empty()) == 0);
}

pub proof fn lemma_msgs_total_push(ms: Seq<MsgV>, m: MsgV)
    ensures
        msgs_total(ms.push(m)) == msgs_total(ms) + m.1,
{
    lemma_msgs_total_append(ms, seq![m]);
    lemma_msgs_total_single(m);
    assert(ms + seq![m] =~= ms.push(m));
}

pub proof fn lemma_msgs_total_insert(ms: Seq<MsgV>, i: int, m: MsgV)
    requires
        0 <= i <= ms.len(),
    ensures
        msgs_total(ms.insert(i, m)) == msgs_total(ms) + m.1,
{
    assert(ms.insert(i, m) =~= ms.take(i) + (seq![m] + ms.skip(i)));
    lemma_msgs_total_append(ms.take(i), seq![m] + ms.skip(i));
    lemma_msgs_total_append(seq![m], ms.skip(i));
    lemma_msgs_total_single(m);
    lemma_msgs_total_split(ms, i);
}

pub proof fn lemma_msgs_total_remove(ms: Seq<MsgV>, i: int)
    requires
        0 <= i < ms.len(),
    ensures
        msgs_total(ms.remove(i)) + ms[i].1 == msgs_total(ms),
{
    lemma_msgs_total_insert(ms.remove(i), i, ms[i]);
    assert(ms.remove(i).insert(i, ms[i]) =~= ms);
}

pub proof fn lemma_msgs_total_at_least(ms: Seq<MsgV>, i: int)
    requires
        0 <= i < ms.len(),
    ensures
        ms[i].1 <= msgs_total(ms),
{
    lemma_msgs_total_remove(ms, i);
}

pub proof fn lemma_groups_total_append(a: Seq<GroupView>, b: Seq<GroupView>)
    ensures
        groups_total(a + b) == groups_total(a) + groups_total(b),
    decreases a.len(),
{
    if a.len() == 0 {
        assert(a + b =~= b);
    } else {
        assert((a + b).drop_first() =~= a.drop_first() + b);
        lemma_groups_total_append(a.drop_first(), b);
    }
}

pub proof fn lemma_groups_total_split(gs: Seq<GroupView>, k: int)
    requires
        0 <= k <= gs.len(),
    ensures
        groups_total(gs) == groups_total(gs.take(k)) + groups_total(gs.skip(k)),
{
    assert(gs =~= gs.take(k) + gs.skip(k));
    lemma_groups_total_append(gs.take(k), gs.skip(k));
}

pub proof fn lemma_groups_total_single(g: GroupView)
    ensures
        groups_total(seq![g]) == msgs_total(g.msgs),
{
    assert(seq![g].drop_first() =~= Seq::<GroupView>::empty());
    assert(groups_total(Seq::<GroupView>::empty()) == 0);
}

pub proof fn lemma_groups_total_insert(gs: Seq<GroupView>, i: int, g: GroupView)
    requires
        0 <= i <= gs.len(),
    ensures
        groups_total(gs.insert(i, g)) == groups_total(gs) + msgs_total(g.msgs),
{
    assert(gs.insert(i, g) =~= gs.take(i) + (seq![g] + gs.skip(i)));
    lemma_groups_total_append(gs.take(i), seq![g] + gs.skip(i));
    lemma_groups_total_append(seq![g], gs.skip(i));
    lemma_groups_total_single(g);
    lemma_groups_total_split(gs, i);
}

pub proof fn lemma_groups_total_remove(gs: Seq<GroupView>, i: int)
    requires
        0 <= i < gs.len(),
    ensures
        groups_total(gs.remove(i)) + msgs_total(gs[i].msgs) == groups_total(gs),
{
    lemma_groups_total_insert(gs.remove(i), i, gs[i]);
    assert(gs.remove(i).insert(i, gs[i]) =~= gs);
}

pub proof fn lemma_groups_total_update(gs: Seq<GroupView>, i: int, g: GroupView)
    requires
        0 <= i < gs.len(),
    ensures
        groups_total(gs.update(i, g)) + msgs_total(gs[i].msgs) == groups_total(gs) + msgs_total(
            g.msgs,
        ),
{
    lemma_groups_total_remove(gs, i);
    lemma_groups_total_insert(gs.remove(i), i, g);
    assert(gs.remove(i).insert(i, g) =~= gs.update(i, g));
}

/// The prefix that pruning takes: never more than all, and when it stops short
/// the size has come down to the limit.
pub proof fn lemma_prune_count(ms: Seq<MsgV>, cur: int, limit: int)
    ensures
        prune_count(ms, cur, limit) <= ms.len(),
        prune_count(ms, cur, limit) < ms.len() ==> cur - msgs_total(
            ms.take(prune_count(ms, cur, limit) as int),
        ) <= limit,
        cur <= limit ==> prune_count(ms, cur, limit) == 0,
        prune_count(ms, cur, limit) > 0 ==> cur > limit,
    decreases ms.len(),
{
    if !(cur <= limit || ms.len() == 0) {
        let rest = ms.drop_first();
        lemma_prune_count(rest, cur - ms[0].1, limit);
        let k = prune_count(ms, cur, limit);
        let k1 = prune_count(rest, cur - ms[0].1, limit);
        assert(k == k1 + 1);
        assert(ms.take(k as int) =~= seq![ms[0]] + rest.take(k1 as int));
        lemma_msgs_total_append(seq![ms[0]], rest.take(k1 as int));
        assert(seq![ms[0]].drop_first() =~= Seq::<MsgV>::empty());
    } else {
        assert(ms.take(0) =~= Seq::<MsgV>::empty());
    }
}

/// One step of the pruning count.
pub proof fn lemma_prune_count_step(ms: Seq<MsgV>, i: int, cur: int, limit: int)
    requires
        0 <= i < ms.len(),
        cur > limit,
    ensures
        prune_count(ms.skip(i), cur, limit) == 1 + prune_count(ms.skip(i + 1), cur - ms[i].1, limit),
{
    assert(ms.skip(i).drop_first() =~= ms.skip(i + 1));
    assert(ms.skip(i)[0] == ms[i]);
}

/// Where a priority stands among sorted groups.
pub proof fn lemma_pos_of(gs: Seq<GroupView>, p: u32)
    requires
        groups_sorted(gs),
    ensures
        pos_of(gs, p) <= gs.len(),
        forall|j: int| 0 <= j < pos_of(gs, p) ==> (#[trigger] gs[j]).priority < p,
        forall|j: int| pos_of(gs, p) <= j < gs.len() ==> (#[trigger] gs[j]).priority >= p,
    decreases gs.len(),
{
    if gs.len() > 0 && gs[0].priority < p {
        let rest = gs.drop_first();
        assert(groups_sorted(rest)) by {
            assert forall|i: int, j: int| 0 <= i < j < rest.len() implies (
            #[trigger] rest[i]).priority < (#[trigger] rest[j]).priority by {
                assert(rest[i] == gs[i + 1] && rest[j] == gs[j + 1]);
            }
        }
        lemma_pos_of(rest, p);
        assert forall|j: int| 0 <= j < pos_of(gs, p) implies (#[trigger] gs[j]).priority < p by {
            if j > 0 {
                assert(gs[j] == rest[j - 1]);
            }
        }
        assert forall|j: int| pos_of(gs, p) <= j < gs.len() implies (#[trigger] gs[j]).priority
            >= p by {
            assert(gs[j] == rest[j - 1]);
        }
    } else if gs.len() > 0 {
        assert forall|j: int| 0 <= j < gs.len() implies (#[trigger] gs[j]).priority >= p by {
            if j > 0 {
                assert(gs[0].priority < gs[j].priority);
            }
        }
    }
}

/// A position characterized by the priorities around it is `pos_of`.
pub proof fn lemma_pos_of_unique(gs: Seq<GroupView>, p: u32, i: int)
    requires
        0 <= i <= gs.len(),
        forall|j: int| 0 <= j < i ==> (#[trigger] gs[j]).priority < p,
        i < gs.len() ==> gs[i].priority >= p,
    ensures
        pos_of(gs, p) == i,
    decreases i,
{
    if i > 0 {
        let rest = gs.drop_first();
        assert forall|j: int| 0 <= j < i - 1 implies (#[trigger] rest[j]).priority < p by {
            assert(rest[j] == gs[j + 1]);
        }
        assert(gs[0].priority < p);
        lemma_pos_of_unique(rest, p, i - 1);
    }
}

/// Where a priority stands among sorted defaults.
pub proof fn lemma_default_pos(ds: Seq<(u32, Option<u64>)>, p: u32)
    requires
        defaults_sorted(ds),
    ensures
        default_pos(ds, p) <= ds.len(),
        forall|j: int| 0 <= j < default_pos(ds, p) ==> (#[trigger] ds[j]).0 < p,
        forall|j: int| default_pos(ds, p) <= j < ds.len() ==> (#[trigger] ds[j]).0 >= p,
    decreases ds.len(),
{
    if ds.len() > 0 && ds[0].0 < p {
        let rest = ds.drop_first();
        assert(defaults_sorted(rest)) by {
            assert forall|i: int, j: int| 0 <= i < j < rest.len() implies (#[trigger] rest[i]).0
                < (#[trigger] rest[j]).0 by {
                assert(rest[i] == ds[i + 1] && rest[j] == ds[j + 1]);
            }
        }
        lemma_default_pos(rest, p);
        assert forall|j: int| 0 <= j < default_pos(ds, p) implies (#[trigger] ds[j]).0 < p by {
            if j > 0 {
                assert(ds[j] == rest[j - 1]);
            }
        }
        assert forall|j: int| default_pos(ds, p) <= j < ds.len() implies (#[trigger] ds[j]).0
            >= p by {
            assert(ds[j] == rest[j - 1]);
        }
    } else if ds.len() > 0 {
        assert forall|j: int| 0 <= j < ds.len() implies (#[trigger] ds[j]).0 >= p by {
            if j > 0 {
                assert(ds[0].0 < ds[j].0);
            }
        }
    }
}

/// A default position characterized by the priorities around it is `default_pos`.
pub proof fn lemma_default_pos_unique(ds: Seq<(u32, Option<u64>)>, p: u32, i: int)
    requires
        0 <= i <= ds.len(),
        forall|j: int| 0 <= j < i ==> (#[trigger] ds[j]).0 < p,
        i < ds.len() ==> ds[i].0 >= p,
    ensures
        default_pos(ds, p) == i,
    decreases i,
{
    if i > 0 {
        let rest = ds.drop_first();
        assert forall|j: int| 0 <= j < i - 1 implies (#[trigger] rest[j]).0 < p by {
            assert(rest[j] == ds[j + 1]);
        }
        assert(ds[0].0 < p);
        lemma_default_pos_unique(rest, p, i - 1);
    }
}

/// The index of the message a given id names, characterized.
pub proof fn lemma_msg_index(ms: Seq<MsgV>, u: Uuid)
    ensures
        msg_index(ms, u) <= ms.len(),
        forall|j: int| 0 <= j < msg_index(ms, u) ==> !same_msg((#[trigger] ms[j]).0, u),
        msg_index(ms, u) < ms.len() ==> same_msg(ms[msg_index(ms, u) as int].0, u),
    decreases ms.len(),
{
    if ms.len() > 0 && !same_msg(ms[0].0, u) {
        let rest = ms.drop_first();
        lemma_msg_index(rest, u);
        assert forall|j: int| 0 <= j < msg_index(ms, u) implies !same_msg((#[trigger] ms[j]).0, u) by {
            if j > 0 {
                assert(ms[j] == rest[j - 1]);
            }
        }
        if msg_index(ms, u) < ms.len() {
            assert(ms[msg_index(ms, u) as int] == rest[msg_index(rest, u) as int]);
        }
    }
}

/// A message index characterized by the ids around it is `msg_index`.
pub proof fn lemma_msg_index_unique(ms: Seq<MsgV>, u: Uuid, i: int)
    requires
        0 <= i <= ms.len(),
        forall|j: int| 0 <= j < i ==> !same_msg((#[trigger] ms[j]).0, u),
        i < ms.len() ==> same_msg(ms[i].0, u),
    ensures
        msg_index(ms, u) == i,
    decreases i,
{
    if i > 0 {
        let rest = ms.drop_first();
        assert forall|j: int| 0 <= j < i - 1 implies !same_msg((#[trigger] rest[j]).0, u) by {
            assert(rest[j] == ms[j + 1]);
        }
        assert(!same_msg(ms[0].0, u));
        lemma_msg_index_unique(rest, u, i - 1);
    }
}

/// Where an id is inserted among messages kept oldest first, characterized.
pub proof fn lemma_msg_pos_unique(ms: Seq<MsgV>, u: Uuid, i: int)
    requires
        0 <= i <= ms.len(),
        forall|j: int| 0 <= j < i ==> made_before((#[trigger] ms[j]).0, u),
        i < ms.len() ==> !made_before(ms[i].0, u),
    ensures
        msg_pos(ms, u) == i,
    decreases i,
{
    if i > 0 {
        let rest = ms.drop_first();
        assert forall|j: int| 0 <= j < i - 1 implies made_before((#[trigger] rest[j]).0, u) by {
            assert(rest[j] == ms[j + 1]);
        }
        assert(made_before(ms[0].0, u));
        lemma_msg_pos_unique(rest, u, i - 1);
    }
}

} // verus!

verus! {

/// A group keeps its well-formedness when its oldest messages go.
pub proof fn lemma_group_wf_skip(g: GroupView, k: int)
    requires
        group_wf(g),
        0 <= k <= g.msgs.len(),
    ensures
        group_wf(GroupView { msgs: g.msgs.skip(k), ..g }),
{
    let h = GroupView { msgs: g.msgs.skip(k), ..g };
    assert forall|a: int, b: int| 0 <= a < b < h.msgs.len() implies made_before(
        #[trigger] h.msgs[a].0,
        #[trigger] h.msgs[b].0,
    ) by {
        assert(h.msgs[a] == g.msgs[a + k] && h.msgs[b] == g.msgs[b + k]);
    }
    assert forall|a: int| 0 <= a < h.msgs.len() implies (#[trigger] h.msgs[a]).0.priority
        == h.priority by {
        assert(h.msgs[a] == g.msgs[a + k]);
    }
}

/// Sorted groups stay sorted when one goes.
pub proof fn lemma_groups_wf_remove(gs: Seq<GroupView>, i: int)
    requires
        groups_wf(gs),
        0 <= i < gs.len(),
    ensures
        groups_wf(gs.remove(i)),
{
    let r = gs.remove(i);
    assert forall|a: int, b: int| 0 <= a < b < r.len() implies (#[trigger] r[a]).priority < (
    #[trigger] r[b]).priority by {
        let a0 = if a < i {
            a
        } else {
            a + 1
        };
        let b0 = if b < i {
            b
        } else {
            b + 1
        };
        assert(r[a] == gs[a0] && r[b] == gs[b0]);
    }
    assert forall|a: int| 0 <= a < r.len() implies group_wf(#[trigger] r[a]) by {
        if a < i {
            assert(r[a] == gs[a]);
        } else {
            assert(r[a] == gs[a + 1]);
        }
    }
}

/// Taking out the group of priority `p`: the rest stays well-formed, holds no
/// group `p`, and a group `p` goes back in at the same place.
pub proof fn lemma_without_group(gs: Seq<GroupView>, p: u32)
    requires
        groups_wf(gs),
    ensures
        groups_wf(without_group(gs, p)),
        !has_group(without_group(gs, p), p),
        pos_of(without_group(gs, p), p) == pos_of(gs, p),
        groups_total(without_group(gs, p)) + (if has_group(gs, p) {
            msgs_total(group_at(gs, p).msgs)
        } else {
            0
        }) == groups_total(gs),
        forall|j: int|
            0 <= j < without_group(gs, p).len() ==> exists|i: int|
                0 <= i < gs.len() && #[trigger] without_group(gs, p)[j] == gs[i],
{
    lemma_pos_of(gs, p);
    let i = pos_of(gs, p) as int;
    let o = without_group(gs, p);
    if has_group(gs, p) {
        lemma_groups_wf_remove(gs, i);
        lemma_groups_total_remove(gs, i);
        assert forall|j: int| 0 <= j < i implies (#[trigger] o[j]).priority < p by {
            assert(o[j] == gs[j]);
        }
        if i < o.len() {
            assert(o[i] == gs[i + 1]);
            assert(gs[i].priority < gs[i + 1].priority);
        }
        lemma_pos_of_unique(o, p, i);
        assert forall|j: int| 0 <= j < o.len() implies exists|k: int|
            0 <= k < gs.len() && #[trigger] o[j] == gs[k] by {
            if j < i {
                assert(o[j] == gs[j]);
            } else {
                assert(o[j] == gs[j + 1]);
            }
        }
    } else {
        lemma_pos_of_unique(o, p, i);
        assert forall|j: int| 0 <= j < o.len() implies exists|k: int|
            0 <= k < gs.len() && #[trigger] o[j] == gs[k] by {
            assert(o[j] == gs[j]);
        }
    }
    lemma_pos_of(o, p);
}

/// Putting a group back in where it belongs keeps the groups well-formed.
pub proof fn lemma_with_group(gs: Seq<GroupView>, g: GroupView)
    requires
        groups_wf(gs),
        group_wf(g),
        !has_group(gs, g.priority),
    ensures
        groups_wf(with_group(gs, g)),
        groups_total(with_group(gs, g)) == groups_total(gs) + msgs_total(g.msgs),
        has_group(with_group(gs, g), g.priority),
        group_at(with_group(gs, g), g.priority) == g,
        pos_of(with_group(gs, g), g.priority) == pos_of(gs, g.priority),
        without_group(with_group(gs, g), g.priority) == gs,
{
    let p = g.priority;
    lemma_pos_of(gs, p);
    let i = pos_of(gs, p) as int;
    let w = with_group(gs, g);
    if i < gs.len() {
        assert(gs[i].priority != p);
    }
    assert forall|a: int, b: int| 0 <= a < b < w.len() implies (#[trigger] w[a]).priority < (
    #[trigger] w[b]).priority by {
        if b < i {
            assert(w[a] == gs[a] && w[b] == gs[b]);
        } else if b == i {
            assert(w[a] == gs[a]);
        } else if a < i {
            assert(w[a] == gs[a] && w[b] == gs[b - 1]);
        } else if a == i {
            assert(w[b] == gs[b - 1]);
        } else {
            assert(w[a] == gs[a - 1] && w[b] == gs[b - 1]);
        }
    }
    assert forall|a: int| 0 <= a < w.len() implies group_wf(#[trigger] w[a]) by {
        if a < i {
            assert(w[a] == gs[a]);
        } else if a > i {
            assert(w[a] == gs[a - 1]);
        }
    }
    lemma_groups_total_insert(gs, i, g);
    assert forall|j: int| 0 <= j < i implies (#[trigger] w[j]).priority < p by {
        assert(w[j] == gs[j]);
    }
    lemma_pos_of_unique(w, p, i);
    assert(w.remove(i) =~= gs);
}

/// Whether `h` is `g` less some of its oldest messages.
pub open spec fn derived_from(h: GroupView, g: GroupView) -> bool {
    &&& h.priority == g.priority
    &&& h.max_byte_size == g.max_byte_size
    &&& h.msgs.len() <= g.msgs.len()
    &&& h.msgs == g.msgs.skip(g.msgs.len() - h.msgs.len())
}

proof fn lemma_rest_wf(gs: Seq<GroupView>)
    requires
        groups_wf(gs),
        gs.len() > 0,
    ensures
        groups_wf(gs.drop_first()),
{
    let r = gs.drop_first();
    assert forall|a: int, c: int| 0 <= a < c < r.len() implies (#[trigger] r[a]).priority < (
    #[trigger] r[c]).priority by {
        assert(r[a] == gs[a + 1] && r[c] == gs[c + 1]);
    }
    assert forall|a: int| 0 <= a < r.len() implies group_wf(#[trigger] r[a]) by {
        assert(r[a] == gs[a + 1]);
    }
}

/// Pruning accounts for every byte: what stays and what went add up to what was.
pub proof fn lemma_prune_groups_total(gs: Seq<GroupView>, cur: int, limit: int, p: u32)
    ensures
        groups_total(prune_groups(gs, cur, limit, p).kept) + prune_groups(gs, cur, limit, p).bytes
            == groups_total(gs),
    decreases gs.len(),
{
    if !(gs.len() == 0 || gs[0].priority > p || cur <= limit) {
        let g = gs[0];
        let k = prune_count(g.msgs, cur, limit);
        let b = msgs_total(g.msgs.take(k as int));
        let rest = prune_groups(gs.drop_first(), cur - b, limit, p);
        lemma_prune_groups_total(gs.drop_first(), cur - b, limit, p);
        lemma_prune_count(g.msgs, cur, limit);
        lemma_msgs_total_split(g.msgs, k as int);
        if k < g.msgs.len() {
            let g2 = GroupView { msgs: g.msgs.skip(k as int), ..g };
            lemma_groups_total_append(seq![g2], rest.kept);
            lemma_groups_total_single(g2);
        } else {
            assert(g.msgs.skip(k as int).len() == 0);
            assert(msgs_total(g.msgs.skip(k as int)) == 0);
        }
    }
}

/// Whether `h` is one of the groups of `gs` less some of its oldest messages.
pub open spec fn derived_from_one(h: GroupView, gs: Seq<GroupView>) -> bool {
    exists|i: int| 0 <= i < gs.len() && #[trigger] derived_from(h, gs[i])
}

proof fn lemma_derived_from_rest(h: GroupView, gs: Seq<GroupView>)
    requires
        gs.len() > 0,
        derived_from_one(h, gs.drop_first()),
    ensures
        derived_from_one(h, gs),
{
    let r = gs.drop_first();
    let i = choose|i: int| 0 <= i < r.len() && #[trigger] derived_from(h, r[i]);
    assert(r[i] == gs[i + 1]);
    assert(derived_from(h, gs[i + 1]));
}

proof fn lemma_derived_from_self(gs: Seq<GroupView>, j: int)
    requires
        0 <= j < gs.len(),
    ensures
        derived_from_one(gs[j], gs),
{
    assert(gs[j].msgs.skip(0) =~= gs[j].msgs);
    assert(derived_from(gs[j], gs[j]));
}

/// Every group that stays is an old group less some of its oldest messages.
pub proof fn lemma_prune_groups_derived(gs: Seq<GroupView>, cur: int, limit: int, p: u32)
    ensures
        forall|j: int|
            0 <= j < prune_groups(gs, cur, limit, p).kept.len() ==> derived_from_one(
                #[trigger] prune_groups(gs, cur, limit, p).kept[j],
                gs,
            ),
    decreases gs.len(),
{
    let po = prune_groups(gs, cur, limit, p);
    if gs.len() == 0 || gs[0].priority > p || cur <= limit {
        assert forall|j: int| 0 <= j < po.kept.len() implies derived_from_one(
            #[trigger] po.kept[j],
            gs,
        ) by {
            lemma_derived_from_self(gs, j);
        }
    } else {
        let g = gs[0];
        let rest_gs = gs.drop_first();
        let k = prune_count(g.msgs, cur, limit);
        let b = msgs_total(g.msgs.take(k as int));
        let rest = prune_groups(rest_gs, cur - b, limit, p);
        lemma_prune_groups_derived(rest_gs, cur - b, limit, p);
        lemma_prune_count(g.msgs, cur, limit);
        if k < g.msgs.len() {
            let g2 = GroupView { msgs: g.msgs.skip(k as int), ..g };
            assert(po.kept == seq![g2] + rest.kept);
            assert forall|j: int| 0 <= j < po.kept.len() implies derived_from_one(
                #[trigger] po.kept[j],
                gs,
            ) by {
                if j == 0 {
                    assert(g.msgs.skip(g.msgs.len() - g2.msgs.len()) =~= g2.msgs);
                    assert(derived_from(po.kept[0], gs[0]));
                } else {
                    assert(po.kept[j] == rest.kept[j - 1]);
                    lemma_derived_from_rest(po.kept[j], gs);
                }
            }
        } else {
            assert(po.kept == rest.kept);
            assert forall|j: int| 0 <= j < po.kept.len() implies derived_from_one(
                #[trigger] po.kept[j],
                gs,
            ) by {
                lemma_derived_from_rest(po.kept[j], gs);
            }
        }
    }
}

/// Pruning keeps the groups well-formed.
pub proof fn lemma_prune_groups_wf(gs: Seq<GroupView>, cur: int, limit: int, p: u32)
    requires
        groups_wf(gs),
    ensures
        groups_wf(prune_groups(gs, cur, limit, p).kept),
    decreases gs.len(),
{
    if !(gs.len() == 0 || gs[0].priority > p || cur <= limit) {
        let g = gs[0];
        let rest_gs = gs.drop_first();
        let k = prune_count(g.msgs, cur, limit);
        let b = msgs_total(g.msgs.take(k as int));
        let rest = prune_groups(rest_gs, cur - b, limit, p);
        lemma_rest_wf(gs);
        lemma_prune_groups_wf(rest_gs, cur - b, limit, p);
        lemma_prune_groups_derived(rest_gs, cur - b, limit, p);
        lemma_prune_count(g.msgs, cur, limit);
        if k < g.msgs.len() {
            let g2 = GroupView { msgs: g.msgs.skip(k as int), ..g };
            lemma_group_wf_skip(g, k as int);
            let kept = prune_groups(gs, cur, limit, p).kept;
            assert(kept == seq![g2] + rest.kept);
            assert forall|j: int| 0 <= j < rest.kept.len() implies (#[trigger] rest.kept[j]).priority
                > g.priority by {
                assert(derived_from_one(rest.kept[j], rest_gs));
                let i = choose|i: int|
                    0 <= i < rest_gs.len() && #[trigger] derived_from(rest.kept[j], rest_gs[i]);
                assert(rest_gs[i] == gs[i + 1]);
            }
            assert forall|a: int, c: int| 0 <= a < c < kept.len() implies (
            #[trigger] kept[a]).priority < (#[trigger] kept[c]).priority by {
                if a == 0 {
                    assert(kept[c] == rest.kept[c - 1]);
                } else {
                    assert(kept[a] == rest.kept[a - 1] && kept[c] == rest.kept[c - 1]);
                }
            }
            assert forall|a: int| 0 <= a < kept.len() implies group_wf(#[trigger] kept[a]) by {
                if a > 0 {
                    assert(kept[a] == rest.kept[a - 1]);
                }
            }
        }
    }
}

/// Pruning stops only when the size is down to the limit or when no group of
/// priority at most `p` is left.
pub proof fn lemma_prune_groups_fit(gs: Seq<GroupView>, cur: int, limit: int, p: u32)
    requires
        groups_sorted(gs),
    ensures
        cur - prune_groups(gs, cur, limit, p).bytes <= limit || forall|j: int|
            0 <= j < prune_groups(gs, cur, limit, p).kept.len() ==> (#[trigger] prune_groups(
                gs,
                cur,
                limit,
                p,
            ).kept[j]).priority > p,
    decreases gs.len(),
{
    let po = prune_groups(gs, cur, limit, p);
    if gs.len() == 0 || gs[0].priority > p || cur <= limit {
        if gs.len() > 0 && gs[0].priority > p && !(cur <= limit) {
            assert forall|j: int| 0 <= j < po.kept.len() implies (#[trigger] po.kept[j]).priority
                > p by {
                if j > 0 {
                    assert(gs[0].priority < gs[j].priority);
                }
            }
        }
    } else {
        let g = gs[0];
        let rest_gs = gs.drop_first();
        let k = prune_count(g.msgs, cur, limit);
        let b = msgs_total(g.msgs.take(k as int));
        assert(groups_sorted(rest_gs)) by {
            assert forall|a: int, c: int| 0 <= a < c < rest_gs.len() implies (
            #[trigger] rest_gs[a]).priority < (#[trigger] rest_gs[c]).priority by {
                assert(rest_gs[a] == gs[a + 1] && rest_gs[c] == gs[c + 1]);
            }
        }
        lemma_prune_groups_fit(rest_gs, cur - b, limit, p);
        lemma_prune_count(g.msgs, cur, limit);
        if k < g.msgs.len() {
            assert(cur - b <= limit);
        }
    }
}

/// Pruning leaves every group of priority above `p` as it was.
pub proof fn lemma_prune_groups_keeps_higher(gs: Seq<GroupView>, cur: int, limit: int, p: u32)
    requires
        groups_sorted(gs),
    ensures
        forall|i: int|
            0 <= i < gs.len() && (#[trigger] gs[i]).priority > p ==> prune_groups(
                gs,
                cur,
                limit,
                p,
            ).kept.contains(gs[i]),
    decreases gs.len(),
{
    let po = prune_groups(gs, cur, limit, p);
    if gs.len() == 0 || gs[0].priority > p || cur <= limit {
        assert forall|i: int| 0 <= i < gs.len() && (#[trigger] gs[i]).priority > p implies po.kept.contains(
            gs[i],
        ) by {
            assert(po.kept[i] == gs[i]);
        }
    } else {
        let g = gs[0];
        let rest_gs = gs.drop_first();
        let k = prune_count(g.msgs, cur, limit);
        let b = msgs_total(g.msgs.take(k as int));
        let rest = prune_groups(rest_gs, cur - b, limit, p);
        assert(groups_sorted(rest_gs)) by {
            assert forall|a: int, c: int| 0 <= a < c < rest_gs.len() implies (
            #[trigger] rest_gs[a]).priority < (#[trigger] rest_gs[c]).priority by {
                assert(rest_gs[a] == gs[a + 1] && rest_gs[c] == gs[c + 1]);
            }
        }
        lemma_prune_groups_keeps_higher(rest_gs, cur - b, limit, p);
        assert forall|i: int| 0 <= i < gs.len() && (#[trigger] gs[i]).priority > p implies po.kept.contains(
            gs[i],
        ) by {
            assert(i > 0);
            assert(rest_gs[i - 1] == gs[i]);
            let j = choose|j: int| 0 <= j < rest.kept.len() && rest.kept[j] == rest_gs[i - 1];
            if k == g.msgs.len() {
                assert(po.kept[j] == gs[i]);
            } else {
                assert(po.kept[j + 1] == gs[i]);
            }
        }
    }
}

} // verus!

verus! {

/// Where an id is inserted among messages kept oldest first: every message
/// before the place was made before the id, no message from the place on was.
pub proof fn lemma_msg_pos(ms: Seq<MsgV>, u: Uuid)
    requires
        forall|k: int, l: int|
            0 <= k < l < ms.len() ==> made_before(#[trigger] ms[k].0, #[trigger] ms[l].0),
    ensures
        msg_pos(ms, u) <= ms.len(),
        forall|j: int| 0 <= j < msg_pos(ms, u) ==> made_before((#[trigger] ms[j]).0, u),
        forall|j: int| msg_pos(ms, u) <= j < ms.len() ==> !made_before((#[trigger] ms[j]).0, u),
    decreases ms.len(),
{
    if ms.len() > 0 && made_before(ms[0].0, u) {
        let rest = ms.drop_first();
        assert forall|k: int, l: int| 0 <= k < l < rest.len() implies made_before(
            #[trigger] rest[k].0,
            #[trigger] rest[l].0,
        ) by {
            assert(rest[k] == ms[k + 1] && rest[l] == ms[l + 1]);
        }
        lemma_msg_pos(rest, u);
        assert forall|j: int| 0 <= j < msg_pos(ms, u) implies made_before((#[trigger] ms[j]).0, u) by {
            if j > 0 {
                assert(ms[j] == rest[j - 1]);
            }
        }
        assert forall|j: int| msg_pos(ms, u) <= j < ms.len() implies !made_before(
            (#[trigger] ms[j]).0,
            u,
        ) by {
            assert(ms[j] == rest[j - 1]);
        }
    } else if ms.len() > 0 {
        assert forall|j: int| 0 <= j < ms.len() implies !made_before((#[trigger] ms[j]).0, u) by {
            if j > 0 {
                assert(made_before(ms[0].0, ms[j].0));
            }
        }
    }
}

/// Inserting a new message of the group's priority where it belongs keeps the
/// group well-formed.
pub proof fn lemma_insert_wf(g: GroupView, u: Uuid, x: u64)
    requires
        group_wf(g),
        u.priority == g.priority,
        forall|k: int| 0 <= k < g.msgs.len() ==> !same_msg((#[trigger] g.msgs[k]).0, u),
    ensures
        group_wf(GroupView { msgs: g.msgs.insert(msg_pos(g.msgs, u) as int, (u, x)), ..g }),
{
    let i = msg_pos(g.msgs, u) as int;
    lemma_msg_pos(g.msgs, u);
    let h = GroupView { msgs: g.msgs.insert(i, (u, x)), ..g };
    assert forall|a: int| 0 <= a < h.msgs.len() implies (#[trigger] h.msgs[a]).0.priority
        == h.priority by {
        if a < i {
            assert(h.msgs[a] == g.msgs[a]);
        } else if a > i {
            assert(h.msgs[a] == g.msgs[a - 1]);
        }
    }
    assert forall|a: int, b: int| 0 <= a < b < h.msgs.len() implies made_before(
        #[trigger] h.msgs[a].0,
        #[trigger] h.msgs[b].0,
    ) by {
        if b < i {
            assert(h.msgs[a] == g.msgs[a] && h.msgs[b] == g.msgs[b]);
        } else if b == i {
            assert(h.msgs[a] == g.msgs[a]);
        } else if a < i {
            assert(h.msgs[a] == g.msgs[a] && h.msgs[b] == g.msgs[b - 1]);
        } else if a == i {
            let m = g.msgs[b - 1];
            assert(h.msgs[b] == m);
            assert(!made_before(m.0, u));
            assert(!same_msg(m.0, u));
        } else {
            assert(h.msgs[a] == g.msgs[a - 1] && h.msgs[b] == g.msgs[b - 1]);
        }
    }
}

} // verus!

verus! {

/// Sorted groups hold no group of priority `p` exactly when no group has that priority.
pub proof fn lemma_no_group(gs: Seq<GroupView>, p: u32)
    requires
        groups_sorted(gs),
    ensures
        !has_group(gs, p) <==> forall|j: int| 0 <= j < gs.len() ==> (#[trigger] gs[j]).priority != p,
{
    lemma_pos_of(gs, p);
    let i = pos_of(gs, p) as int;
    if !has_group(gs, p) {
        assert forall|j: int| 0 <= j < gs.len() implies (#[trigger] gs[j]).priority != p by {
            if j > i {
                assert(gs[i].priority < gs[j].priority);
            }
        }
    }
}

/// Pruning brings back no group of a priority that was not there.
pub proof fn lemma_prune_groups_no_group(gs: Seq<GroupView>, cur: int, limit: int, p: u32, q: u32)
    requires
        groups_wf(gs),
        !has_group(gs, q),
    ensures
        !has_group(prune_groups(gs, cur, limit, p).kept, q),
{
    let kept = prune_groups(gs, cur, limit, p).kept;
    lemma_no_group(gs, q);
    lemma_prune_groups_wf(gs, cur, limit, p);
    lemma_prune_groups_derived(gs, cur, limit, p);
    assert forall|j: int| 0 <= j < kept.len() implies (#[trigger] kept[j]).priority != q by {
        assert(derived_from_one(kept[j], gs));
        let i = choose|i: int| 0 <= i < gs.len() && #[trigger] derived_from(kept[j], gs[i]);
        assert(gs[i].priority != q);
    }
    lemma_no_group(kept, q);
}

} // verus!

verus! {

/// A group keeps its well-formedness when one of its messages goes.
pub proof fn lemma_group_wf_remove(g: GroupView, i: int)
    requires
        group_wf(g),
        0 <= i < g.msgs.len(),
    ensures
        group_wf(GroupView { msgs: g.msgs.remove(i), ..g }),
{
    let h = GroupView { msgs: g.msgs.remove(i), ..g };
    assert forall|a: int| 0 <= a < h.msgs.len() implies (#[trigger] h.msgs[a]).0.priority
        == h.priority by {
        if a < i {
            assert(h.msgs[a] == g.msgs[a]);
        } else {
            assert(h.msgs[a] == g.msgs[a + 1]);
        }
    }
    assert forall|a: int, b: int| 0 <= a < b < h.msgs.len() implies made_before(
        #[trigger] h.msgs[a].0,
        #[trigger] h.msgs[b].0,
    ) by {
        let a0 = if a < i {
            a
        } else {
            a + 1
        };
        let b0 = if b < i {
            b
        } else {
            b + 1
        };
        assert(h.msgs[a] == g.msgs[a0] && h.msgs[b] == g.msgs[b0]);
    }
}

/// Sorted well-formed groups stay so when a group is replaced by a well-formed
/// group of the same priority.
pub proof fn lemma_groups_wf_update(gs: Seq<GroupView>, i: int, g: GroupView)
    requires
        groups_wf(gs),
        0 <= i < gs.len(),
        g.priority == gs[i].priority,
        group_wf(g),
    ensures
        groups_wf(gs.update(i, g)),
{
    let r = gs.update(i, g);
    assert forall|a: int, b: int| 0 <= a < b < r.len() implies (#[trigger] r[a]).priority < (
    #[trigger] r[b]).priority by {
        assert(gs[a].priority < gs[b].priority);
    }
    assert forall|a: int| 0 <= a < r.len() implies group_wf(#[trigger] r[a]) by {
        if a != i {
            assert(r[a] == gs[a]);
        }
    }
}

} // verus!

verus! {

/// Filtering ids one more: the new id is kept or not by itself.
pub proof fn lemma_keep_ids_push(ids: Seq<Uuid>, u: Uuid, sp: Option<u32>, after: Option<Uuid>)
    ensures
        keep_ids(ids.push(u), sp, after) == if get_n_keeps(u, sp, after) {
            keep_ids(ids, sp, after).push(u)
        } else {
            keep_ids(ids, sp, after)
        },
{
    assert(ids.push(u).drop_last() =~= ids);
}

/// Filtering a concatenation filters each part.
pub proof fn lemma_keep_ids_append(a: Seq<Uuid>, b: Seq<Uuid>, sp: Option<u32>, after: Option<Uuid>)
    ensures
        keep_ids(a + b, sp, after) == keep_ids(a, sp, after) + keep_ids(b, sp, after),
    decreases b.len(),
{
    if b.len() == 0 {
        assert(a + b =~= a);
        assert(keep_ids(a, sp, after) + keep_ids(b, sp, after) =~= keep_ids(a, sp, after));
    } else {
        let c = b.drop_last();
        lemma_keep_ids_append(a, c, sp, after);
        assert((a + b) =~= (a + c).push(b.last()));
        assert(b =~= c.push(b.last()));
        lemma_keep_ids_push(a + c, b.last(), sp, after);
        lemma_keep_ids_push(c, b.last(), sp, after);
        if get_n_keeps(b.last(), sp, after) {
            assert(keep_ids(a, sp, after) + keep_ids(c, sp, after).push(b.last()) =~= (keep_ids(
                a,
                sp,
                after,
            ) + keep_ids(c, sp, after)).push(b.last()));
        }
    }
}

} // verus!

verus! {

/// Setting a default keeps the defaults in ascending priority.
pub proof fn lemma_set_default_sorted(ds: Seq<(u32, Option<u64>)>, p: u32, m: Option<u64>)
    requires
        defaults_sorted(ds),
    ensures
        defaults_sorted(set_default(ds, p, m)),
{
    lemma_default_pos(ds, p);
    let i = default_pos(ds, p) as int;
    let r = set_default(ds, p, m);
    if i < ds.len() && ds[i].0 == p {
        assert forall|a: int, b: int| 0 <= a < b < r.len() implies (#[trigger] r[a]).0 < (
        #[trigger] r[b]).0 by {
            assert(ds[a].0 < ds[b].0);
        }
    } else {
        assert forall|a: int, b: int| 0 <= a < b < r.len() implies (#[trigger] r[a]).0 < (
        #[trigger] r[b]).0 by {
            if b < i {
                assert(r[a] == ds[a] && r[b] == ds[b]);
            } else if b == i {
                assert(r[a] == ds[a]);
            } else if a < i {
                assert(r[a] == ds[a] && r[b] == ds[b - 1]);
            } else if a == i {
                assert(r[b] == ds[b - 1]);
                if b - 1 > i {
                    assert(ds[i].0 < ds[b - 1].0);
                }
            } else {
                assert(r[a] == ds[a - 1] && r[b] == ds[b - 1]);
            }
        }
    }
}

/// Removing a default keeps the defaults in ascending priority.
pub proof fn lemma_remove_default_sorted(ds: Seq<(u32, Option<u64>)>, p: u32)
    requires
        defaults_sorted(ds),
    ensures
        defaults_sorted(remove_default(ds, p)),
{
    lemma_default_pos(ds, p);
    let i = default_pos(ds, p) as int;
    let r = remove_default(ds, p);
    if i < ds.len() && ds[i].0 == p {
        assert forall|a: int, b: int| 0 <= a < b < r.len() implies (#[trigger] r[a]).0 < (
        #[trigger] r[b]).0 by {
            let a0 = if a < i {
                a
            } else {
                a + 1
            };
            let b0 = if b < i {
                b
            } else {
                b + 1
            };
            assert(r[a] == ds[a0] && r[b] == ds[b0]);
        }
    }
}

/// The metadata of groups with one more group at the end.
pub proof fn lemma_all_meta_push(gs: Seq<GroupView>, g: GroupView)
    ensures
        all_meta(gs.push(g)) == all_meta(gs) + meta_of(g),
    decreases gs.len(),
{
    if gs.len() == 0 {
        assert(gs.push(g).drop_first() =~= Seq::<GroupView>::empty());
        assert(all_meta(gs.push(g).drop_first()) == Seq::<(Uuid, u32, u64)>::empty());
        assert(meta_of(g) + Seq::<(Uuid, u32, u64)>::empty() =~= meta_of(g));
        assert(Seq::<(Uuid, u32, u64)>::empty() + meta_of(g) =~= meta_of(g));
    } else {
        assert(gs.push(g).drop_first() =~= gs.drop_first().push(g));
        lemma_all_meta_push(gs.drop_first(), g);
        assert(gs.push(g)[0] == gs[0]);
        assert(meta_of(gs[0]) + (all_meta(gs.drop_first()) + meta_of(g)) =~= (meta_of(gs[0])
            + all_meta(gs.drop_first())) + meta_of(g));
    }
}

} // verus!

verus! {

/// Pruning the groups of priority at most `p`, where none has priority `p`,
/// stops either with the size down to the limit or with every group below `p`
/// drained.
/// Pruning takes whole groups, lowest priority first, and trims at most the
/// next one: what stays is a suffix of the groups, of which only the first may
/// have lost some of its oldest messages.
pub proof fn lemma_prune_groups_suffix(gs: Seq<GroupView>, cur: int, limit: int, p: u32)
    ensures
        ({
            let kept = prune_groups(gs, cur, limit, p).kept;
            let d = gs.len() - kept.len();
            &&& kept.len() <= gs.len()
            &&& forall|j: int| 1 <= j < kept.len() ==> #[trigger] kept[j] == gs[j + d]
            &&& kept.len() > 0 ==> derived_from(kept[0], gs[d])
        }),
    decreases gs.len(),
{
    let po = prune_groups(gs, cur, limit, p);
    if gs.len() == 0 || gs[0].priority > p || cur <= limit {
        if gs.len() > 0 {
            assert(gs[0].msgs.skip(0) =~= gs[0].msgs);
        }
    } else {
        let g = gs[0];
        let rest_gs = gs.drop_first();
        let k = prune_count(g.msgs, cur, limit);
        let b = msgs_total(g.msgs.take(k as int));
        lemma_prune_count(g.msgs, cur, limit);
        let rest = prune_groups(rest_gs, cur - b, limit, p);
        lemma_prune_groups_suffix(rest_gs, cur - b, limit, p);
        if k == g.msgs.len() {
            let d1 = rest_gs.len() - rest.kept.len();
            assert forall|j: int| 1 <= j < po.kept.len() implies #[trigger] po.kept[j] == gs[j + (
            gs.len() - po.kept.len())] by {
                assert(rest_gs[j + d1] == gs[j + d1 + 1]);
            }
            if po.kept.len() > 0 {
                assert(rest_gs[d1] == gs[d1 + 1]);
            }
        } else {
            assert(rest.kept == rest_gs);
            assert forall|j: int| 1 <= j < po.kept.len() implies #[trigger] po.kept[j] == gs[j + (
            gs.len() - po.kept.len())] by {
                assert(po.kept[j] == rest.kept[j - 1]);
            }
            assert(g.msgs.len() - po.kept[0].msgs.len() == k);
        }
    }
}

pub proof fn lemma_prune_groups_drains(gs: Seq<GroupView>, cur: int, limit: int, p: u32)
    requires
        groups_sorted(gs),
        forall|j: int| 0 <= j < gs.len() ==> (#[trigger] gs[j]).priority != p,
    ensures
        cur - prune_groups(gs, cur, limit, p).bytes <= limit || prune_groups(
            gs,
            cur,
            limit,
            p,
        ).bytes == groups_total(gs.take(pos_of(gs, p) as int)),
    decreases gs.len(),
{
    if gs.len() == 0 || gs[0].priority > p {
        assert(gs.take(0) =~= Seq::<GroupView>::empty());
    } else if cur <= limit {
    } else {
        let g = gs[0];
        let rest = gs.drop_first();
        let k = prune_count(g.msgs, cur, limit);
        let b = msgs_total(g.msgs.take(k as int));
        lemma_prune_count(g.msgs, cur, limit);
        assert(groups_sorted(rest)) by {
            assert forall|a: int, c: int| 0 <= a < c < rest.len() implies (
            #[trigger] rest[a]).priority < (#[trigger] rest[c]).priority by {
                assert(rest[a] == gs[a + 1] && rest[c] == gs[c + 1]);
            }
        }
        assert forall|j: int| 0 <= j < rest.len() implies (#[trigger] rest[j]).priority != p by {
            assert(rest[j] == gs[j + 1]);
        }
        lemma_prune_groups_drains(rest, cur - b, limit, p);
        if k == g.msgs.len() {
            let c = pos_of(rest, p) as int;
            assert(g.priority < p);
            assert(pos_of(gs, p) == 1 + c);
            lemma_pos_of(rest, p);
            assert(gs.take(1 + c) =~= seq![g] + rest.take(c));
            lemma_groups_total_append(seq![g], rest.take(c));
            lemma_groups_total_single(g);
            assert(g.msgs.take(k as int) =~= g.msgs);
        }
    }
}

} // verus!

verus! {

/// A default that was set reads back.
pub proof fn lemma_default_set(ds: Seq<(u32, Option<u64>)>, p: u32, m: Option<u64>)
    requires
        defaults_sorted(ds),
    ensures
        default_of(set_default(ds, p, m), p) == Some(m),
{
    lemma_default_pos(ds, p);
    let i = default_pos(ds, p) as int;
    let r = set_default(ds, p, m);
    assert forall|j: int| 0 <= j < i implies (#[trigger] r[j]).0 < p by {
        assert(r[j] == ds[j]);
    }
    lemma_default_pos_unique(r, p, i);
}

/// A default that was removed reads back as none.
pub proof fn lemma_default_removed(ds: Seq<(u32, Option<u64>)>, p: u32)
    requires
        defaults_sorted(ds),
    ensures
        default_of(remove_default(ds, p), p) is None,
{
    lemma_default_pos(ds, p);
    let i = default_pos(ds, p) as int;
    let r = remove_default(ds, p);
    lemma_remove_default_sorted(ds, p);
    if i < ds.len() && ds[i].0 == p {
        assert forall|j: int| 0 <= j < i implies (#[trigger] r[j]).0 < p by {
            assert(r[j] == ds[j]);
        }
        if i < r.len() {
            assert(r[i] == ds[i + 1]);
            assert(ds[i].0 < ds[i + 1].0);
        }
        lemma_default_pos_unique(r, p, i);
    } else {
        lemma_default_pos_unique(r, p, i);
    }
}

} // verus!
