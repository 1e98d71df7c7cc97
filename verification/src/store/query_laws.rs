//! What the store's queries and its defaults keep to, over all stores: which
//! ids `get_n` may give and how its two orders relate, which entries
//! `get_metadata` gives, and that setting or removing the defaults of one
//! priority leaves those of every other priority as they were.
use crate::store::lemmas::{
    lemma_default_pos, lemma_keep_ids_append, lemma_keep_ids_push, lemma_remove_default_sorted,
    lemma_set_default_sorted, lemma_default_set, lemma_default_removed,
};
use crate::store::model::{
    all_meta, comes_after, default_of, default_pos, defaults_sorted, delete_group_spec,
    forward_ids, get_n_keeps, get_n_spec, group_at, has_group, keep_ids, meta_of, metadata_spec,
    remove_default, set_default, store_wf, update_group_spec, StoreView,
};
use crate::store::uuid::Uuid;
use vstd::prelude::*;

verus! {

/// Every id that the filter keeps passes it and comes from the ids filtered.
proof fn lemma_keep_ids_sound(ids: Seq<Uuid>, sp: Option<u32>, after: Option<Uuid>)
    ensures
        keep_ids(ids, sp, after).len() <= ids.len(),
        forall|j: int|
            0 <= j < keep_ids(ids, sp, after).len() ==> get_n_keeps(
                #[trigger] keep_ids(ids, sp, after)[j],
                sp,
                after,
            ) && ids.contains(keep_ids(ids, sp, after)[j]),
    decreases ids.len(),
{
    if ids.len() > 0 {
        let d = ids.drop_last();
        lemma_keep_ids_sound(d, sp, after);
        assert(ids =~= d.push(ids.last()));
        lemma_keep_ids_push(d, ids.last(), sp, after);
        let k = keep_ids(ids, sp, after);
        let kd = keep_ids(d, sp, after);
        assert forall|j: int| 0 <= j < k.len() implies get_n_keeps(#[trigger] k[j], sp, after)
            && ids.contains(k[j]) by {
            if j < kd.len() {
                assert(k[j] == kd[j]);
                let i = choose|i: int| 0 <= i < d.len() && d[i] == kd[j];
                assert(ids[i] == d[i]);
            } else {
                assert(k[j] == ids.last());
                assert(ids[ids.len() - 1] == ids.last());
            }
        }
    }
}

/// Filtering the ids taken in the opposite order gives the filtered ids in the
/// opposite order.
proof fn lemma_keep_ids_reverse(ids: Seq<Uuid>, sp: Option<u32>, after: Option<Uuid>)
    ensures
        keep_ids(ids.reverse(), sp, after) == keep_ids(ids, sp, after).reverse(),
    decreases ids.len(),
{
    if ids.len() == 0 {
        assert(ids.reverse() =~= ids);
        assert(keep_ids(ids, sp, after).reverse() =~= keep_ids(ids, sp, after));
    } else {
        let d = ids.drop_last();
        let l = ids.last();
        lemma_keep_ids_reverse(d, sp, after);
        assert(ids.reverse() =~= seq![l] + d.reverse());
        lemma_keep_ids_append(seq![l], d.reverse(), sp, after);
        assert(seq![l] =~= Seq::<Uuid>::empty().push(l));
        lemma_keep_ids_push(Seq::<Uuid>::empty(), l, sp, after);
        assert(keep_ids(Seq::<Uuid>::empty(), sp, after) =~= Seq::<Uuid>::empty());
        assert(ids =~= d.push(l));
        lemma_keep_ids_push(d, l, sp, after);
        let kd = keep_ids(d, sp, after);
        if get_n_keeps(l, sp, after) {
            assert(kd.push(l).reverse() =~= seq![l] + kd.reverse());
        } else {
            assert(Seq::<Uuid>::empty().push(l) =~= seq![l]);
            assert(keep_ids(seq![l], sp, after) =~= Seq::<Uuid>::empty());
            assert(Seq::<Uuid>::empty() + kd.reverse() =~= kd.reverse());
        }
    }
}

/// `get_n` gives at most `n` ids, each held by the store and each passing the
/// filters: of priority at most `starting_priority` where one is given, and
/// coming after `after` in forwarding order where that is given, whichever the
/// order. Where `n` reaches every held id, the reverse order gives exactly the
/// ids of the forward order, backwards.
pub proof fn law_get_n_filters(
    s: StoreView,
    n: nat,
    starting_priority: Option<u32>,
    after: Option<Uuid>,
    reverse: bool,
)
    ensures
        get_n_spec(s, n, starting_priority, after, reverse).len() <= n,
        forall|j: int|
            0 <= j < get_n_spec(s, n, starting_priority, after, reverse).len() ==> {
                let v = #[trigger] get_n_spec(s, n, starting_priority, after, reverse)[j];
                &&& forward_ids(s.groups).contains(v)
                &&& (starting_priority matches Some(q) ==> v.priority <= q)
                &&& (after matches Some(a) ==> comes_after(v, a))
            },
        n >= forward_ids(s.groups).len() ==> get_n_spec(s, n, starting_priority, after, true)
            == get_n_spec(s, n, starting_priority, after, false).reverse(),
{
    let f = forward_ids(s.groups);
    let order = if !reverse {
        f
    } else {
        f.reverse()
    };
    lemma_keep_ids_sound(order, starting_priority, after);
    let kept = keep_ids(order, starting_priority, after);
    let r = get_n_spec(s, n, starting_priority, after, reverse);
    assert forall|j: int| 0 <= j < r.len() implies {
        let v = #[trigger] r[j];
        &&& f.contains(v)
        &&& (starting_priority matches Some(q) ==> v.priority <= q)
        &&& (after matches Some(a) ==> comes_after(v, a))
    } by {
        assert(r[j] == kept[j]);
        assert(get_n_keeps(kept[j], starting_priority, after));
        assert(order.contains(kept[j]));
        if reverse {
            let i = choose|i: int| 0 <= i < order.len() && order[i] == kept[j];
            assert(f[f.len() - 1 - i] == order[i]);
        }
    }
    lemma_keep_ids_reverse(f, starting_priority, after);
    lemma_keep_ids_sound(f, starting_priority, after);
    lemma_keep_ids_sound(f.reverse(), starting_priority, after);
}

/// `get_metadata` gives the entries of the metadata of all messages (or of the
/// group `priority`) from index `start` through index `end`: its `k`-th entry is
/// entry `start + k` there, and it has every such entry that exists.
pub proof fn law_get_metadata_window(s: StoreView, start: u32, end: u32, priority: Option<u32>)
    ensures
        ({
            let base = match priority {
                None => all_meta(s.groups),
                Some(p) => if has_group(s.groups, p) {
                    meta_of(group_at(s.groups, p))
                } else {
                    Seq::empty()
                },
            };
            let r = metadata_spec(s, start, end, priority);
            &&& forall|k: int| 0 <= k < r.len() ==> #[trigger] r[k] == base[start + k]
            &&& r.len() == if start <= end && start < base.len() {
                if end < base.len() {
                    end - start + 1
                } else {
                    base.len() - start
                }
            } else {
                0
            }
        }),
{
}

/// Whether the defaults hold an entry for `q`, and with which value, read off
/// the entries themselves.
proof fn lemma_default_of_entries(ds: Seq<(u32, Option<u64>)>, q: u32)
    requires
        defaults_sorted(ds),
    ensures
        forall|j: int| 0 <= j < ds.len() && (#[trigger] ds[j]).0 == q ==> default_of(ds, q) == Some(
            ds[j].1,
        ),
        default_of(ds, q) is None ==> forall|j: int| 0 <= j < ds.len() ==> (#[trigger] ds[j]).0 != q,
        default_of(ds, q) matches Some(v) ==> exists|j: int|
            0 <= j < ds.len() && (#[trigger] ds[j]).0 == q && ds[j].1 == v,
{
    lemma_default_pos(ds, q);
    let i = default_pos(ds, q) as int;
    assert forall|j: int| 0 <= j < ds.len() && (#[trigger] ds[j]).0 == q implies default_of(
        ds,
        q,
    ) == Some(ds[j].1) by {
        if j > i {
            assert(ds[i].0 < ds[j].0);
        }
    }
    if default_of(ds, q) is None {
        assert forall|j: int| 0 <= j < ds.len() implies (#[trigger] ds[j]).0 != q by {
            if j > i {
                assert(ds[i].0 < ds[j].0);
            }
        }
    }
}

/// Setting the defaults of priority `p` makes them read back, and leaves the
/// defaults of every other priority as they were.
pub proof fn law_update_group_defaults_keeps_others(s: StoreView, p: u32, m: Option<u64>, q: u32)
    requires
        store_wf(s),
    ensures
        default_of(update_group_spec(s, p, m).0.defaults, p) == Some(m),
        q != p ==> default_of(update_group_spec(s, p, m).0.defaults, q) == default_of(
            s.defaults,
            q,
        ),
{
    let ds = s.defaults;
    let r = set_default(ds, p, m);
    assert(update_group_spec(s, p, m).0.defaults == r);
    lemma_default_set(ds, p, m);
    lemma_set_default_sorted(ds, p, m);
    if q != p {
        lemma_default_pos(ds, p);
        lemma_default_of_entries(ds, q);
        lemma_default_of_entries(r, q);
        let i = default_pos(ds, p) as int;
        let upd = i < ds.len() && ds[i].0 == p;
        // an entry for q in the old defaults stands in the new ones
        match default_of(ds, q) {
            Some(v) => {
                let j = choose|j: int| 0 <= j < ds.len() && (#[trigger] ds[j]).0 == q && ds[j].1 == v;
                if upd {
                    assert(r[j] == ds[j]);
                } else if j < i {
                    assert(r[j] == ds[j]);
                } else {
                    assert(r[j + 1] == ds[j]);
                }
            },
            None => {},
        }
        // an entry for q in the new defaults stood in the old ones
        match default_of(r, q) {
            Some(v) => {
                let j = choose|j: int| 0 <= j < r.len() && (#[trigger] r[j]).0 == q && r[j].1 == v;
                if upd {
                    assert(r[j] == ds[j]);
                } else if j < i {
                    assert(r[j] == ds[j]);
                } else {
                    assert(j != i);
                    assert(r[j] == ds[j - 1]);
                }
            },
            None => {},
        }
    }
}

/// Removing the defaults of priority `p` leaves none for `p`, and leaves the
/// defaults of every other priority as they were.
pub proof fn law_delete_group_defaults_keeps_others(s: StoreView, p: u32, q: u32)
    requires
        store_wf(s),
    ensures
        default_of(delete_group_spec(s, p).defaults, p) is None,
        q != p ==> default_of(delete_group_spec(s, p).defaults, q) == default_of(s.defaults, q),
{
    let ds = s.defaults;
    let r = remove_default(ds, p);
    assert(delete_group_spec(s, p).defaults == r);
    lemma_default_removed(ds, p);
    lemma_remove_default_sorted(ds, p);
    if q != p {
        lemma_default_pos(ds, p);
        lemma_default_of_entries(ds, q);
        lemma_default_of_entries(r, q);
        let i = default_pos(ds, p) as int;
        let rem = i < ds.len() && ds[i].0 == p;
        match default_of(ds, q) {
            Some(v) => {
                let j = choose|j: int| 0 <= j < ds.len() && (#[trigger] ds[j]).0 == q && ds[j].1 == v;
                if !rem {
                    assert(r[j] == ds[j]);
                } else if j < i {
                    assert(r[j] == ds[j]);
                } else {
                    assert(j != i);
                    assert(r[j - 1] == ds[j]);
                }
            },
            None => {},
        }
        match default_of(r, q) {
            Some(v) => {
                let j = choose|j: int| 0 <= j < r.len() && (#[trigger] r[j]).0 == q && r[j].1 == v;
                if !rem {
                    assert(r[j] == ds[j]);
                } else if j < i {
                    assert(r[j] == ds[j]);
                } else {
                    assert(r[j] == ds[j + 1]);
                }
            },
            None => {},
        }
    }
}

} // verus!
