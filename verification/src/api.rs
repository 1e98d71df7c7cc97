//! What the server reports about the store, and the shapes of its requests
//! and replies.
use crate::errors::DatabaseError;
use crate::file_storage::FsError;
use crate::msg::MsgError;
use crate::store::base::{defaults_view, Store};
use crate::store::model::{group_at, has_group, msgs_total, store_total, GroupView};
use crate::store::uuid::uuid_text;
use crate::store::{groups_sized, groups_view, StoreError};
use vstd::prelude::*;

verus! {

/// One of two values.
pub enum Either<A, B> {
    A(A),
    B(B),
}

impl<A, B> Either<A, B> {
    /// The value, where it is the first kind.
    pub fn a(self) -> (r: A)
        requires
            self is A,
        ensures
            self == Either::<A, B>::A(r),
    {
        match self {
            Either::A(inner) => inner,
            Either::B(_) => vstd::pervasive::unreached(),
        }
    }

    /// The value, where it is the second kind.
    pub fn b(self) -> (r: B)
        requires
            self is B,
        ensures
            self == Either::<A, B>::B(r),
    {
        match self {
            Either::B(inner) => inner,
            Either::A(_) => vstd::pervasive::unreached(),
        }
    }
}

/// The defaults of one group, as reported.
#[derive(Debug, Clone, Copy, PartialEq, Eq, Structural)]
pub struct GroupDefaults {
    pub priority: u32,
    pub max_byte_size: Option<u64>,
}

/// One group, as reported in the store's summary.
#[derive(Debug, Clone, Copy, PartialEq, Eq, Structural)]
pub struct GroupData {
    pub priority: u32,
    pub byte_size: u64,
    pub max_byte_size: Option<u64>,
    pub msg_count: usize,
}

/// The store's summary.
pub struct StoreData {
    pub byte_size: u64,
    pub max_byte_size: Option<u64>,
    pub msg_count: usize,
    pub group_count: usize,
    pub groups: Vec<GroupData>,
    pub group_defaults: Vec<GroupDefaults>,
}

/// The number of messages the groups hold.
pub open spec fn msg_count(gs: Seq<GroupView>) -> nat
    decreases gs.len(),
{
    if gs.len() == 0 {
        0
    } else {
        msg_count(gs.drop_last()) + gs.last().msgs.len()
    }
}

/// What the summary says of a group.
pub open spec fn group_data_of(g: GroupView) -> GroupData {
    GroupData {
        priority: g.priority,
        byte_size: msgs_total(g.msgs) as u64,
        max_byte_size: g.max_byte_size,
        msg_count: g.msgs.len() as usize,
    }
}

/// What the summary says of a default.
pub open spec fn defaults_data_of(d: (u32, Option<u64>)) -> GroupDefaults {
    GroupDefaults { priority: d.0, max_byte_size: d.1 }
}

/// The store's summary: its size and limit, how many messages and groups it
/// holds, each group's priority, size, limit and message count, and the group
/// defaults, all in ascending priority.
pub fn store_data(store: &Store) -> (r: StoreData)
    requires
        store.wf(),
        msg_count(store@.groups) <= usize::MAX,
    ensures
        r.byte_size == store_total(store@),
        r.max_byte_size == store@.max_byte_size,
        r.msg_count == msg_count(store@.groups),
        r.group_count == store@.groups.len(),
        r.groups@ == store@.groups.map_values(|g: GroupView| group_data_of(g)),
        r.group_defaults@ == store@.defaults.map_values(
            |d: (u32, Option<u64>)| defaults_data_of(d),
        ),
{
    let gs = store.groups();
    let ghost gv = store@.groups;
    let mut groups: Vec<GroupData> = Vec::new();
    let mut count: usize = 0;
    let mut i: usize = 0;
    assert(gv.take(0) =~= Seq::<GroupView>::empty());
    while i < gs.len()
        invariant
            gv == groups_view(gs@),
            gv == store@.groups,
            groups_sized(gs@),
            msg_count(gv) <= usize::MAX,
            i <= gv.len(),
            count == msg_count(gv.take(i as int)),
            groups@ == gv.take(i as int).map_values(|g: GroupView| group_data_of(g)),
        decreases gv.len() - i,
    {
        let (p, g) = (gs[i].0, &gs[i].1);
        proof {
            assert(gv.take(i as int + 1) =~= gv.take(i as int).push(gv[i as int]));
            assert(gv.take(i as int + 1).drop_last() =~= gv.take(i as int));
            lemma_msg_count_prefix(gv, i as int + 1);
            assert(gs@[i as int].1.sized());
        }
        let n = g.msgs_map.len();
        groups.push(GroupData { priority: p, byte_size: g.byte_size, max_byte_size: g.max_byte_size, msg_count: n });
        count = count + n;
        assert(groups@ =~= gv.take(i as int + 1).map_values(|g: GroupView| group_data_of(g)));
        i = i + 1;
    }
    assert(gv.take(i as int) =~= gv);
    let ds = store.defaults();
    let ghost dv = store@.defaults;
    let mut group_defaults: Vec<GroupDefaults> = Vec::new();
    let mut j: usize = 0;
    while j < ds.len()
        invariant
            dv == defaults_view(ds@),
            j <= dv.len(),
            group_defaults@ == dv.take(j as int).map_values(
                |d: (u32, Option<u64>)| defaults_data_of(d),
            ),
        decreases dv.len() - j,
    {
        group_defaults.push(GroupDefaults { priority: ds[j].0, max_byte_size: ds[j].1.max_byte_size });
        assert(group_defaults@ =~= dv.take(j as int + 1).map_values(
            |d: (u32, Option<u64>)| defaults_data_of(d),
        ));
        j = j + 1;
    }
    assert(dv.take(j as int) =~= dv);
    StoreData {
        byte_size: store.byte_size(),
        max_byte_size: store.max_byte_size(),
        msg_count: count,
        group_count: gs.len(),
        groups,
        group_defaults,
    }
}

proof fn lemma_msg_count_prefix(gs: Seq<GroupView>, i: int)
    requires
        0 <= i <= gs.len(),
    ensures
        msg_count(gs.take(i)) <= msg_count(gs),
    decreases gs.len(),
{
    if i < gs.len() {
        assert(gs.drop_last().take(i) =~= gs.take(i));
        lemma_msg_count_prefix(gs.drop_last(), i);
    } else {
        assert(gs.take(i) =~= gs);
    }
}

/// The defaults of group `priority` (none or one), or of every group in
/// ascending priority.
pub fn group_defaults_of(store: &Store, priority: Option<u32>) -> (r: Vec<GroupDefaults>)
    requires
        store.wf(),
    ensures
        r@ == match priority {
            Some(p) => match crate::store::model::default_of(store@.defaults, p) {
                Some(m) => seq![GroupDefaults { priority: p, max_byte_size: m }],
                None => Seq::empty(),
            },
            None => store@.defaults.map_values(|d: (u32, Option<u64>)| defaults_data_of(d)),
        },
{
    match priority {
        Some(p) => {
            let mut r: Vec<GroupDefaults> = Vec::new();
            match store.group_defaults(p) {
                Some(d) => {
                    r.push(GroupDefaults { priority: p, max_byte_size: d.max_byte_size });
                    assert(r@ =~= seq![GroupDefaults { priority: p, max_byte_size: d.max_byte_size }]);
                },
                None => {
                    assert(r@ =~= Seq::<GroupDefaults>::empty());
                },
            }
            r
        },
        None => {
            let ds = store.defaults();
            let ghost dv = store@.defaults;
            let mut r: Vec<GroupDefaults> = Vec::new();
            let mut j: usize = 0;
            while j < ds.len()
                invariant
                    dv == defaults_view(ds@),
                    j <= dv.len(),
                    r@ == dv.take(j as int).map_values(|d: (u32, Option<u64>)| defaults_data_of(d)),
                decreases dv.len() - j,
            {
                r.push(GroupDefaults { priority: ds[j].0, max_byte_size: ds[j].1.max_byte_size });
                assert(r@ =~= dv.take(j as int + 1).map_values(
                    |d: (u32, Option<u64>)| defaults_data_of(d),
                ));
                j = j + 1;
            }
            assert(dv.take(j as int) =~= dv);
            r
        },
    }
}

/// What a request for group information asks: one group or all, and whether
/// to list their messages.
pub struct Info {
    pub priority: Option<u32>,
    pub include_msg_data: Option<bool>,
}

/// A message, as listed: its id as text and its size.
pub struct Msg {
    pub uuid: String,
    pub byte_size: u64,
}

/// A group, as listed.
pub struct Group {
    pub priority: u32,
    pub byte_size: u64,
    pub max_byte_size: Option<u64>,
    pub msg_count: u64,
    pub messages: Vec<Msg>,
}

/// What a listed message says.
pub open spec fn msg_view(m: Msg) -> (Seq<char>, u64) {
    (m.uuid@, m.byte_size)
}

/// The messages of a group as listed: youngest first.
pub open spec fn listed_msgs(g: GroupView) -> Seq<(Seq<char>, u64)> {
    g.msgs.reverse().map_values(|m: (crate::store::uuid::Uuid, u64)| (uuid_text(m.0), m.1))
}

/// What listed messages say.
pub open spec fn msg_views(v: Seq<Msg>) -> Seq<(Seq<char>, u64)> {
    v.map_values(|m: Msg| msg_view(m))
}

/// What listed groups say.
pub open spec fn group_views(v: Seq<Group>) -> Seq<(u32, u64, Option<u64>, u64, Seq<(Seq<char>, u64)>)> {
    v.map_values(|g: Group| group_view(g))
}

/// What the listing says of groups.
pub open spec fn listed_groups(gs: Seq<GroupView>, include_msg_data: bool) -> Seq<(u32, u64, Option<u64>, u64, Seq<(Seq<char>, u64)>)> {
    gs.map_values(|g: GroupView| listed_group(g, include_msg_data))
}

/// What a listed group says: priority, size, limit, message count, and the
/// listed messages.
pub open spec fn group_view(g: Group) -> (u32, u64, Option<u64>, u64, Seq<(Seq<char>, u64)>) {
    (
        g.priority,
        g.byte_size,
        g.max_byte_size,
        g.msg_count,
        msg_views(g.messages@),
    )
}

/// What the listing says of a group.
pub open spec fn listed_group(g: GroupView, include_msg_data: bool) -> (u32, u64, Option<u64>, u64, Seq<(Seq<char>, u64)>) {
    (
        g.priority,
        msgs_total(g.msgs) as u64,
        g.max_byte_size,
        g.msgs.len() as u64,
        if include_msg_data {
            listed_msgs(g)
        } else {
            Seq::empty()
        },
    )
}

proof fn lemma_msg_views_push(v: Seq<Msg>, m: Msg)
    ensures
        msg_views(v.push(m)) == msg_views(v).push(msg_view(m)),
{
    assert(msg_views(v.push(m)) =~= msg_views(v).push(msg_view(m)));
}

proof fn lemma_group_views_push(v: Seq<Group>, g: Group)
    ensures
        group_views(v.push(g)) == group_views(v).push(group_view(g)),
{
    assert(group_views(v.push(g)) =~= group_views(v).push(group_view(g)));
}

proof fn lemma_listed_groups_push(gs: Seq<GroupView>, i: int, include_msg_data: bool)
    requires
        0 <= i < gs.len(),
    ensures
        listed_groups(gs.take(i + 1), include_msg_data) == listed_groups(gs.take(i), include_msg_data).push(
            listed_group(gs[i], include_msg_data),
        ),
{
    assert(listed_groups(gs.take(i + 1), include_msg_data) =~= listed_groups(gs.take(i), include_msg_data).push(
        listed_group(gs[i], include_msg_data),
    ));
}

/// Lists one group of the store.
fn list_group(p: u32, g: &crate::store::Group, include_msg_data: bool) -> (r: Group)
    requires
        g.sized(),
    ensures
        group_view(r) == listed_group(crate::store::view_of_group((p, *g)), include_msg_data),
{
    let ghost gv = crate::store::view_of_group((p, *g));
    let mut messages: Vec<Msg> = Vec::new();
    if include_msg_data {
        let n = g.msgs_map.len();
        let mut k: usize = n;
        let ghost want = listed_msgs(gv);
        while k > 0
            invariant
                n == gv.msgs.len(),
                gv == crate::store::view_of_group((p, *g)),
                want == listed_msgs(gv),
                k <= n,
                msg_views(messages@) == want.take(n - k),
            decreases k,
        {
            k = k - 1;
            let (u, sz) = g.msgs_map[k];
            let ghost before = messages@;
            let m = Msg { uuid: u.to_string(), byte_size: sz };
            let ghost mg = m;
            messages.push(m);
            proof {
                assert(gv.msgs.reverse().len() == n);
                assert(gv.msgs.reverse()[n - k - 1] == gv.msgs[k as int]);
                assert(want.len() == n);
                assert(want[n - k - 1] == (uuid_text(gv.msgs[k as int].0), gv.msgs[k as int].1));
                lemma_msg_views_push(before, mg);
                assert(want.take(n - k) =~= want.take(n - k - 1).push(want[n - k - 1]));
            }
        }
        assert(want.take(n as int) =~= want);
    } else {
        assert(msg_views(messages@) =~= Seq::<(Seq<char>, u64)>::empty());
    }
    Group {
        priority: p,
        byte_size: g.byte_size,
        max_byte_size: g.max_byte_size,
        msg_count: g.msgs_map.len() as u64,
        messages,
    }
}

/// The groups of the store as listed: the one of `priority` (none when the
/// store has no such group), or all in ascending priority; with their messages,
/// youngest first, when `include_msg_data` holds.
pub fn groups_info(store: &Store, priority: Option<u32>, include_msg_data: bool) -> (r: Vec<Group>)
    requires
        store.wf(),
    ensures
        group_views(r@) == match priority {
            Some(p) => if has_group(store@.groups, p) {
                seq![listed_group(group_at(store@.groups, p), include_msg_data)]
            } else {
                Seq::empty()
            },
            None => listed_groups(store@.groups, include_msg_data),
        },
{
    let mut r: Vec<Group> = Vec::new();
    match priority {
        Some(p) => {
            match store.group(p) {
                Some(g) => {
                    let lg = list_group(p, g, include_msg_data);
                    r.push(lg);
                    assert(group_views(r@) =~= seq![
                        listed_group(group_at(store@.groups, p), include_msg_data),
                    ]);
                },
                None => {
                    assert(group_views(r@) =~= Seq::<
                        (u32, u64, Option<u64>, u64, Seq<(Seq<char>, u64)>),
                    >::empty());
                },
            }
        },
        None => {
            let gs = store.groups();
            let ghost gv = store@.groups;
            let mut i: usize = 0;
            while i < gs.len()
                invariant
                    gv == groups_view(gs@),
                    groups_sized(gs@),
                    i <= gv.len(),
                    group_views(r@) == listed_groups(gv.take(i as int), include_msg_data),
                decreases gv.len() - i,
            {
                proof {
                    assert(gs@[i as int].1.sized());
                }
                let lg = list_group(gs[i].0, &gs[i].1, include_msg_data);
                assert(gv[i as int] == crate::store::view_of_group(gs@[i as int]));
                let ghost before = r@;
                let ghost lgg = lg;
                r.push(lg);
                proof {
                    lemma_group_views_push(before, lgg);
                    lemma_listed_groups_push(gv, i as int, include_msg_data);
                }
                i = i + 1;
            }
            assert(gv.take(i as int) =~= gv);
        },
    }
    r
}

/// Why a read failed.
pub enum GetErrorTy {
    DatabaseError(DatabaseError),
    FileStorageError(FsError),
    MsgError(MsgError),
    StoreError(StoreError),
    CouldNotFindFileStorage,
    LockingError,
    CouldNotGetNextChunkFromPayload,
    CouldNotParseChunk,
}

/// A failed read, with where it was raised.
pub struct GetError {
    pub err_ty: GetErrorTy,
    pub file: &'static str,
    pub line: u32,
    pub msg: Option<String>,
}

/// A message as an export writes it: its id as text and its body.
pub struct StoredPacket {
    pub uuid: String,
    pub msg: String,
}

/// An insert request given as a whole: the priority and the message.
pub struct Body {
    pub priority: u32,
    pub msg: String,
}

} // verus!
