//! The server's configuration: where it listens, which database and file
//! storage it uses, and the size limits of the store and of its groups; and
//! how the group limits kept in it change.
use vstd::prelude::*;
use vstd::relations::{sorted_by, total_ordering};
use vstd::seq_lib::{group_to_multiset_ensures, lemma_multiset_commutative, lemma_sorted_unique};

verus! {

/// Why the configuration could not be read or written.
#[derive(Debug, Clone, Copy, PartialEq, Eq, Structural)]
pub enum ConfigErrorTy {
    CouldNotReadFile,
    CouldNotParse,
    CouldNotConvertToJson,
    CouldNotWriteToFile,
}

/// A configuration failure, with where it was raised.
#[derive(Debug, PartialEq, Eq)]
pub struct ConfigError {
    pub error_ty: ConfigErrorTy,
    pub file: &'static str,
    pub line: u32,
    pub msg: Option<String>,
}

impl ConfigError {
    pub fn new(error_ty: ConfigErrorTy, file: &'static str, line: u32, msg: Option<String>) -> (e:
        ConfigError)
        ensures
            e.error_ty == error_ty,
            e.file == file,
            e.line == line,
            e.msg == msg,
    {
        ConfigError { error_ty, file, line, msg }
    }
}

/// The size limit configured for one priority group.
#[derive(Debug, Clone, Copy, PartialEq, Eq, Structural)]
pub struct GroupConfig {
    pub priority: u32,
    pub max_byte_size: Option<u64>,
}

/// The server's configuration.
pub struct StoreConfig {
    pub host: Option<String>,
    pub port: Option<u32>,
    pub node_id: Option<u32>,
    pub database: Option<String>,
    pub leveldb_path: Option<String>,
    pub file_storage: Option<bool>,
    pub file_storage_path: Option<String>,
    pub max_byte_size: Option<u64>,
    pub groups: Option<Vec<GroupConfig>>,
    pub no_update: Option<bool>,
    pub update: Option<bool>,
}

/// The text of an optional text.
pub open spec fn opt_text(o: Option<String>) -> Option<Seq<char>> {
    match o {
        Some(s) => Some(s@),
        None => None,
    }
}

/// The group limits of an optional list.
pub open spec fn opt_groups(o: Option<Vec<GroupConfig>>) -> Option<Seq<GroupConfig>> {
    match o {
        Some(v) => Some(v@),
        None => None,
    }
}

impl StoreConfig {
    /// The default configuration: listen on 127.0.0.1:8080, keep messages in
    /// memory, no file storage, no limits, update the configuration file.
    pub fn new() -> (c: StoreConfig)
        ensures
            opt_text(c.host) == Some("127.0.0.1"@),
            c.port == Some(8080u32),
            c.node_id is None,
            opt_text(c.database) == Some("mem"@),
            c.leveldb_path is None,
            c.file_storage == Some(false),
            c.file_storage_path is None,
            c.max_byte_size is None,
            c.groups is None,
            c.no_update is None,
            c.update == Some(true),
    {
        StoreConfig {
            host: Some(String::from_str("127.0.0.1")),
            port: Some(8080),
            node_id: None,
            database: Some(String::from_str("mem")),
            leveldb_path: None,
            file_storage: Some(false),
            file_storage_path: None,
            max_byte_size: None,
            groups: None,
            no_update: None,
            update: Some(true),
        }
    }

    /// Takes every setting from `configuration` but `update`, which stays.
    pub fn inherit(&mut self, configuration: Self)
        ensures
            opt_text(final(self).host) == opt_text(configuration.host),
            final(self).port == configuration.port,
            final(self).node_id == configuration.node_id,
            opt_text(final(self).database) == opt_text(configuration.database),
            opt_text(final(self).leveldb_path) == opt_text(configuration.leveldb_path),
            final(self).file_storage == configuration.file_storage,
            opt_text(final(self).file_storage_path) == opt_text(configuration.file_storage_path),
            final(self).max_byte_size == configuration.max_byte_size,
            opt_groups(final(self).groups) == opt_groups(configuration.groups),
            final(self).no_update == configuration.no_update,
            final(self).update == old(self).update,
    {
        self.host = configuration.host;
        self.port = configuration.port;
        self.node_id = configuration.node_id;
        self.database = configuration.database;
        self.leveldb_path = configuration.leveldb_path;
        self.file_storage = configuration.file_storage;
        self.file_storage_path = configuration.file_storage_path;
        self.max_byte_size = configuration.max_byte_size;
        self.groups = configuration.groups;
        self.no_update = configuration.no_update;
    }
}

/// Where the configuration is to be written after a change: to its file, when
/// it has one and `no_update` is not set; `None` when it is not to be written.
pub fn update_config(config: &StoreConfig, config_path: &Option<String>) -> (r: Option<String>)
    ensures
        opt_text(r) == if config.no_update == Some(true) {
            None
        } else {
            opt_text(*config_path)
        },
{
    let should_update = match config.no_update {
        Some(no_update) => !no_update,
        None => true,
    };
    if should_update {
        match config_path {
            Some(p) => Some(p.clone()),
            None => None,
        }
    } else {
        None
    }
}

/// The order of group limits: by priority, then by limit, with no limit first.
pub open spec fn group_leq(a: GroupConfig, b: GroupConfig) -> bool {
    a.priority < b.priority || (a.priority == b.priority && match (a.max_byte_size, b.max_byte_size) {
        (None, _) => true,
        (Some(_), None) => false,
        (Some(x), Some(y)) => x <= y,
    })
}

/// Whether `a` comes no later than `b` in the order of group limits.
fn group_leq_exec(a: &GroupConfig, b: &GroupConfig) -> (r: bool)
    ensures
        r == group_leq(*a, *b),
{
    if a.priority != b.priority {
        a.priority < b.priority
    } else {
        match (a.max_byte_size, b.max_byte_size) {
            (None, _) => true,
            (Some(_), None) => false,
            (Some(x), Some(y)) => x <= y,
        }
    }
}

/// The order of group limits, as a relation.
pub open spec fn group_order() -> spec_fn(GroupConfig, GroupConfig) -> bool {
    |a: GroupConfig, b: GroupConfig| group_leq(a, b)
}

/// Whether a group limit is of another priority than `p`, as a predicate.
pub open spec fn other_priority(p: u32) -> spec_fn(GroupConfig) -> bool {
    |g: GroupConfig| g.priority != p
}

proof fn lemma_group_leq_total()
    ensures
        total_ordering(group_order()),
{
}

/// The group limits with the limit of `priority` set to `max_byte_size`: the
/// first entry of that priority takes it, or a new entry goes at the end.
pub open spec fn upsert_group(gs: Seq<GroupConfig>, priority: u32, max_byte_size: Option<u64>) -> Seq<
    GroupConfig,
> {
    let i = first_of_priority(gs, priority);
    if i < gs.len() {
        gs.update(i as int, GroupConfig { priority, max_byte_size })
    } else {
        gs.push(GroupConfig { priority, max_byte_size })
    }
}

/// The place of the first entry of the given priority, or the length.
pub open spec fn first_of_priority(gs: Seq<GroupConfig>, priority: u32) -> nat
    decreases gs.len(),
{
    if gs.len() == 0 || gs[0].priority == priority {
        0
    } else {
        1 + first_of_priority(gs.drop_first(), priority)
    }
}

proof fn lemma_first_of_priority(gs: Seq<GroupConfig>, p: u32, i: int)
    requires
        0 <= i <= gs.len(),
        forall|j: int| 0 <= j < i ==> (#[trigger] gs[j]).priority != p,
        i < gs.len() ==> gs[i].priority == p,
    ensures
        first_of_priority(gs, p) == i,
    decreases i,
{
    if i > 0 {
        let r = gs.drop_first();
        assert forall|j: int| 0 <= j < i - 1 implies (#[trigger] r[j]).priority != p by {
            assert(r[j] == gs[j + 1]);
        }
        assert(gs[0].priority != p);
        lemma_first_of_priority(r, p, i - 1);
    }
}

/// The group limits of a configuration after the limit of `priority` is set:
/// the one entry when there were none; else the entries with that limit set,
/// sorted.
pub open spec fn groups_after_set(gs: Option<Seq<GroupConfig>>, priority: u32, max_byte_size: Option<u64>) -> Seq<
    GroupConfig,
> {
    match gs {
        None => seq![GroupConfig { priority, max_byte_size }],
        Some(s) => upsert_group(s, priority, max_byte_size).sort_by(group_order()),
    }
}

proof fn lemma_insert_multiset(s: Seq<GroupConfig>, i: int, e: GroupConfig)
    requires
        0 <= i <= s.len(),
    ensures
        s.insert(i, e).to_multiset() == s.to_multiset().insert(e),
{
    broadcast use group_to_multiset_ensures;

    assert(s.insert(i, e) =~= s.take(i).push(e) + s.skip(i));
    assert(s =~= s.take(i) + s.skip(i));
    lemma_multiset_commutative(s.take(i).push(e), s.skip(i));
    lemma_multiset_commutative(s.take(i), s.skip(i));
}

/// The entries of `v` in the order of group limits.
fn sort_groups(v: &Vec<GroupConfig>) -> (r: Vec<GroupConfig>)
    ensures
        r@ == v@.sort_by(group_order()),
{
    let ghost leq = group_order();
    let mut out: Vec<GroupConfig> = Vec::new();
    let mut i: usize = 0;
    proof {
        broadcast use group_to_multiset_ensures;

        assert(v@.take(0) =~= Seq::<GroupConfig>::empty());
        assert(out@ =~= Seq::<GroupConfig>::empty());
    }
    while i < v.len()
        invariant
            i <= v@.len(),
            leq == group_order(),
            sorted_by(out@, leq),
            out@.to_multiset() == v@.take(i as int).to_multiset(),
        decreases v@.len() - i,
    {
        let e = v[i];
        let mut j: usize = 0;
        while j < out.len() && group_leq_exec(&out[j], &e)
            invariant
                j <= out@.len(),
                forall|k: int| 0 <= k < j ==> group_leq(#[trigger] out@[k], e),
            decreases out@.len() - j,
        {
            j = j + 1;
        }
        let ghost before = out@;
        out.insert(j, e);
        proof {
            broadcast use group_to_multiset_ensures;

            lemma_insert_multiset(before, j as int, e);
            assert(v@.take(i as int + 1) =~= v@.take(i as int).push(e));
            assert(forall|x: int, y: int| 0 <= x < y < before.len() ==> group_leq(before[x], before[y])) by {
                assert forall|x: int, y: int| 0 <= x < y < before.len() implies group_leq(
                    before[x],
                    before[y],
                ) by {
                    assert(leq(before[x], before[y]));
                }
            }
            assert(j < before.len() ==> group_leq(e, before[j as int]));
            assert forall|a: int, b: int| 0 <= a < b < out@.len() implies #[trigger] leq(
                out@[a],
                out@[b],
            ) by {
                if b < j {
                    assert(out@[a] == before[a] && out@[b] == before[b]);
                } else if b == j {
                    assert(out@[a] == before[a]);
                } else if a < j {
                    assert(out@[a] == before[a] && out@[b] == before[b - 1]);
                } else if a == j {
                    assert(out@[b] == before[b - 1]);
                    if b - 1 > j {
                        assert(group_leq(before[j as int], before[b - 1]));
                    }
                    assert(group_leq(e, before[b - 1]));
                } else {
                    assert(out@[a] == before[a - 1] && out@[b] == before[b - 1]);
                }
            }
        }
        i = i + 1;
    }
    proof {
        assert(v@.take(i as int) =~= v@);
        lemma_group_leq_total();
        v@.lemma_sort_by_ensures(leq);
        lemma_sorted_unique(out@, v@.sort_by(leq), leq);
    }
    out
}

/// Whether two configurations agree in everything but their group limits.
pub open spec fn same_but_groups(a: StoreConfig, b: StoreConfig) -> bool {
    &&& a.host == b.host
    &&& a.port == b.port
    &&& a.node_id == b.node_id
    &&& a.database == b.database
    &&& a.leveldb_path == b.leveldb_path
    &&& a.file_storage == b.file_storage
    &&& a.file_storage_path == b.file_storage_path
    &&& a.max_byte_size == b.max_byte_size
    &&& a.no_update == b.no_update
    &&& a.update == b.update
}

/// Sets the limit of group `priority` in the configuration, keeping the group
/// limits sorted by priority then limit.
pub fn set_group_config(config: &mut StoreConfig, priority: u32, max_byte_size: Option<u64>)
    ensures
        opt_groups(final(config).groups) == Some(
            groups_after_set(opt_groups(old(config).groups), priority, max_byte_size),
        ),
        same_but_groups(*final(config), *old(config)),
{
    let g = GroupConfig { priority, max_byte_size };
    match config.groups.take() {
        None => {
            let mut v: Vec<GroupConfig> = Vec::new();
            v.push(g);
            assert(v@ =~= seq![g]);
            config.groups = Some(v);
        },
        Some(mut groups) => {
            let ghost gs = groups@;
            let mut i: usize = 0;
            while i < groups.len() && groups[i].priority != priority
                invariant
                    gs == groups@,
                    i <= gs.len(),
                    forall|j: int| 0 <= j < i ==> (#[trigger] gs[j]).priority != priority,
                decreases gs.len() - i,
            {
                i = i + 1;
            }
            proof {
                lemma_first_of_priority(gs, priority, i as int);
            }
            if i < groups.len() {
                groups.set(i, g);
            } else {
                groups.push(g);
            }
            let sorted = sort_groups(&groups);
            config.groups = Some(sorted);
        },
    }
}

/// Removes the limit of group `priority` from the configuration; a
/// configuration without group limits stays so.
pub fn rm_group_config(config: &mut StoreConfig, priority: u32)
    ensures
        opt_groups(final(config).groups) == match opt_groups(old(config).groups) {
            None => None,
            Some(gs) => Some(gs.filter(other_priority(priority))),
        },
        same_but_groups(*final(config), *old(config)),
{
    match config.groups.take() {
        None => {},
        Some(groups) => {
            let mut kept: Vec<GroupConfig> = Vec::new();
            let mut i: usize = 0;
            assert(groups@.take(0) =~= Seq::<GroupConfig>::empty());
            while i < groups.len()
                invariant
                    i <= groups@.len(),
                    kept@ == groups@.take(i as int).filter(other_priority(priority)),
                decreases groups@.len() - i,
            {
                let g = groups[i];
                proof {
                    assert(groups@.take(i as int + 1) =~= groups@.take(i as int).push(g));
                    groups@.take(i as int).lemma_filter_push(g, other_priority(priority));
                }
                if g.priority != priority {
                    kept.push(g);
                }
                i = i + 1;
            }
            assert(groups@.take(i as int) =~= groups@);
            config.groups = Some(kept);
        },
    }
}

/// After a group's limit is set, the group limits are sorted and hold an entry
/// of that priority with that limit.
pub proof fn law_set_group_config_reads_back(
    gs: Option<Seq<GroupConfig>>,
    priority: u32,
    max_byte_size: Option<u64>,
)
    ensures
        sorted_by(groups_after_set(gs, priority, max_byte_size), group_order()),
        groups_after_set(gs, priority, max_byte_size).contains(
            GroupConfig { priority, max_byte_size },
        ),
{
    broadcast use group_to_multiset_ensures;

    let g = GroupConfig { priority, max_byte_size };
    match gs {
        None => {
            assert(seq![g][0] == g);
        },
        Some(s) => {
            let u = upsert_group(s, priority, max_byte_size);
            lemma_group_leq_total();
            u.lemma_sort_by_ensures(group_order());
            let i = first_of_priority(s, priority);
            if i < s.len() {
                assert(u[i as int] == g);
            } else {
                assert(u[s.len() as int] == g);
            }
            assert(u.contains(g));
            assert(u.to_multiset().count(g) > 0);
        },
    }
}

/// After a group's limit is removed, no group limit of that priority is left.
pub proof fn law_rm_group_config_clears(gs: Seq<GroupConfig>, priority: u32)
    ensures
        forall|j: int|
            0 <= j < gs.filter(other_priority(priority)).len() ==> (#[trigger] gs.filter(
                other_priority(priority),
            )[j]).priority != priority,
{
    broadcast use vstd::seq_lib::group_filter_ensures;

    assert forall|j: int| 0 <= j < gs.filter(other_priority(priority)).len() implies (
    #[trigger] gs.filter(other_priority(priority))[j]).priority != priority by {
        assert(other_priority(priority)(gs.filter(other_priority(priority))[j]));
    }
}

/// Removing a group's limit keeps the limit of every other priority: each
/// entry of another priority stays.
pub proof fn law_rm_group_config_keeps_others(gs: Seq<GroupConfig>, priority: u32)
    ensures
        forall|j: int|
            0 <= j < gs.len() && (#[trigger] gs[j]).priority != priority ==> gs.filter(
                other_priority(priority),
            ).contains(gs[j]),
{
    broadcast use vstd::seq_lib::group_filter_ensures;

    assert forall|j: int| 0 <= j < gs.len() && (#[trigger] gs[j]).priority != priority implies gs.filter(
        other_priority(priority),
    ).contains(gs[j]) by {
        assert(gs.contains(gs[j]));
        assert(other_priority(priority)(gs[j]));
    }
}

} // verus!
