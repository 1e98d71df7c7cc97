//! Reading an insert request: the header section `key=value&key=value`
//! before the first `?`, and what it asks for (the priority, whether the
//! message goes to file storage, the size it claims, and the header kept with a
//! stored file); and the texts that answer a read.
use crate::decimal::{decimal_string, digits_of, parse_unsigned, parse_unsigned_range};
use crate::store::uuid::{uuid_text, Uuid};
use crate::store::StoreErrorTy;
use crate::text::{
    chars_eq, find_sep, next_sep, push_all, split_all, split_from, string_of, texts_of, trim_chars,
    trim_start_chars, trimmed, trimmed_start,
};
use crate::level::string_from_utf8;
use vstd::utf8::{decode_utf8, valid_utf8};
use vstd::prelude::*;
use vstd::string::*;

verus! {

/// Why an insert request is refused.
#[derive(Debug, Clone, Copy, PartialEq, Eq, Structural)]
pub enum MsgError {
    FileStorageNotConfigured,
    InvalidBytesizeOverride,
    InvalidPriority,
    MissingBytesizeOverride,
    MissingHeaders,
    MissingPriority,
    MalformedHeaders,
    MsgExceedesGroupMax,
    MsgExceedesStoreMax,
    MsgLacksPriority,
    CouldNotGetNextChunkFromPayload,
    CouldNotParseChunk,
}

/// Metadata: (key, value) pairs in the order of their keys.
pub type MetaV = Seq<(Seq<char>, Seq<char>)>;

/// Whether text `a` comes before text `b`, character by character (which is the
/// order of their UTF-8 bytes).
pub open spec fn key_lt(a: Seq<char>, b: Seq<char>) -> bool
    decreases a.len(),
{
    if a.len() == 0 {
        b.len() > 0
    } else if b.len() == 0 {
        false
    } else if a[0] != b[0] {
        (a[0] as int) < (b[0] as int)
    } else {
        key_lt(a.drop_first(), b.drop_first())
    }
}

/// The metadata with `key` set to `value`: an entry of that key takes the new
/// value; otherwise the pair goes before the first entry whose key does not come
/// before `key`.
pub open spec fn meta_insert(m: MetaV, key: Seq<char>, value: Seq<char>) -> MetaV
    decreases m.len(),
{
    if m.len() == 0 {
        seq![(key, value)]
    } else if m[0].0 == key {
        m.update(0, (key, value))
    } else if key_lt(m[0].0, key) {
        seq![m[0]] + meta_insert(m.drop_first(), key, value)
    } else {
        seq![(key, value)] + m
    }
}

/// The key and value of a header pair `key=value`: the first two pieces split
/// at `=`; `None` when there is no `=`.
pub open spec fn pair_of(p: Seq<char>) -> Option<(Seq<char>, Seq<char>)> {
    let parts = split_from(p, '=', 0);
    if parts.len() < 2 {
        None
    } else {
        Some((parts[0], parts[1]))
    }
}

/// Reads header pairs into the metadata `acc`, each trimmed of white space.
pub open spec fn fold_pairs(ps: Seq<Seq<char>>, acc: MetaV) -> Result<MetaV, MsgError>
    decreases ps.len(),
{
    if ps.len() == 0 {
        Ok(acc)
    } else {
        match pair_of(trimmed(ps[0])) {
            None => Err(MsgError::MalformedHeaders),
            Some((k, v)) => fold_pairs(ps.drop_first(), meta_insert(acc, k, v)),
        }
    }
}

/// What reading a header section gives: the metadata, or `MalformedHeaders`
/// when a pair has no `=`.
pub open spec fn metadata_of(section: Seq<char>) -> Result<MetaV, MsgError> {
    fold_pairs(split_from(section, '&', 0), Seq::empty())
}

/// The value of the first entry of key `key`.
pub open spec fn meta_get(m: MetaV, key: Seq<char>) -> Option<Seq<char>>
    decreases m.len(),
{
    if m.len() == 0 {
        None
    } else if m[0].0 == key {
        Some(m[0].1)
    } else {
        meta_get(m.drop_first(), key)
    }
}

/// The metadata without the first entry of key `key`.
pub open spec fn meta_remove(m: MetaV, key: Seq<char>) -> MetaV
    decreases m.len(),
{
    if m.len() == 0 {
        m
    } else if m[0].0 == key {
        m.drop_first()
    } else {
        seq![m[0]] + meta_remove(m.drop_first(), key)
    }
}

/// The metadata written back as `key=value` pairs joined by `&`.
pub open spec fn join_meta(m: MetaV) -> Seq<char>
    decreases m.len(),
{
    if m.len() == 0 {
        Seq::empty()
    } else if m.len() == 1 {
        m[0].0 + seq!['='] + m[0].1
    } else {
        m[0].0 + seq!['='] + m[0].1 + seq!['&'] + join_meta(m.drop_first())
    }
}

/// The lower-case form of a text, as `str::to_lowercase` gives it.
pub uninterp spec fn lowercase_of(s: Seq<char>) -> Seq<char>;

/// A character lowered as ASCII: `A` to `Z` become `a` to `z`, the rest stay.
pub open spec fn ascii_lower(c: char) -> char {
    if 'A' <= c && c <= 'Z' {
        ((c as u32) + 32) as char
    } else {
        c
    }
}

/// Calls `str::to_lowercase`. Its result depends on the text alone (by the
/// Unicode lower-case mapping), and is named `lowercase_of`. On ASCII text
/// the mapping is the ASCII one, character by character, as std documents.
#[verifier::external_body]
fn lowercase(s: &str) -> (r: String)
    ensures
        r@ == lowercase_of(s@),
        vstd::utf8::is_ascii_chars(s@) ==> r@ == s@.map_values(|c: char| ascii_lower(c)),
{
    s.to_lowercase()
}

/// What an insert request asks for.
pub struct AddPlan {
    /// The priority of the message.
    pub priority: u32,
    /// Whether the message body goes to file storage.
    pub save_to_file: bool,
    /// The size the request claims for a body kept in file storage.
    pub byte_size_override: Option<u64>,
    /// The header kept with a body in file storage: the other metadata, as
    /// `key=value` pairs joined by `&`; empty otherwise.
    pub header: String,
}

/// What an insert request asks for, as the model sees it.
pub struct PlanView {
    pub priority: u32,
    pub save_to_file: bool,
    pub byte_size_override: Option<u64>,
    pub header: Seq<char>,
}

/// What an insert request with the given metadata asks for, where
/// `storage_configured` says whether file storage is set up. The metadata is read
/// in this order: `saveToFile` (where, lower-cased, it is `true`, file storage
/// must be set up); `priority`, which must be present and read as a `u32`; and
/// for a message that goes to file storage `bytesizeOverride`, which must be
/// present and read as a `u64`.
pub open spec fn plan_of(m: MetaV, storage_configured: bool) -> Result<PlanView, MsgError> {
    plan_for(m, save_asked(m), storage_configured)
}

/// Whether the metadata asks for file storage: its `saveToFile`, lower-cased,
/// is `true`.
pub open spec fn save_asked(m: MetaV) -> bool {
    match meta_get(m, "saveToFile"@) {
        Some(v) => lowercase_of(v) == "true"@,
        None => false,
    }
}

/// What an insert request with the given metadata asks for, where `save` says
/// whether it asks for file storage (see `plan_of`).
pub open spec fn plan_for(m: MetaV, save: bool, storage_configured: bool) -> Result<
    PlanView,
    MsgError,
> {
    if save && !storage_configured {
        Err(MsgError::FileStorageNotConfigured)
    } else {
        match meta_get(m, "priority"@) {
            None => Err(MsgError::MissingPriority),
            Some(pt) => match parse_unsigned(pt, u32::MAX as nat) {
                Err(_) => Err(MsgError::InvalidPriority),
                Ok(p) => {
                    let rest = meta_remove(m, "priority"@);
                    if !save {
                        Ok(
                            PlanView {
                                priority: p as u32,
                                save_to_file: false,
                                byte_size_override: None,
                                header: Seq::empty(),
                            },
                        )
                    } else {
                        match meta_get(rest, "bytesizeOverride"@) {
                            None => Err(MsgError::MissingBytesizeOverride),
                            Some(bt) => match parse_unsigned(bt, u64::MAX as nat) {
                                Err(_) => Err(MsgError::InvalidBytesizeOverride),
                                Ok(b) => Ok(
                                    PlanView {
                                        priority: p as u32,
                                        save_to_file: true,
                                        byte_size_override: Some(b as u64),
                                        header: join_meta(rest),
                                    },
                                ),
                            },
                        }
                    }
                },
            },
        }
    }
}

/// What reading the header section of an insert request gives.
pub open spec fn request_plan(section: Seq<char>, storage_configured: bool) -> Result<PlanView, MsgError> {
    match metadata_of(section) {
        Err(e) => Err(e),
        Ok(m) => plan_of(m, storage_configured),
    }
}

/// What an exec plan says.
pub open spec fn plan_view(p: AddPlan) -> PlanView {
    PlanView {
        priority: p.priority,
        save_to_file: p.save_to_file,
        byte_size_override: p.byte_size_override,
        header: p.header@,
    }
}

/// The metadata that exec pairs hold.
pub open spec fn meta_view(v: Seq<(Vec<char>, Vec<char>)>) -> MetaV {
    v.map_values(|e: (Vec<char>, Vec<char>)| (e.0@, e.1@))
}

/// Whether text `a` comes before text `b`.
fn chars_lt(a: &Vec<char>, b: &Vec<char>) -> (r: bool)
    ensures
        r == key_lt(a@, b@),
{
    let mut i: usize = 0;
    assert(a@.skip(0) =~= a@ && b@.skip(0) =~= b@);
    while i < a.len() && i < b.len() && a[i] == b[i]
        invariant
            i <= a@.len(),
            i <= b@.len(),
            key_lt(a@, b@) == key_lt(a@.skip(i as int), b@.skip(i as int)),
        decreases a@.len() - i,
    {
        proof {
            assert(a@.skip(i as int).drop_first() =~= a@.skip(i as int + 1));
            assert(b@.skip(i as int).drop_first() =~= b@.skip(i as int + 1));
        }
        i = i + 1;
    }
    if i == a.len() {
        i < b.len()
    } else if i == b.len() {
        false
    } else {
        a[i] < b[i]
    }
}

proof fn lemma_meta_insert_skip(m: MetaV, key: Seq<char>, value: Seq<char>, i: int)
    requires
        0 <= i <= m.len(),
        forall|j: int| 0 <= j < i ==> (#[trigger] m[j]).0 != key && key_lt(m[j].0, key),
    ensures
        meta_insert(m, key, value) == m.take(i) + meta_insert(m.skip(i), key, value),
    decreases i,
{
    if i == 0 {
        assert(m.skip(0) =~= m);
        assert(m.take(0) + meta_insert(m, key, value) =~= meta_insert(m, key, value));
    } else {
        let r = m.drop_first();
        assert forall|j: int| 0 <= j < i - 1 implies (#[trigger] r[j]).0 != key && key_lt(
            r[j].0,
            key,
        ) by {
            assert(r[j] == m[j + 1]);
        }
        lemma_meta_insert_skip(r, key, value, i - 1);
        assert(r.skip(i - 1) =~= m.skip(i));
        assert(m.take(i) =~= seq![m[0]] + r.take(i - 1));
        assert(m[0].0 != key && key_lt(m[0].0, key));
    }
}

/// Sets `key` to `value` in the metadata.
fn meta_insert_exec(m: &mut Vec<(Vec<char>, Vec<char>)>, key: Vec<char>, value: Vec<char>)
    ensures
        meta_view(final(m)@) == meta_insert(meta_view(old(m)@), key@, value@),
{
    let ghost mv = meta_view(m@);
    let mut i: usize = 0;
    while i < m.len() && !chars_eq(&m[i].0, &key) && chars_lt(&m[i].0, &key)
        invariant
            mv == meta_view(m@),
            i <= m@.len(),
            forall|j: int| 0 <= j < i ==> (#[trigger] mv[j]).0 != key@ && key_lt(mv[j].0, key@),
        decreases m@.len() - i,
    {
        i = i + 1;
    }
    proof {
        lemma_meta_insert_skip(mv, key@, value@, i as int);
    }
    let ghost kv = key@;
    let ghost vv = value@;
    if i < m.len() && chars_eq(&m[i].0, &key) {
        m.set(i, (key, value));
        proof {
            assert(mv.skip(i as int)[0].0 == kv);
            assert(meta_view(m@) =~= mv.take(i as int) + mv.skip(i as int).update(0, (kv, vv)));
        }
    } else {
        m.insert(i, (key, value));
        proof {
            if i < mv.len() {
                assert(mv.skip(i as int)[0] == mv[i as int]);
            } else {
                assert(mv.skip(i as int) =~= Seq::<(Seq<char>, Seq<char>)>::empty());
            }
            assert(meta_view(m@) =~= mv.take(i as int) + (seq![(kv, vv)] + mv.skip(i as int)));
        }
    }
}

/// Reads the header section of an insert request (the text before the first
/// `?`) into metadata.
pub fn parse_metadata(section: &Vec<char>) -> (r: Result<Vec<(Vec<char>, Vec<char>)>, MsgError>)
    ensures
        match r {
            Ok(m) => metadata_of(section@) == Ok::<MetaV, MsgError>(meta_view(m@)),
            Err(e) => metadata_of(section@) == Err::<MetaV, MsgError>(e),
        },
{
    let pieces = split_all(section, '&', 0);
    let ghost ps = texts_of(pieces@);
    let mut m: Vec<(Vec<char>, Vec<char>)> = Vec::new();
    let mut i: usize = 0;
    assert(ps.skip(0) =~= ps);
    assert(meta_view(m@) =~= Seq::<(Seq<char>, Seq<char>)>::empty());
    while i < pieces.len()
        invariant
            ps == texts_of(pieces@),
            ps == split_from(section@, '&', 0),
            i <= ps.len(),
            metadata_of(section@) == fold_pairs(ps.skip(i as int), meta_view(m@)),
        decreases ps.len() - i,
    {
        proof {
            assert(ps.skip(i as int).drop_first() =~= ps.skip(i as int + 1));
            assert(ps.skip(i as int)[0] == pieces@[i as int]@);
        }
        let p = trim_chars(&pieces[i]);
        let mut parts = split_all(&p, '=', 0);
        if parts.len() < 2 {
            return Err(MsgError::MalformedHeaders);
        }
        let ghost whole = parts@;
        proof {
            assert(texts_of(whole)[0] == whole[0]@);
            assert(texts_of(whole)[1] == whole[1]@);
        }
        let v = parts.remove(1);
        let k = parts.remove(0);
        meta_insert_exec(&mut m, k, v);
        i = i + 1;
    }
    proof {
        assert(ps.skip(i as int).len() == 0);
    }
    Ok(m)
}

/// The place of the first entry of key `key`, or the length when there is none.
pub open spec fn meta_index(m: MetaV, key: Seq<char>) -> nat
    decreases m.len(),
{
    if m.len() == 0 || m[0].0 == key {
        0
    } else {
        1 + meta_index(m.drop_first(), key)
    }
}

proof fn lemma_meta_index(m: MetaV, key: Seq<char>, i: int)
    requires
        0 <= i <= m.len(),
        forall|j: int| 0 <= j < i ==> (#[trigger] m[j]).0 != key,
        i < m.len() ==> m[i].0 == key,
    ensures
        meta_index(m, key) == i,
        meta_get(m, key) == if i < m.len() {
            Some(m[i].1)
        } else {
            None
        },
        meta_remove(m, key) == if i < m.len() {
            m.remove(i)
        } else {
            m
        },
    decreases i,
{
    if i > 0 {
        let r = m.drop_first();
        assert forall|j: int| 0 <= j < i - 1 implies (#[trigger] r[j]).0 != key by {
            assert(r[j] == m[j + 1]);
        }
        assert(m[0].0 != key);
        lemma_meta_index(r, key, i - 1);
        if i < m.len() {
            assert(m.remove(i) =~= seq![m[0]] + r.remove(i - 1));
        } else {
            assert(seq![m[0]] + r =~= m);
        }
    } else if m.len() > 0 {
        assert(m.remove(0) =~= m.drop_first());
    }
}

/// Finds the first entry of key `key`.
fn meta_find(m: &Vec<(Vec<char>, Vec<char>)>, key: &Vec<char>) -> (i: usize)
    ensures
        i == meta_index(meta_view(m@), key@),
        i <= m@.len(),
        meta_get(meta_view(m@), key@) == if i < m@.len() {
            Some(m@[i as int].1@)
        } else {
            None
        },
        meta_remove(meta_view(m@), key@) == if i < m@.len() {
            meta_view(m@).remove(i as int)
        } else {
            meta_view(m@)
        },
{
    let ghost mv = meta_view(m@);
    let mut i: usize = 0;
    while i < m.len() && !chars_eq(&m[i].0, key)
        invariant
            mv == meta_view(m@),
            i <= m@.len(),
            forall|j: int| 0 <= j < i ==> (#[trigger] mv[j]).0 != key@,
        decreases m@.len() - i,
    {
        i = i + 1;
    }
    proof {
        lemma_meta_index(mv, key@, i as int);
    }
    i
}

/// One pair written as `key=value`.
pub open spec fn entry_text(e: (Seq<char>, Seq<char>)) -> Seq<char> {
    e.0 + seq!['='] + e.1
}

proof fn lemma_join_push(m: MetaV, e: (Seq<char>, Seq<char>))
    ensures
        join_meta(m.push(e)) == if m.len() == 0 {
            entry_text(e)
        } else {
            join_meta(m) + seq!['&'] + entry_text(e)
        },
    decreases m.len(),
{
    if m.len() == 0 {
        assert(m.push(e).len() == 1);
    } else if m.len() == 1 {
        assert(m.push(e).drop_first() =~= seq![e]);
        assert(join_meta(seq![e]) == entry_text(e));
    } else {
        let r = m.drop_first();
        assert(m.push(e).drop_first() =~= r.push(e));
        lemma_join_push(r, e);
    }
}

/// The metadata written back as `key=value` pairs joined by `&`.
fn join_meta_exec(m: &Vec<(Vec<char>, Vec<char>)>) -> (r: Vec<char>)
    ensures
        r@ == join_meta(meta_view(m@)),
{
    let ghost mv = meta_view(m@);
    let mut out: Vec<char> = Vec::new();
    let mut i: usize = 0;
    assert(mv.take(0) =~= Seq::<(Seq<char>, Seq<char>)>::empty());
    while i < m.len()
        invariant
            mv == meta_view(m@),
            i <= m@.len(),
            out@ == join_meta(mv.take(i as int)),
        decreases m@.len() - i,
    {
        proof {
            assert(mv.take(i as int + 1) =~= mv.take(i as int).push(mv[i as int]));
            lemma_join_push(mv.take(i as int), mv[i as int]);
        }
        if i > 0 {
            out.push('&');
        }
        push_all(&mut out, &m[i].0);
        out.push('=');
        push_all(&mut out, &m[i].1);
        proof {
            if i > 0 {
                assert(out@ =~= join_meta(mv.take(i as int)) + seq!['&'] + entry_text(mv[i as int]));
            } else {
                assert(out@ =~= entry_text(mv[i as int]));
            }
        }
        i = i + 1;
    }
    assert(mv.take(i as int) =~= mv);
    out
}

/// What an insert request with the given metadata asks for, where
/// `storage_configured` says whether file storage is set up (see `plan_of`).
pub fn plan_add(m: Vec<(Vec<char>, Vec<char>)>, storage_configured: bool) -> (r: Result<
    AddPlan,
    MsgError,
>)
    ensures
        match r {
            Ok(p) => plan_of(meta_view(m@), storage_configured) == Ok::<PlanView, MsgError>(
                plan_view(p),
            ),
            Err(e) => plan_of(meta_view(m@), storage_configured) == Err::<PlanView, MsgError>(e),
        },
{
    let save_key = crate::decimal::chars_of("saveToFile");
    let si = meta_find(&m, &save_key);
    let save = if si < m.len() {
        let low = lowercase(string_of(&m[si].1).as_str());
        low == String::from_str("true")
    } else {
        false
    };
    plan_with_save(m, save, storage_configured)
}

/// What an insert request with the given metadata asks for, where `save_to_file`
/// says whether it asks for file storage (see `plan_for`).
pub fn plan_with_save(m: Vec<(Vec<char>, Vec<char>)>, save_to_file: bool, storage_configured: bool) -> (r: Result<
    AddPlan,
    MsgError,
>)
    ensures
        match r {
            Ok(p) => plan_for(meta_view(m@), save_to_file, storage_configured) == Ok::<
                PlanView,
                MsgError,
            >(plan_view(p)),
            Err(e) => plan_for(meta_view(m@), save_to_file, storage_configured) == Err::<
                PlanView,
                MsgError,
            >(e),
        },
{
    let ghost mv = meta_view(m@);
    let save = save_to_file;
    if save && !storage_configured {
        return Err(MsgError::FileStorageNotConfigured);
    }
    let pri_key = crate::decimal::chars_of("priority");
    let pi = meta_find(&m, &pri_key);
    if pi >= m.len() {
        return Err(MsgError::MissingPriority);
    }
    let pt = &m[pi].1;
    assert(pt@.subrange(0, pt@.len() as int) =~= pt@);
    let priority = match parse_unsigned_range(pt, 0, pt.len(), u32::MAX as u128) {
        Ok(p) => p as u32,
        Err(_) => {
            return Err(MsgError::InvalidPriority);
        },
    };
    let mut rest = m;
    rest.remove(pi);
    assert(meta_view(rest@) =~= mv.remove(pi as int));
    if !save {
        return Ok(
            AddPlan { priority, save_to_file: false, byte_size_override: None, header: String::new() },
        );
    }
    let size_key = crate::decimal::chars_of("bytesizeOverride");
    let bi = meta_find(&rest, &size_key);
    if bi >= rest.len() {
        return Err(MsgError::MissingBytesizeOverride);
    }
    let bt = &rest[bi].1;
    assert(bt@.subrange(0, bt@.len() as int) =~= bt@);
    let size = match parse_unsigned_range(bt, 0, bt.len(), u64::MAX as u128) {
        Ok(b) => b as u64,
        Err(_) => {
            return Err(MsgError::InvalidBytesizeOverride);
        },
    };
    let header = string_of(&join_meta_exec(&rest));
    Ok(AddPlan { priority, save_to_file: true, byte_size_override: Some(size), header })
}

/// What the header section of an insert request (the text before the first
/// `?`) asks for (see `request_plan`).
pub fn read_add_request(section: &str, storage_configured: bool) -> (r: Result<AddPlan, MsgError>)
    ensures
        match r {
            Ok(p) => request_plan(section@, storage_configured) == Ok::<PlanView, MsgError>(
                plan_view(p),
            ),
            Err(e) => request_plan(section@, storage_configured) == Err::<PlanView, MsgError>(e),
        },
{
    let cs = crate::decimal::chars_of(section);
    match parse_metadata(&cs) {
        Err(e) => Err(e),
        Ok(m) => plan_add(m, storage_configured),
    }
}

/// The parts of `s` before and after its first `?`, if it has one.
pub open spec fn split_at_question(s: Seq<char>) -> Option<(Seq<char>, Seq<char>)> {
    let e = next_sep(s, '?', 0);
    if e >= s.len() {
        None
    } else {
        Some((s.subrange(0, e), s.subrange(e + 1, s.len() as int)))
    }
}

/// Splits a request at its first `?` into the header section and the start of
/// the message, if it has a `?` (what `str::split_once` gives).
pub fn split_request(s: &str) -> (r: Option<(String, String)>)
    ensures
        match r {
            Some((a, b)) => split_at_question(s@) == Some((a@, b@)),
            None => split_at_question(s@) is None,
        },
{
    let cs = crate::decimal::chars_of(s);
    let e = find_sep(&cs, '?', 0);
    if e >= cs.len() {
        return None;
    }
    let mut head: Vec<char> = Vec::new();
    let mut tail: Vec<char> = Vec::new();
    let mut i: usize = 0;
    while i < cs.len()
        invariant
            e < cs@.len(),
            i <= cs@.len(),
            head@ == cs@.subrange(0, if i < e { i as int } else { e as int }),
            tail@ == if i <= e + 1 {
                Seq::<char>::empty()
            } else {
                cs@.subrange(e + 1, i as int)
            },
        decreases cs@.len() - i,
    {
        if i < e {
            head.push(cs[i]);
            assert(head@ =~= cs@.subrange(0, i as int + 1));
        } else if i > e {
            tail.push(cs[i]);
            assert(tail@ =~= cs@.subrange(e + 1, i as int + 1));
        }
        i = i + 1;
    }
    assert(tail@ =~= cs@.subrange(e + 1, cs@.len() as int));
    Some((string_of(&head), string_of(&tail)))
}

/// The refusal that an insert request gets for a store failure, where the store
/// failure is one that a request can cause.
pub fn msg_error_of(ty: &StoreErrorTy) -> (r: Option<MsgError>)
    ensures
        r == match *ty {
            StoreErrorTy::ExceedesStoreMax => Some(MsgError::MsgExceedesStoreMax),
            StoreErrorTy::ExceedesGroupMax => Some(MsgError::MsgExceedesGroupMax),
            StoreErrorTy::LacksPriority => Some(MsgError::MsgLacksPriority),
            _ => None::<MsgError>,
        },
{
    match ty {
        StoreErrorTy::ExceedesStoreMax => Some(MsgError::MsgExceedesStoreMax),
        StoreErrorTy::ExceedesGroupMax => Some(MsgError::MsgExceedesGroupMax),
        StoreErrorTy::LacksPriority => Some(MsgError::MsgLacksPriority),
        _ => None,
    }
}

/// The answer to a read of a message held in memory: `uuid=<id>?<message>`.
pub open spec fn msg_reply_text(u: Uuid, msg: Seq<char>) -> Seq<char> {
    "uuid="@ + uuid_text(u) + seq!['?'] + msg
}

/// The first part of the answer to a read of a message held in file storage:
/// `uuid=<id>&<header>?`; the file's bytes follow it.
pub open spec fn file_reply_text(u: Uuid, header: Seq<char>) -> Seq<char> {
    "uuid="@ + uuid_text(u) + seq!['&'] + header + seq!['?']
}

/// The answer to a read of a message held in memory.
pub fn msg_reply(uuid: &Uuid, msg: &str) -> (r: String)
    ensures
        r@ == msg_reply_text(*uuid, msg@),
{
    let mut r = String::from_str("uuid=");
    let id = uuid.to_string();
    r.append(id.as_str());
    r.append("?");
    r.append(msg);
    proof {
        reveal_strlit("?");
    }
    r
}

/// The first part of the answer to a read of a message held in file storage.
pub fn file_reply_header(uuid: &Uuid, header: &str) -> (r: String)
    ensures
        r@ == file_reply_text(*uuid, header@),
{
    let mut r = String::from_str("uuid=");
    let id = uuid.to_string();
    r.append(id.as_str());
    r.append("&");
    r.append(header);
    r.append("?");
    proof {
        reveal_strlit("?");
        reveal_strlit("&");
    }
    r
}

/// The name of a refusal.
pub open spec fn msg_error_name(e: MsgError) -> Seq<char> {
    match e {
        MsgError::FileStorageNotConfigured => "FileStorageNotConfigured"@,
        MsgError::InvalidBytesizeOverride => "InvalidBytesizeOverride"@,
        MsgError::InvalidPriority => "InvalidPriority"@,
        MsgError::MissingBytesizeOverride => "MissingBytesizeOverride"@,
        MsgError::MissingHeaders => "MissingHeaders"@,
        MsgError::MissingPriority => "MissingPriority"@,
        MsgError::MalformedHeaders => "MalformedHeaders"@,
        MsgError::MsgExceedesGroupMax => "MsgExceedesGroupMax"@,
        MsgError::MsgExceedesStoreMax => "MsgExceedesStoreMax"@,
        MsgError::MsgLacksPriority => "MsgLacksPriority"@,
        MsgError::CouldNotGetNextChunkFromPayload => "CouldNotGetNextChunkFromPayload"@,
        MsgError::CouldNotParseChunk => "CouldNotParseChunk"@,
    }
}

impl MsgError {
    /// The text of a refusal: `MSG_ERROR: ` and its name.
    pub fn to_text(&self) -> (s: String)
        ensures
            s@ == "MSG_ERROR: "@ + msg_error_name(*self),
    {
        let mut s = String::from_str("MSG_ERROR: ");
        let name = match self {
            MsgError::FileStorageNotConfigured => "FileStorageNotConfigured",
            MsgError::InvalidBytesizeOverride => "InvalidBytesizeOverride",
            MsgError::InvalidPriority => "InvalidPriority",
            MsgError::MissingBytesizeOverride => "MissingBytesizeOverride",
            MsgError::MissingHeaders => "MissingHeaders",
            MsgError::MissingPriority => "MissingPriority",
            MsgError::MalformedHeaders => "MalformedHeaders",
            MsgError::MsgExceedesGroupMax => "MsgExceedesGroupMax",
            MsgError::MsgExceedesStoreMax => "MsgExceedesStoreMax",
            MsgError::MsgLacksPriority => "MsgLacksPriority",
            MsgError::CouldNotGetNextChunkFromPayload => "CouldNotGetNextChunkFromPayload",
            MsgError::CouldNotParseChunk => "CouldNotParseChunk",
        };
        s.append(name);
        s
    }
}

/// The text of a failed insert: `ADD_MSG_ERROR: <what>. file: <file>, line:
/// <line>` followed by `, msg: <msg>` where there is a message, else by `.`.
pub open spec fn add_error_spec(what: Seq<char>, file: Seq<char>, line: u32, msg: Option<Seq<char>>) -> Seq<
    char,
> {
    "ADD_MSG_ERROR: "@ + what + ". file: "@ + file + ", line: "@ + digits_of(line as nat) + match msg {
        Some(m) => ", msg: "@ + m,
        None => "."@,
    }
}

/// Writes the text of a failed insert (see `add_error_spec`).
pub fn add_error_text(what: &str, file: &str, line: u32, msg: Option<&str>) -> (s: String)
    ensures
        s@ == add_error_spec(what@, file@, line, match msg {
            Some(m) => Some(m@),
            None => None,
        }),
{
    let mut s = String::from_str("ADD_MSG_ERROR: ");
    s.append(what);
    s.append(". file: ");
    s.append(file);
    s.append(", line: ");
    let n = decimal_string(line as u128);
    s.append(n.as_str());
    match msg {
        Some(m) => {
            s.append(", msg: ");
            s.append(m);
        },
        None => {
            s.append(".");
        },
    }
    s
}

/// The text of an insert refused by the request or by the store: the refusal
/// in brackets (see `MsgError::to_text`) as what failed.
pub fn add_msg_error_text(e: &MsgError, file: &str, line: u32, msg: Option<&str>) -> (s: String)
    ensures
        s@ == add_error_spec(
            seq!['('] + "MSG_ERROR: "@ + msg_error_name(*e) + seq![')'],
            file@,
            line,
            match msg {
                Some(m) => Some(m@),
                None => None,
            },
        ),
{
    let mut what = String::from_str("(");
    let t = e.to_text();
    what.append(t.as_str());
    what.append(")");
    proof {
        reveal_strlit("(");
        reveal_strlit(")");
        assert(what@ =~= seq!['('] + "MSG_ERROR: "@ + msg_error_name(*e) + seq![')']);
    }
    add_error_text(what.as_str(), file, line, msg)
}

/// Reading header pairs fails only for a pair without `=`.
proof fn lemma_fold_pairs_fails_malformed(ps: Seq<Seq<char>>, acc: MetaV)
    ensures
        fold_pairs(ps, acc) is Err ==> fold_pairs(ps, acc) == Err::<MetaV, MsgError>(
            MsgError::MalformedHeaders,
        ),
    decreases ps.len(),
{
    if ps.len() > 0 {
        match pair_of(trimmed(ps[0])) {
            None => {},
            Some((k, v)) => lemma_fold_pairs_fails_malformed(ps.drop_first(), meta_insert(acc, k, v)),
        }
    }
}

/// An insert request that does not ask for file storage is refused in this
/// order: `MalformedHeaders` when a pair has no `=`; else `MissingPriority`
/// when there is no `priority`; else `InvalidPriority` when the priority does
/// not read as a `u32`.
pub proof fn law_request_refusal_order(section: Seq<char>, storage_configured: bool)
    ensures
        metadata_of(section) is Err ==> request_plan(section, storage_configured) == Err::<
            PlanView,
            MsgError,
        >(MsgError::MalformedHeaders),
        metadata_of(section) matches Ok(m) && !save_asked(m) && meta_get(m, "priority"@) is None
            ==> request_plan(section, storage_configured) == Err::<PlanView, MsgError>(
            MsgError::MissingPriority,
        ),
        metadata_of(section) matches Ok(m) && !save_asked(m) && (meta_get(m, "priority"@) matches Some(pt)
            && parse_unsigned(pt, u32::MAX as nat) is Err) ==> request_plan(
            section,
            storage_configured,
        ) == Err::<PlanView, MsgError>(MsgError::InvalidPriority),
{
    lemma_fold_pairs_fails_malformed(split_from(section, '&', 0), Seq::empty());
}

/// Takes the next chunk of an insert request's body into the header text read
/// so far: the chunk must be UTF-8 (else `CouldNotParseChunk`, and the text
/// stays); its leading white space is dropped and the rest appended. Then, if
/// the text holds a `?`, gives the header section before it and the start of
/// the message after it.
pub fn take_chunk(meta: &mut String, chunk: Vec<u8>) -> (r: Result<Option<(String, String)>, MsgError>)
    ensures
        match r {
            Err(e) => e == MsgError::CouldNotParseChunk && !valid_utf8(chunk@) && final(meta)@
                == old(meta)@,
            Ok(o) => valid_utf8(chunk@) && final(meta)@ == old(meta)@ + trimmed_start(
                decode_utf8(chunk@),
            ) && match o {
                Some((a, b)) => split_at_question(final(meta)@) == Some((a@, b@)),
                None => split_at_question(final(meta)@) is None,
            },
        },
{
    let text = match string_from_utf8(chunk) {
        Ok(t) => t,
        Err(_) => {
            return Err(MsgError::CouldNotParseChunk);
        },
    };
    let cs = crate::decimal::chars_of(text.as_str());
    let rest = string_of(&trim_start_chars(&cs));
    meta.append(rest.as_str());
    Ok(split_request(meta.as_str()))
}

} // verus!
