//! File storage: messages whose bodies are kept in files named by their ids,
//! one directory for all; the index of which ids have a file.
use crate::decimal::{decimal_string, digits_of};
use crate::store::uuid::{parse_uuid, same_msg, uuid_text, Uuid};
use vstd::prelude::*;
use vstd::string::*;

verus! {

/// Why a file storage operation failed.
#[derive(Debug, Clone, Copy, PartialEq, Eq, Structural)]
pub enum FsErrType {
    CouldNotCreateDirectory,
    CouldNotCreateFile,
    CouldNotGetMetadata,
    CouldNotGetChunkFromPayload,
    CouldNotOpenFile,
    CouldNotReadDirectory,
    CouldNotReadFile,
    CouldNotRevoveFile,
    CouldNotWriteToFile,
    DirectoryDoesNotExist,
    PathIsNotADirectory,
}

/// A file storage failure, with where it was raised.
#[derive(Debug, PartialEq, Eq)]
pub struct FsError {
    pub err_type: FsErrType,
    pub msg: Option<String>,
    pub file: &'static str,
    pub line: u32,
}

impl FsError {
    pub fn new(err_type: FsErrType, file: &'static str, line: u32) -> (e: FsError)
        ensures
            e.err_type == err_type,
            e.file == file,
            e.line == line,
            e.msg is None,
    {
        FsError { err_type, file, line, msg: None }
    }

    pub fn new_with_msg(err_type: FsErrType, file: &'static str, line: u32, error: String) -> (e:
        FsError)
        ensures
            e.err_type == err_type,
            e.file == file,
            e.line == line,
            e.msg == Some(error),
    {
        FsError { err_type, file, line, msg: Some(error) }
    }
}

/// The ids that have a file, and the directory of the files.
pub struct FileStorage {
    pub index: Vec<Uuid>,
    pub path: String,
}

/// Whether the index holds the id `u`.
pub open spec fn indexed(idx: Seq<Uuid>, u: Uuid) -> bool {
    exists|i: int| 0 <= i < idx.len() && same_msg(#[trigger] idx[i], u)
}

/// No id is in the index twice.
pub open spec fn index_wf(idx: Seq<Uuid>) -> bool {
    forall|i: int, j: int| 0 <= i < j < idx.len() ==> !same_msg(#[trigger] idx[i], #[trigger] idx[j])
}

/// The path of the file `name` in the directory `dir`, as `PathBuf::push`
/// makes it: a separator goes between them unless `dir` is empty or ends with one.
pub open spec fn join_path(dir: Seq<char>, name: Seq<char>) -> Seq<char> {
    if dir.len() == 0 {
        name
    } else if dir.last() == '/' {
        dir + name
    } else {
        dir + seq!['/'] + name
    }
}

impl FileStorage {
    /// An empty index for the directory `storage_path`.
    pub fn new(storage_path: &str) -> (fs: FileStorage)
        ensures
            fs.index@ == Seq::<Uuid>::empty(),
            fs.path@ == storage_path@,
    {
        FileStorage { index: Vec::new(), path: String::from_str(storage_path) }
    }

    /// Whether the index holds the id `uuid`.
    pub fn contains(&self, uuid: &Uuid) -> (r: bool)
        ensures
            r == indexed(self.index@, *uuid),
    {
        let mut i: usize = 0;
        while i < self.index.len()
            invariant
                i <= self.index@.len(),
                forall|j: int| 0 <= j < i ==> !same_msg(#[trigger] self.index@[j], *uuid),
            decreases self.index@.len() - i,
        {
            if self.index[i].same_msg(uuid) {
                return true;
            }
            i = i + 1;
        }
        false
    }

    /// Puts the id `uuid` in the index, unless it is there already.
    pub fn insert(&mut self, uuid: Uuid) -> (added: bool)
        requires
            index_wf(old(self).index@),
        ensures
            added == !indexed(old(self).index@, uuid),
            final(self).index@ == if added {
                old(self).index@.push(uuid)
            } else {
                old(self).index@
            },
            final(self).path == old(self).path,
            index_wf(final(self).index@),
    {
        if self.contains(&uuid) {
            false
        } else {
            let ghost before = self.index@;
            self.index.push(uuid);
            proof {
                assert forall|i: int, j: int| 0 <= i < j < self.index@.len() implies !same_msg(
                    #[trigger] self.index@[i],
                    #[trigger] self.index@[j],
                ) by {
                    if j == before.len() {
                        assert(self.index@[i] == before[i]);
                        assert(!same_msg(before[i], uuid));
                    } else {
                        assert(self.index@[i] == before[i] && self.index@[j] == before[j]);
                    }
                }
            }
            true
        }
    }

    /// Takes the id `uuid` out of the index; gives back whether it was there.
    pub fn remove(&mut self, uuid: &Uuid) -> (removed: bool)
        requires
            index_wf(old(self).index@),
        ensures
            removed == indexed(old(self).index@, *uuid),
            index_wf(final(self).index@),
            !indexed(final(self).index@, *uuid),
            forall|v: Uuid|
                !same_msg(v, *uuid) ==> (indexed(final(self).index@, v) == indexed(
                    old(self).index@,
                    v,
                )),
            final(self).path == old(self).path,
    {
        let ghost before = self.index@;
        let mut i: usize = 0;
        while i < self.index.len()
            invariant
                before == self.index@,
                before == old(self).index@,
                index_wf(before),
                self.path == old(self).path,
                i <= self.index@.len(),
                forall|j: int| 0 <= j < i ==> !same_msg(#[trigger] self.index@[j], *uuid),
            decreases self.index@.len() - i,
        {
            if self.index[i].same_msg(uuid) {
                self.index.remove(i);
                proof {
                    let after = self.index@;
                    assert forall|a: int, b: int| 0 <= a < b < after.len() implies !same_msg(
                        #[trigger] after[a],
                        #[trigger] after[b],
                    ) by {
                        let a0 = if a < i {
                            a
                        } else {
                            a + 1
                        };
                        let b0 = if b < i {
                            b
                        } else {
                            b + 1
                        };
                        assert(after[a] == before[a0] && after[b] == before[b0]);
                    }
                    assert forall|k: int| 0 <= k < after.len() implies !same_msg(
                        #[trigger] after[k],
                        *uuid,
                    ) by {
                        if k < i {
                            assert(after[k] == before[k]);
                        } else {
                            assert(after[k] == before[k + 1]);
                            assert(!same_msg(before[i as int], before[k + 1]));
                        }
                    }
                    assert forall|v: Uuid| !same_msg(v, *uuid) implies (indexed(after, v)
                        == indexed(before, v)) by {
                        if indexed(before, v) {
                            let k = choose|k: int| 0 <= k < before.len() && same_msg(
                                #[trigger] before[k],
                                v,
                            );
                            assert(k != i);
                            if k < i {
                                assert(after[k] == before[k]);
                            } else {
                                assert(after[k - 1] == before[k]);
                            }
                        }
                        if indexed(after, v) {
                            let k = choose|k: int| 0 <= k < after.len() && same_msg(
                                #[trigger] after[k],
                                v,
                            );
                            if k < i {
                                assert(after[k] == before[k]);
                            } else {
                                assert(after[k] == before[k + 1]);
                            }
                        }
                    }
                }
                return true;
            }
            i = i + 1;
        }
        false
    }
}

/// The path of the file of message `uuid` in the directory `file_storage_path`.
pub fn get_file_path_from_id(file_storage_path: &str, uuid: &Uuid) -> (p: String)
    ensures
        p@ == join_path(file_storage_path@, uuid_text(*uuid)),
{
    let name = uuid.to_string();
    let n = file_storage_path.unicode_len();
    let mut p = String::from_str(file_storage_path);
    if n == 0 {
        return name;
    }
    if file_storage_path.get_char(n - 1) != '/' {
        p.append("/");
        proof {
            reveal_strlit("/");
        }
    }
    p.append(name.as_str());
    p
}

/// The path `path` with a dash and `count` appended: the name an export tries
/// when its directory is taken.
pub fn numbered_path(path: &str, count: u64) -> (p: String)
    ensures
        p@ == path@ + seq!['-'] + digits_of(count as nat),
{
    let mut p = String::from_str(path);
    proof {
        reveal_strlit("-");
    }
    p.append("-");
    let n = decimal_string(count as u128);
    p.append(n.as_str());
    p
}

/// Takes message `uuid` out of the file storage's index; gives back the path of
/// its file, which is then to be removed from disk, when it was indexed.
pub fn rm_from_file_storage(file_storage: &mut FileStorage, uuid: &Uuid) -> (r: Option<String>)
    requires
        index_wf(old(file_storage).index@),
    ensures
        index_wf(final(file_storage).index@),
        !indexed(final(file_storage).index@, *uuid),
        forall|v: Uuid|
            !same_msg(v, *uuid) ==> indexed(final(file_storage).index@, v) == indexed(
                old(file_storage).index@,
                v,
            ),
        final(file_storage).path == old(file_storage).path,
        match r {
            Some(p) => indexed(old(file_storage).index@, *uuid) && p@ == join_path(
                old(file_storage).path@,
                uuid_text(*uuid),
            ),
            None => !indexed(old(file_storage).index@, *uuid),
        },
{
    if file_storage.remove(uuid) {
        Some(get_file_path_from_id(file_storage.path.as_str(), uuid))
    } else {
        None
    }
}

/// Puts the ids of files found on disk in the index.
pub fn discover_files(file_storage: &mut FileStorage, uuids: Vec<Uuid>)
    requires
        index_wf(old(file_storage).index@),
    ensures
        index_wf(final(file_storage).index@),
        final(file_storage).path == old(file_storage).path,
        forall|v: Uuid|
            indexed(final(file_storage).index@, v) <==> (indexed(old(file_storage).index@, v)
                || indexed(uuids@, v)),
{
    let ghost start = file_storage.index@;
    let mut i: usize = 0;
    while i < uuids.len()
        invariant
            i <= uuids@.len(),
            index_wf(file_storage.index@),
            file_storage.path == old(file_storage).path,
            forall|v: Uuid|
                indexed(file_storage.index@, v) <==> (indexed(start, v) || indexed(
                    uuids@.take(i as int),
                    v,
                )),
        decreases uuids@.len() - i,
    {
        let u = uuids[i];
        let ghost before = file_storage.index@;
        file_storage.insert(u);
        proof {
            let t = uuids@.take(i as int);
            let t1 = uuids@.take(i as int + 1);
            assert(t1 =~= t.push(u));
            assert forall|v: Uuid| indexed(file_storage.index@, v) <==> (indexed(start, v)
                || indexed(t1, v)) by {
                if indexed(t1, v) && !indexed(t, v) {
                    assert(same_msg(t1[i as int], v));
                    if !indexed(before, v) {
                        assert(file_storage.index@[before.len() as int] == u);
                    }
                }
                if indexed(t, v) {
                    let k = choose|k: int| 0 <= k < t.len() && same_msg(#[trigger] t[k], v);
                    assert(t1[k] == t[k]);
                }
                if indexed(file_storage.index@, v) && !indexed(before, v) {
                    let k = choose|k: int| 0 <= k < file_storage.index@.len() && same_msg(
                        #[trigger] file_storage.index@[k],
                        v,
                    );
                    assert(k == before.len());
                    assert(t1[i as int] == u);
                }
                if indexed(before, v) && !indexed(file_storage.index@, v) {
                    let k = choose|k: int| 0 <= k < before.len() && same_msg(#[trigger] before[k], v);
                    assert(file_storage.index@[k] == before[k]);
                }
            }
        }
        i = i + 1;
    }
    assert(uuids@.take(i as int) =~= uuids@);
}

/// The ids that file names read as, in order; names that do not read as an id
/// are passed over.
pub open spec fn ids_of_names(names: Seq<Seq<char>>) -> Seq<Uuid>
    decreases names.len(),
{
    if names.len() == 0 {
        Seq::empty()
    } else {
        let rest = ids_of_names(names.drop_last());
        match parse_uuid(names.last()) {
            Some(Ok(u)) => rest.push(u),
            _ => rest,
        }
    }
}

/// The texts of a list of strings.
pub open spec fn strings_view(v: Seq<String>) -> Seq<Seq<char>> {
    v.map_values(|s: String| s@)
}

/// Whether every name reads either as an id or as a failure to read one: none
/// lacks a piece after pieces that read.
pub open spec fn names_readable(names: Seq<Seq<char>>) -> bool {
    forall|i: int| 0 <= i < names.len() ==> (#[trigger] parse_uuid(names[i])) is Some
}

/// The ids that the names of the files found in the storage directory read as;
/// names that do not read as an id are passed over. `None` where a name lacks a
/// piece after pieces that read: no list of ids is made then.
pub fn ids_from_file_names(names: &Vec<String>) -> (r: Option<Vec<Uuid>>)
    ensures
        match r {
            Some(v) => names_readable(strings_view(names@)) && v@ == ids_of_names(
                strings_view(names@),
            ),
            None => !names_readable(strings_view(names@)),
        },
{
    let ghost nv = strings_view(names@);
    let mut r: Vec<Uuid> = Vec::new();
    let mut i: usize = 0;
    assert(nv.take(0) =~= Seq::<Seq<char>>::empty());
    while i < names.len()
        invariant
            nv == strings_view(names@),
            i <= names@.len(),
            r@ == ids_of_names(nv.take(i as int)),
            forall|j: int| 0 <= j < i ==> (#[trigger] parse_uuid(nv[j])) is Some,
        decreases names@.len() - i,
    {
        proof {
            assert(nv.take(i as int + 1).drop_last() =~= nv.take(i as int));
            assert(nv.take(i as int + 1).last() == names@[i as int]@);
            assert(nv[i as int] == names@[i as int]@);
        }
        match Uuid::read(names[i].as_str()) {
            Some(Ok(u)) => {
                r.push(u);
            },
            Some(Err(_)) => {},
            None => {
                return None;
            },
        }
        i = i + 1;
    }
    assert(nv.take(i as int) =~= nv);
    Some(r)
}

/// The size of the pieces in which a stored file is sent.
pub const CHUNK_SIZE: u64 = 665600;

/// How far the answer to a read of a stored file has been sent: the header
/// first, then the file in pieces of `CHUNK_SIZE` bytes, the last piece with
/// what is left.
pub struct ReturnState {
    pub file_size: u64,
    pub bytes_read: u64,
    pub headers_sent: bool,
    pub msg_sent: bool,
}

/// What to send next.
#[derive(Debug, Clone, Copy, PartialEq, Eq, Structural)]
pub enum ReturnStep {
    /// Send the header.
    Header,
    /// Read and send a piece of `CHUNK_SIZE` bytes of the file.
    Chunk,
    /// Read and send the rest of the file, this many bytes.
    Rest(u64),
    /// Nothing is left to send.
    Done,
}

impl ReturnState {
    /// Nothing sent yet of a file of `file_size` bytes.
    pub fn new(file_size: u64) -> (r: ReturnState)
        ensures
            r.file_size == file_size,
            r.bytes_read == 0,
            !r.headers_sent,
            !r.msg_sent,
    {
        ReturnState { file_size, bytes_read: 0, headers_sent: false, msg_sent: false }
    }

    /// The state is one that sending reaches: no more read than the file holds.
    pub open spec fn wf(&self) -> bool {
        self.bytes_read <= self.file_size
    }

    /// Decides what to send next and moves on: after the header come pieces of
    /// `CHUNK_SIZE` bytes while that much is left, then the rest, if any; then
    /// nothing.
    pub fn next_step(&mut self) -> (step: ReturnStep)
        requires
            old(self).wf(),
        ensures
            final(self).wf(),
            final(self).file_size == old(self).file_size,
            old(self).msg_sent ==> step == ReturnStep::Done && *final(self) == *old(self),
            !old(self).msg_sent && !old(self).headers_sent ==> step == ReturnStep::Header
                && final(self).headers_sent && final(self).bytes_read == old(self).bytes_read
                && !final(self).msg_sent,
            !old(self).msg_sent && old(self).headers_sent ==> {
                let left = old(self).file_size - old(self).bytes_read;
                if left >= CHUNK_SIZE {
                    step == ReturnStep::Chunk && final(self).bytes_read == old(self).bytes_read
                        + CHUNK_SIZE && final(self).headers_sent && !final(self).msg_sent
                } else if left == 0 {
                    step == ReturnStep::Done && *final(self) == *old(self)
                } else {
                    step == ReturnStep::Rest(left as u64) && final(self).msg_sent
                        && final(self).bytes_read == old(self).bytes_read
                }
            },
    {
        if self.msg_sent {
            return ReturnStep::Done;
        }
        if self.headers_sent {
            let limit = self.file_size - self.bytes_read;
            if limit >= CHUNK_SIZE {
                self.bytes_read = self.bytes_read + CHUNK_SIZE;
                ReturnStep::Chunk
            } else if limit == 0 {
                ReturnStep::Done
            } else {
                self.msg_sent = true;
                ReturnStep::Rest(limit)
            }
        } else {
            self.headers_sent = true;
            ReturnStep::Header
        }
    }
}

} // verus!
