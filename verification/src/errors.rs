//! The failures that the stores and their databases report.
use vstd::prelude::*;

verus! {

#[verifier::external_type_specification]
#[verifier::external_body]
pub struct ExIoError(std::io::Error);

/// Why a database operation failed.
#[derive(Debug, Clone, Copy, PartialEq, Eq, Structural)]
pub enum DatabaseErrorTy {
    CouldNotOpenDatabase,
    CouldNotAddMsg,
    CouldNotGetMsg,
    CouldNotDeleteMsg,
    CouldNotFetchData,
    MsgNotFound,
}

/// A database failure, with where it was raised.
#[derive(Debug, PartialEq, Eq)]
pub struct DatabaseError {
    pub err_ty: DatabaseErrorTy,
    pub file: &'static str,
    pub line: u32,
    pub msg: Option<String>,
}

/// The kinds of failure of a store that keeps two-part ids.
#[derive(Debug, Clone, Copy, PartialEq, Eq, Structural)]
pub enum Error {
    ExceedesStoreMax,
    ExceedesGroupMax,
    LacksPriority,
    SyncError,
    UuidError,
}

/// A database failure of a store that keeps two-part ids, as text.
#[derive(Debug, PartialEq, Eq)]
pub struct DbError(pub String);

/// The failures of a store kept in a directory of collections.
#[derive(Debug)]
pub enum StoreError {
    Io(std::io::Error),
    Db(DbError),
    CouldNotConvertDbValue,
    ExceedsStoreLimit,
    ExceedsCollectionLimit,
    LacksPriority,
    OutOfSync,
}

/// Why an in-memory database operation failed.
#[derive(Debug, Clone, Copy, PartialEq, Eq, Structural)]
pub enum MemDbErrorTy {
    MsgNotFound,
}

/// An in-memory database failure, with where it was raised.
#[derive(Debug, PartialEq, Eq)]
pub struct MemDbError {
    pub error_ty: MemDbErrorTy,
    pub file: &'static str,
    pub line: u32,
    pub msg: Option<String>,
}

impl MemDbError {
    pub fn new(error_ty: MemDbErrorTy, file: &'static str, line: u32, msg: Option<String>) -> (e:
        MemDbError)
        ensures
            e.error_ty == error_ty,
            e.file == file,
            e.line == line,
            e.msg == msg,
    {
        MemDbError { error_ty, file, line, msg }
    }
}

/// Why a LevelDB database operation failed.
#[derive(Debug, Clone, PartialEq, Eq)]
pub enum LvlDbErrorTy {
    CouldNotInsertMsg,
    CouldNotInsertData,
    CouldNotGetMsg,
    CouldNotGetData,
    CouldNotRemoveMsg,
    CouldNotRemoveData,
    CouldNotFetchData,
    CouldNotOpenDatabase,
    MsgNotFound,
    CouldNotParseMsg,
    CouldNotParseData,
    CouldNotParseUuid(String),
    CouldNotGetString,
}

/// A LevelDB database failure, with where it was raised.
#[derive(Debug, PartialEq, Eq)]
pub struct LvlDbError {
    pub error_ty: LvlDbErrorTy,
    pub file: &'static str,
    pub line: u32,
    pub msg: Option<String>,
}

impl LvlDbError {
    pub fn new(error_ty: LvlDbErrorTy, file: &'static str, line: u32, msg: Option<String>) -> (e:
        LvlDbError)
        ensures
            e.error_ty == error_ty,
            e.file == file,
            e.line == line,
            e.msg == msg,
    {
        LvlDbError { error_ty, file, line, msg }
    }
}

} // verus!
