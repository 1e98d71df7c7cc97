//! What passes between a store of two-part ids and its message databases:
//! numbered error codes, the failures they stand for, and stored messages.
use crate::decimal::{decimal_string, digits_of};
use crate::uuid::Uuid;
use std::rc::Rc;
use vstd::prelude::*;
use vstd::string::*;

verus! {

/// A numbered error with the path of the operation that raised it.
#[derive(Debug, PartialEq, Eq)]
pub struct ErrorCode {
    pub code: u32,
    pub path: String,
    pub message: String,
}

impl ErrorCode {
    pub fn new(code: u32, path: &str, message: &str) -> (e: ErrorCode)
        ensures
            e.code == code,
            e.path@ == path@,
            e.message@ == message@,
    {
        ErrorCode { code, path: String::from_str(path), message: String::from_str(message) }
    }
}

/// A database failure, by the operation that failed.
#[derive(Debug, PartialEq, Eq)]
pub enum BridgeError {
    Open(String),
    Post(String),
    Put(String),
    Get(String),
    Del(String),
}

/// The number of a failure's kind (1 to 5: open, post, put, get, delete) and
/// its message.
pub open spec fn kind_of(e: BridgeError) -> (u32, Seq<char>) {
    match e {
        BridgeError::Open(m) => (1, m@),
        BridgeError::Post(m) => (2, m@),
        BridgeError::Put(m) => (3, m@),
        BridgeError::Get(m) => (4, m@),
        BridgeError::Del(m) => (5, m@),
    }
}

/// The path that a failure of each kind is sent with.
pub open spec fn path_of(kind: u32) -> Seq<char> {
    if kind == 1 {
        "/open"@
    } else if kind == 2 {
        "/post"@
    } else if kind == 3 {
        "/put"@
    } else if kind == 4 {
        "/get"@
    } else {
        "/delete"@
    }
}

/// The kind and message of the failure that an error code stands for, where it
/// stands for one (codes 1 to 5).
pub open spec fn decode(code: u32, message: Seq<char>) -> Option<(u32, Seq<char>)> {
    if 1 <= code && code <= 5 {
        Some((code, message))
    } else {
        None
    }
}

impl BridgeError {
    /// The error code that the failure is sent as.
    pub fn to_error(&self) -> (r: ErrorCode)
        ensures
            r.code == kind_of(*self).0,
            r.path@ == path_of(kind_of(*self).0),
            r.message@ == kind_of(*self).1,
    {
        match self {
            BridgeError::Open(error) => ErrorCode::new(1, "/open", error.as_str()),
            BridgeError::Post(error) => ErrorCode::new(2, "/post", error.as_str()),
            BridgeError::Put(error) => ErrorCode::new(3, "/put", error.as_str()),
            BridgeError::Get(error) => ErrorCode::new(4, "/get", error.as_str()),
            BridgeError::Del(error) => ErrorCode::new(5, "/delete", error.as_str()),
        }
    }

    /// The failure that an error code stands for: codes 1 to 5 give the failure
    /// with the code's message; code 6 is given back; any other code gives an
    /// error of code 6 that says it cannot be read.
    pub fn from_error(error_code: ErrorCode) -> (r: Result<BridgeError, ErrorCode>)
        ensures
            match decode(error_code.code, error_code.message@) {
                Some(km) => r matches Ok(b) && kind_of(b) == km,
                None => r is Err,
            },
            error_code.code == 6 ==> r == Err::<BridgeError, ErrorCode>(error_code),
            error_code.code > 6 || error_code.code == 0 ==> (r matches Err(e) && e.code == 6
                && e.path@ == "/parse_error/error_code/code"@ && e.message@ == "Cannot format code "@
                + digits_of(error_code.code as nat)),
    {
        match error_code.code {
            1 => Ok(BridgeError::Open(error_code.message)),
            2 => Ok(BridgeError::Post(error_code.message)),
            3 => Ok(BridgeError::Put(error_code.message)),
            4 => Ok(BridgeError::Get(error_code.message)),
            5 => Ok(BridgeError::Del(error_code.message)),
            6 => Err(error_code),
            _ => {
                let path = "/parse_error/error_code/code";
                let mut msg = String::from_str("Cannot format code ");
                let n = decimal_string(error_code.code as u128);
                msg.append(n.as_str());
                Err(ErrorCode::new(6, path, msg.as_str()))
            },
        }
    }
}

/// A failure of a message database behind a bridge.
#[derive(Debug, PartialEq, Eq)]
pub enum DbError {
    Write(String),
    Read(String),
    Open(String),
    IdNotFound,
    MsgNotFound,
    Other(String),
}

/// An id with the size of its message.
#[derive(Debug)]
pub struct MsgData {
    uuid: Rc<Uuid>,
    byte_size: u32,
}

impl MsgData {
    /// The id.
    pub closed spec fn id(&self) -> Uuid {
        *self.uuid
    }

    /// The size of the message.
    pub closed spec fn size(&self) -> u32 {
        self.byte_size
    }

    pub fn new(uuid: Rc<Uuid>, byte_size: u32) -> (d: MsgData)
        ensures
            d.id() == *uuid,
            d.size() == byte_size,
    {
        MsgData { uuid: Rc::new(*uuid), byte_size }
    }

    pub fn get_uuid(&self) -> (u: Rc<Uuid>)
        ensures
            *u == self.id(),
    {
        Rc::new(*self.uuid)
    }

    pub fn get_byte_size(&self) -> (b: u32)
        ensures
            b == self.size(),
    {
        self.byte_size
    }
}

/// What a message database behind a bridge offers.
pub trait Bridge {
    fn put(&mut self, uuid: Rc<Uuid>, msg: &Vec<u8>) -> Result<(), DbError>;

    fn get(&self, uuid: Rc<Uuid>) -> Result<Option<Vec<u8>>, DbError>;

    fn del(&mut self, uuid: Rc<Uuid>) -> Result<(), DbError>;

    fn read(&self) -> Result<Vec<MsgData>, DbError>;
}

/// A message as the LevelDB database stores it, with its size.
#[derive(Debug)]
pub struct LevelDBMessage {
    pub byte_size: u64,
    pub msg: Vec<u8>,
}

impl LevelDBMessage {
    pub fn new(msg: &Vec<u8>) -> (m: LevelDBMessage)
        ensures
            m.byte_size == msg@.len(),
            m.msg@ == msg@,
    {
        let mut copy: Vec<u8> = Vec::new();
        let mut i: usize = 0;
        while i < msg.len()
            invariant
                i <= msg@.len(),
                copy@ == msg@.take(i as int),
            decreases msg@.len() - i,
        {
            copy.push(msg[i]);
            assert(msg@.take(i as int + 1) =~= msg@.take(i as int).push(msg@[i as int]));
            i = i + 1;
        }
        assert(msg@.take(i as int) =~= msg@);
        LevelDBMessage { byte_size: msg.len() as u64, msg: copy }
    }
}

/// A LevelDB key: the bytes of an id.
pub struct Id(pub Vec<u8>);

/// Sending a failure as an error code and reading the code back gives the
/// failure back: the code stands for a failure of the same kind and message.
pub proof fn law_error_code_roundtrip(e: BridgeError)
    ensures
        decode(kind_of(e).0, kind_of(e).1) == Some(kind_of(e)),
{
}

} // verus!
