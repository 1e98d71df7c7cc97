//! How the LevelDB message database lays out its entries. A message is kept
//! under the text of its id; beside it, a data entry under the same key holds
//! the message's size in decimal; both are UTF-8 bytes. Reading a data entry
//! back gives the id and the size, or says why it cannot.
use crate::decimal::{
    chars_of, decimal_string, digits_of, int_error_string, int_error_text, lemma_parse_digits,
    parse_unsigned, parse_unsigned_range, IntErrorKind,
};
use crate::errors::LvlDbErrorTy;
use crate::store::uuid::{lemma_uuid_text_roundtrip, parse_uuid, uuid_text, Uuid};
use vstd::prelude::*;
use vstd::string::StrSliceExecFns;
use vstd::utf8::{decode_utf8, encode_utf8, encode_utf8_decode_utf8, encode_utf8_valid_utf8, valid_utf8};

verus! {

/// Calls `String::from_utf8`: it succeeds exactly on valid UTF-8, and then the
/// text is what the bytes encode. On failure the text of the error comes back,
/// of which nothing is claimed.
#[verifier::external_body]
pub(crate) fn string_from_utf8(bytes: Vec<u8>) -> (r: Result<String, String>)
    ensures
        match r {
            Ok(s) => valid_utf8(bytes@) && s@ == decode_utf8(bytes@),
            Err(_) => !valid_utf8(bytes@),
        },
{
    match String::from_utf8(bytes) {
        Ok(s) => Ok(s),
        Err(e) => Err(e.to_string()),
    }
}

/// The key under which the message `u` is kept: the UTF-8 bytes of its text.
pub open spec fn entry_key(u: Uuid) -> Seq<u8> {
    encode_utf8(uuid_text(u))
}

/// The data entry of a message of `n` bytes: the UTF-8 bytes of `n` in decimal.
pub open spec fn size_entry(n: u32) -> Seq<u8> {
    encode_utf8(digits_of(n as nat))
}

/// Why a stored entry does not read back.
pub enum EntryFault {
    /// The data entry is not UTF-8.
    DataNotText,
    /// The data entry is text but not a size.
    DataNotSize(IntErrorKind),
    /// The key is not UTF-8.
    KeyNotText,
    /// The key is text whose pieces do not read as an id; the text of the error.
    KeyNotId(Seq<char>),
}

/// What reading the entry with key `key` and data `data` gives: the id and the
/// size, the fault, or `None` where the key's text lacks one of the four pieces
/// of an id. The data entry is read first.
pub open spec fn read_entry_spec(key: Seq<u8>, data: Seq<u8>) -> Option<Result<(Uuid, u32), EntryFault>> {
    if !valid_utf8(data) {
        Some(Err(EntryFault::DataNotText))
    } else {
        match parse_unsigned(decode_utf8(data), u32::MAX as nat) {
            Err(k) => Some(Err(EntryFault::DataNotSize(k))),
            Ok(n) => if !valid_utf8(key) {
                Some(Err(EntryFault::KeyNotText))
            } else {
                match parse_uuid(decode_utf8(key)) {
                    None => None,
                    Some(Err(e)) => Some(Err(EntryFault::KeyNotId(e))),
                    Some(Ok(u)) => Some(Ok((u, n as u32))),
                }
            },
        }
    }
}

/// Whether the error kind and message that a read reports stand for the fault.
pub open spec fn reports(ty: LvlDbErrorTy, msg: Option<String>, fault: EntryFault) -> bool {
    match fault {
        EntryFault::DataNotText => ty == LvlDbErrorTy::CouldNotParseData && msg is Some,
        EntryFault::DataNotSize(k) => ty == LvlDbErrorTy::CouldNotParseData && (msg matches Some(
            m,
        ) && m@ == int_error_text(k)),
        EntryFault::KeyNotText => ty == LvlDbErrorTy::CouldNotGetString && msg is Some,
        EntryFault::KeyNotId(e) => msg is None && (ty matches LvlDbErrorTy::CouldNotParseUuid(s)
            && s@ == e),
    }
}

/// The key of the message `uuid`.
pub fn entry_key_of(uuid: &Uuid) -> (k: Vec<u8>)
    ensures
        k@ == entry_key(*uuid),
{
    let s = uuid.to_string();
    s.as_str().as_bytes_vec()
}

/// The data entry of a message of `msg_byte_size` bytes.
pub fn size_entry_of(msg_byte_size: u32) -> (d: Vec<u8>)
    ensures
        d@ == size_entry(msg_byte_size),
{
    let s = decimal_string(msg_byte_size as u128);
    s.as_str().as_bytes_vec()
}

/// Reads a stored entry back as an id and a size (see `read_entry_spec`); a
/// fault comes back as the error kind and message to report.
pub fn read_entry(key: Vec<u8>, data: Vec<u8>) -> (r: Option<
    Result<(Uuid, u32), (LvlDbErrorTy, Option<String>)>,
>)
    ensures
        match read_entry_spec(key@, data@) {
            None => r is None,
            Some(Ok(v)) => r == Some(Ok::<(Uuid, u32), (LvlDbErrorTy, Option<String>)>(v)),
            Some(Err(f)) => r matches Some(Err((ty, msg))) && reports(ty, msg, f),
        },
{
    let data_text = match string_from_utf8(data) {
        Ok(t) => t,
        Err(e) => {
            return Some(Err((LvlDbErrorTy::CouldNotParseData, Some(e))));
        },
    };
    let cs = chars_of(data_text.as_str());
    proof {
        assert(cs@.subrange(0, cs@.len() as int) =~= cs@);
    }
    let n = match parse_unsigned_range(&cs, 0, cs.len(), u32::MAX as u128) {
        Ok(v) => v as u32,
        Err(k) => {
            return Some(Err((LvlDbErrorTy::CouldNotParseData, Some(int_error_string(k)))));
        },
    };
    let key_text = match string_from_utf8(key) {
        Ok(t) => t,
        Err(e) => {
            return Some(Err((LvlDbErrorTy::CouldNotGetString, Some(e))));
        },
    };
    match Uuid::read(key_text.as_str()) {
        None => None,
        Some(Err(e)) => Some(Err((LvlDbErrorTy::CouldNotParseUuid(e), None))),
        Some(Ok(u)) => Some(Ok((u, n))),
    }
}

/// Reading back the entry written for a message gives its id and size.
pub proof fn law_entry_reads_back(u: Uuid, n: u32)
    ensures
        read_entry_spec(entry_key(u), size_entry(n)) == Some(Ok::<(Uuid, u32), EntryFault>((u, n))),
{
    encode_utf8_valid_utf8(uuid_text(u));
    encode_utf8_decode_utf8(uuid_text(u));
    encode_utf8_valid_utf8(digits_of(n as nat));
    encode_utf8_decode_utf8(digits_of(n as nat));
    lemma_parse_digits(n as nat, u32::MAX as nat);
    lemma_uuid_text_roundtrip(u);
}

} // verus!
