//! The two-part message id, written `timestamp-sequence`.
use crate::decimal::{
    chars_of, decimal_string, digits_of, int_error_string, int_error_text, lemma_digits_of,
    lemma_parse_digits, parse_unsigned, parse_unsigned_range,
};
use crate::clock::now_nanos;
use crate::store::uuid::{next_state, UuidManagerError};
use crate::text::{find_piece, lemma_next_sep_at, piece, piece_from};
use vstd::prelude::*;

verus! {

/// An id made of the time it was made and a sequence number within that time.
#[derive(Debug, PartialEq, Eq, PartialOrd, Ord, Clone, Copy, Structural)]
pub struct Uuid {
    pub timestamp: u128,
    pub sequence: u32,
}

/// The text of an id: both numbers in decimal, joined by a dash.
pub open spec fn uuid_text(u: Uuid) -> Seq<char> {
    digits_of(u.timestamp as nat) + seq!['-'] + digits_of(u.sequence as nat)
}

/// What reading a text as an id gives: `None` where there is no second piece to
/// read after a first piece that reads as a timestamp, otherwise the id or the
/// text of the first parse error.
pub open spec fn parse_uuid(s: Seq<char>) -> Option<Result<Uuid, Seq<char>>> {
    let p0 = piece(s, '-', 0).unwrap();
    match parse_unsigned(p0, u128::MAX as nat) {
        Err(k) => Some(Err(int_error_text(k))),
        Ok(t) => match piece(s, '-', 1) {
            None => None,
            Some(p1) => match parse_unsigned(p1, u32::MAX as nat) {
                Err(k) => Some(Err(int_error_text(k))),
                Ok(q) => Some(Ok(Uuid { timestamp: t as u128, sequence: q as u32 })),
            },
        },
    }
}

/// The text of `a` then a dash then `b` splits at the dash into `a` and `b`,
/// when neither holds a dash.
pub proof fn lemma_split_at_dash(a: Seq<char>, b: Seq<char>)
    requires
        forall|i: int| 0 <= i < a.len() ==> a[i] != '-',
        forall|i: int| 0 <= i < b.len() ==> b[i] != '-',
    ensures
        piece(a + seq!['-'] + b, '-', 0) == Some(a),
        piece_from(a + seq!['-'] + b, '-', a.len() as int + 1, 0) == Some(b),
        piece(a + seq!['-'] + b, '-', 1) == Some(b),
{
    let s = a + seq!['-'] + b;
    assert forall|k: int| 0 <= k < a.len() implies s[k] != '-' by {
        assert(s[k] == a[k]);
    }
    assert(s[a.len() as int] == '-');
    lemma_next_sep_at(s, '-', 0, a.len() as int);
    assert(s.subrange(0, a.len() as int) =~= a);
    assert forall|k: int| a.len() + 1 <= k < s.len() implies s[k] != '-' by {
        assert(s[k] == b[k - a.len() - 1]);
    }
    lemma_next_sep_at(s, '-', a.len() as int + 1, s.len() as int);
    assert(s.subrange(a.len() as int + 1, s.len() as int) =~= b);
}

/// Reading the text of an id gives the id back.
pub proof fn lemma_uuid_text_roundtrip(u: Uuid)
    ensures
        parse_uuid(uuid_text(u)) == Some(Ok::<Uuid, Seq<char>>(u)),
{
    lemma_digits_of(u.timestamp as nat);
    lemma_digits_of(u.sequence as nat);
    lemma_split_at_dash(digits_of(u.timestamp as nat), digits_of(u.sequence as nat));
    lemma_parse_digits(u.timestamp as nat, u128::MAX as nat);
    lemma_parse_digits(u.sequence as nat, u32::MAX as nat);
}

impl Uuid {
    /// Writes the id as `timestamp-sequence`.
    pub fn to_string(&self) -> (s: String)
        ensures
            s@ == uuid_text(*self),
    {
        let mut s = decimal_string(self.timestamp);
        proof {
            reveal_strlit("-");
        }
        s.append("-");
        let q = decimal_string(self.sequence as u128);
        s.append(q.as_str());
        s
    }

    /// Reads an id written as `timestamp-sequence` (see `parse_uuid`); `None`
    /// where the second piece is missing after a first piece that reads.
    pub fn read(id: &str) -> (r: Option<Result<Uuid, String>>)
        ensures
            match r {
                None => parse_uuid(id@) is None,
                Some(Ok(u)) => parse_uuid(id@) == Some(Ok::<Uuid, Seq<char>>(u)),
                Some(Err(e)) => parse_uuid(id@) == Some(Err::<Uuid, Seq<char>>(e@)),
            },
    {
        let cs = chars_of(id);
        let (b0, e0) = match find_piece(&cs, '-', 0, 0) {
            Some(p) => p,
            None => {
                return None;
            },
        };
        let timestamp = match parse_unsigned_range(&cs, b0, e0, u128::MAX) {
            Ok(v) => v,
            Err(k) => {
                return Some(Err(int_error_string(k)));
            },
        };
        let (b1, e1) = match find_piece(&cs, '-', 0, 1) {
            Some(p) => p,
            None => {
                return None;
            },
        };
        let sequence = match parse_unsigned_range(&cs, b1, e1, u32::MAX as u128) {
            Ok(v) => v as u32,
            Err(k) => {
                return Some(Err(int_error_string(k)));
            },
        };
        Some(Ok(Uuid { timestamp, sequence }))
    }

    /// Reads an id written as `timestamp-sequence`; the error is the text of the
    /// first number that does not read.
    pub fn from_string(id: &str) -> (r: Result<Uuid, String>)
        requires
            parse_uuid(id@) is Some,
        ensures
            match r {
                Ok(u) => parse_uuid(id@) == Some(Ok::<Uuid, Seq<char>>(u)),
                Err(e) => parse_uuid(id@) == Some(Err::<Uuid, Seq<char>>(e@)),
            },
    {
        match Uuid::read(id) {
            Some(r) => r,
            None => Err(String::new()),
        }
    }
}

/// Makes two-part ids from the clock: ids made within one clock reading are
/// told apart by a sequence number that starts at 1.
pub struct UuidManager {
    pub timestamp: u128,
    pub sequence: u32,
}

impl UuidManager {
    /// A manager that starts from the current clock reading, with sequence 1.
    pub fn default() -> (r: Result<UuidManager, UuidManagerError>)
        ensures
            r matches Ok(m) ==> m.sequence == 1,
            r matches Err(e) ==> e == UuidManagerError::ClockBeforeEpoch,
    {
        match now_nanos() {
            Some(nanos) => Ok(UuidManager { timestamp: nanos, sequence: 1 }),
            None => Err(UuidManagerError::ClockBeforeEpoch),
        }
    }

    /// Makes the next id given the clock reading `nanos`: a new reading starts
    /// the sequence again at 1, the same reading takes the next sequence number.
    pub fn next_at(&mut self, nanos: u128) -> (r: Result<Uuid, UuidManagerError>)
        ensures
            match next_state(old(self).timestamp, old(self).sequence, nanos) {
                None => r == Err::<Uuid, UuidManagerError>(UuidManagerError::SequenceExhausted)
                    && *final(self) == *old(self),
                Some((t, q)) => r == Ok::<Uuid, UuidManagerError>(Uuid { timestamp: t, sequence: q })
                    && final(self).timestamp == t && final(self).sequence == q,
            },
    {
        if nanos != self.timestamp {
            self.timestamp = nanos;
            self.sequence = 1;
        } else {
            if self.sequence == u32::MAX {
                return Err(UuidManagerError::SequenceExhausted);
            }
            self.sequence = self.sequence + 1;
        }
        Ok(Uuid { timestamp: self.timestamp, sequence: self.sequence })
    }

    /// Makes the next id from the current clock reading; it differs from the
    /// last one made.
    pub fn next(&mut self) -> (r: Result<Uuid, UuidManagerError>)
        ensures
            r matches Ok(u) ==> final(self).timestamp == u.timestamp && final(self).sequence
                == u.sequence && !(u.timestamp == old(self).timestamp && u.sequence == old(
                self,
            ).sequence),
            r matches Ok(u) ==> u.sequence == if u.timestamp == old(self).timestamp {
                old(self).sequence + 1
            } else {
                1
            },
            r is Err ==> *final(self) == *old(self),
            r == Err::<Uuid, UuidManagerError>(UuidManagerError::SequenceExhausted) ==> old(
                self,
            ).sequence == u32::MAX,
    {
        match now_nanos() {
            Some(nanos) => self.next_at(nanos),
            None => Err(UuidManagerError::ClockBeforeEpoch),
        }
    }
}

} // verus!
