//! Message ids that carry their priority, and the generator that makes them.
use crate::clock::now_nanos;
use crate::decimal::{
    chars_of, decimal_string, digits_of, int_error_string, int_error_text, lemma_digits_of,
    lemma_parse_digits, parse_unsigned, parse_unsigned_range, IntErrorKind,
};
use crate::text::{find_piece, lemma_next_sep_at, piece, piece_from};
use vstd::prelude::*;

verus! {

/// A message id: the priority of the message, the time it was made, a sequence
/// number within that time and the node that made it.
///
/// Two ids name the same message when priority, timestamp and sequence agree;
/// the node does not take part.
#[derive(Debug, PartialEq, Eq, Clone, Copy, Structural)]
pub struct Uuid {
    pub priority: u32,
    pub timestamp: u128,
    pub sequence: u32,
    pub node_id: u32,
}

/// Whether two ids name the same message.
pub open spec fn same_msg(a: Uuid, b: Uuid) -> bool {
    a.priority == b.priority && a.timestamp == b.timestamp && a.sequence == b.sequence
}

/// Whether `a` was made before `b` (by timestamp, then sequence).
pub open spec fn made_before(a: Uuid, b: Uuid) -> bool {
    a.timestamp < b.timestamp || (a.timestamp == b.timestamp && a.sequence < b.sequence)
}

/// The text of an id: `priority-timestamp-sequence-node`, in decimal.
pub open spec fn uuid_text(u: Uuid) -> Seq<char> {
    digits_of(u.priority as nat) + seq!['-'] + digits_of(u.timestamp as nat) + seq!['-']
        + digits_of(u.sequence as nat) + seq!['-'] + digits_of(u.node_id as nat)
}

/// Reading the `i`-th dash-separated piece of `s` as a number no larger than
/// `max`; `None` where there is no such piece.
pub open spec fn read_piece(s: Seq<char>, i: nat, max: nat) -> Option<Result<nat, IntErrorKind>> {
    match piece(s, '-', i) {
        None => None,
        Some(p) => Some(parse_unsigned(p, max)),
    }
}

/// What reading a text as an id gives. The four pieces are read in order; the
/// first that does not read gives the error text. `None` where a piece is missing
/// after the pieces before it all read.
pub open spec fn parse_uuid(s: Seq<char>) -> Option<Result<Uuid, Seq<char>>> {
    match read_piece(s, 0, u32::MAX as nat) {
        None => None,
        Some(Err(k)) => Some(Err(int_error_text(k))),
        Some(Ok(p)) => match read_piece(s, 1, u128::MAX as nat) {
            None => None,
            Some(Err(k)) => Some(Err(int_error_text(k))),
            Some(Ok(t)) => match read_piece(s, 2, u32::MAX as nat) {
                None => None,
                Some(Err(k)) => Some(Err(int_error_text(k))),
                Some(Ok(q)) => match read_piece(s, 3, u32::MAX as nat) {
                    None => None,
                    Some(Err(k)) => Some(Err(int_error_text(k))),
                    Some(Ok(n)) => Some(
                        Ok(
                            Uuid {
                                priority: p as u32,
                                timestamp: t as u128,
                                sequence: q as u32,
                                node_id: n as u32,
                            },
                        ),
                    ),
                },
            },
        },
    }
}

proof fn lemma_no_dash_in(s: Seq<char>, part: Seq<char>, off: int)
    requires
        0 <= off,
        off + part.len() <= s.len(),
        forall|i: int| 0 <= i < part.len() ==> part[i] != '-',
        forall|i: int| 0 <= i < part.len() ==> s[off + i] == part[i],
    ensures
        forall|k: int| off <= k < off + part.len() ==> s[k] != '-',
{
    assert forall|k: int| off <= k < off + part.len() implies s[k] != '-' by {
        assert(s[off + (k - off)] == part[k - off]);
    }
}

/// Reading the text of an id gives the id back.
pub proof fn lemma_uuid_text_roundtrip(u: Uuid)
    ensures
        parse_uuid(uuid_text(u)) == Some(Ok::<Uuid, Seq<char>>(u)),
{
    let a = digits_of(u.priority as nat);
    let b = digits_of(u.timestamp as nat);
    let c = digits_of(u.sequence as nat);
    let d = digits_of(u.node_id as nat);
    lemma_digits_of(u.priority as nat);
    lemma_digits_of(u.timestamp as nat);
    lemma_digits_of(u.sequence as nat);
    lemma_digits_of(u.node_id as nat);
    let s = uuid_text(u);
    let e0 = a.len() as int;
    let e1 = e0 + 1 + b.len();
    let e2 = e1 + 1 + c.len();
    let n = s.len() as int;
    assert(n == e2 + 1 + d.len());
    assert forall|i: int| 0 <= i < a.len() implies s[i] == a[i] by {}
    assert forall|i: int| 0 <= i < b.len() implies s[e0 + 1 + i] == b[i] by {}
    assert forall|i: int| 0 <= i < c.len() implies s[e1 + 1 + i] == c[i] by {}
    assert forall|i: int| 0 <= i < d.len() implies s[e2 + 1 + i] == d[i] by {}
    assert(s[e0] == '-' && s[e1] == '-' && s[e2] == '-');
    lemma_no_dash_in(s, a, 0);
    lemma_no_dash_in(s, b, e0 + 1);
    lemma_no_dash_in(s, c, e1 + 1);
    lemma_no_dash_in(s, d, e2 + 1);
    lemma_next_sep_at(s, '-', 0, e0);
    lemma_next_sep_at(s, '-', e0 + 1, e1);
    lemma_next_sep_at(s, '-', e1 + 1, e2);
    lemma_next_sep_at(s, '-', e2 + 1, n);
    assert(s.subrange(0, e0) =~= a);
    assert(s.subrange(e0 + 1, e1) =~= b);
    assert(s.subrange(e1 + 1, e2) =~= c);
    assert(s.subrange(e2 + 1, n) =~= d);
    assert(piece(s, '-', 0) == Some(a));
    assert(piece_from(s, '-', e2 + 1, 0) == Some(d));
    assert(piece_from(s, '-', e1 + 1, 1) == Some(d));
    assert(piece_from(s, '-', e0 + 1, 2) == Some(d));
    assert(piece(s, '-', 3) == Some(d));
    assert(piece_from(s, '-', e1 + 1, 0) == Some(c));
    assert(piece_from(s, '-', e0 + 1, 1) == Some(c));
    assert(piece(s, '-', 2) == Some(c));
    assert(piece_from(s, '-', e0 + 1, 0) == Some(b));
    assert(piece(s, '-', 1) == Some(b));
    lemma_parse_digits(u.priority as nat, u32::MAX as nat);
    lemma_parse_digits(u.timestamp as nat, u128::MAX as nat);
    lemma_parse_digits(u.sequence as nat, u32::MAX as nat);
    lemma_parse_digits(u.node_id as nat, u32::MAX as nat);
}

fn read_piece_exec(cs: &Vec<char>, i: usize, max: u128) -> (r: Option<Result<u128, IntErrorKind>>)
    ensures
        match r {
            None => read_piece(cs@, i as nat, max as nat) is None,
            Some(Ok(v)) => read_piece(cs@, i as nat, max as nat) == Some(
                Ok::<nat, IntErrorKind>(v as nat),
            ) && v <= max,
            Some(Err(k)) => read_piece(cs@, i as nat, max as nat) == Some(
                Err::<nat, IntErrorKind>(k),
            ),
        },
{
    match find_piece(cs, '-', 0, i) {
        None => None,
        Some((b, e)) => Some(parse_unsigned_range(cs, b, e, max)),
    }
}

impl Uuid {
    /// Writes the id as `priority-timestamp-sequence-node`.
    pub fn to_string(&self) -> (s: String)
        ensures
            s@ == uuid_text(*self),
    {
        proof {
            reveal_strlit("-");
        }
        let mut s = decimal_string(self.priority as u128);
        s.append("-");
        let t = decimal_string(self.timestamp);
        s.append(t.as_str());
        s.append("-");
        let q = decimal_string(self.sequence as u128);
        s.append(q.as_str());
        s.append("-");
        let n = decimal_string(self.node_id as u128);
        s.append(n.as_str());
        s
    }

    /// Reads an id written as `priority-timestamp-sequence-node` (see
    /// `parse_uuid`); `None` where a piece is missing.
    pub fn read(id: &str) -> (r: Option<Result<Uuid, String>>)
        ensures
            match r {
                None => parse_uuid(id@) is None,
                Some(Ok(u)) => parse_uuid(id@) == Some(Ok::<Uuid, Seq<char>>(u)),
                Some(Err(e)) => parse_uuid(id@) == Some(Err::<Uuid, Seq<char>>(e@)),
            },
    {
        let cs = chars_of(id);
        let priority = match read_piece_exec(&cs, 0, u32::MAX as u128) {
            None => {
                return None;
            },
            Some(Err(k)) => {
                return Some(Err(int_error_string(k)));
            },
            Some(Ok(v)) => v as u32,
        };
        let timestamp = match read_piece_exec(&cs, 1, u128::MAX) {
            None => {
                return None;
            },
            Some(Err(k)) => {
                return Some(Err(int_error_string(k)));
            },
            Some(Ok(v)) => v,
        };
        let sequence = match read_piece_exec(&cs, 2, u32::MAX as u128) {
            None => {
                return None;
            },
            Some(Err(k)) => {
                return Some(Err(int_error_string(k)));
            },
            Some(Ok(v)) => v as u32,
        };
        let node_id = match read_piece_exec(&cs, 3, u32::MAX as u128) {
            None => {
                return None;
            },
            Some(Err(k)) => {
                return Some(Err(int_error_string(k)));
            },
            Some(Ok(v)) => v as u32,
        };
        Some(Ok(Uuid { priority, timestamp, sequence, node_id }))
    }

    /// Reads an id written as `priority-timestamp-sequence-node`; the error is the
    /// text of the first number that does not read.
    pub fn from_string(id: &str) -> (r: Result<Uuid, String>)
        requires
            parse_uuid(id@) is Some,
        ensures
            match r {
                Ok(u) => parse_uuid(id@) == Some(Ok::<Uuid, Seq<char>>(u)),
                Err(e) => parse_uuid(id@) == Some(Err::<Uuid, Seq<char>>(e@)),
            },
    {
        match Uuid::read(id) {
            Some(r) => r,
            None => Err(String::new()),
        }
    }

    /// Whether `self` and `other` name the same message.
    pub fn same_msg(&self, other: &Uuid) -> (r: bool)
        ensures
            r == same_msg(*self, *other),
    {
        self.priority == other.priority && self.timestamp == other.timestamp && self.sequence
            == other.sequence
    }

    /// Whether `self` was made before `other`.
    pub fn made_before(&self, other: &Uuid) -> (r: bool)
        ensures
            r == made_before(*self, *other),
    {
        self.timestamp < other.timestamp || (self.timestamp == other.timestamp && self.sequence
            < other.sequence)
    }
}

/// Why an id could not be made.
#[derive(Debug, Clone, Copy, PartialEq, Eq, Structural)]
pub enum UuidManagerError {
    /// The system clock reads a time before the Unix epoch.
    ClockBeforeEpoch,
    /// Every sequence number of the current timestamp has been given out.
    SequenceExhausted,
}

/// Makes ids from the clock: ids made within one clock reading are told apart by
/// a sequence number that starts at 1.
pub struct UuidManager {
    pub timestamp: u128,
    pub sequence: u32,
    pub node_id: u32,
}

/// The id state that a manager moves to when it reads `nanos` from the clock,
/// as (timestamp, sequence), or `None` when the sequence is used up.
pub open spec fn next_state(timestamp: u128, sequence: u32, nanos: u128) -> Option<(u128, u32)> {
    if nanos != timestamp {
        Some((nanos, 1))
    } else if sequence == u32::MAX {
        None
    } else {
        Some((timestamp, (sequence + 1) as u32))
    }
}

impl UuidManager {
    /// A manager whose last reading is `timestamp`, with sequence 1, for the node
    /// `node_id` (0 when absent).
    pub fn starting_at(timestamp: u128, node_id: Option<u32>) -> (m: UuidManager)
        ensures
            m.timestamp == timestamp,
            m.sequence == 1,
            m.node_id == match node_id {
                Some(n) => n,
                None => 0u32,
            },
    {
        let node_id = match node_id {
            Some(n) => n,
            None => 0,
        };
        UuidManager { timestamp, sequence: 1, node_id }
    }

    /// A manager for node 0 that starts from the current clock reading.
    pub fn default() -> (r: Result<UuidManager, UuidManagerError>)
        ensures
            r matches Ok(m) ==> m.sequence == 1 && m.node_id == 0,
            r matches Err(e) ==> e == UuidManagerError::ClockBeforeEpoch,
    {
        match now_nanos() {
            Some(nanos) => Ok(UuidManager::starting_at(nanos, None)),
            None => Err(UuidManagerError::ClockBeforeEpoch),
        }
    }

    /// A manager for the given node (0 when absent) that starts from the current
    /// clock reading.
    pub fn new(node_id: Option<u32>) -> (r: Result<UuidManager, UuidManagerError>)
        ensures
            r matches Ok(m) ==> m.sequence == 1 && m.node_id == match node_id {
                Some(n) => n,
                None => 0u32,
            },
            r matches Err(e) ==> e == UuidManagerError::ClockBeforeEpoch,
    {
        match now_nanos() {
            Some(nanos) => Ok(UuidManager::starting_at(nanos, node_id)),
            None => Err(UuidManagerError::ClockBeforeEpoch),
        }
    }

    /// Makes the next id for `priority`, given the clock reading `nanos`: a new
    /// reading starts the sequence again at 1, the same reading takes the next
    /// sequence number.
    pub fn next_at(&mut self, priority: u32, nanos: u128) -> (r: Result<Uuid, UuidManagerError>)
        ensures
            final(self).node_id == old(self).node_id,
            match next_state(old(self).timestamp, old(self).sequence, nanos) {
                None => r == Err::<Uuid, UuidManagerError>(UuidManagerError::SequenceExhausted)
                    && *final(self) == *old(self),
                Some((t, q)) => r == Ok::<Uuid, UuidManagerError>(
                    Uuid { priority, timestamp: t, sequence: q, node_id: old(self).node_id },
                ) && final(self).timestamp == t && final(self).sequence == q,
            },
    {
        if nanos != self.timestamp {
            self.timestamp = nanos;
            self.sequence = 1;
        } else {
            if self.sequence == u32::MAX {
                return Err(UuidManagerError::SequenceExhausted);
            }
            self.sequence = self.sequence + 1;
        }
        Ok(Uuid { priority, timestamp: self.timestamp, sequence: self.sequence, node_id: self.node_id })
    }

    /// Makes the next id for `priority` from the current clock reading.
    pub fn next(&mut self, priority: u32) -> (r: Result<Uuid, UuidManagerError>)
        ensures
            final(self).node_id == old(self).node_id,
            r matches Ok(u) ==> u.priority == priority && u.node_id == old(self).node_id
                && final(self).timestamp == u.timestamp && final(self).sequence == u.sequence
                && !(u.timestamp == old(self).timestamp && u.sequence == old(self).sequence),
            r matches Ok(u) ==> u.sequence == if u.timestamp == old(self).timestamp {
                old(self).sequence + 1
            } else {
                1
            },
            r is Err ==> *final(self) == *old(self),
            r == Err::<Uuid, UuidManagerError>(UuidManagerError::SequenceExhausted) ==> old(
                self,
            ).sequence == u32::MAX,
    {
        match now_nanos() {
            Some(nanos) => self.next_at(priority, nanos),
            None => Err(UuidManagerError::ClockBeforeEpoch),
        }
    }
}

/// Two ids made one after the other by a manager are never the same: the second
/// has a new timestamp or the next sequence number.
pub proof fn law_next_id_is_fresh(timestamp: u128, sequence: u32, nanos: u128)
    requires
        sequence >= 1,
    ensures
        match next_state(timestamp, sequence, nanos) {
            Some((t, q)) => !(t == timestamp && q == sequence) && q >= 1,
            None => true,
        },
{
}

} // verus!
