//! Packets of messages, collections of messages and their configuration.
use crate::uuid::Uuid;
use vstd::prelude::*;

verus! {

/// A message with its id, priority and size, as a database keeps it.
pub struct Package {
    pub uuid: Uuid,
    pub priority: i32,
    pub msg: String,
    pub byte_size: i32,
}

/// A message with its id, as a read gives it back.
pub struct StoredPacket {
    pub uuid: Uuid,
    pub msg: String,
}

/// A message to insert, with its priority.
pub struct Packet {
    priority: i32,
    msg: String,
}

impl Packet {
    /// The priority.
    pub closed spec fn priority_of(&self) -> i32 {
        self.priority
    }

    /// The message.
    pub closed spec fn msg_of(&self) -> Seq<char> {
        self.msg@
    }

    pub fn new(priority: i32, msg: String) -> (p: Packet)
        ensures
            p.priority_of() == priority,
            p.msg_of() == msg@,
    {
        Packet { priority, msg }
    }
}

/// The configuration of a store kept in a directory: the directory, the
/// store's limit and its collections.
pub struct StoreConfig {
    pub dir: String,
    pub limit: Option<u64>,
    pub collections: Option<Vec<CollectionConfig>>,
}

/// The configuration of one collection: its priority and limit.
#[derive(Debug, Clone, Copy, PartialEq, Eq, Structural)]
pub struct CollectionConfig {
    pub priority: u64,
    pub limit: Option<u64>,
}

impl CollectionConfig {
    pub fn new(priority: u64, limit: Option<u64>) -> (c: CollectionConfig)
        ensures
            c == (CollectionConfig { priority, limit }),
    {
        CollectionConfig { priority, limit }
    }
}

/// One collection: its priority, size, limit and messages.
pub struct Collection {
    pub priority: u64,
    pub byte_size: u64,
    pub limit: Option<u64>,
    pub messages: Vec<(Uuid, u64)>,
}

impl Collection {
    /// An empty collection as configured.
    pub fn new(config: &CollectionConfig) -> (c: Collection)
        ensures
            c.priority == config.priority,
            c.byte_size == 0,
            c.limit == config.limit,
            c.messages@ == Seq::<(Uuid, u64)>::empty(),
    {
        Collection { priority: config.priority, byte_size: 0, limit: config.limit, messages: Vec::new() }
    }
}

} // verus!
