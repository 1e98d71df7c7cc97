use msg_store::msg::{add_error_text, add_msg_error_text, msg_error_of, msg_reply, file_reply_header, read_add_request, split_request, MsgError};
use msg_store::store::base::Store;
use msg_store::store::uuid::Uuid;
use msg_store::database::MemDb;
use msg_store::file_storage::FileStorage;
use msg_store::stats::{add_to_stats, Stats};
use msg_store::store::{GroupDefaults, StoreDefaults};

/// Reads an insert request and inserts the message, as the server does.
fn add_request(store: &mut Store, text: &str, storage: bool) -> Result<(), MsgError> {
    let (head, body) = split_request(text).expect("no header section");
    let plan = read_add_request(&head, storage)?;
    let size = if plan.save_to_file { plan.byte_size_override.unwrap() } else { body.len() as u64 };
    match store.add(plan.priority, size) {
        Ok(_) => Ok(()),
        Err(e) => Err(msg_error_of(&e.err_ty).expect("not a request failure")),
    }
}

#[test]
fn should_reject_messages() {
    let mut store = Store::new(None).unwrap();
    assert_eq!(
        MsgError::FileStorageNotConfigured,
        add_request(&mut store, "priority=1&saveToFile=true&bytesizeoverhead=1?my-msg", false).err().unwrap()
    );
    assert_eq!(
        MsgError::InvalidBytesizeOverride,
        add_request(&mut store, "priority=1&saveToFile=true&bytesizeOverride=true?my-msg", true).err().unwrap()
    );
    assert_eq!(
        MsgError::InvalidPriority,
        add_request(&mut store, "priority=mypriority?my-msg", true).err().unwrap()
    );
    assert_eq!(
        MsgError::MissingBytesizeOverride,
        add_request(&mut store, "priority=1&saveToFile=true?my-msg", true).err().unwrap()
    );
    assert_eq!(MsgError::MissingPriority, add_request(&mut store, "myparam=4?my-msg", true).err().unwrap());
    assert_eq!(MsgError::MalformedHeaders, add_request(&mut store, "myheaders?my-msg", true).err().unwrap());
    {
        let mut store = Store::new(None).unwrap();
        store.update_group_defaults(1, &GroupDefaults { max_byte_size: Some(3) }).unwrap();
        assert_eq!(MsgError::MsgExceedesGroupMax, add_request(&mut store, "priority=1?for bar", true).err().unwrap());
    }
    {
        let mut store = Store::new(None).unwrap();
        store.set_max_byte_size(Some(3));
        assert_eq!(MsgError::MsgExceedesStoreMax, add_request(&mut store, "priority=1?for bar", true).err().unwrap());
    }
    {
        let mut store = Store::new(None).unwrap();
        store.set_max_byte_size(Some(3));
        add_request(&mut store, "priority=2?foo", true).unwrap();
        assert_eq!(MsgError::MsgLacksPriority, add_request(&mut store, "priority=1?foo", true).err().unwrap());
    }
    {
        let mut store = Store::new(None).unwrap();
        store.set_max_byte_size(Some(3));
        let err = add_request(&mut store, "priority=1?for bar", true).err().unwrap();
        let text = add_msg_error_text(&err, "msg/add.rs", 160, None);
        assert!(text.contains("ADD_MSG_ERROR: (MSG_ERROR: MsgExceedesStoreMax). "))
    }
}

#[test]
fn a_file_request_keeps_the_other_headers_sorted() {
    let plan = read_add_request(" priority=1 &saveToFile=TRUE&bytesizeOverride=12&fileName=my-file", true).unwrap();
    assert_eq!(plan.priority, 1);
    assert!(plan.save_to_file);
    assert_eq!(plan.byte_size_override, Some(12));
    assert_eq!(plan.header, "bytesizeOverride=12&fileName=my-file&saveToFile=TRUE");
}

#[test]
fn a_later_header_overrides_an_earlier_one() {
    let plan = read_add_request("priority=1&priority=+7", false).unwrap();
    assert_eq!(plan.priority, 7);
    assert!(!plan.save_to_file);
    assert_eq!(plan.header, "");
    assert_eq!(read_add_request("priority=4294967296", false).err(), Some(MsgError::InvalidPriority));
    assert_eq!(read_add_request("priority=1&", false).err(), Some(MsgError::MalformedHeaders));
    assert_eq!(read_add_request("saveToFile=false&priority=2", false).unwrap().save_to_file, false);
}

#[test]
fn split_request_splits_at_the_first_question_mark() {
    let (a, b) = split_request("priority=1?what? now").unwrap();
    assert_eq!(a, "priority=1");
    assert_eq!(b, "what? now");
    assert!(split_request("no header").is_none());
}

#[test]
fn replies_carry_the_id() {
    let u = Uuid { priority: 1, timestamp: 22, sequence: 3, node_id: 0 };
    assert_eq!(msg_reply(&u, "Hello, world"), "uuid=1-22-3-0?Hello, world");
    assert_eq!(file_reply_header(&u, "fileName=a"), "uuid=1-22-3-0&fileName=a?");
}

/// Takes an insert request through the library the way the server does: the
/// store, the database, file storage and the counts.
fn serve_add(store: &mut Store, db: &mut MemDb, files: &mut FileStorage, stats: &mut Stats, text: &str) -> Uuid {
    let (head, body) = split_request(text).unwrap();
    let plan = read_add_request(&head, true).unwrap();
    let (size, kept) = if plan.save_to_file {
        (plan.byte_size_override.unwrap(), plan.header.clone())
    } else {
        (body.len() as u64, body.clone())
    };
    let added = store.add(plan.priority, size).unwrap();
    for burned in added.msgs_removed.iter() {
        db.del(**burned).unwrap();
    }
    add_to_stats(stats, Some(1), None, Some(added.msgs_removed.len() as u64));
    db.add(*added.uuid, kept.into_bytes(), size).unwrap();
    if plan.save_to_file {
        files.insert(*added.uuid);
    }
    *added.uuid
}

#[test]
fn a_message_goes_in_reads_back_and_goes_out() {
    let mut store = Store::new(None).unwrap();
    let mut db = MemDb::new();
    let mut files = FileStorage::new("/tmp/file-storage");
    let mut stats = Stats::new();
    let msg = "Hello, world";
    let uuid = serve_add(&mut store, &mut db, &mut files, &mut stats, &format!("priority=1?{}", msg));
    assert_eq!(store.byte_size(), msg.len() as u64);
    assert_eq!(stats.inserted, 1);
    let body = String::from_utf8(db.get(uuid).unwrap()).unwrap();
    assert_eq!(msg_reply(&uuid, &body), format!("uuid={}?{}", uuid.to_string(), msg));

    let text = format!("priority=1&saveToFile=true&bytesizeOverride={}?{}", msg.len(), msg);
    let uuid_file = serve_add(&mut store, &mut db, &mut files, &mut stats, &text);
    assert!(files.contains(&uuid_file));
    let header = String::from_utf8(db.get(uuid_file).unwrap()).unwrap();
    assert_eq!(
        format!("{}{}", file_reply_header(&uuid_file, &header), msg),
        format!("uuid={}&bytesizeOverride={}&saveToFile=true?{}", uuid_file.to_string(), msg.len(), msg)
    );

    for u in [uuid, uuid_file] {
        store.del(std::sync::Arc::new(u)).unwrap();
        db.del(u).unwrap();
        files.remove(&u);
        add_to_stats(&mut stats, None, Some(1), None);
    }
    assert_eq!(store.byte_size(), 0);
    assert_eq!(db.fetch().unwrap().len(), 0);
    assert!(db.get(uuid).is_err());
    assert_eq!(stats.deleted, 2);
    assert!(!files.contains(&uuid_file));

    let mut store = Store::new(None).unwrap();
    let mut db = MemDb::new();
    let mut stats = Stats::new();
    store.update_store_defaults(&StoreDefaults { max_byte_size: Some(3) }).unwrap();
    let first = serve_add(&mut store, &mut db, &mut files, &mut stats, "priority=1?foo");
    let second = serve_add(&mut store, &mut db, &mut files, &mut stats, "priority=1?foo");
    assert_eq!(store.byte_size(), 3);
    assert_eq!(stats.pruned, 1);
    assert!(db.get(first).is_err());
    assert_eq!(db.get(second).unwrap(), b"foo".to_vec());
}

#[test]
fn insert_failures_read_as_add_msg_errors() {
    assert_eq!(
        add_msg_error_text(&MsgError::MissingPriority, "msg/add.rs", 42, None),
        "ADD_MSG_ERROR: (MSG_ERROR: MissingPriority). file: msg/add.rs, line: 42."
    );
    assert_eq!(
        add_error_text("LockingError", "msg/add.rs", 7, Some("poisoned")),
        "ADD_MSG_ERROR: LockingError. file: msg/add.rs, line: 7, msg: poisoned"
    );
}

#[test]
fn a_request_without_a_message_section_lacks_a_priority() {
    assert_eq!(msg_store::msg::plan_add(Vec::new(), true).err(), Some(MsgError::MissingPriority));
}

#[test]
fn request_chunks_gather_until_the_message_starts() {
    let mut meta = String::new();
    assert_eq!(msg_store::msg::take_chunk(&mut meta, b"  priority=1".to_vec()), Ok(None));
    assert_eq!(meta, "priority=1");
    assert_eq!(msg_store::msg::take_chunk(&mut meta, vec![0xff]), Err(MsgError::CouldNotParseChunk));
    assert_eq!(meta, "priority=1");
    assert_eq!(
        msg_store::msg::take_chunk(&mut meta, b"&x=2?hel lo".to_vec()),
        Ok(Some(("priority=1&x=2".to_string(), "hel lo".to_string())))
    );
}

#[test]
fn a_plan_can_be_read_with_the_storage_choice_given() {
    let m = vec![("priority".chars().collect::<Vec<char>>(), "3".chars().collect::<Vec<char>>())];
    let plan = msg_store::msg::plan_with_save(m.clone(), false, false).unwrap();
    assert_eq!((plan.priority, plan.save_to_file), (3, false));
    assert_eq!(msg_store::msg::plan_with_save(m.clone(), true, false).err(), Some(MsgError::FileStorageNotConfigured));
    assert_eq!(msg_store::msg::plan_with_save(m, true, true).err(), Some(MsgError::MissingBytesizeOverride));
}
