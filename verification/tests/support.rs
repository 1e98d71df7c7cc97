use msg_store::api::{group_defaults_of, groups_info, store_data, Either};
use msg_store::bridge::{BridgeError, ErrorCode, LevelDBMessage, MsgData};
use msg_store::config::{rm_group_config, set_group_config, update_config, GroupConfig, StoreConfig};
use msg_store::database::MemDb;
use msg_store::errors::{LvlDbErrorTy, MemDbErrorTy};
use msg_store::level::{entry_key_of, read_entry, size_entry_of};
use msg_store::file_storage::{discover_files, get_file_path_from_id, numbered_path, ids_from_file_names, rm_from_file_storage, FileStorage};
use msg_store::stats::{add_to_stats, handle, replace_stats, try_get, try_rm, Stats};
use msg_store::store::base::Store;
use msg_store::store::uuid::{Uuid, UuidManager, UuidManagerError};
use msg_store::store::GroupDefaults;
use std::cmp::Ordering;
use std::rc::Rc;

fn id(p: u32, t: u128, s: u32) -> Uuid {
    Uuid { priority: p, timestamp: t, sequence: s, node_id: 0 }
}

#[test]
fn stats_add_replace_and_reset() {
    let mut stats = Stats::new();
    let old = add_to_stats(&mut stats, Some(2), None, Some(3));
    assert_eq!(old, Stats { inserted: 0, deleted: 0, pruned: 0 });
    assert_eq!(stats, Stats { inserted: 2, deleted: 0, pruned: 3 });
    let old = replace_stats(&mut stats, None, Some(5), Some(1));
    assert_eq!(old, Stats { inserted: 2, deleted: 0, pruned: 3 });
    assert_eq!(try_get(&stats), Stats { inserted: 2, deleted: 5, pruned: 1 });
    handle(&mut stats, true, Some(1), Some(1), None);
    assert_eq!(stats, Stats { inserted: 3, deleted: 6, pruned: 1 });
    handle(&mut stats, false, Some(0), None, None);
    assert_eq!(stats, Stats { inserted: 0, deleted: 6, pruned: 1 });
    let old = try_rm(&mut stats);
    assert_eq!(old, Stats { inserted: 0, deleted: 6, pruned: 1 });
    assert_eq!(stats, Stats { inserted: 0, deleted: 0, pruned: 0 });
}

#[test]
fn config_defaults_and_inherit() {
    let c = StoreConfig::new();
    assert_eq!(c.host.as_deref(), Some("127.0.0.1"));
    assert_eq!(c.port, Some(8080));
    assert_eq!(c.database.as_deref(), Some("mem"));
    assert_eq!(c.update, Some(true));
    let mut d = StoreConfig::new();
    d.update = Some(false);
    let mut other = StoreConfig::new();
    other.port = Some(9000);
    other.no_update = Some(true);
    d.inherit(other);
    assert_eq!(d.port, Some(9000));
    assert_eq!(d.no_update, Some(true));
    assert_eq!(d.update, Some(false));
    assert_eq!(update_config(&d, &Some("c.json".to_string())), None);
    assert_eq!(update_config(&c, &Some("c.json".to_string())), Some("c.json".to_string()));
    assert_eq!(update_config(&c, &None), None);
}

#[test]
fn group_configs_are_set_sorted_and_removed() {
    let mut c = StoreConfig::new();
    set_group_config(&mut c, 3, Some(10));
    assert_eq!(c.groups, Some(vec![GroupConfig { priority: 3, max_byte_size: Some(10) }]));
    set_group_config(&mut c, 1, None);
    set_group_config(&mut c, 3, Some(4));
    assert_eq!(
        c.groups,
        Some(vec![
            GroupConfig { priority: 1, max_byte_size: None },
            GroupConfig { priority: 3, max_byte_size: Some(4) },
        ])
    );
    rm_group_config(&mut c, 1);
    assert_eq!(c.groups, Some(vec![GroupConfig { priority: 3, max_byte_size: Some(4) }]));
    let mut e = StoreConfig::new();
    rm_group_config(&mut e, 1);
    assert_eq!(e.groups, None);
}

#[test]
fn file_storage_index_and_paths() {
    let mut fs = FileStorage::new("/tmp/files");
    let a = id(1, 5, 1);
    let b = id(2, 6, 1);
    assert_eq!(get_file_path_from_id("/tmp/files", &a), "/tmp/files/1-5-1-0");
    assert_eq!(get_file_path_from_id("/tmp/files/", &a), "/tmp/files/1-5-1-0");
    assert_eq!(get_file_path_from_id("", &a), "1-5-1-0");
    discover_files(&mut fs, vec![a, b, a]);
    assert_eq!(fs.index.len(), 2);
    assert!(fs.contains(&b));
    assert_eq!(rm_from_file_storage(&mut fs, &a), Some("/tmp/files/1-5-1-0".to_string()));
    assert_eq!(rm_from_file_storage(&mut fs, &a), None);
    assert!(!fs.contains(&a));
    let names = vec!["1-5-1-0".to_string(), "x-1-1-1".to_string(), "2-6-1-3".to_string(), "a.txt".to_string()];
    assert_eq!(
        ids_from_file_names(&names),
        Some(vec![a, Uuid { priority: 2, timestamp: 6, sequence: 1, node_id: 3 }])
    );
    let short = vec!["1-5-1-0".to_string(), "1".to_string()];
    assert_eq!(ids_from_file_names(&short), None);
}

#[test]
fn error_codes_round_trip() {
    let e = BridgeError::Put("disk full".to_string());
    let code = e.to_error();
    assert_eq!(code.code, 3);
    assert_eq!(code.path, "/put");
    assert_eq!(BridgeError::from_error(code), Ok(BridgeError::Put("disk full".to_string())));
    let six = ErrorCode::new(6, "/x", "y");
    assert_eq!(BridgeError::from_error(ErrorCode::new(6, "/x", "y")), Err(six));
    let bad = BridgeError::from_error(ErrorCode::new(42, "/x", "y")).err().unwrap();
    assert_eq!(bad.code, 6);
    assert_eq!(bad.path, "/parse_error/error_code/code");
    assert_eq!(bad.message, "Cannot format code 42");
}

#[test]
fn level_db_messages_and_msg_data() {
    let m = LevelDBMessage::new(&vec![1, 2, 3]);
    assert_eq!(m.byte_size, 3);
    assert_eq!(m.msg, vec![1, 2, 3]);
    let d = MsgData::new(Rc::new(msg_store::Uuid { timestamp: 4, sequence: 2 }), 9);
    assert_eq!(*d.get_uuid(), msg_store::Uuid { timestamp: 4, sequence: 2 });
    assert_eq!(d.get_byte_size(), 9);
}

#[test]
fn mem_db_reads_back_what_was_written() {
    let mut db = MemDb::new();
    let a = id(1, 1, 1);
    let b = id(1, 2, 1);
    db.add(a, b"first message".to_vec(), 13).unwrap();
    db.add(b, b"second".to_vec(), 6).unwrap();
    assert_eq!(db.get(a).unwrap(), b"first message".to_vec());
    db.add(a, b"again".to_vec(), 5).unwrap();
    assert_eq!(db.get(a).unwrap(), b"again".to_vec());
    db.del(a).unwrap();
    assert_eq!(db.get(a).err().unwrap().error_ty, MemDbErrorTy::MsgNotFound);
    assert_eq!(db.get(b).unwrap(), b"second".to_vec());
    assert!(db.fetch().unwrap().is_empty());
}

#[test]
fn store_summaries() {
    let mut store = Store::new(None).unwrap();
    store.update_group_defaults(2, &GroupDefaults { max_byte_size: Some(50) }).unwrap();
    let a = store.add(1, 3).unwrap().uuid;
    let b = store.add(1, 4).unwrap().uuid;
    store.add(2, 5).unwrap();
    let data = store_data(&store);
    assert_eq!(data.byte_size, 12);
    assert_eq!(data.msg_count, 3);
    assert_eq!(data.group_count, 2);
    assert_eq!(data.groups[0].priority, 1);
    assert_eq!(data.groups[0].byte_size, 7);
    assert_eq!(data.groups[0].msg_count, 2);
    assert_eq!(data.groups[1].max_byte_size, Some(50));
    assert_eq!(data.group_defaults.len(), 1);
    assert_eq!(group_defaults_of(&store, Some(2))[0].max_byte_size, Some(50));
    assert!(group_defaults_of(&store, Some(1)).is_empty());
    let listed = groups_info(&store, Some(1), true);
    assert_eq!(listed.len(), 1);
    assert_eq!(listed[0].msg_count, 2);
    assert_eq!(listed[0].messages[0].uuid, b.to_string());
    assert_eq!(listed[0].messages[1].uuid, a.to_string());
    assert!(groups_info(&store, None, false)[1].messages.is_empty());
    assert!(groups_info(&store, Some(9), true).is_empty());
}

#[test]
fn either_gives_its_value() {
    let x: Either<u8, &str> = Either::A(3);
    assert_eq!(x.a(), 3);
    let y: Either<u8, &str> = Either::B("b");
    assert_eq!(y.b(), "b");
}

#[test]
fn uuids_round_trip_through_text() {
    let u = Uuid { priority: 7, timestamp: 1636523479865480266, sequence: 2, node_id: 9 };
    assert_eq!(u.to_string(), "7-1636523479865480266-2-9");
    assert_eq!(Uuid::from_string(&u.to_string()).unwrap(), u);
    assert_eq!(Uuid::from_string("7-x-2-9").err().unwrap(), "invalid digit found in string");
    let l = msg_store::Uuid { timestamp: 12, sequence: 3 };
    assert_eq!(msg_store::Uuid::from_string(&l.to_string()).unwrap(), l);
}

#[test]
fn the_id_manager_never_repeats_itself() {
    let mut m = UuidManager::starting_at(100, Some(4));
    let a = m.next_at(1, 100).unwrap();
    let b = m.next_at(1, 100).unwrap();
    let c = m.next_at(2, 101).unwrap();
    assert_eq!((a.timestamp, a.sequence, a.node_id), (100, 2, 4));
    assert_eq!((b.timestamp, b.sequence), (100, 3));
    assert_eq!((c.priority, c.timestamp, c.sequence), (2, 101, 1));
    let mut full = UuidManager { timestamp: 5, sequence: u32::MAX, node_id: 0 };
    assert_eq!(full.next_at(1, 5), Err(UuidManagerError::SequenceExhausted));
    assert!(UuidManager::new(None).is_ok());
}

#[test]
fn the_two_part_id_manager_never_repeats_itself() {
    let mut m = msg_store::uuid::UuidManager { timestamp: 40, sequence: 1 };
    let a = m.next_at(40).unwrap();
    let b = m.next_at(41).unwrap();
    assert_eq!(a, msg_store::Uuid { timestamp: 40, sequence: 2 });
    assert_eq!(b, msg_store::Uuid { timestamp: 41, sequence: 1 });
    let mut full = msg_store::uuid::UuidManager { timestamp: 9, sequence: u32::MAX };
    assert_eq!(full.next_at(9), Err(UuidManagerError::SequenceExhausted));
    assert_eq!((full.timestamp, full.sequence), (9, u32::MAX));
    let mut clocked = msg_store::uuid::UuidManager::default().unwrap();
    let first = clocked.next().unwrap();
    let second = clocked.next().unwrap();
    assert_ne!(first, second);
}

#[test]
fn level_entries_read_back() {
    let u = Uuid::read("1-0-1-0").unwrap().unwrap();
    assert_eq!(entry_key_of(&u), b"1-0-1-0".to_vec());
    assert_eq!(size_entry_of(10), b"10".to_vec());
    let big = id(7, 1636523479865480266, 3);
    assert_eq!(read_entry(entry_key_of(&big), size_entry_of(u32::MAX)), Some(Ok((big, u32::MAX))));
    assert_eq!(read_entry(entry_key_of(&u), size_entry_of(0)), Some(Ok((u, 0))));
    match read_entry(b"1-0-1-0".to_vec(), b"ten".to_vec()) {
        Some(Err((ty, msg))) => {
            assert_eq!(ty, LvlDbErrorTy::CouldNotParseData);
            assert_eq!(msg.as_deref(), Some("invalid digit found in string"));
        }
        _ => panic!("the size should not read"),
    }
    match read_entry(b"1-0-1-0".to_vec(), vec![0xff]) {
        Some(Err((ty, msg))) => {
            assert_eq!(ty, LvlDbErrorTy::CouldNotParseData);
            assert!(msg.is_some());
        }
        _ => panic!("the size should not be text"),
    }
    match read_entry(vec![0xff, 0xfe], b"3".to_vec()) {
        Some(Err((ty, _))) => assert_eq!(ty, LvlDbErrorTy::CouldNotGetString),
        _ => panic!("the key should not be text"),
    }
    match read_entry(b"1-x-1-0".to_vec(), b"3".to_vec()) {
        Some(Err((ty, msg))) => {
            assert_eq!(ty, LvlDbErrorTy::CouldNotParseUuid("invalid digit found in string".to_string()));
            assert_eq!(msg, None);
        }
        _ => panic!("the key should not read as an id"),
    }
    assert!(read_entry(b"1-0".to_vec(), b"3".to_vec()).is_none());
}

#[test]
fn export_directories_are_numbered() {
    assert_eq!(numbered_path("/tmp/export", 1), "/tmp/export-1");
    assert_eq!(numbered_path("/tmp/export-1", 12), "/tmp/export-1-12");
    assert_eq!(numbered_path("", 0), "-0");
}

#[test]
fn ids_order_by_priority_then_age() {
    let old = id(1, 10, 1);
    let young = id(1, 20, 1);
    let urgent = id(2, 30, 1);
    assert_eq!(urgent.cmp(&old), Ordering::Greater);
    assert_eq!(old.cmp(&urgent), Ordering::Less);
    assert_eq!(old.cmp(&young), Ordering::Greater);
    assert_eq!(id(1, 10, 1).cmp(&id(1, 10, 2)), Ordering::Greater);
    assert_eq!(old.cmp(&id(1, 10, 1)), Ordering::Equal);
    assert_eq!(old.partial_cmp(&young), Some(Ordering::Greater));
    assert!(young < old);
    assert!(old < urgent);
}

#[test]
fn node_ids_take_any_unsigned_32_bit_value() {
    let u = Uuid::read("1-2-3-4000000000").unwrap().unwrap();
    assert_eq!(u.node_id, 4000000000);
    assert_eq!(u.to_string(), "1-2-3-4000000000");
    let mut m = UuidManager::starting_at(5, Some(70000));
    assert_eq!(m.next_at(1, 6).unwrap().node_id, 70000);
    let store = Store::new(Some(123456)).unwrap();
    assert_eq!(store.byte_size(), 0);
}
