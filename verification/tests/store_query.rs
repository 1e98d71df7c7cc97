use msg_store::database::MemDb;
use msg_store::store::base::Store;
use msg_store::store::{GroupDefaults, StoreDefaults, StoreErrorTy};
use msg_store::Uuid as LegacyUuid;
use std::sync::Arc;

fn open() -> Store {
    Store::new(None).unwrap()
}

fn size(msg: &str) -> u64 {
    msg.len() as u64
}

/// Inserts a message into the store and its body into the database.
fn add_msg(store: &mut Store, db: &mut MemDb, priority: u32, msg: &str) -> Arc<msg_store::store::uuid::Uuid> {
    let uuid = store.add(priority, size(msg)).expect("Could not add first message").uuid;
    db.add(*uuid, msg.as_bytes().to_vec(), size(msg)).unwrap();
    uuid
}

#[test]
fn mem_should_return_msg() {
    let mut store = open();
    let mut db = MemDb::new();
    let uuid = add_msg(&mut store, &mut db, 1, "first message");
    let stored_packet = store.get(Some(uuid.clone()), None, false).unwrap().expect("Msg not found");
    assert_eq!(uuid, stored_packet);
    assert_eq!("first message".as_bytes().to_vec(), db.get(*stored_packet).unwrap());
}

#[test]
fn mem_should_return_oldest_msg() {
    let mut store = open();
    let mut db = MemDb::new();
    let first_uuid = add_msg(&mut store, &mut db, 1, "first message");
    add_msg(&mut store, &mut db, 1, "second message");
    let stored_packet = store.get(None, None, false).unwrap().expect("Msg not found");
    assert_eq!(first_uuid, stored_packet);
    assert_eq!("first message".as_bytes().to_vec(), db.get(*stored_packet).unwrap());
}

#[test]
fn should_return_youngest_msg() {
    let mut store = open();
    let _first_uuid = store.add(1, size("first message")).unwrap().uuid;
    let second_uuid = store.add(1, size("second message")).unwrap().uuid;
    let stored_packet = store.get(None, None, true).unwrap().expect("Msg not found");
    assert_eq!(second_uuid, stored_packet);
}

#[test]
fn should_return_highest_pri_msg() {
    let mut store = open();
    store.add(1, size("first message")).unwrap();
    let second_msg = store.add(2, size("second message")).unwrap().uuid;
    let stored_packet = store.get(None, None, false).unwrap().expect("Msg not found");
    assert_eq!(second_msg, stored_packet);
}

#[test]
fn should_return_lowest_pri_msg() {
    let mut store = open();
    let first_msg = store.add(1, size("first message")).unwrap().uuid;
    let _second_msg = store.add(2, size("second message")).unwrap().uuid;
    let stored_packet = store.get(None, None, true).unwrap().expect("Msg not found");
    assert_eq!(first_msg, stored_packet);
}

#[test]
fn should_return_oldest_msg_in_group() {
    let mut store = open();
    let first_uuid = store.add(1, size("first message")).unwrap().uuid;
    let _second_uuid = store.add(2, size("second message")).unwrap().uuid;
    let _third_uuid = store.add(1, size("third message")).unwrap().uuid;
    let stored_packet = store.get(None, Some(1), false).unwrap().expect("Msg not found");
    assert_eq!(first_uuid, stored_packet);
}

#[test]
fn should_return_youngest_msg_in_group() {
    let mut store = open();
    let _first_uuid = store.add(1, size("first message")).unwrap().uuid;
    let _second_uuid = store.add(2, size("second message")).unwrap().uuid;
    let third_uuid = store.add(1, size("third message")).unwrap().uuid;
    let stored_packet = store.get(None, Some(1), true).unwrap().expect("Msg not found");
    assert_eq!(third_uuid, stored_packet);
}

#[test]
fn get_gives_none_for_unknown_ids_and_groups() {
    let mut store = open();
    assert_eq!(store.get(None, None, false).unwrap(), None);
    let uuid = store.add(1, 3).unwrap().uuid;
    store.del(uuid.clone()).unwrap();
    assert_eq!(store.get(Some(uuid), None, false).unwrap(), None);
    assert_eq!(store.get(None, Some(7), false).unwrap(), None);
}

#[test]
fn get_fails_on_an_empty_highest_group() {
    let mut store = open();
    store.add(1, 3).unwrap();
    store.update_group_defaults(2, &GroupDefaults { max_byte_size: Some(1) }).unwrap();
    assert!(store.add(2, 3).is_err());
    let err = store.get(None, None, false).err().unwrap();
    assert_eq!(err.err_ty, StoreErrorTy::SyncError);
}

#[test]
fn get_n_follows_the_forwarding_order() {
    let mut store = open();
    let a = store.add(1, 1).unwrap().uuid;
    let b = store.add(2, 1).unwrap().uuid;
    let c = store.add(1, 1).unwrap().uuid;
    let d = store.add(2, 1).unwrap().uuid;
    assert_eq!(store.get_n(10, None, None, false), vec![b.clone(), d.clone(), a.clone(), c.clone()]);
    assert_eq!(store.get_n(10, None, None, true), vec![c.clone(), a.clone(), d.clone(), b.clone()]);
    assert_eq!(store.get_n(2, None, None, false), vec![b.clone(), d.clone()]);
    assert_eq!(store.get_n(10, Some(1), None, false), vec![a.clone(), c.clone()]);
    assert_eq!(store.get_n(10, None, Some(d.clone()), false), vec![a.clone(), c.clone()]);
    let first = store.get(None, None, false).unwrap().unwrap();
    assert_eq!(first, store.get_n(1, None, None, false)[0]);
}

#[test]
fn should_return_2_message_data_points() {
    let mut store = open();
    let uuid1 = store.add(1, size("first message")).unwrap().uuid;
    let uuid2 = store.add(1, size("second message")).unwrap().uuid;
    let set = store.get_metadata((0, 1), None);
    assert_eq!(2, set.len());
    assert_eq!(uuid1, set[0].uuid);
    assert_eq!(uuid2, set[1].uuid);
}

#[test]
fn should_return_2_message_data_points_with_range_starting_at_2() {
    let mut store = open();
    let _uuid1 = store.add(1, size("first message")).unwrap().uuid;
    let _uuid2 = store.add(1, size("second message")).unwrap().uuid;
    let _uuid3 = store.add(1, size("third message")).unwrap().uuid;
    let set = store.get_metadata((1, 2), None);
    assert_eq!(2, set.len());
}

#[test]
fn get_metadata_of_one_group_gives_oldest_first() {
    let mut store = open();
    let uuid1 = store.add(1, size("my message")).unwrap().uuid;
    let uuid2 = store.add(1, size("my second message")).unwrap().uuid;
    let uuid3 = store.add(1, size("my thrid message")).unwrap().uuid;
    store.add(2, 1).unwrap();
    let set = store.get_metadata((0, 2), Some(1));
    assert_eq!(3, set.len());
    assert_eq!(uuid1, set[0].uuid);
    assert_eq!(uuid2, set[1].uuid);
    assert_eq!(uuid3, set[2].uuid);
    assert_eq!(set[1].priority, 1);
    assert_eq!(set[1].byte_size, 17);
    assert_eq!(store.get_metadata((5, 2), Some(1)).len(), 0);
    assert_eq!(store.get_metadata((0, 0), None).len(), 1);
}

#[test]
fn mem_should_decrease_byte_size() {
    let mut store = open();
    let uuid = store.add(1, size("foo")).unwrap().uuid;
    store.add(1, size("bar")).unwrap();
    let group = store.group(1).expect("Could get group ref");
    assert_eq!(6, store.byte_size());
    assert_eq!(6, group.byte_size);
    store.del(uuid).unwrap();
    let group = store.group(1).expect("Could get group ref");
    assert_eq!(3, store.byte_size());
    assert_eq!(3, group.byte_size);
}

#[test]
fn mem_should_remove_empty_group() {
    let mut store = open();
    let uuid = store.add(1, size("foo")).unwrap().uuid;
    assert!(store.group(1).is_some());
    store.del(uuid).unwrap();
    assert!(store.group(1).is_none())
}

#[test]
fn should_decrease_byte_size() {
    let mut store = open();
    store.add(1, size("foo")).unwrap();
    store.add(1, size("bar")).unwrap();
    let group = store.group(1).expect("Could get group ref");
    assert_eq!(6, store.byte_size());
    assert_eq!(6, group.byte_size);
    store.del_group(&1).unwrap();
    assert_eq!(true, store.group(1).is_none());
    assert_eq!(0, store.byte_size());
}

#[test]
fn should_remove_empty_group() {
    let mut store = open();
    store.add(1, size("foo")).unwrap();
    store.add(1, size("bar")).unwrap();
    let group = store.group(1).expect("Could get group ref");
    assert_eq!(6, store.byte_size());
    assert_eq!(6, group.byte_size);
    store.del_group(&1).unwrap();
    assert_eq!(true, store.group(1).is_none());
}

#[test]
fn del_of_an_unknown_id_changes_nothing() {
    let mut store = open();
    let uuid = store.add(1, 3).unwrap().uuid;
    let other = Arc::new(msg_store::store::uuid::Uuid { priority: 1, timestamp: 0, sequence: 9, node_id: 0 });
    store.del(other).unwrap();
    assert_eq!(store.byte_size(), 3);
    assert_eq!(store.msg_priority(&uuid), Some(1));
}

#[test]
fn mem_should_update_store_config() {
    let mut store = open();
    store.update_group_defaults(1, &GroupDefaults { max_byte_size: Some(10) }).unwrap();
    let defaults = store.group_defaults(1).expect("Could not find defaults");
    assert_eq!(Some(10), defaults.max_byte_size);
}

#[test]
fn mem_should_update_existing_group() {
    let mut store = open();
    store.update_group_defaults(1, &GroupDefaults { max_byte_size: Some(10) }).unwrap();
    store.add(1, size("foo")).unwrap();
    let group = store.group(1).expect("Could not find defaults");
    assert_eq!(Some(10), group.max_byte_size);
}

#[test]
fn should_prune_group_after_update() {
    let mut store = open();
    store.add(1, size("foo")).unwrap();
    store.add(1, size("bar")).unwrap();
    store.update_group_defaults(1, &GroupDefaults { max_byte_size: Some(3) }).unwrap();
    let group = store.group(1).expect("Could not find group");
    assert_eq!(3, store.byte_size());
    assert_eq!(3, group.byte_size);
}

#[test]
fn should_update_existing_group() {
    let mut store = open();
    store.update_group_defaults(1, &GroupDefaults { max_byte_size: Some(10) }).unwrap();
    store.add(1, size("foo")).unwrap();
    let group = store.group(1).expect("Could not find defaults");
    assert_eq!(Some(10), group.max_byte_size);
    store.delete_group_defaults(1);
    assert!(store.group_defaults(1).is_none());
    let group = store.group(1).expect("Could not find defaults");
    assert_eq!(None, group.max_byte_size);
}

#[test]
fn should_update_store_config() {
    let mut store = open();
    store.update_store_defaults(&StoreDefaults { max_byte_size: Some(10) }).unwrap();
    assert_eq!(Some(10), store.max_byte_size());
}

#[test]
fn should_prune_store_after_update() {
    let mut store = open();
    store.add(1, size("foo")).unwrap();
    store.add(1, size("bar")).unwrap();
    store.update_store_defaults(&StoreDefaults { max_byte_size: Some(3) }).unwrap();
    let group = store.group(1).expect("Could not find defaults");
    assert_eq!(3, store.byte_size());
    assert_eq!(3, group.byte_size);
}

#[test]
fn update_store_defaults_reports_what_it_burned() {
    let mut store = open();
    let a = store.add(1, 2).unwrap().uuid;
    let b = store.add(2, 2).unwrap().uuid;
    let c = store.add(2, 2).unwrap().uuid;
    let (bytes, groups, msgs) = store.update_store_defaults(&StoreDefaults { max_byte_size: Some(2) }).unwrap();
    assert_eq!(bytes, 4);
    assert_eq!(groups, vec![1]);
    assert_eq!(msgs, vec![a, b]);
    assert_eq!(store.msg_priority(&c), Some(2));
}

#[test]
fn update_group_defaults_reports_what_it_burned() {
    let mut store = open();
    let a = store.add(1, 3).unwrap().uuid;
    let b = store.add(1, 3).unwrap().uuid;
    let (bytes, msgs) = store.update_group_defaults(1, &GroupDefaults { max_byte_size: Some(4) }).unwrap();
    assert_eq!(bytes, 3);
    assert_eq!(msgs, vec![a]);
    assert_eq!(store.msg_priority(&b), Some(1));
    let (bytes, msgs) = store.update_group_defaults(1, &GroupDefaults { max_byte_size: None }).unwrap();
    assert_eq!(bytes, 0);
    assert!(msgs.is_empty());
}

#[test]
fn should_convert_a_str_to_uuid() {
    assert_eq!(
        LegacyUuid { timestamp: 1636523479865480266, sequence: 1 },
        LegacyUuid::from_string("1636523479865480266-1").unwrap()
    )
}

#[test]
fn get_metadata_range_ends_at_its_last_index() {
    let mut store = open();
    let _u1 = store.add(1, 3).unwrap().uuid;
    let u2 = store.add(1, 3).unwrap().uuid;
    let u3 = store.add(1, 3).unwrap().uuid;
    let _u4 = store.add(1, 3).unwrap().uuid;
    let set = store.get_metadata((1, 2), Some(1));
    assert_eq!(set.len(), 2);
    assert_eq!(set[0].uuid, u2);
    assert_eq!(set[1].uuid, u3);
    assert_eq!((set[0].priority, set[0].byte_size), (1, 3));
    assert_eq!(store.get_metadata((2, 1), Some(1)).len(), 0);
}

#[test]
fn an_insert_then_its_delete_leaves_the_store_as_it_was() {
    let mut store = open();
    let a = store.add(1, 4).unwrap().uuid;
    let b = store.add(2, 5).unwrap().uuid;
    store.del(b.clone()).unwrap();
    assert!(store.group(2).is_none());
    assert_eq!(store.byte_size(), 4);
    let c = store.add(1, 6).unwrap().uuid;
    store.del(c.clone()).unwrap();
    assert_eq!(store.group(1).unwrap().byte_size, 4);
    assert_eq!(store.get_n(10, None, None, false), vec![a]);
    store.del(c).unwrap();
    assert_eq!(store.byte_size(), 4);
}
