use msg_store::store::base::Store;
use msg_store::store::{GroupDefaults, StoreErrorTy};

fn open() -> Store {
    Store::new(None).unwrap()
}

fn size(msg: &str) -> u64 {
    msg.len() as u64
}

#[test]
fn mem_should_increase_store_byte_size() {
    let mut store = open();
    store.add(1, size("1234567890")).expect("Could not add msg");
    assert_eq!(store.byte_size(), 10)
}

#[test]
fn mem_should_increase_group_byte_size() {
    let mut store = open();
    store.add(1, size("1234567890")).expect("Could not add msg");
    let group = store.group(1).expect("Could not find group");
    assert_eq!(group.byte_size, 10)
}

#[test]
fn mem_should_prune_store_byte_size_to_10_when_store_max_byte_size_exists() {
    let mut store = open();
    store.set_max_byte_size(Some(10));
    store.add(1, size("1234567890")).expect("Could not add first msg");
    store.add(1, size("1234567890")).expect("Could not second msg");
    assert_eq!(store.byte_size(), 10)
}

#[test]
fn mem_should_prune_store_byte_size_to_10_when_group_max_byte_size_exists() {
    let mut store = open();
    store.add(1, size("1234567890")).expect("Could not add first msg");
    assert!(store.set_group_max_byte_size(1, Some(10)), "Could not find group");
    store.add(1, size("1234567890")).expect("Could not second msg");
    assert_eq!(store.byte_size(), 10)
}

#[test]
fn mem_should_prune_group_byte_size_to_10_when_group_max_byte_size_exists() {
    let mut store = open();
    store.add(1, size("1234567890")).expect("Could not add first msg");
    assert!(store.set_group_max_byte_size(1, Some(10)), "Could not get mutable group");
    store.add(1, size("1234567890")).expect("Could not second msg");
    let group = store.group(1).expect("Could get group ref");
    assert_eq!(group.byte_size, 10)
}

#[test]
fn mem_should_prune_oldest_msg_in_a_group_when_exceeding_group_max_byte_size() {
    let mut store = open();
    let first_uuid = store.add(1, size("1234567890")).expect("Could not add first msg").uuid;
    assert!(store.set_group_max_byte_size(1, Some(10)), "Could not get mutable group");
    let second_uuid = store.add(1, size("1234567890")).expect("Could not second msg").uuid;
    assert_eq!(None, store.msg_priority(&first_uuid));
    assert_eq!(Some(1), store.msg_priority(&second_uuid));
}

#[test]
fn mem_should_prune_oldest_msg_in_a_group_when_exceeding_store_max_byte_size() {
    let mut store = open();
    store.set_max_byte_size(Some(10));
    let first_uuid = store.add(1, size("1234567890")).expect("Could not add first msg").uuid;
    let second_uuid = store.add(1, size("1234567890")).expect("Could not second msg").uuid;
    assert_eq!(None, store.msg_priority(&first_uuid));
    assert_eq!(Some(1), store.msg_priority(&second_uuid));
}

#[test]
fn mem_should_prune_oldest_lowest_pri_msg_in_the_store_when_exceeding_store_max_byte_size() {
    let mut store = open();
    store.set_max_byte_size(Some(20));
    let first_uuid = store.add(2, size("1234567890")).expect("Could not add first msg").uuid;
    let second_uuid = store.add(1, size("1234567890")).expect("Could not second msg").uuid;
    let third_uuid = store.add(1, size("1234567890")).expect("Could not second msg").uuid;
    assert_eq!(Some(2), store.msg_priority(&first_uuid));
    assert_eq!(None, store.msg_priority(&second_uuid));
    assert_eq!(Some(1), store.msg_priority(&third_uuid));
}

#[test]
fn mem_should_return_msg_to_large_for_store_err() {
    let mut store = open();
    store.set_max_byte_size(Some(9));
    let result = store.add(2, size("1234567890"));
    assert!(result.is_err());
}

#[test]
fn mem_should_return_msg_to_large_for_group_err() {
    let mut store = open();
    store.add(1, size("1234567890")).expect("Could not add first msg");
    assert!(store.set_group_max_byte_size(1, Some(10)), "Could not get mutable group");
    let result = store.add(1, size("12345678901"));
    assert!(result.is_err());
}

#[test]
fn mem_should_return_msg_lacks_priority_err() {
    let mut store = open();
    store.set_max_byte_size(Some(20));
    store.add(2, size("1234567890")).expect("Could not add first msg");
    store.add(2, size("1234567890")).expect("Could not second msg");
    let result = store.add(1, size("1234567890"));
    assert!(result.is_err());
}

#[test]
fn should_create_group_with_defaults() {
    let mut store = open();
    store.update_group_defaults(1, &GroupDefaults { max_byte_size: Some(10) }).unwrap();
    store.add(1, size("1234567890")).expect("Could not add msg");
    let group = store.group(1).expect("Could not get group");
    assert_eq!(Some(10), group.max_byte_size);
}

#[test]
fn should_reinsert_group_after_errors() {
    let mut store = open();
    store.set_max_byte_size(Some(10));
    store.add(2, size("12345")).expect("Could not add msg");
    let first_attempt = store.add(2, size("12345678901"));
    assert!(first_attempt.is_err());
    assert!(store.set_group_max_byte_size(2, Some(5)), "Group not found");
    let second_attempt = store.add(2, size("123456"));
    assert!(second_attempt.is_err());
    let third_attempt = store.add(1, size("123456"));
    assert!(third_attempt.is_err());
    let group = store.group(2);
    assert!(group.is_some());
}

#[test]
fn add_reports_each_failure_kind() {
    let mut store = open();
    store.set_max_byte_size(Some(9));
    assert_eq!(store.add(1, 10).err().unwrap().err_ty, StoreErrorTy::ExceedesStoreMax);
    store.set_max_byte_size(Some(20));
    store.update_group_defaults(3, &GroupDefaults { max_byte_size: Some(4) }).unwrap();
    assert_eq!(store.add(3, 5).err().unwrap().err_ty, StoreErrorTy::ExceedesGroupMax);
    store.add(2, 10).unwrap();
    store.add(2, 10).unwrap();
    assert_eq!(store.add(1, 1).err().unwrap().err_ty, StoreErrorTy::LacksPriority);
}

#[test]
fn add_with_uuid_inserts_under_the_given_id() {
    let mut store = open();
    let u = std::sync::Arc::new(msg_store::store::uuid::Uuid { priority: 4, timestamp: 9, sequence: 1, node_id: 0 });
    let r = store.add_with_uuid(u.clone(), 7).unwrap();
    assert_eq!(r.uuid, u);
    assert_eq!(store.msg_priority(&u), Some(4));
    assert_eq!(store.byte_size(), 7);
}

#[test]
fn add_reports_what_it_burned() {
    let mut store = open();
    let a = store.add(1, 4).unwrap().uuid;
    let b = store.add(1, 4).unwrap().uuid;
    let c = store.add(2, 4).unwrap().uuid;
    store.set_max_byte_size(Some(12));
    let r = store.add(3, 8).unwrap();
    assert_eq!(r.bytes_removed, 8);
    assert_eq!(r.msgs_removed, vec![a.clone(), b.clone()]);
    assert_eq!(r.groups_removed, vec![1]);
    assert_eq!(store.byte_size(), 12);
    assert_eq!(store.msg_priority(&c), Some(2));
    assert!(store.group(1).is_none());
}

#[test]
fn add_never_burns_higher_priorities() {
    let mut store = open();
    store.set_max_byte_size(Some(10));
    let high = store.add(5, 6).unwrap().uuid;
    let low = store.add(1, 3).unwrap().uuid;
    let r = store.add(1, 4).unwrap();
    assert_eq!(r.msgs_removed, vec![low]);
    assert_eq!(store.msg_priority(&high), Some(5));
    assert_eq!(store.byte_size(), 10);
}

#[test]
fn add_burns_the_lowest_priorities_first() {
    let mut store = open();
    let a = store.add(1, 3).unwrap().uuid;
    let b = store.add(2, 3).unwrap().uuid;
    let c = store.add(2, 3).unwrap().uuid;
    let d = store.add(3, 3).unwrap().uuid;
    store.set_max_byte_size(Some(12));
    let r = store.add(4, 6).unwrap();
    assert_eq!(r.msgs_removed, vec![a.clone(), b.clone()]);
    assert_eq!(r.groups_removed, vec![1]);
    assert!(store.group(1).is_none());
    assert_eq!(store.msg_priority(&c), Some(2));
    assert_eq!(store.msg_priority(&d), Some(3));
    assert_eq!(store.group(2).unwrap().byte_size, 3);
    assert_eq!(store.group(3).unwrap().byte_size, 3);
    assert_eq!(store.byte_size(), 12);
}
