use dispatcher::messages::{ErrorKind, GetAll, Operation, OperationResult, Update};
use dispatcher::models::NewUser;
use dispatcher::store::Store;

fn row(uuid: u128, name: &str, age: i16) -> NewUser {
    NewUser { uuid, name: String::from(name), age, is_sub: false }
}

#[test]
fn create_assigns_fields_and_default_flag() {
    let mut s = Store::new();
    let r = s.insert(row(7, "ana", 30));
    match r {
        OperationResult::Record(u) => {
            assert_eq!(u.uuid, 7);
            assert_eq!(u.name, "ana");
            assert_eq!(u.age, 30);
            assert!(!u.is_sub);
        }
        _ => panic!("expected the persisted record back"),
    }
    assert_eq!(s.users.len(), 1);
}

#[test]
fn duplicate_identifier_is_refused() {
    let mut s = Store::new();
    s.insert(row(7, "ana", 30));
    let r = s.insert(row(7, "bo", 41));
    assert!(matches!(r, OperationResult::Failure(ErrorKind::ResourceError)));
    assert_eq!(s.users.len(), 1);
    assert_eq!(s.users[0].name, "ana");
}

#[test]
fn rename_missing_returns_not_found() {
    let mut s = Store::new();
    let r = s.update_name(99, String::from("zoe"));
    assert!(matches!(r, OperationResult::Failure(ErrorKind::NotFound)));
}

#[test]
fn delete_missing_returns_count_zero() {
    let mut s = Store::new();
    s.insert(row(7, "ana", 30));
    let r = s.delete_by_uuid(99);
    assert!(matches!(r, OperationResult::DeletedCount(0)));
    assert_eq!(s.users.len(), 1);
}

#[test]
fn rename_then_list_shows_new_name() {
    let mut s = Store::new();
    s.insert(row(7, "ana", 30));
    s.insert(row(8, "bo", 41));
    let r = s.update_name(7, String::from("anna"));
    match r {
        OperationResult::Record(u) => {
            assert_eq!(u.uuid, 7);
            assert_eq!(u.name, "anna");
            assert_eq!(u.age, 30);
        }
        _ => panic!("expected the renamed record back"),
    }
    match s.select_all() {
        OperationResult::RecordList(all) => {
            assert_eq!(all.len(), 2);
            let hit: Vec<_> = all.iter().filter(|u| u.uuid == 7).collect();
            assert_eq!(hit.len(), 1);
            assert_eq!(hit[0].name, "anna");
        }
        _ => panic!("expected the full snapshot"),
    }
}

#[test]
fn delete_then_list_is_smaller() {
    let mut s = Store::new();
    s.insert(row(7, "ana", 30));
    s.insert(row(8, "bo", 41));
    let r = s.delete_by_uuid(7);
    assert!(matches!(r, OperationResult::DeletedCount(1)));
    match s.select_all() {
        OperationResult::RecordList(all) => {
            assert_eq!(all.len(), 1);
            assert_eq!(all[0].uuid, 8);
        }
        _ => panic!("expected the full snapshot"),
    }
}

#[test]
fn list_of_empty_store_is_empty() {
    let s = Store::new();
    match s.select_all() {
        OperationResult::RecordList(all) => assert!(all.is_empty()),
        _ => panic!("expected the full snapshot"),
    }
}

#[test]
fn execute_dispatches_each_variant() {
    let mut s = Store::new();
    let created = s.execute(
        &Operation::Create(dispatcher::messages::Create { name: String::from("ana"), age: 30 }),
        5,
    );
    match created {
        OperationResult::Record(u) => assert_eq!(u.uuid, 5),
        _ => panic!("expected the persisted record back"),
    }
    let renamed = s.execute(
        &Operation::Update(Update { uuid: 5, name: String::from("anna") }),
        0,
    );
    assert!(matches!(renamed, OperationResult::Record(_)));
    let listed = s.execute(&Operation::GetAll(GetAll), 0);
    match listed {
        OperationResult::RecordList(all) => {
            assert_eq!(all.len(), 1);
            assert_eq!(all[0].name, "anna");
        }
        _ => panic!("expected the full snapshot"),
    }
    let gone = s.execute(&Operation::Delete(dispatcher::messages::Delete { uuid: 5 }), 0);
    assert!(matches!(gone, OperationResult::DeletedCount(1)));
}
