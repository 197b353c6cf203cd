use hosts_pilot::errors::Error;
use hosts_pilot::store::{is_recognized_backup_id, Store};

fn stamp(n: u32) -> String {
    format!("20240101_{:06}", n)
}

#[test]
fn capture_names_entry_from_stamp() {
    let mut s = Store::new("live\n".to_string());
    let id = s.backup_hosts("20240102_030405", 7);
    assert_eq!(id, "hosts_backup_20240102_030405.txt".to_string());
    assert_eq!(s.list_backups(), vec![id.clone()]);
    assert_eq!(s.read_backup(&id), Ok("live\n".to_string()));
}

#[test]
fn capture_with_same_stamp_overwrites() {
    let mut s = Store::new("first\n".to_string());
    assert_eq!(s.create_profile("p"), Ok(()));
    assert_eq!(s.write_profile("p", "second\n"), Ok(()));
    let id1 = s.backup_hosts("20240101_000001", 1);
    // activation switches the live content to the profile's
    assert_eq!(s.activate_profile("p", "20240101_000001", 2), Ok(()));
    // a capture within the same second replaces the entry rather than
    // adding a second one
    let id2 = s.backup_hosts("20240101_000001", 3);
    assert_eq!(id1, id2);
    assert_eq!(s.list_backups().len(), 1);
    assert_eq!(s.read_backup(&id2), Ok("second\n".to_string()));
}

#[test]
fn retention_keeps_the_25_most_recent() {
    let mut s = Store::new(String::new());
    for n in 0..30u32 {
        let _ = s.backup_hosts(&stamp(n), n as i64);
    }
    let ids = s.list_backups();
    assert_eq!(ids.len(), 25);
    // the five oldest (by modification time) were evicted first
    for n in 0..5u32 {
        assert!(!ids.contains(&format!("hosts_backup_{}.txt", stamp(n))));
    }
    for n in 5..30u32 {
        assert!(ids.contains(&format!("hosts_backup_{}.txt", stamp(n))));
    }
}

#[test]
fn list_backups_sorts_newest_first() {
    let mut s = Store::new(String::new());
    let _ = s.backup_hosts("20240101_000001", 1);
    let _ = s.backup_hosts("20240103_000003", 3);
    let _ = s.backup_hosts("20240102_000002", 2);
    assert_eq!(
        s.list_backups(),
        vec![
            "hosts_backup_20240103_000003.txt".to_string(),
            "hosts_backup_20240102_000002.txt".to_string(),
            "hosts_backup_20240101_000001.txt".to_string(),
        ]
    );
}

#[test]
fn restore_is_preceded_by_an_implicit_capture() {
    let mut s = Store::new("old-live\n".to_string());
    let id = s.backup_hosts(&stamp(1), 1);
    let before = s.list_backups().len();
    assert_eq!(s.restore_hosts(&id, &stamp(2), 2), Ok(()));
    assert_eq!(s.list_backups().len(), before + 1);
    assert_eq!(s.read_system_hosts(), "old-live\n".to_string());
}

#[test]
fn restore_unknown_backup_fails() {
    let mut s = Store::new("live\n".to_string());
    assert_eq!(
        s.restore_hosts("hosts_backup_20240101_000001.txt", &stamp(9), 9),
        Err(Error::NotFoundError)
    );
    assert!(s.list_backups().is_empty());
}

#[test]
fn restore_of_just_evicted_entry_reports_io_failure() {
    let mut s = Store::new(String::new());
    for n in 0..25u32 {
        let _ = s.backup_hosts(&stamp(n), n as i64);
    }
    let oldest = format!("hosts_backup_{}.txt", stamp(0));
    // the implicit capture pushes the set to 26 and evicts the oldest,
    // which is the very entry being restored
    assert_eq!(
        s.restore_hosts(&oldest, &stamp(99), 99),
        Err(Error::IoError)
    );
    assert_eq!(s.list_backups().len(), 25);
}

#[test]
fn delete_backup_removes_one_entry() {
    let mut s = Store::new(String::new());
    let id1 = s.backup_hosts(&stamp(1), 1);
    let id2 = s.backup_hosts(&stamp(2), 2);
    assert_eq!(s.delete_backup(&id1), Ok(()));
    assert_eq!(s.list_backups(), vec![id2.clone()]);
    assert_eq!(s.delete_backup(&id1), Err(Error::NotFoundError));
    assert_eq!(s.read_backup(&id1), Err(Error::NotFoundError));
}

#[test]
fn delete_all_backups_empties_the_set() {
    let mut s = Store::new(String::new());
    let _ = s.backup_hosts(&stamp(1), 1);
    let _ = s.backup_hosts(&stamp(2), 2);
    assert_eq!(s.delete_all_backups(), Ok(()));
    assert!(s.list_backups().is_empty());
    // deleting from an empty set stays a success
    assert_eq!(s.delete_all_backups(), Ok(()));
}

#[test]
fn clock_backed_capture_uses_the_naming_scheme() {
    let mut s = Store::new("live\n".to_string());
    let id = s.backup_hosts_now();
    assert!(id.starts_with("hosts_backup_"));
    assert!(id.ends_with(".txt"));
    assert_eq!(s.list_backups(), vec![id.clone()]);
    assert_eq!(s.read_backup(&id), Ok("live\n".to_string()));
}

#[test]
fn every_listed_identifier_carries_the_extension() {
    let mut s = Store::new("live\n".to_string());
    for n in 0..3u32 {
        let _ = s.backup_hosts(&stamp(n), n as i64);
    }
    let _ = s.backup_hosts_now();
    for id in s.list_backups() {
        assert!(is_recognized_backup_id(&id));
    }
}
