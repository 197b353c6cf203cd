use hosts_pilot::errors::Error;
use hosts_pilot::paths::{backups_dir_under, get_metadata_path, get_profiles_dir, profiles_dir_under};
use hosts_pilot::store::Store;

#[test]
fn activate_unknown_profile_changes_nothing() {
    let mut s = Store::new("untouched\n".to_string());
    assert_eq!(s.create_profile("work"), Ok(()));
    assert_eq!(
        s.activate_profile("ghost", "20240101_000001", 1),
        Err(Error::NotFoundError)
    );
    assert_eq!(s.get_active_profile(), "".to_string());
    assert_eq!(s.read_system_hosts(), "untouched\n".to_string());
    assert!(s.list_backups().is_empty());
}

#[test]
fn activation_scenario_switches_live_and_pointer() {
    let mut s = Store::new("system-default\n".to_string());
    assert_eq!(s.create_profile("work"), Ok(()));
    assert_eq!(s.create_profile("home"), Ok(()));
    assert_eq!(s.write_profile("work", "work-hosts\n"), Ok(()));
    assert_eq!(s.write_profile("home", "home-hosts\n"), Ok(()));
    assert_eq!(s.get_active_profile(), "".to_string());

    assert_eq!(s.activate_profile("work", "20240101_000001", 1), Ok(()));
    assert_eq!(s.read_system_hosts(), "work-hosts\n".to_string());
    assert_eq!(s.get_active_profile(), "work".to_string());
    assert_eq!(s.list_backups().len(), 1);

    assert_eq!(s.activate_profile("home", "20240101_000002", 2), Ok(()));
    assert_eq!(s.read_system_hosts(), "home-hosts\n".to_string());
    assert_eq!(s.get_active_profile(), "home".to_string());
    assert_eq!(s.list_backups().len(), 2);

    assert_eq!(s.delete_profile("home"), Err(Error::ConflictError));
}

#[test]
fn activation_captures_the_previous_live_content() {
    let mut s = Store::new("before\n".to_string());
    assert_eq!(s.create_profile("work"), Ok(()));
    assert_eq!(s.write_profile("work", "after\n"), Ok(()));
    assert_eq!(s.activate_profile("work", "20240101_000001", 1), Ok(()));
    let ids = s.list_backups();
    assert_eq!(ids.len(), 1);
    assert_eq!(s.read_backup(&ids[0]), Ok("before\n".to_string()));
}

#[test]
fn clock_backed_activation_switches_live() {
    let mut s = Store::new("default\n".to_string());
    assert_eq!(s.create_profile("work"), Ok(()));
    assert_eq!(s.write_profile("work", "clocked\n"), Ok(()));
    assert_eq!(s.activate_profile_now("work"), Ok(()));
    assert_eq!(s.read_system_hosts(), "clocked\n".to_string());
    assert_eq!(s.get_active_profile(), "work".to_string());
    assert_eq!(s.list_backups().len(), 1);
}

#[test]
fn clock_backed_restore_goes_back() {
    let mut s = Store::new("original\n".to_string());
    // a snapshot under a stamp far in the past cannot collide with the
    // stamp of the restore's own implicit capture
    let id = s.backup_hosts("20200101_000000", 1);
    assert_eq!(s.create_profile("work"), Ok(()));
    assert_eq!(s.write_profile("work", "changed\n"), Ok(()));
    assert_eq!(s.activate_profile_now("work"), Ok(()));
    assert_eq!(s.read_system_hosts(), "changed\n".to_string());
    assert_eq!(s.restore_hosts_now(&id), Ok(()));
    assert_eq!(s.read_system_hosts(), "original\n".to_string());
}

#[test]
fn path_helpers_follow_the_layout() {
    assert_eq!(
        profiles_dir_under("/data"),
        "/data/HostsPilot/profiles".to_string()
    );
    assert_eq!(
        backups_dir_under("/data"),
        "/data/HostsPilot/backups".to_string()
    );
    if let Ok(p) = get_profiles_dir() {
        assert!(p.ends_with("/HostsPilot/profiles"));
    }
    if let Ok(p) = get_metadata_path() {
        assert!(p.ends_with("/HostsPilot/profiles/metadata.json"));
    }
}
