use hosts_pilot::errors::Error;
use hosts_pilot::store::Store;

fn fresh(live: &str) -> Store {
    Store::new(live.to_string())
}

#[test]
fn create_then_read_returns_placeholder() {
    let mut s = fresh("127.0.0.1 localhost\n");
    assert_eq!(s.create_profile("work"), Ok(()));
    assert_eq!(s.read_profile("work"), Ok("# New profile\n".to_string()));
}

#[test]
fn write_then_read_round_trips() {
    let mut s = fresh("");
    assert_eq!(s.create_profile("work"), Ok(()));
    assert_eq!(s.write_profile("work", "10.0.0.1 build-server\n"), Ok(()));
    assert_eq!(s.read_profile("work"), Ok("10.0.0.1 build-server\n".to_string()));
}

#[test]
fn create_rejects_empty_name() {
    let mut s = fresh("");
    assert_eq!(s.create_profile(""), Err(Error::ValidationError));
    assert!(s.list_profiles().is_empty());
}

#[test]
fn create_rejects_duplicate_name() {
    let mut s = fresh("");
    assert_eq!(s.create_profile("work"), Ok(()));
    assert_eq!(s.create_profile("work"), Err(Error::ConflictError));
    assert_eq!(s.list_profiles(), vec!["work".to_string()]);
}

#[test]
fn list_profiles_keeps_record_order() {
    let mut s = fresh("");
    assert_eq!(s.create_profile("work"), Ok(()));
    assert_eq!(s.create_profile("home"), Ok(()));
    assert_eq!(s.create_profile("lab"), Ok(()));
    assert_eq!(
        s.list_profiles(),
        vec!["work".to_string(), "home".to_string(), "lab".to_string()]
    );
    assert_eq!(s.get_active_profile(), "".to_string());
}

#[test]
fn delete_unknown_profile_fails() {
    let mut s = fresh("");
    assert_eq!(s.delete_profile("ghost"), Err(Error::NotFoundError));
}

#[test]
fn delete_removes_profile_and_file() {
    let mut s = fresh("");
    assert_eq!(s.create_profile("work"), Ok(()));
    assert_eq!(s.create_profile("home"), Ok(()));
    assert_eq!(s.delete_profile("work"), Ok(()));
    assert_eq!(s.list_profiles(), vec!["home".to_string()]);
    assert_eq!(s.read_profile("work"), Err(Error::NotFoundError));
}

#[test]
fn delete_active_profile_is_rejected() {
    let mut s = fresh("orig\n");
    assert_eq!(s.create_profile("work"), Ok(()));
    assert_eq!(s.activate_profile("work", "20240101_120000", 100), Ok(()));
    assert_eq!(s.delete_profile("work"), Err(Error::ConflictError));
    // the profile remains listed and unchanged
    assert_eq!(s.list_profiles(), vec!["work".to_string()]);
    assert_eq!(s.read_profile("work"), Ok("# New profile\n".to_string()));
    assert_eq!(s.get_active_profile(), "work".to_string());
}

#[test]
fn rename_preserves_content_and_active_pointer() {
    let mut s = fresh("orig\n");
    assert_eq!(s.create_profile("work"), Ok(()));
    assert_eq!(s.write_profile("work", "1.2.3.4 host\n"), Ok(()));
    assert_eq!(s.activate_profile("work", "20240101_120000", 100), Ok(()));
    assert_eq!(s.rename_profile("work", "office"), Ok(()));
    assert_eq!(s.read_profile("office"), Ok("1.2.3.4 host\n".to_string()));
    assert_eq!(s.read_profile("work"), Err(Error::NotFoundError));
    assert_eq!(s.get_active_profile(), "office".to_string());
    assert_eq!(s.list_profiles(), vec!["office".to_string()]);
}

#[test]
fn rename_error_cases() {
    let mut s = fresh("");
    assert_eq!(s.create_profile("work"), Ok(()));
    assert_eq!(s.create_profile("home"), Ok(()));
    assert_eq!(s.rename_profile("work", ""), Err(Error::ValidationError));
    assert_eq!(s.rename_profile("ghost", "x"), Err(Error::NotFoundError));
    assert_eq!(s.rename_profile("work", "home"), Err(Error::ConflictError));
    // nothing changed
    assert_eq!(
        s.list_profiles(),
        vec!["work".to_string(), "home".to_string()]
    );
}

#[test]
fn orphan_files_are_tolerated_but_never_listed() {
    let mut s = fresh("");
    assert_eq!(s.create_profile("work"), Ok(()));
    // writing under an unknown name creates a content file without a
    // record entry, exactly as a full overwrite to a fresh path would
    assert_eq!(s.write_profile("stray", "s\n"), Ok(()));
    assert_eq!(s.list_profiles(), vec!["work".to_string()]);
    assert_eq!(s.read_profile("stray"), Ok("s\n".to_string()));
    // the orphan's name is still free to be created, and the create
    // seeds it afresh
    assert_eq!(s.create_profile("stray"), Ok(()));
    assert_eq!(s.read_profile("stray"), Ok("# New profile\n".to_string()));
    assert_eq!(
        s.list_profiles(),
        vec!["work".to_string(), "stray".to_string()]
    );
}

#[test]
fn error_messages_name_the_failure() {
    assert_eq!(Error::ValidationError.message(), "profile name cannot be empty");
    assert_eq!(
        Error::ConflictError.message(),
        "the operation conflicts with an existing or active profile"
    );
    assert_eq!(Error::NotFoundError.message(), "no such profile or backup");
    assert_eq!(Error::PermissionError.message(), "writing the live file was denied");
    assert_eq!(Error::IoError.message(), "a filesystem operation failed");
    assert_eq!(Error::ParseError.message(), "the metadata record is malformed");
    assert_eq!(
        Error::EnvironmentError.message(),
        "no application-data directory was found"
    );
}
