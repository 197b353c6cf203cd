use hosts_pilot::errors::Error;
use hosts_pilot::store::{is_recognized_backup_id, BackupEntry, Metadata, ProfileFile, Store};

fn file(name: &str, content: &str) -> ProfileFile {
    ProfileFile { name: name.to_string(), content: content.to_string() }
}

fn entry(id: &str, mtime: i64, content: &str) -> BackupEntry {
    BackupEntry { id: id.to_string(), mtime, content: content.to_string() }
}

#[test]
fn from_parts_accepts_a_consistent_state() {
    let meta = Metadata {
        active: "work".to_string(),
        profiles: vec!["work".to_string(), "home".to_string()],
    };
    let files = vec![file("work", "w\n"), file("home", "h\n")];
    let backups = vec![entry("hosts_backup_20240101_000001.txt", 1, "old\n")];
    let mut st = Store::from_parts(meta, files, "live\n".to_string(), backups).unwrap();
    assert_eq!(st.get_active_profile(), "work".to_string());
    assert_eq!(st.read_profile("home"), Ok("h\n".to_string()));
    assert_eq!(st.read_system_hosts(), "live\n".to_string());
    assert_eq!(st.list_backups().len(), 1);
    assert_eq!(st.delete_profile("work"), Err(Error::ConflictError));
}

#[test]
fn from_parts_rejects_duplicate_names() {
    let meta = Metadata {
        active: String::new(),
        profiles: vec!["work".to_string(), "work".to_string()],
    };
    let files = vec![file("work", "w\n")];
    let r = Store::from_parts(meta, files, String::new(), Vec::new());
    assert!(matches!(r, Err(Error::ParseError)));
}

#[test]
fn from_parts_rejects_dangling_active_pointer() {
    let meta = Metadata { active: "ghost".to_string(), profiles: vec!["work".to_string()] };
    let files = vec![file("work", "w\n")];
    let r = Store::from_parts(meta, files, String::new(), Vec::new());
    assert!(matches!(r, Err(Error::ParseError)));
}

#[test]
fn from_parts_rejects_a_record_entry_without_its_file() {
    let meta = Metadata { active: String::new(), profiles: vec!["work".to_string()] };
    let r = Store::from_parts(meta, Vec::new(), String::new(), Vec::new());
    assert!(matches!(r, Err(Error::ParseError)));
}

#[test]
fn from_parts_tolerates_orphan_files() {
    let meta = Metadata { active: String::new(), profiles: vec!["work".to_string()] };
    let files = vec![file("work", "w\n"), file("stray", "s\n")];
    let st = Store::from_parts(meta, files, String::new(), Vec::new()).unwrap();
    // the orphan is never listed, but it can still be read
    assert_eq!(st.list_profiles(), vec!["work".to_string()]);
    assert_eq!(st.read_profile("stray"), Ok("s\n".to_string()));
}

#[test]
fn from_parts_rejects_duplicate_backup_identifiers() {
    let meta = Metadata { active: String::new(), profiles: Vec::new() };
    let backups = vec![
        entry("hosts_backup_20240101_000001.txt", 1, "a\n"),
        entry("hosts_backup_20240101_000001.txt", 2, "b\n"),
    ];
    let r = Store::from_parts(meta, Vec::new(), String::new(), backups);
    assert!(matches!(r, Err(Error::ParseError)));
}

#[test]
fn from_parts_rejects_an_unrecognized_backup_identifier() {
    let meta = Metadata { active: String::new(), profiles: Vec::new() };
    let backups = vec![entry("notes.md", 1, "stray\n")];
    let r = Store::from_parts(meta, Vec::new(), String::new(), backups);
    assert!(matches!(r, Err(Error::ParseError)));
}

#[test]
fn recognized_identifiers_carry_the_extension() {
    assert!(is_recognized_backup_id("hosts_backup_20240101_000001.txt"));
    assert!(is_recognized_backup_id("a.txt"));
    assert!(is_recognized_backup_id(".txt"));
    assert!(!is_recognized_backup_id("txt"));
    assert!(!is_recognized_backup_id("notes.md"));
    assert!(!is_recognized_backup_id("archive.txt.bak"));
    assert!(!is_recognized_backup_id(""));
}
