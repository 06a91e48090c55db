use mempal::ingest::{dir_options, file_options, IngestOptions};
use mempal::paths::{
    choose_name, mempal_home_from_db, normalize_source_file, should_skip_dir, skips_name,
};
use std::path::{Path, PathBuf};

#[test]
fn source_is_named_below_its_root() {
    let path = Path::new("/root/docs/notes/a.md");
    assert_eq!(normalize_source_file(path, Some(Path::new("/root/docs"))), "notes/a.md");
    assert_eq!(normalize_source_file(path, Some(Path::new("/elsewhere"))), "a.md");
    assert_eq!(normalize_source_file(path, Some(path)), "a.md");
    assert_eq!(normalize_source_file(path, None), "a.md");
    assert_eq!(normalize_source_file(Path::new("/"), None), "/");
    assert_eq!(normalize_source_file(Path::new(".."), None), "..");
}

#[test]
fn source_names_hold_no_backslash() {
    let path = Path::new("/root/a\\b\\c.md");
    assert_eq!(normalize_source_file(path, Some(Path::new("/root"))), "a/b/c.md");
    assert_eq!(choose_name(Some("x\\y".into()), None, "w".into()), "x/y");
    assert_eq!(choose_name(Some(String::new()), Some("f".into()), "w".into()), "f");
    assert_eq!(choose_name(Some(String::new()), None, "w\\".into()), "w/");
    assert_eq!(choose_name(None, None, "w".into()), "w");
}

#[test]
fn build_directories_are_passed_over() {
    for name in [".git", "target", "node_modules"] {
        assert!(skips_name(name));
        assert!(should_skip_dir(&Path::new("/some/project").join(name)));
    }
    assert!(!should_skip_dir(Path::new("/target/src")));
    assert!(!should_skip_dir(Path::new("/")));
    assert!(!skips_name("Target"));
    assert!(!skips_name(""));
}

#[test]
fn home_is_where_the_database_lies() {
    assert_eq!(mempal_home_from_db(Path::new("/home/u/palace.db")), PathBuf::from("/home/u"));
    assert_eq!(mempal_home_from_db(Path::new("/")), PathBuf::from("."));
    assert_eq!(mempal_home_from_db(Path::new("palace.db")), PathBuf::from(""));
}

#[test]
fn options_of_files_and_directories() {
    let path = Path::new("/root/a.md");
    let file = file_options(path, Some("r"));
    assert_eq!(file.room, Some("r"));
    assert_eq!(file.source_root, Some(Path::new("/root")));
    assert!(!file.dry_run);
    let dir = dir_options(path, None);
    assert_eq!(dir.room, None);
    assert_eq!(dir.source_root, Some(path));
    assert!(!dir.dry_run);
    let plain = IngestOptions::default();
    assert!(plain.room.is_none() && plain.source_root.is_none() && !plain.dry_run);
}
