use clam_onaccess::config::{
    describe_pid_error, is_exempt, max_connection, parse_pid, pid_path, socket_path, AbsoluteDirPath, Args, Config,
    RawSetting, Response, Setting,
};
use clam_onaccess::text::NumberError;
use std::path::PathBuf;

fn dir(path: &str) -> AbsoluteDirPath {
    AbsoluteDirPath::from_bytes(path.as_bytes().to_vec()).unwrap()
}

fn raw() -> RawSetting {
    RawSetting {
        socket_path: None,
        pid_path: None,
        max_connection: None,
        directories: vec![dir("/home")],
        exclude_directories: None,
        deny_on_error: None,
        exclude_uids: None,
    }
}

fn config(pid_content: &str) -> Config {
    Setting::from_raw(raw()).into_config(77, pid_content).unwrap()
}

#[test]
fn directory_paths_end_with_one_separator() {
    assert_eq!(dir("/home").as_bytes(), b"/home/");
    assert_eq!(dir("/home/").as_bytes(), b"/home/");
    assert_eq!(dir("/home//").as_bytes(), b"/home//");
    assert_eq!(dir("/").as_bytes(), b"/");
}

#[test]
fn accepted_directory_path_is_stable() {
    let once = dir("/srv/data");
    let twice = AbsoluteDirPath::from_bytes(once.as_bytes().to_vec()).unwrap();
    assert_eq!(once.as_bytes(), twice.as_bytes());
}

#[test]
fn relative_directory_paths_are_refused() {
    for path in ["", "home", "./home", "../home", "home/"] {
        let e = AbsoluteDirPath::from_bytes(path.as_bytes().to_vec()).unwrap_err();
        assert_eq!(e.path, path.as_bytes());
        assert_eq!(e.message(), "Path must be absolute");
        assert_eq!(e.describe(path), format!("Path must be absolute: {path}"));
    }
}

#[test]
fn usual_values() {
    assert_eq!(socket_path(), b"/run/clamav/clamd.ctl");
    assert_eq!(pid_path(), b"/run/clamav/clamd.pid");
    assert_eq!(max_connection(), 20);
    let setting = Setting::from_raw(raw());
    assert_eq!(setting.socket_path, b"/run/clamav/clamd.ctl");
    assert_eq!(setting.pid_path, b"/run/clamav/clamd.pid");
    assert_eq!(setting.max_connection, 20);
    assert_eq!(setting.directories.len(), 1);
    assert!(setting.exclude_directories.is_empty());
    assert!(!setting.deny_on_error);
    assert!(setting.exclude_uids.is_empty());
}

#[test]
fn set_values_are_kept() {
    let setting = Setting::from_raw(RawSetting {
        socket_path: Some(b"/tmp/s".to_vec()),
        pid_path: Some(b"/tmp/p".to_vec()),
        max_connection: Some(3),
        directories: vec![],
        exclude_directories: Some(vec![dir("/x")]),
        deny_on_error: Some(true),
        exclude_uids: Some(vec![0, 5]),
    });
    let cfg = setting.into_config(9, "42\n").unwrap();
    assert_eq!(cfg.socket_path, b"/tmp/s");
    assert_eq!(cfg.max_connection, 3);
    assert!(cfg.dirs.is_empty());
    assert_eq!(cfg.ex_dirs[0].as_bytes(), b"/x/");
    assert_eq!(cfg.res_on_error, Response::Deny);
    assert_eq!(cfg.uids, vec![0, 5]);
    assert_eq!(cfg.my_pid, 9);
    assert_eq!(cfg.clamd_pid, 42);
}

#[test]
fn files_may_be_opened_on_error_unless_denied() {
    assert_eq!(config("1").res_on_error, Response::Allow);
}

#[test]
fn pid_file_content_is_a_number() {
    assert_eq!(parse_pid("1234\n"), Ok(1234));
    assert_eq!(parse_pid("1234 \t\r\n"), Ok(1234));
    assert_eq!(parse_pid("\n"), Err(NumberError::Empty));
    assert_eq!(parse_pid(" 1234"), Err(NumberError::InvalidDigit));
    assert_eq!(parse_pid("4294967296\n"), Err(NumberError::PosOverflow));
    let setting = Setting::from_raw(raw());
    let e = setting.into_config(1, "none\n").unwrap_err();
    assert_eq!(e, NumberError::InvalidDigit);
    assert_eq!(
        describe_pid_error("/run/p", e),
        "Failed to parse PID from '/run/p': invalid digit found in string"
    );
}

#[test]
fn new_pid_of_clamd_is_taken_over() {
    let mut cfg = config("10\n");
    assert!(!is_exempt(&cfg.pids(), cfg.clamd_pid, 11));
    assert!(cfg.update_clamd_pid("11\n"));
    assert_eq!(cfg.clamd_pid, 11);
    assert!(is_exempt(&cfg.pids(), cfg.clamd_pid, 11));
    assert!(is_exempt(&cfg.pids(), cfg.clamd_pid, 77));
    assert!(!is_exempt(&cfg.pids(), cfg.clamd_pid, 10));
}

#[test]
fn broken_pid_file_changes_nothing() {
    let mut cfg = config("10\n");
    assert!(!cfg.update_clamd_pid(""));
    assert!(!cfg.update_clamd_pid("-3\n"));
    assert_eq!(cfg.clamd_pid, 10);
    assert_eq!(cfg.my_pid, 77);
}

#[test]
fn exempt_processes_are_listed() {
    assert!(is_exempt(&[1, 2, 3], 9, 3));
    assert!(is_exempt(&[], 9, 9));
    assert!(!is_exempt(&[1, 2, 3], 9, 4));
}

#[test]
fn arguments_name_the_settings() {
    let args = Args { config: PathBuf::from("/etc/scan.json") };
    assert_eq!(args.config, PathBuf::from("/etc/scan.json"));
}

#[test]
fn directory_path_keeps_what_was_written() {
    assert_eq!(dir("/a").as_bytes(), dir("/a/").as_bytes());
    assert_ne!(dir("/a").as_bytes(), dir("/b").as_bytes());
    assert_ne!(dir("/a").as_bytes(), dir("/a//").as_bytes());
}
