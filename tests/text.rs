use vbox::disk::FileDisk;
use vbox::filesystem::FileSystem;
use vbox::scheduler::Scheduler;
use vbox::shell::Shell;
use vbox::text::{decimal_string, parse_id, route_record};
use vbox::vps::{VpsManager, VpsStatus};

#[test]
fn decimal_numerals() {
    assert_eq!(decimal_string(0), "0");
    assert_eq!(decimal_string(7), "7");
    assert_eq!(decimal_string(1234), "1234");
    assert_eq!(decimal_string(u64::MAX), u64::MAX.to_string());
}

#[test]
fn route_text() {
    assert_eq!(route_record("a", "b"), "Destination: a\nGateway: b");
}

#[test]
fn vps_status_words() {
    assert_eq!(VpsStatus::Stopped.as_string(), "stopped");
    assert_eq!(VpsStatus::Running.as_string(), "running");
}

#[test]
fn shell_resolves_paths() {
    let mut shell = Shell::new(
        FileSystem::new(),
        FileDisk::empty("shell.bin"),
        Scheduler::new(),
        VpsManager::new(),
    );
    assert_eq!(shell.cwd(), "/");
    assert_eq!(shell.resolve_path("/etc"), "/etc");
    assert_eq!(shell.resolve_path("docs"), "/docs");
    shell.set_cwd("/home/");
    assert_eq!(shell.resolve_path("docs"), "/home/docs");
    shell.set_cwd("/home");
    assert_eq!(shell.resolve_path("a/b"), "/home/a/b");
}

#[test]
fn ids_parse_like_u32() {
    assert_eq!(parse_id("42"), Some(42));
    assert_eq!(parse_id("+7"), Some(7));
    assert_eq!(parse_id("007"), Some(7));
    assert_eq!(parse_id("4294967295"), Some(u32::MAX));
    assert_eq!(parse_id("4294967296"), None);
    assert_eq!(parse_id(""), None);
    assert_eq!(parse_id("+"), None);
    assert_eq!(parse_id("-1"), None);
    assert_eq!(parse_id("1a"), None);
    for s in ["0", "12", "+3", "99999999999", " 1", "٣"] {
        assert_eq!(parse_id(s), s.parse::<u32>().ok());
    }
}
