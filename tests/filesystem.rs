use vbox::filesystem::{FileSystem, FsError};
use vbox::node::{DevDirectory, File, NetworkDirectory, Node, NodeType, ProcDirectory};
use vbox::scheduler::{Job, Process, Scheduler};

#[test]
fn test_create_file() {
    let mut fs = FileSystem::new();
    let file = fs.create_file("/test.txt").unwrap();
    assert_eq!(file.name(), "test.txt");
    assert!(fs.get("/test.txt").is_some());
}

#[test]
fn test_create_dir() {
    let mut fs = FileSystem::new();
    let dir = fs.create_dir("/testdir").unwrap();
    assert_eq!(dir.name(), "testdir");
    assert!(fs.get("/testdir").is_some());
}

#[test]
fn test_split_path() {
    assert_eq!(FileSystem::split_path("/"), Vec::<&str>::new());
    assert_eq!(FileSystem::split_path("/a"), vec!["a"]);
    assert_eq!(FileSystem::split_path("/a/b/c"), vec!["a", "b", "c"]);
}

#[test]
fn split_path_drops_empty_segments() {
    assert_eq!(FileSystem::split_path("//a///b/"), vec!["a", "b"]);
    assert_eq!(FileSystem::split_path("a/b"), vec!["a", "b"]);
    assert_eq!(FileSystem::split_path(""), Vec::<&str>::new());
}

#[test]
fn nested_dir_and_file_are_found() {
    let mut fs = FileSystem::new();
    fs.create_dir("/a").unwrap();
    fs.create_dir("/a/b").unwrap();
    match fs.get("/a/b") {
        Some(Node::Directory(d)) => {
            assert_eq!(d.name(), "b");
            assert!(d.list().is_empty());
        }
        _ => panic!("expected a directory"),
    }
    fs.create_file("/a/b/c.txt").unwrap();
    match fs.get("/a/b/c.txt") {
        Some(Node::File(f)) => {
            assert_eq!(f.name(), "c.txt");
            assert!(f.read().is_empty());
        }
        _ => panic!("expected a file"),
    }
    match fs.get("/a/b") {
        Some(Node::Directory(d)) => assert_eq!(d.list(), vec!["c.txt"]),
        _ => panic!("expected a directory"),
    }
    match fs.get("/") {
        Some(Node::Directory(d)) => {
            assert_eq!(d.name(), "/");
            assert_eq!(d.list(), vec!["a"]);
        }
        _ => panic!("expected the root"),
    }
}

#[test]
fn create_reports_parent_errors() {
    let mut fs = FileSystem::new();
    assert_eq!(fs.create_file("/missing/x").err(), Some(FsError::ParentNotFound));
    fs.create_file("/f").unwrap();
    assert_eq!(fs.create_dir("/f/x").err(), Some(FsError::ParentNotDirectory));
    assert_eq!(fs.create_dir("/").err(), Some(FsError::InvalidPath));
    assert!(fs.get("/missing").is_none());
    assert!(fs.get("/f/x").is_none());
}

#[test]
fn create_replaces_existing_subtree() {
    let mut fs = FileSystem::new();
    fs.create_dir("/a").unwrap();
    fs.create_file("/a/x").unwrap();
    fs.create_file("/a").unwrap();
    assert!(matches!(fs.get("/a"), Some(Node::File(_))));
    assert!(fs.get("/a/x").is_none());
}

#[test]
fn file_writes_append() {
    let mut f = File::new("f");
    f.write(b"foo");
    f.write(b"bar");
    assert_eq!(f.read(), b"foobar");
}

#[test]
fn filesystem_writes_append() {
    let mut fs = FileSystem::new();
    fs.create_file("/notes").unwrap();
    fs.write_file("/notes", b"foo").unwrap();
    fs.write_file("/notes", b"bar").unwrap();
    match fs.get("/notes") {
        Some(Node::File(f)) => assert_eq!(f.read(), b"foobar"),
        _ => panic!("expected a file"),
    }
    assert_eq!(fs.write_file("/nothing", b"x"), Err(FsError::PathNotFound));
    fs.create_dir("/d").unwrap();
    assert_eq!(fs.write_file("/d", b"x"), Err(FsError::NotAFile));
}

#[test]
fn dev_mount() {
    let mut fs = FileSystem::new();
    fs.set_dev(DevDirectory::new());
    assert!(matches!(fs.get("/dev"), Some(Node::Dev(_))));
    match fs.get("/dev/null") {
        Some(Node::Null(n)) => assert_eq!(n.read(), ""),
        _ => panic!("expected /dev/null"),
    }
    match fs.get("/dev/random") {
        Some(Node::Random(r)) => assert_eq!(r.read(298), "42"),
        _ => panic!("expected /dev/random"),
    }
    assert!(fs.get("/dev/zero").is_none());
    assert_eq!(DevDirectory::new().list(), vec!["null", "random"]);
    assert_eq!(fs.write_file("/dev/null", b"gone"), Ok(()));
}

#[test]
fn network_mount() {
    let mut fs = FileSystem::new();
    fs.set_network(NetworkDirectory::new());
    match fs.get("/network/default") {
        Some(Node::Text(f)) => {
            assert_eq!(f.name, "default");
            assert_eq!(f.read(), "Destination: default\nGateway: 0.0.0.0/0 via 192.168.1.1");
        }
        _ => panic!("expected the default route"),
    }
    assert!(fs.add_route("10.0.0.0/8", "via 10.0.0.1"));
    assert!(fs.add_route("default", "via 192.168.1.254"));
    match fs.get("/network") {
        Some(Node::Network(n)) => {
            let routes = n.get_routes();
            assert_eq!(routes.len(), 2);
            assert!(routes.contains(&("default".to_string(), "via 192.168.1.254".to_string())));
            assert!(n.list().contains(&"10.0.0.0/8".to_string()));
        }
        _ => panic!("expected /network"),
    }
    match fs.get("/network/10.0.0.0/8") {
        Some(Node::Text(f)) => assert_eq!(f.read(), "Destination: 10.0.0.0/8\nGateway: via 10.0.0.1"),
        _ => panic!("expected a route"),
    }
    assert!(fs.get("/network/none").is_none());
}

#[test]
fn proc_mount_shows_processes() {
    let mut scheduler = Scheduler::new();
    let id = scheduler.add_process(Process::new(0, 7, 0, Job::Idle, None));
    let mut fs = FileSystem::new();
    fs.set_proc(ProcDirectory::new(&scheduler));
    match fs.get("/proc") {
        Some(Node::Proc(p)) => assert_eq!(p.list(), vec![id.to_string()]),
        _ => panic!("expected /proc"),
    }
    match fs.get(&format!("/proc/{}", id)) {
        Some(Node::Text(f)) => {
            assert_eq!(f.name, "task");
            assert_eq!(
                f.read(),
                "PID: 1\nPriority: 7\nStatus: ready\nParent PID: None\nMemory Usage: 0 bytes\n"
            );
        }
        _ => panic!("expected a process file"),
    }
    assert!(fs.get("/proc/2").is_none());
    assert!(fs.get("/proc/abc").is_none());
    assert!(matches!(fs.get("/proc/01"), Some(Node::Text(_))));
    assert!(matches!(fs.get("/proc/+1"), Some(Node::Text(_))));
}

#[test]
fn node_types() {
    let mut fs = FileSystem::new();
    fs.create_file("/f").unwrap();
    assert_eq!(fs.get("/f").unwrap().node_type(), NodeType::File);
    assert_eq!(fs.get("/").unwrap().node_type(), NodeType::Directory);
}

#[test]
fn list_directories() {
    let mut fs = FileSystem::new();
    fs.set_dev(DevDirectory::new());
    fs.create_dir("/a").unwrap();
    fs.create_file("/a/x").unwrap();
    fs.create_file("/top").unwrap();
    let mut root = fs.list("/").unwrap();
    root.sort();
    assert_eq!(root, vec!["a", "top"]);
    assert_eq!(fs.list("/a").unwrap(), vec!["x"]);
    assert_eq!(fs.list("/dev").unwrap(), vec!["null", "random"]);
    assert_eq!(fs.list("/top"), Err(FsError::NotADirectory));
    assert_eq!(fs.list("/none"), Err(FsError::PathNotFound));
    assert_eq!(FsError::NotADirectory.message(), "Not a directory");
}
