use vbox::disk::Disk;
use vbox::node::Node;
use vbox::scheduler::{Job, Process};
use vbox::vps::{VpsConfig, VpsError, VpsInstance, VpsManager, VpsStatus};

fn create(
    m: &mut VpsManager,
    name: &str,
    memory_mb: usize,
    disk_mb: usize,
    cpu_cores: usize,
) -> Result<String, VpsError> {
    m.create_vps_with_id(uuid::Uuid::new_v4().to_string(), name, memory_mb, disk_mb, cpu_cores)
}

#[test]
fn lifecycle() {
    let mut manager = VpsManager::new();
    let id = create(&mut manager, "web", 512, 1024, 1).unwrap();
    assert_eq!(id.len(), 36);
    let list = manager.list_vps();
    assert_eq!(list.len(), 1);
    assert_eq!(list[0].id, id);
    assert_eq!(list[0].name, "web");
    assert_eq!((list[0].memory_mb, list[0].disk_mb, list[0].cpu_cores), (512, 1024, 1));
    assert_eq!(list[0].status, VpsStatus::Stopped);
    assert_eq!(list[0].ip_address, "192.168.1.100");
    assert_eq!(manager.start_vps(&id), Ok(()));
    assert_eq!(manager.start_vps(&id), Err(VpsError::AlreadyRunning));
    assert_eq!(manager.list_vps()[0].status, VpsStatus::Running);
    assert_eq!(manager.stop_vps(&id), Ok(()));
    assert_eq!(manager.stop_vps(&id), Err(VpsError::AlreadyStopped));
    assert_eq!(manager.delete_vps(&id), Ok(()));
    assert!(manager.list_vps().is_empty());
    assert_eq!(manager.start_vps(&id), Err(VpsError::InstanceNotFound));
}

#[test]
fn lookup_by_name_and_addresses() {
    let mut manager = VpsManager::new();
    let a = create(&mut manager, "alpha", 256, 512, 1).unwrap();
    let b = create(&mut manager, "beta", 256, 512, 2).unwrap();
    assert_ne!(a, b);
    assert_eq!(manager.list_vps()[1].ip_address, "192.168.1.101");
    assert_eq!(manager.start_vps("beta"), Ok(()));
    assert_eq!(manager.get_vps(&b).unwrap().get_status(), VpsStatus::Running);
    assert!(manager.get_vps("beta").is_none());
    assert_eq!(manager.delete_vps("beta"), Ok(()));
    assert_eq!(manager.list_vps().len(), 1);
    assert_eq!(manager.delete_vps("nobody"), Err(VpsError::InstanceNotFound));
    assert_eq!(VpsError::InstanceNotFound.message("nobody"), "VPS nobody not found");
}

#[test]
fn duplicate_id_is_refused() {
    let mut manager = VpsManager::new();
    assert!(manager.create_vps_with_id("x".to_string(), "one", 1, 1, 1).is_ok());
    assert_eq!(
        manager.create_vps_with_id("x".to_string(), "two", 1, 1, 1),
        Err(VpsError::DuplicateId)
    );
    assert_eq!(manager.list_vps().len(), 1);
}

fn config(id: &str, name: &str) -> VpsConfig {
    VpsConfig {
        id: id.to_string(),
        name: name.to_string(),
        memory_mb: 128,
        disk_mb: 256,
        cpu_cores: 1,
        ip_address: "192.168.1.100".to_string(),
        status: VpsStatus::Stopped,
    }
}

#[test]
fn new_instance_layout() {
    let inst = VpsInstance::new(config("id1", "box"));
    assert_eq!(inst.disk.file_path(), "vps_id1_disk.bin");
    assert_eq!(inst.disk.read_block(0).unwrap(), b"VPS box Disk");
    assert_eq!(inst.disk.get_allocated_blocks(), 1);
    for dir in ["/home", "/etc"] {
        assert!(matches!(inst.filesystem.get(dir), Some(Node::Directory(_))));
    }
    assert!(matches!(inst.filesystem.get("/network"), Some(Node::Network(_))));
    assert!(matches!(inst.filesystem.get("/dev/null"), Some(Node::Null(_))));
    assert_eq!(inst.get_info().name, "box");
}

#[test]
fn started_shell_shows_in_proc() {
    let mut inst = VpsInstance::new(config("id2", "box"));
    inst.start().unwrap();
    assert_eq!(inst.processes, vec![1]);
    let pid = inst.add_process(Process::new(0, 5, 0, Job::Idle, Some(1))).unwrap();
    assert_eq!(pid, 2);
    match inst.filesystem.get("/proc") {
        Some(Node::Proc(p)) => assert_eq!(p.list(), vec!["1", "2"]),
        _ => panic!("expected /proc"),
    }
    match inst.filesystem.get("/proc/2") {
        Some(Node::Text(f)) => {
            let text = f.read();
            assert!(text.contains("Priority: 5"));
            assert!(text.contains("Status: ready"));
            assert!(text.contains("Parent PID: Some(1)"));
        }
        _ => panic!("expected a process file"),
    }
    let shell = inst.scheduler.list_processes()[0];
    assert_eq!((shell.id, shell.priority), (1, 1));
}

#[test]
fn start_records_shell_and_errors_change_nothing() {
    let mut manager = VpsManager::new();
    let id = create(&mut manager, "web", 512, 1024, 1).unwrap();
    assert_eq!(manager.start_vps(&id), Ok(()));
    {
        let inst = manager.get_vps(&id).unwrap();
        let procs = inst.scheduler.list_processes();
        assert_eq!(procs.len(), 1);
        assert_eq!(procs[0].priority, 1);
        assert_eq!(procs[0].parent_pid, None);
        assert_eq!(procs[0].status, vbox::scheduler::ProcessStatus::Ready);
        assert_eq!(inst.processes, vec![procs[0].id]);
    }
    assert_eq!(manager.start_vps(&id), Err(VpsError::AlreadyRunning));
    assert_eq!(manager.get_vps(&id).unwrap().scheduler.list_processes().len(), 1);
    assert_eq!(manager.stop_vps(&id), Ok(()));
    assert_eq!(manager.get_vps(&id).unwrap().scheduler.list_processes().len(), 1);
    assert_eq!(manager.start_vps("missing"), Err(VpsError::InstanceNotFound));
}

#[test]
fn new_instance_tree() {
    let inst = VpsInstance::new(config("id3", "box"));
    let mut names = inst.filesystem.list("/").unwrap();
    names.sort();
    assert_eq!(names, vec!["etc", "home", "network"]);
    assert!(inst.filesystem.list("/home").unwrap().is_empty());
    assert!(inst.filesystem.list("/etc").unwrap().is_empty());
}
