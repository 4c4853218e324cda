use vbox::scheduler::{Job, Process, ProcessStatus, Scheduler, Task};

#[test]
fn test_add_process() {
    let mut scheduler = Scheduler::new();
    let process = Process::new(0, 1, 1000, Job::Idle, None);
    scheduler.add_process(process);
    let processes = scheduler.list_processes();
    assert_eq!(processes.len(), 1);
    assert_eq!(processes[0].priority, 1);
}

#[test]
fn ids_are_handed_out_from_one() {
    let mut scheduler = Scheduler::new();
    let a = scheduler.add_process(Process::new(0, 1, 0, Job::Idle, None));
    let b = scheduler.add_process(Process::new(0, 1, 0, Job::Idle, Some(a)));
    assert_eq!(a, 1);
    assert_eq!(b, 2);
    let infos = scheduler.list_processes();
    assert_eq!(infos[0].id, 1);
    assert_eq!(infos[1].id, 2);
    assert_eq!(infos[1].parent_pid, Some(1));
    assert_eq!(infos[1].status, ProcessStatus::Ready);
}

#[test]
fn highest_priority_runs_first() {
    let mut scheduler = Scheduler::new();
    for p in [3u32, 1, 2] {
        scheduler.add_process(Process::new(0, p, 0, Job::Idle, None));
    }
    let mut order = Vec::new();
    while let Some(p) = scheduler.step(10) {
        order.push(p.priority);
    }
    assert_eq!(order, vec![3, 2, 1]);
    for info in scheduler.list_processes() {
        assert_eq!(info.status, ProcessStatus::Running);
    }
    assert!(scheduler.step(10).is_none());
}

#[test]
fn process_not_ready_is_put_back() {
    let mut scheduler = Scheduler::new();
    let id = scheduler.add_process(Process::new(0, 5, 100, Job::Idle, None));
    assert!(scheduler.step(50).is_none());
    assert_eq!(scheduler.list_processes()[0].status, ProcessStatus::Ready);
    let p = scheduler.step(100).unwrap();
    assert_eq!(p.id, id);
    assert_eq!(scheduler.list_processes()[0].status, ProcessStatus::Running);
    scheduler.mark_completed(id);
    assert_eq!(scheduler.list_processes()[0].status, ProcessStatus::Completed);
    assert_eq!(scheduler.find_process(id).unwrap().status, ProcessStatus::Completed);
    assert!(scheduler.find_process(id + 1).is_none());
}

#[test]
fn status_words() {
    assert_eq!(ProcessStatus::Ready.as_string(), "ready");
    assert_eq!(ProcessStatus::Running.as_string(), "running");
    assert_eq!(ProcessStatus::Completed.as_string(), "completed");
}

#[test]
fn task_keeps_its_fields() {
    let t = Task::new(7, 2, 2000, Job::Idle);
    assert_eq!((t.id, t.priority, t.ready_at), (7, 2, 2000));
}
