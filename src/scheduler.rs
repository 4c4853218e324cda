//! A priority scheduler: processes wait in a queue until their ready time,
//! and the one with the numerically largest priority goes first.
use vstd::prelude::*;

verus! {

/// Where a process stands in its life.
#[derive(Clone, Copy, Debug, PartialEq, Eq, Structural)]
pub enum ProcessStatus {
    Ready,
    Running,
    Completed,
}

impl ProcessStatus {
    pub open spec fn text(self) -> Seq<char> {
        match self {
            ProcessStatus::Ready => "ready"@,
            ProcessStatus::Running => "running"@,
            ProcessStatus::Completed => "completed"@,
        }
    }

    /// The status as the word that listings show.
    pub fn as_string(&self) -> (r: String)
        ensures
            r@ == self.text(),
    {
        match self {
            ProcessStatus::Ready => "ready".to_string(),
            ProcessStatus::Running => "running".to_string(),
            ProcessStatus::Completed => "completed".to_string(),
        }
    }
}

/// What a process does when it runs. The environment that runs the
/// scheduler carries each kind of work out.
#[derive(Clone, Copy, Debug, PartialEq, Eq, Structural)]
pub enum Job {
    /// Nothing: the process completes at once.
    Idle,
    /// An interactive shell bound to the machine that owns the scheduler.
    Shell,
}

/// The record of a process that listings show.
#[derive(Clone, Copy, Debug)]
pub struct ProcessInfo {
    pub id: u32,
    pub priority: u32,
    pub status: ProcessStatus,
    pub parent_pid: Option<u32>,
    /// In bytes; nothing measures it yet, so it stays 0.
    pub memory_usage: usize,
}

/// A schedulable unit of work.
#[derive(Clone, Copy, Debug)]
pub struct Process {
    pub id: u32,
    pub priority: u32,
    /// The earliest time, in milliseconds of the scheduler's clock, at which
    /// the process may run.
    pub ready_at: u64,
    pub job: Job,
    pub info: ProcessInfo,
}

impl Process {
    pub fn new(id: u32, priority: u32, ready_at: u64, job: Job, parent_pid: Option<u32>) -> (r:
        Process)
        ensures
            r.id == id,
            r.priority == priority,
            r.ready_at == ready_at,
            r.job == job,
            r.info == (ProcessInfo {
                id,
                priority,
                status: ProcessStatus::Ready,
                parent_pid,
                memory_usage: 0,
            }),
    {
        let info = ProcessInfo {
            id,
            priority,
            status: ProcessStatus::Ready,
            parent_pid,
            memory_usage: 0,
        };
        Process { id, priority, ready_at, job, info }
    }
}

/// A unit of work for the plain timer loop: an id, a priority and a ready
/// time.
#[derive(Clone, Copy, Debug)]
pub struct Task {
    pub id: u32,
    pub priority: u32,
    pub ready_at: u64,
    pub job: Job,
}

impl Task {
    pub fn new(id: u32, priority: u32, ready_at: u64, job: Job) -> (r: Task)
        ensures
            r == (Task { id, priority, ready_at, job }),
    {
        Task { id, priority, ready_at, job }
    }
}

/// Index of the first process of highest priority in a non-empty queue.
pub open spec fn top_index(q: Seq<Process>) -> int
    decreases q.len(),
{
    if q.len() <= 1 {
        0
    } else {
        let t = top_index(q.drop_last());
        if q.last().priority > q[t].priority {
            q.len() - 1
        } else {
            t
        }
    }
}

/// `top_index` points at a process whose priority no other process in the
/// queue exceeds, and no earlier process has the same priority.
pub proof fn lemma_top_index(q: Seq<Process>)
    requires
        q.len() > 0,
    ensures
        0 <= top_index(q) < q.len(),
        forall|j: int| 0 <= j < q.len() ==> #[trigger] q[j].priority <= q[top_index(q)].priority,
        forall|j: int| 0 <= j < top_index(q) ==> #[trigger] q[j].priority < q[top_index(q)].priority,
    decreases q.len(),
{
    if q.len() > 1 {
        let p = q.drop_last();
        lemma_top_index(p);
        assert forall|j: int| 0 <= j < q.len() implies #[trigger] q[j].priority <= q[top_index(q)].priority by {
            if j < q.len() - 1 {
                assert(p[j] == q[j]);
            }
        }
        assert forall|j: int| 0 <= j < top_index(q) implies #[trigger] q[j].priority
            < q[top_index(q)].priority by {
            if j < q.len() - 1 {
                assert(p[j] == q[j]);
            }
        }
    }
}

/// Two turns in a row hand out processes in order of priority: once the
/// first chosen process has left the queue, the next one chosen has no
/// higher priority.
pub proof fn lemma_turns_in_priority_order(q: Seq<Process>)
    requires
        q.len() >= 2,
    ensures
        q.remove(top_index(q))[top_index(q.remove(top_index(q)))].priority
            <= q[top_index(q)].priority,
{
    lemma_top_index(q);
    let t = top_index(q);
    let rest = q.remove(t);
    lemma_top_index(rest);
    let u = top_index(rest);
    let j = if u < t { u } else { u + 1 };
    assert(rest[u] == q[j]);
}

/// The info record of process `id` with its status set to `s`, where the
/// record stands at index `id - 1`.
pub open spec fn with_status(infos: Seq<ProcessInfo>, id: u32, s: ProcessStatus) -> Seq<
    ProcessInfo,
> {
    if 1 <= id <= infos.len() {
        infos.update(id - 1, ProcessInfo { status: s, ..infos[id - 1] })
    } else {
        infos
    }
}

/// Holds the runnable queue and, apart from it, the record of every process
/// ever added.
pub struct Scheduler {
    processes: Vec<Process>,
    all_processes: Vec<ProcessInfo>,
    next_pid: u32,
}

impl Scheduler {
    /// The processes waiting to run.
    pub closed spec fn queue(&self) -> Seq<Process> {
        self.processes@
    }

    /// The records of all processes added so far, in order of addition.
    pub closed spec fn infos(&self) -> Seq<ProcessInfo> {
        self.all_processes@
    }

    /// The id that the next process gets.
    pub closed spec fn next_id(&self) -> u32 {
        self.next_pid
    }

    /// Ids are handed out from 1 in order, so the record of process `id`
    /// stands at index `id - 1`; each queued process has such a record.
    pub open spec fn wf(&self) -> bool {
        &&& self.next_id() == self.infos().len() + 1
        &&& forall|i: int| 0 <= i < self.infos().len() ==> #[trigger] self.infos()[i].id == i + 1
        &&& forall|i: int|
            0 <= i < self.queue().len() ==> 1 <= #[trigger] self.queue()[i].id < self.next_id()
    }

    pub fn new() -> (r: Scheduler)
        ensures
            r.wf(),
            r.queue().len() == 0,
            r.infos().len() == 0,
            r.next_id() == 1,
    {
        Scheduler { processes: Vec::new(), all_processes: Vec::new(), next_pid: 1 }
    }

    /// Gives the process the next id, records it as ready and queues it.
    /// Returns the id.
    pub fn add_process(&mut self, process: Process) -> (r: u32)
        requires
            old(self).wf(),
            old(self).next_id() < u32::MAX,
        ensures
            final(self).wf(),
            r == old(self).next_id(),
            final(self).next_id() == r + 1,
            final(self).infos() == old(self).infos().push(
                ProcessInfo {
                    id: r,
                    priority: process.priority,
                    status: ProcessStatus::Ready,
                    parent_pid: process.info.parent_pid,
                    memory_usage: process.info.memory_usage,
                },
            ),
            final(self).queue() == old(self).queue().push(
                Process {
                    id: r,
                    info: ProcessInfo {
                        id: r,
                        priority: process.priority,
                        status: ProcessStatus::Ready,
                        parent_pid: process.info.parent_pid,
                        memory_usage: process.info.memory_usage,
                    },
                    ..process
                },
            ),
    {
        let pid = self.next_pid;
        let info = ProcessInfo {
            id: pid,
            priority: process.priority,
            status: ProcessStatus::Ready,
            parent_pid: process.info.parent_pid,
            memory_usage: process.info.memory_usage,
        };
        let queued = Process {
            id: pid,
            priority: process.priority,
            ready_at: process.ready_at,
            job: process.job,
            info,
        };
        self.all_processes.push(info);
        self.next_pid = pid + 1;
        self.processes.push(queued);
        proof {
            assert forall|i: int| 0 <= i < self.infos().len() implies #[trigger] self.infos()[i].id
                == i + 1 by {
                if i < old(self).infos().len() {
                    assert(self.infos()[i] == old(self).infos()[i]);
                }
            }
            assert forall|i: int| 0 <= i < self.queue().len() implies 1 <= #[trigger] self.queue()[i].id
                < self.next_id() by {
                if i < old(self).queue().len() {
                    assert(self.queue()[i] == old(self).queue()[i]);
                }
            }
        }
        pid
    }

    /// Whether another process can still be given an id.
    pub fn can_add(&self) -> (r: bool)
        ensures
            r == (self.next_id() < u32::MAX),
    {
        self.next_pid < u32::MAX
    }

    /// The records of every process added so far, whether it has run or not.
    pub fn list_processes(&self) -> (r: Vec<ProcessInfo>)
        ensures
            r@ == self.infos(),
    {
        let mut r: Vec<ProcessInfo> = Vec::new();
        let mut i: usize = 0;
        while i < self.all_processes.len()
            invariant
                i <= self.all_processes@.len(),
                r@ == self.all_processes@.subrange(0, i as int),
            decreases self.all_processes@.len() - i,
        {
            r.push(self.all_processes[i]);
            i = i + 1;
            assert(r@ =~= self.all_processes@.subrange(0, i as int));
        }
        assert(r@ =~= self.all_processes@);
        r
    }

    /// The record of process `id`, if there is one.
    pub fn find_process(&self, id: u32) -> (r: Option<ProcessInfo>)
        requires
            self.wf(),
        ensures
            match r {
                Some(info) => 1 <= id <= self.infos().len() && info == self.infos()[id - 1],
                None => !(1 <= id <= self.infos().len()),
            },
    {
        if id >= 1 && id < self.next_pid {
            Some(self.all_processes[(id - 1) as usize])
        } else {
            None
        }
    }

    fn set_status(&mut self, id: u32, s: ProcessStatus)
        requires
            old(self).wf(),
        ensures
            final(self).wf(),
            final(self).infos() == with_status(old(self).infos(), id, s),
            final(self).queue() == old(self).queue(),
            final(self).next_id() == old(self).next_id(),
    {
        if id >= 1 && id < self.next_pid {
            let idx = (id - 1) as usize;
            let old_info = self.all_processes[idx];
            self.all_processes.set(idx, ProcessInfo { status: s, ..old_info });
            proof {
                assert forall|i: int| 0 <= i < self.infos().len() implies #[trigger] self.infos()[i].id
                    == i + 1 by {
                    assert(old(self).infos()[i].id == i + 1);
                }
            }
        }
    }

    /// Records that process `id` has finished its work.
    pub fn mark_completed(&mut self, id: u32)
        requires
            old(self).wf(),
        ensures
            final(self).wf(),
            final(self).infos() == with_status(old(self).infos(), id, ProcessStatus::Completed),
            final(self).queue() == old(self).queue(),
            final(self).next_id() == old(self).next_id(),
    {
        self.set_status(id, ProcessStatus::Completed);
    }

    /// One turn of the execution loop at time `now`: takes the first queued
    /// process of highest priority. If its ready time has come, its record
    /// is marked running and it is handed back to be run; otherwise it goes
    /// back into the queue and nothing is handed back.
    pub fn step(&mut self, now: u64) -> (r: Option<Process>)
        requires
            old(self).wf(),
        ensures
            final(self).wf(),
            final(self).next_id() == old(self).next_id(),
            old(self).queue().len() == 0 ==> r is None && final(self).queue() == old(self).queue()
                && final(self).infos() == old(self).infos(),
            old(self).queue().len() > 0 ==> {
                let q = old(self).queue();
                let t = top_index(q);
                if q[t].ready_at <= now {
                    &&& r == Some(q[t])
                    &&& final(self).queue() == q.remove(t)
                    &&& final(self).infos() == with_status(
                        old(self).infos(),
                        q[t].id,
                        ProcessStatus::Running,
                    )
                } else {
                    &&& r is None
                    &&& final(self).queue() == q.remove(t).push(q[t])
                    &&& final(self).infos() == old(self).infos()
                }
            },
            r matches Some(p) ==> forall|j: int|
                0 <= j < old(self).queue().len() ==> #[trigger] old(self).queue()[j].priority
                    <= p.priority,
            r matches Some(p) ==> p.ready_at <= now,
    {
        if self.processes.len() == 0 {
            return None;
        }
        let mut best: usize = 0;
        let mut i: usize = 1;
        while i < self.processes.len()
            invariant
                1 <= i <= self.processes@.len(),
                best == top_index(self.processes@.subrange(0, i as int)),
            decreases self.processes@.len() - i,
        {
            proof {
                let t = self.processes@.subrange(0, i as int + 1);
                assert(t.drop_last() =~= self.processes@.subrange(0, i as int));
                lemma_top_index(self.processes@.subrange(0, i as int));
            }
            if self.processes[i].priority > self.processes[best].priority {
                best = i;
            }
            i = i + 1;
        }
        assert(self.processes@.subrange(0, i as int) =~= self.processes@);
        proof {
            lemma_top_index(self.processes@);
        }
        let ghost q = self.processes@;
        let p = self.processes.remove(best);
        proof {
            assert forall|j: int| 0 <= j < self.queue().len() implies 1 <= #[trigger] self.queue()[j].id
                < self.next_id() by {
                let j2 = if j < best { j } else { j + 1 };
                assert(self.queue()[j] == q[j2]);
            }
        }
        if p.ready_at <= now {
            self.set_status(p.id, ProcessStatus::Running);
            Some(p)
        } else {
            self.processes.push(p);
            proof {
                assert forall|j: int| 0 <= j < self.queue().len() implies 1 <= #[trigger] self.queue()[j].id
                    < self.next_id() by {
                    if j < self.queue().len() - 1 {
                        let j2 = if j < best { j } else { j + 1 };
                        assert(self.queue()[j] == q[j2]);
                    }
                }
            }
            None
        }
    }
}

} // verus!
