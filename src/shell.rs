//! The state of an interactive shell: what it works on and its current
//! directory. Reading commands and printing answers is the caller's part.
use vstd::prelude::*;
use vstd::string::StrSliceExecFns;
use vstd::string::StringExecFns;
use crate::disk::FileDisk;
use crate::filesystem::FileSystem;
use crate::node::ProcDirectory;
use crate::scheduler::{with_status, Process, ProcessInfo, ProcessStatus, Scheduler};
use crate::vps::VpsManager;

verus! {

/// `s` without the `/` characters at its end.
pub open spec fn trim_end_slashes(s: Seq<char>) -> Seq<char>
    decreases s.len(),
{
    if s.len() > 0 && s.last() == '/' {
        trim_end_slashes(s.drop_last())
    } else {
        s
    }
}

/// Where a path typed in directory `cwd` leads: an absolute path as it is,
/// a relative one below `cwd`.
pub open spec fn resolved(cwd: Seq<char>, path: Seq<char>) -> Seq<char> {
    if path.len() > 0 && path[0] == '/' {
        path
    } else {
        trim_end_slashes(cwd) + "/"@ + path
    }
}

pub struct Shell {
    pub fs: FileSystem,
    pub disk: FileDisk,
    pub scheduler: Scheduler,
    pub vps_manager: VpsManager,
    pub cwd: String,
}

impl Shell {
    /// The current directory.
    pub open spec fn cwd_view(&self) -> Seq<char> {
        self.cwd@
    }

    /// The parts agree: the scheduler is well formed and `/proc` shows its
    /// records as they stand.
    pub open spec fn wf(&self) -> bool {
        &&& self.scheduler.wf()
        &&& self.fs.proc_mount() is Some
        &&& self.fs.proc_mount()->0.records() == self.scheduler.infos()
    }

    /// A shell over the given parts, in directory `/`, with `/proc` mounted
    /// over `scheduler`.
    pub fn new(fs: FileSystem, disk: FileDisk, scheduler: Scheduler, vps_manager: VpsManager) -> (r:
        Shell)
        requires
            scheduler.wf(),
        ensures
            r.wf(),
            r.fs.tree() == fs.tree(),
            r.fs.dev_mounted() == fs.dev_mounted(),
            r.fs.network_mount() == fs.network_mount(),
            r.disk == disk,
            r.scheduler == scheduler,
            r.vps_manager == vps_manager,
            r.cwd_view() == "/"@,
    {
        let mut fs = fs;
        fs.set_proc(ProcDirectory::new(&scheduler));
        Shell { fs, disk, scheduler, vps_manager, cwd: "/".to_string() }
    }

    /// Adds a process to the scheduler and shows it under `/proc`. Gives
    /// its id, or nothing when every id has been handed out.
    pub fn add_process(&mut self, process: Process) -> (r: Option<u32>)
        requires
            old(self).wf(),
        ensures
            final(self).wf(),
            final(self).fs.tree() == old(self).fs.tree(),
            final(self).disk == old(self).disk,
            final(self).vps_manager == old(self).vps_manager,
            final(self).cwd == old(self).cwd,
            old(self).scheduler.next_id() == u32::MAX ==> r is None && final(self).scheduler
                == old(self).scheduler,
            old(self).scheduler.next_id() < u32::MAX ==> r == Some(old(self).scheduler.next_id())
                && final(self).scheduler.queue().len() == old(self).scheduler.queue().len() + 1
                && final(self).scheduler.infos() == old(self).scheduler.infos().push(
                ProcessInfo {
                    id: old(self).scheduler.next_id(),
                    priority: process.priority,
                    status: ProcessStatus::Ready,
                    parent_pid: process.info.parent_pid,
                    memory_usage: process.info.memory_usage,
                },
            ),
    {
        if !self.scheduler.can_add() {
            return None;
        }
        let pid = self.scheduler.add_process(process);
        self.fs.set_proc(ProcDirectory::new(&self.scheduler));
        Some(pid)
    }

    /// One turn of the execution loop at time `now`, as `Scheduler::step`
    /// takes it, with `/proc` showing the records afterwards.
    pub fn step(&mut self, now: u64) -> (r: Option<Process>)
        requires
            old(self).wf(),
        ensures
            final(self).wf(),
            final(self).fs.tree() == old(self).fs.tree(),
            final(self).disk == old(self).disk,
            final(self).vps_manager == old(self).vps_manager,
            final(self).cwd == old(self).cwd,
            r matches Some(p) ==> p.ready_at <= now && forall|j: int|
                0 <= j < old(self).scheduler.queue().len()
                    ==> #[trigger] old(self).scheduler.queue()[j].priority <= p.priority,
            r matches Some(p) ==> final(self).scheduler.infos() == with_status(
                old(self).scheduler.infos(),
                p.id,
                ProcessStatus::Running,
            ),
            r is None ==> final(self).scheduler.infos() == old(self).scheduler.infos(),
    {
        let r = self.scheduler.step(now);
        self.fs.set_proc(ProcDirectory::new(&self.scheduler));
        r
    }

    /// Records that process `id` has finished, and shows it under `/proc`.
    pub fn mark_completed(&mut self, id: u32)
        requires
            old(self).wf(),
        ensures
            final(self).wf(),
            final(self).scheduler.infos() == with_status(
                old(self).scheduler.infos(),
                id,
                ProcessStatus::Completed,
            ),
            final(self).fs.tree() == old(self).fs.tree(),
            final(self).disk == old(self).disk,
            final(self).vps_manager == old(self).vps_manager,
            final(self).cwd == old(self).cwd,
    {
        self.scheduler.mark_completed(id);
        self.fs.set_proc(ProcDirectory::new(&self.scheduler));
    }

    /// The current directory.
    pub fn cwd(&self) -> (r: String)
        ensures
            r@ == self.cwd_view(),
    {
        self.cwd.clone()
    }

    /// Makes `dir` the current directory.
    pub fn set_cwd(&mut self, dir: &str)
        ensures
            final(self).cwd_view() == dir@,
            final(self).fs == old(self).fs,
            final(self).disk == old(self).disk,
            final(self).scheduler == old(self).scheduler,
            final(self).vps_manager == old(self).vps_manager,
    {
        self.cwd = dir.to_string();
    }

    /// The absolute path that `path` names from the current directory.
    pub fn resolve_path(&self, path: &str) -> (r: String)
        ensures
            r@ == resolved(self.cwd_view(), path@),
    {
        if path.unicode_len() > 0 && path.get_char(0) == '/' {
            return path.to_string();
        }
        let n = self.cwd.as_str().unicode_len();
        let mut end: usize = n;
        assert(self.cwd@.subrange(0, n as int) =~= self.cwd@);
        while end > 0 && self.cwd.as_str().get_char(end - 1) == '/'
            invariant
                n == self.cwd@.len(),
                end <= n,
                trim_end_slashes(self.cwd@) == trim_end_slashes(self.cwd@.subrange(0, end as int)),
            decreases end,
        {
            assert(self.cwd@.subrange(0, end as int).drop_last() =~= self.cwd@.subrange(
                0,
                end - 1,
            ));
            end = end - 1;
        }
        let mut out = String::from_str(self.cwd.as_str().substring_char(0, end));
        out.append("/");
        out.append(path);
        out
    }
}

} // verus!
