//! Virtual machines: each owns a block store, a filesystem and a scheduler of
//! its own, and a manager keeps the registry of them.
use vstd::prelude::*;
use vstd::string::StringExecFns;
use vstd::utf8::encode_utf8;
use crate::disk::{BlockStore, Disk, FileDisk};
use crate::filesystem::{
    find_entry, has_prefix, lemma_without_subtree, without_subtree, EntryView, FileSystem,
};
use crate::node::NodeType;
use crate::path::{absolute, seg_prefix, split_spec, split_state};
use crate::node::{DevDirectory, NetworkDirectory, ProcDirectory};
use crate::path::str_equal;
use crate::scheduler::{Job, Process, ProcessInfo, ProcessStatus, Scheduler};
use crate::text::{decimal, decimal_string, lemma_parse_decimal, process_text};
use crate::node::{lemma_first_with_id, Node};
use crate::filesystem::PathClass;

verus! {

/// Whether a machine runs.
#[derive(Clone, Copy, Debug, PartialEq, Eq, Structural)]
pub enum VpsStatus {
    Stopped,
    Running,
}

impl VpsStatus {
    pub open spec fn text(self) -> Seq<char> {
        match self {
            VpsStatus::Stopped => "stopped"@,
            VpsStatus::Running => "running"@,
        }
    }

    /// The status as the word that listings show.
    pub fn as_string(&self) -> (r: String)
        ensures
            r@ == self.text(),
    {
        match self {
            VpsStatus::Stopped => "stopped".to_string(),
            VpsStatus::Running => "running".to_string(),
        }
    }
}

/// What goes wrong with a machine operation.
#[derive(Clone, Copy, Debug, PartialEq, Eq, Structural)]
pub enum VpsError {
    /// No machine has the given id or name.
    InstanceNotFound,
    AlreadyRunning,
    AlreadyStopped,
    /// A fresh id came out equal to one in use.
    DuplicateId,
    /// The machine's scheduler has handed out every process id.
    ProcessLimit,
}

impl VpsError {
    /// A short description for users; `identifier` is what the caller
    /// looked the machine up by.
    pub fn message(&self, identifier: &str) -> (r: String) {
        match self {
            VpsError::InstanceNotFound => {
                let mut s = String::from_str("VPS ");
                s.append(identifier);
                s.append(" not found");
                s
            },
            VpsError::AlreadyRunning => "VPS already running".to_string(),
            VpsError::AlreadyStopped => "VPS already stopped".to_string(),
            VpsError::DuplicateId => "VPS id already in use".to_string(),
            VpsError::ProcessLimit => "VPS process table is full".to_string(),
        }
    }
}

/// The settings and state of a machine.
pub struct VpsConfig {
    pub id: String,
    pub name: String,
    pub memory_mb: usize,
    pub disk_mb: usize,
    pub cpu_cores: usize,
    pub ip_address: String,
    pub status: VpsStatus,
}

impl VpsConfig {
    /// A copy with the same field values.
    pub fn copy(&self) -> (r: VpsConfig)
        ensures
            r == *self,
    {
        VpsConfig {
            id: self.id.clone(),
            name: self.name.clone(),
            memory_mb: self.memory_mb,
            disk_mb: self.disk_mb,
            cpu_cores: self.cpu_cores,
            ip_address: self.ip_address.clone(),
            status: self.status,
        }
    }
}

/// The name of the file that holds the disk image of machine `id`.
pub open spec fn disk_file_name(id: Seq<char>) -> Seq<char> {
    "vps_"@ + id + "_disk.bin"@
}

/// The text of the first block of the disk of machine `name`.
pub open spec fn disk_label(name: Seq<char>) -> Seq<char> {
    "VPS "@ + name + " Disk"@
}

/// The address of the machine registered when `n` others are.
pub open spec fn ip_for(n: nat) -> Seq<char> {
    "192.168.1."@ + decimal(if n + 100 <= u64::MAX {
        (n + 100) as nat
    } else {
        u64::MAX as nat
    })
}

/// A machine: its settings, its filesystem, its disk, its scheduler, and the
/// ids of the processes it has started.
pub struct VpsInstance {
    pub config: VpsConfig,
    pub filesystem: FileSystem,
    pub disk: FileDisk,
    pub scheduler: Scheduler,
    pub processes: Vec<u32>,
}

impl VpsInstance {
    /// The parts agree: the scheduler and disk are well formed, and `/proc`
    /// shows the scheduler's records.
    pub open spec fn wf(&self) -> bool {
        &&& self.scheduler.wf()
        &&& self.disk.inv()
        &&& self.filesystem.wf()
        &&& self.filesystem.proc_mount() is Some
        &&& self.filesystem.proc_mount()->0.records() == self.scheduler.infos()
    }

    /// What a new machine holds: no processes, all three mounts, the stored
    /// directories `/network`, `/home` and `/etc` and nothing else, and a
    /// disk bound to a file named after its id holding one labelled block.
    pub open spec fn is_fresh(&self) -> bool {
        &&& self.wf()
        &&& self.processes@.len() == 0
        &&& self.scheduler.infos().len() == 0
        &&& self.scheduler.queue().len() == 0
        &&& self.filesystem.dev_mounted()
        &&& self.filesystem.network_mount() is Some
        &&& self.filesystem.tree() == initial_tree()
        &&& self.disk.path() == disk_file_name(self.config.id@)
        &&& self.disk.blocks() == Map::<u64, Seq<u8>>::empty().insert(
            0,
            encode_utf8(disk_label(self.config.name@)),
        )
        &&& self.disk.cursor() == 1
    }

    /// `self` is `before` after a successful start: running, with the shell
    /// process recorded and queued, and everything else as it was.
    pub open spec fn started_from(&self, before: VpsInstance) -> bool {
        &&& self.wf()
        &&& self.config == VpsConfig { status: VpsStatus::Running, ..before.config }
        &&& self.processes@ == before.processes@.push(before.scheduler.next_id())
        &&& self.scheduler.next_id() == before.scheduler.next_id() + 1
        &&& self.scheduler.infos() == before.scheduler.infos().push(
            ProcessInfo {
                id: before.scheduler.next_id(),
                priority: 1,
                status: ProcessStatus::Ready,
                parent_pid: None,
                memory_usage: 0,
            },
        )
        &&& self.disk == before.disk
        &&& self.filesystem.tree() == before.filesystem.tree()
        &&& self.filesystem.dev_mounted() == before.filesystem.dev_mounted()
        &&& self.filesystem.network_mount() == before.filesystem.network_mount()
    }

    /// A stopped machine with the given settings. Its filesystem has `/proc`,
    /// `/dev` and `/network` mounted and `/network`, `/home` and `/etc`
    /// created; its disk is bound to a file named after its id and holds one
    /// block, 0, labelled with its name.
    pub fn new(config: VpsConfig) -> (r: VpsInstance)
        ensures
            r.is_fresh(),
            r.config == config,
            r.filesystem.kind_at("/home"@) == Some(NodeType::Directory),
            r.filesystem.kind_at("/etc"@) == Some(NodeType::Directory),
    {
        let mut fs = FileSystem::new();
        let mut path = String::from_str("vps_");
        path.append(config.id.as_str());
        path.append("_disk.bin");
        let mut store = BlockStore::new();
        let block_id = store.allocate();
        let mut label = String::from_str("VPS ");
        label.append(config.name.as_str());
        label.append(" Disk");
        store.write(block_id, label.as_str().as_bytes());
        let disk = FileDisk::with_store(path.as_str(), store);
        let scheduler = Scheduler::new();
        fs.set_proc(ProcDirectory::new(&scheduler));
        fs.set_dev(DevDirectory::new());
        fs.set_network(NetworkDirectory::new());
        let ghost e = fs.tree();
        proof {
            lemma_split_names();
            assert(absolute(Seq::<Seq<char>>::empty()) =~= "/"@);
            assert(seq!["network"@].drop_last() =~= Seq::<Seq<char>>::empty());
        }
        let net = fs.create_dir("/network");
        assert(net is Ok);
        proof {
            assert(absolute(Seq::<Seq<char>>::empty()) =~= "/"@);
            assert(seq!["home"@].drop_last() =~= Seq::<Seq<char>>::empty());
            assert(seq!["etc"@].drop_last() =~= Seq::<Seq<char>>::empty());
        }
        let ghost t0 = fs.tree();
        let home = fs.create_dir("/home");
        assert(home is Ok);
        let ghost t1 = fs.tree();
        let etc = fs.create_dir("/etc");
        assert(etc is Ok);
        proof {
            lemma_fresh_dirs(&fs, t0, t1);
            lemma_initial_tree(e, t0, t1, fs.tree());
        }
        proof {
            assert(path@ =~= disk_file_name(config.id@));
            assert(label@ =~= disk_label(config.name@));
            assert(disk.blocks() =~= Map::<u64, Seq<u8>>::empty().insert(
                0,
                encode_utf8(disk_label(config.name@)),
            ));
        }
        VpsInstance { config, filesystem: fs, disk, scheduler, processes: Vec::new() }
    }

    /// Adds a process to this machine's scheduler, records its id among the
    /// machine's processes and refreshes `/proc`. Returns the id.
    pub fn add_process(&mut self, process: Process) -> (r: Result<u32, VpsError>)
        requires
            old(self).wf(),
        ensures
            final(self).wf(),
            final(self).config == old(self).config,
            final(self).disk == old(self).disk,
            final(self).filesystem.tree() == old(self).filesystem.tree(),
            final(self).filesystem.dev_mounted() == old(self).filesystem.dev_mounted(),
            final(self).filesystem.network_mount() == old(self).filesystem.network_mount(),
            old(self).scheduler.next_id() < u32::MAX ==> final(self).scheduler.next_id()
                == old(self).scheduler.next_id() + 1,
            old(self).scheduler.next_id() == u32::MAX ==> r == Err::<u32, VpsError>(
                VpsError::ProcessLimit,
            ) && final(self).scheduler == old(self).scheduler && final(self).processes
                == old(self).processes,
            old(self).scheduler.next_id() < u32::MAX ==> r == Ok::<u32, VpsError>(
                old(self).scheduler.next_id(),
            ) && final(self).processes@ == old(self).processes@.push(
                old(self).scheduler.next_id(),
            ) && final(self).scheduler.infos() == old(self).scheduler.infos().push(
                ProcessInfo {
                    id: old(self).scheduler.next_id(),
                    priority: process.priority,
                    status: ProcessStatus::Ready,
                    parent_pid: process.info.parent_pid,
                    memory_usage: process.info.memory_usage,
                },
            ),
    {
        if !self.scheduler.can_add() {
            return Err(VpsError::ProcessLimit);
        }
        let pid = self.scheduler.add_process(process);
        self.processes.push(pid);
        self.filesystem.set_proc(ProcDirectory::new(&self.scheduler));
        Ok(pid)
    }

    /// Starts the machine: marks it running and adds its shell process
    /// (priority 1, ready at once) to its scheduler.
    pub fn start(&mut self) -> (r: Result<(), VpsError>)
        requires
            old(self).wf(),
        ensures
            final(self).wf(),
            old(self).config.status == VpsStatus::Running ==> r == Err::<(), VpsError>(
                VpsError::AlreadyRunning,
            ) && *final(self) == *old(self),
            old(self).config.status == VpsStatus::Stopped && old(self).scheduler.next_id()
                == u32::MAX ==> r == Err::<(), VpsError>(VpsError::ProcessLimit) && *final(self)
                == *old(self),
            old(self).config.status == VpsStatus::Stopped && old(self).scheduler.next_id()
                < u32::MAX ==> r is Ok && final(self).started_from(*old(self)),
    {
        if self.config.status == VpsStatus::Running {
            return Err(VpsError::AlreadyRunning);
        }
        if !self.scheduler.can_add() {
            return Err(VpsError::ProcessLimit);
        }
        let shell = Process::new(0, 1, 0, Job::Shell, None);
        let _ = self.add_process(shell);
        self.config.status = VpsStatus::Running;
        Ok(())
    }

    /// Stops the machine. Processes it has started are not interrupted.
    pub fn stop(&mut self) -> (r: Result<(), VpsError>)
        requires
            old(self).wf(),
        ensures
            final(self).wf(),
            old(self).config.status == VpsStatus::Stopped ==> r == Err::<(), VpsError>(
                VpsError::AlreadyStopped,
            ) && *final(self) == *old(self),
            old(self).config.status == VpsStatus::Running ==> r is Ok && *final(self)
                == (VpsInstance {
                config: VpsConfig { status: VpsStatus::Stopped, ..old(self).config },
                ..*old(self)
            }),
    {
        if self.config.status == VpsStatus::Stopped {
            return Err(VpsError::AlreadyStopped);
        }
        self.config.status = VpsStatus::Stopped;
        Ok(())
    }

    pub fn get_status(&self) -> (r: VpsStatus)
        ensures
            r == self.config.status,
    {
        self.config.status
    }

    /// A copy of the settings.
    pub fn get_info(&self) -> (r: VpsConfig)
        ensures
            r == self.config,
    {
        self.config.copy()
    }
}

/// The index of the first config whose id is `x`.
pub open spec fn index_by_id(s: Seq<VpsConfig>, x: Seq<char>) -> Option<int>
    decreases s.len(),
{
    if s.len() == 0 {
        None
    } else if s[0].id@ == x {
        Some(0)
    } else {
        match index_by_id(s.drop_first(), x) {
            Some(i) => Some(i + 1),
            None => None,
        }
    }
}

/// The index of the first config whose name is `x`.
pub open spec fn index_by_name(s: Seq<VpsConfig>, x: Seq<char>) -> Option<int>
    decreases s.len(),
{
    if s.len() == 0 {
        None
    } else if s[0].name@ == x {
        Some(0)
    } else {
        match index_by_name(s.drop_first(), x) {
            Some(i) => Some(i + 1),
            None => None,
        }
    }
}

/// The machine that `x` names: the one with that id, or else the first with
/// that name.
pub open spec fn resolve(s: Seq<VpsConfig>, x: Seq<char>) -> Option<int> {
    match index_by_id(s, x) {
        Some(i) => Some(i),
        None => index_by_name(s, x),
    }
}

proof fn lemma_index_by_id(s: Seq<VpsConfig>, x: Seq<char>)
    ensures
        match index_by_id(s, x) {
            Some(i) => 0 <= i < s.len() && s[i].id@ == x,
            None => forall|k: int| 0 <= k < s.len() ==> s[k].id@ != x,
        },
    decreases s.len(),
{
    if s.len() > 0 {
        lemma_index_by_id(s.drop_first(), x);
        assert forall|k: int| 0 < k < s.len() implies s[k] == s.drop_first()[k - 1] by {}
    }
}

proof fn lemma_index_by_name(s: Seq<VpsConfig>, x: Seq<char>)
    ensures
        match index_by_name(s, x) {
            Some(i) => 0 <= i < s.len() && s[i].name@ == x,
            None => forall|k: int| 0 <= k < s.len() ==> s[k].name@ != x,
        },
    decreases s.len(),
{
    if s.len() > 0 {
        lemma_index_by_name(s.drop_first(), x);
        assert forall|k: int| 0 < k < s.len() implies s[k] == s.drop_first()[k - 1] by {}
    }
}

/// The registry of machines, in order of creation.
pub struct VpsManager {
    instances: Vec<VpsInstance>,
}

impl VpsManager {
    /// The settings of the registered machines, in order of creation.
    pub closed spec fn configs(&self) -> Seq<VpsConfig> {
        self.instances@.map_values(|i: VpsInstance| i.config)
    }

    /// The registered machines.
    pub closed spec fn machines(&self) -> Seq<VpsInstance> {
        self.instances@
    }

    /// Ids are distinct and every machine is well formed.
    pub open spec fn wf(&self) -> bool {
        &&& forall|i: int, j: int|
            0 <= i < self.configs().len() && 0 <= j < self.configs().len() && i != j
                ==> self.configs()[i].id@ != self.configs()[j].id@
        &&& forall|i: int| 0 <= i < self.machines().len() ==> #[trigger] self.machines()[i].wf()
        &&& self.machines().len() == self.configs().len()
        &&& forall|i: int|
            0 <= i < self.machines().len() ==> #[trigger] self.machines()[i].config
                == self.configs()[i]
    }

    /// `self` is `before` with one new stopped machine registered last,
    /// holding what a new machine holds, with these settings.
    pub open spec fn registered(
        &self,
        before: VpsManager,
        id: Seq<char>,
        name: Seq<char>,
        memory_mb: usize,
        disk_mb: usize,
        cpu_cores: usize,
    ) -> bool {
        let last = self.machines().last();
        &&& self.machines().len() == before.machines().len() + 1
        &&& self.machines().drop_last() == before.machines()
        &&& self.configs().drop_last() == before.configs()
        &&& last.is_fresh()
        &&& last.config.id@ == id
        &&& last.config.name@ == name
        &&& last.config.memory_mb == memory_mb
        &&& last.config.disk_mb == disk_mb
        &&& last.config.cpu_cores == cpu_cores
        &&& last.config.ip_address@ == ip_for(before.configs().len())
        &&& last.config.status == VpsStatus::Stopped
        &&& self.configs().last() == last.config
    }

    pub fn new() -> (r: VpsManager)
        ensures
            r.wf(),
            r.configs().len() == 0,
    {
        let r = VpsManager { instances: Vec::new() };
        assert(r.configs() =~= seq![]);
        r
    }

    /// Registers a stopped machine with the given settings under `id`; its
    /// address follows from how many machines are registered. Fails only
    /// when `id` is already in use.
    pub fn create_vps_with_id(
        &mut self,
        id: String,
        name: &str,
        memory_mb: usize,
        disk_mb: usize,
        cpu_cores: usize,
    ) -> (r: Result<String, VpsError>)
        requires
            old(self).wf(),
        ensures
            final(self).wf(),
            (exists|k: int| 0 <= k < old(self).configs().len() && old(self).configs()[k].id@ == id@)
                ==> r == Err::<String, VpsError>(VpsError::DuplicateId) && final(self).machines()
                == old(self).machines(),
            (forall|k: int| 0 <= k < old(self).configs().len() ==> old(self).configs()[k].id@ != id@)
                ==> (r matches Ok(rid) && rid@ == id@) && final(self).registered(
                *old(self),
                id@,
                name@,
                memory_mb,
                disk_mb,
                cpu_cores,
            ),
    {
        if self.find_by_id(id.as_str()).is_some() {
            proof {
                lemma_index_by_id(self.configs(), id@);
            }
            return Err(VpsError::DuplicateId);
        }
        proof {
            lemma_index_by_id(self.configs(), id@);
        }
        let n = self.instances.len() as u64;
        let last_octet = n.saturating_add(100);
        let mut ip = String::from_str("192.168.1.");
        ip.append(decimal_string(last_octet).as_str());
        assert(ip@ =~= ip_for(old(self).configs().len()));
        let config = VpsConfig {
            id: id.clone(),
            name: name.to_string(),
            memory_mb,
            disk_mb,
            cpu_cores,
            ip_address: ip,
            status: VpsStatus::Stopped,
        };
        let instance = VpsInstance::new(config);
        self.instances.push(instance);
        proof {
            let c = self.configs();
            let o = old(self).configs();
            assert(c.drop_last() =~= o);
            assert(self.machines().drop_last() =~= old(self).machines());
            assert forall|i: int| 0 <= i < self.machines().len() implies #[trigger] self.machines()[i].wf() by {
                if i < o.len() {
                    assert(self.machines()[i] == old(self).machines()[i]);
                }
            }
            assert forall|i: int, j: int|
                0 <= i < c.len() && 0 <= j < c.len() && i != j implies c[i].id@ != c[j].id@ by {
                if i < o.len() && j < o.len() {
                    assert(c[i] == o[i] && c[j] == o[j]);
                } else if i < o.len() {
                    assert(c[i] == o[i]);
                } else {
                    assert(c[j] == o[j]);
                }
            }
        }
        Ok(id)
    }

    fn find_by_id(&self, x: &str) -> (r: Option<usize>)
        ensures
            match r {
                Some(i) => index_by_id(self.configs(), x@) == Some(i as int),
                None => index_by_id(self.configs(), x@) is None,
            },
    {
        assert(self.configs().subrange(0, self.configs().len() as int) =~= self.configs());
        let mut i: usize = 0;
        while i < self.instances.len()
            invariant
                i <= self.instances@.len(),
                index_by_id(self.configs(), x@) == match index_by_id(
                    self.configs().subrange(i as int, self.configs().len() as int),
                    x@,
                ) {
                    Some(k) => Some(k + i),
                    None => None,
                },
            decreases self.instances@.len() - i,
        {
            let ghost rest = self.configs().subrange(i as int, self.configs().len() as int);
            assert(rest[0] == self.instances@[i as int].config);
            if str_equal(self.instances[i].config.id.as_str(), x) {
                return Some(i);
            }
            assert(rest.drop_first() =~= self.configs().subrange(i + 1, self.configs().len() as int));
            i = i + 1;
        }
        None
    }

    fn find_by_name(&self, x: &str) -> (r: Option<usize>)
        ensures
            match r {
                Some(i) => index_by_name(self.configs(), x@) == Some(i as int),
                None => index_by_name(self.configs(), x@) is None,
            },
    {
        assert(self.configs().subrange(0, self.configs().len() as int) =~= self.configs());
        let mut i: usize = 0;
        while i < self.instances.len()
            invariant
                i <= self.instances@.len(),
                index_by_name(self.configs(), x@) == match index_by_name(
                    self.configs().subrange(i as int, self.configs().len() as int),
                    x@,
                ) {
                    Some(k) => Some(k + i),
                    None => None,
                },
            decreases self.instances@.len() - i,
        {
            let ghost rest = self.configs().subrange(i as int, self.configs().len() as int);
            assert(rest[0] == self.instances@[i as int].config);
            if str_equal(self.instances[i].config.name.as_str(), x) {
                return Some(i);
            }
            assert(rest.drop_first() =~= self.configs().subrange(i + 1, self.configs().len() as int));
            i = i + 1;
        }
        None
    }

    /// The index of the machine that `identifier` names, as `resolve` says.
    pub fn find(&self, identifier: &str) -> (r: Option<usize>)
        ensures
            match r {
                Some(i) => resolve(self.configs(), identifier@) == Some(i as int),
                None => resolve(self.configs(), identifier@) is None,
            },
    {
        match self.find_by_id(identifier) {
            Some(i) => Some(i),
            None => self.find_by_name(identifier),
        }
    }

    /// Starts the machine that `identifier` names.
    pub fn start_vps(&mut self, identifier: &str) -> (r: Result<(), VpsError>)
        requires
            old(self).wf(),
        ensures
            final(self).wf(),
            match resolve(old(self).configs(), identifier@) {
                None => r == Err::<(), VpsError>(VpsError::InstanceNotFound) && final(self).machines()
                    == old(self).machines(),
                Some(i) => {
                    let m = old(self).machines()[i];
                    if m.config.status == VpsStatus::Running {
                        r == Err::<(), VpsError>(VpsError::AlreadyRunning) && final(self).machines()
                            == old(self).machines()
                    } else if m.scheduler.next_id() == u32::MAX {
                        r == Err::<(), VpsError>(VpsError::ProcessLimit) && final(self).machines()
                            == old(self).machines()
                    } else {
                        &&& r is Ok
                        &&& final(self).machines().len() == old(self).machines().len()
                        &&& forall|k: int|
                            0 <= k < old(self).machines().len() && k != i
                                ==> #[trigger] final(self).machines()[k] == old(self).machines()[k]
                        &&& final(self).machines()[i].started_from(m)
                        &&& final(self).configs() == old(self).configs().update(
                            i,
                            VpsConfig { status: VpsStatus::Running, ..m.config },
                        )
                    }
                },
            },
    {
        match self.find(identifier) {
            None => Err(VpsError::InstanceNotFound),
            Some(i) => {
                proof {
                    lemma_resolve(self.configs(), identifier@);
                }
                let ghost before = self.instances@;
                let mut inst = self.instances.remove(i);
                let r = inst.start();
                let ghost after = inst;
                self.instances.insert(i, inst);
                proof {
                    assert(self.instances@ =~= before.update(i as int, after));
                    self.lemma_replace_keeps(*old(self), i as int);
                }
                r
            },
        }
    }

    /// Stops the machine that `identifier` names.
    pub fn stop_vps(&mut self, identifier: &str) -> (r: Result<(), VpsError>)
        requires
            old(self).wf(),
        ensures
            final(self).wf(),
            match resolve(old(self).configs(), identifier@) {
                None => r == Err::<(), VpsError>(VpsError::InstanceNotFound) && final(self).machines()
                    == old(self).machines(),
                Some(i) => {
                    let m = old(self).machines()[i];
                    if m.config.status == VpsStatus::Stopped {
                        r == Err::<(), VpsError>(VpsError::AlreadyStopped) && final(self).machines()
                            == old(self).machines()
                    } else {
                        &&& r is Ok
                        &&& final(self).machines() == old(self).machines().update(
                            i,
                            VpsInstance {
                                config: VpsConfig { status: VpsStatus::Stopped, ..m.config },
                                ..m
                            },
                        )
                        &&& final(self).configs() == old(self).configs().update(
                            i,
                            VpsConfig { status: VpsStatus::Stopped, ..m.config },
                        )
                    }
                },
            },
    {
        match self.find(identifier) {
            None => Err(VpsError::InstanceNotFound),
            Some(i) => {
                proof {
                    lemma_resolve(self.configs(), identifier@);
                }
                let ghost before = self.instances@;
                let mut inst = self.instances.remove(i);
                let r = inst.stop();
                let ghost after = inst;
                self.instances.insert(i, inst);
                proof {
                    assert(self.instances@ =~= before.update(i as int, after));
                    self.lemma_replace_keeps(*old(self), i as int);
                }
                r
            },
        }
    }

    /// Removes the machine that `identifier` names, stopping it first if it
    /// runs.
    pub fn delete_vps(&mut self, identifier: &str) -> (r: Result<(), VpsError>)
        requires
            old(self).wf(),
        ensures
            final(self).wf(),
            match resolve(old(self).configs(), identifier@) {
                None => r == Err::<(), VpsError>(VpsError::InstanceNotFound) && final(self).machines()
                    == old(self).machines(),
                Some(i) => r is Ok && final(self).machines() == old(self).machines().remove(i)
                    && final(self).configs() == old(self).configs().remove(i)
                    && forall|k: int|
                    0 <= k < final(self).configs().len() ==> final(self).configs()[k].id@
                        != old(self).configs()[i].id@,
            },
    {
        match self.find(identifier) {
            None => Err(VpsError::InstanceNotFound),
            Some(i) => {
                proof {
                    lemma_resolve(self.configs(), identifier@);
                }
                let ghost o = self.configs();
                let mut inst = self.instances.remove(i);
                if inst.get_status() == VpsStatus::Running {
                    let _ = inst.stop();
                }
                proof {
                    let c = self.configs();
                    assert(c =~= o.remove(i as int));
                    assert forall|k: int| 0 <= k < self.machines().len() implies #[trigger] self.machines()[k].wf() by {
                        let k2 = if k < i { k } else { k + 1 };
                        assert(self.machines()[k] == old(self).machines()[k2]);
                    }
                    assert forall|a: int, b: int|
                        0 <= a < c.len() && 0 <= b < c.len() && a != b implies c[a].id@ != c[b].id@ by {
                        let a2 = if a < i { a } else { a + 1 };
                        let b2 = if b < i { b } else { b + 1 };
                        assert(c[a] == o[a2] && c[b] == o[b2]);
                    }
                    assert forall|k: int| 0 <= k < c.len() implies c[k].id@ != o[i as int].id@ by {
                        let k2 = if k < i { k } else { k + 1 };
                        assert(c[k] == o[k2]);
                    }
                }
                Ok(())
            },
        }
    }

    /// The settings of every machine, in order of creation.
    pub fn list_vps(&self) -> (r: Vec<VpsConfig>)
        ensures
            r@ == self.configs(),
    {
        let mut r: Vec<VpsConfig> = Vec::new();
        let mut i: usize = 0;
        while i < self.instances.len()
            invariant
                i <= self.instances@.len(),
                r@ == self.configs().subrange(0, i as int),
            decreases self.instances@.len() - i,
        {
            r.push(self.instances[i].get_info());
            i = i + 1;
            assert(r@ =~= self.configs().subrange(0, i as int));
        }
        assert(r@ =~= self.configs());
        r
    }

    /// The machine whose id is `id`.
    pub fn get_vps(&self, id: &str) -> (r: Option<&VpsInstance>)
        ensures
            match index_by_id(self.configs(), id@) {
                Some(i) => r == Some(&self.machines()[i]),
                None => r is None,
            },
    {
        match self.find_by_id(id) {
            Some(i) => {
                proof {
                    lemma_index_by_id(self.configs(), id@);
                }
                Some(&self.instances[i])
            },
            None => None,
        }
    }

    /// Putting back at index `i` a machine whose id is unchanged keeps the
    /// registry well formed.
    proof fn lemma_replace_keeps(&self, before: VpsManager, i: int)
        requires
            before.wf(),
            0 <= i < before.machines().len(),
            self.machines().len() == before.machines().len(),
            forall|k: int| 0 <= k < self.machines().len() && k != i ==> self.machines()[k]
                == before.machines()[k],
            self.machines()[i].wf(),
            self.machines()[i].config.id == before.machines()[i].config.id,
            self.machines()[i].config.name == before.machines()[i].config.name,
        ensures
            self.wf(),
            self.configs() == before.configs().update(i, self.machines()[i].config),
    {
        assert(self.configs() =~= before.configs().update(i, self.machines()[i].config));
        let c = self.configs();
        let o = before.configs();
        assert forall|a: int, b: int| 0 <= a < c.len() && 0 <= b < c.len() && a != b implies c[a].id@
            != c[b].id@ by {
            assert(c[a].id == o[a].id && c[b].id == o[b].id);
        }
    }
}

proof fn lemma_resolve(s: Seq<VpsConfig>, x: Seq<char>)
    ensures
        match resolve(s, x) {
            Some(i) => 0 <= i < s.len(),
            None => true,
        },
{
    lemma_index_by_id(s, x);
    lemma_index_by_name(s, x);
}

/// The stored nodes of a new machine's filesystem.
pub open spec fn initial_tree() -> Seq<EntryView> {
    seq![(seq!["network"@], None), (seq!["home"@], None), (seq!["etc"@], None)]
}

proof fn lemma_initial_tree(
    e: Seq<EntryView>,
    t0: Seq<EntryView>,
    t1: Seq<EntryView>,
    t2: Seq<EntryView>,
)
    requires
        e.len() == 0,
        t0 == without_subtree(e, seq!["network"@]).push((seq!["network"@], None)),
        t1 == without_subtree(t0, seq!["home"@]).push((seq!["home"@], None)),
        t2 == without_subtree(t1, seq!["etc"@]).push((seq!["etc"@], None)),
    ensures
        t2 == initial_tree(),
{
    reveal_strlit("network");
    reveal_strlit("home");
    reveal_strlit("etc");
    let n = seq!["network"@];
    let h = seq!["home"@];
    let x = seq!["etc"@];
    assert(without_subtree(e, n) =~= e);
    assert(t0 =~= seq![(n, None::<Seq<u8>>)]);
    assert(!seg_prefix(h, n)) by {
        assert(n.subrange(0, 1) =~= n);
        assert(n[0].len() != h[0].len());
    }
    assert(t0.drop_last() =~= e);
    assert(without_subtree(t0.drop_last(), h) =~= e);
    assert(without_subtree(t0, h) =~= t0);
    assert(t1 =~= seq![(n, None::<Seq<u8>>), (h, None::<Seq<u8>>)]);
    assert(!seg_prefix(x, n)) by {
        assert(n.subrange(0, 1) =~= n);
        assert(n[0].len() != x[0].len());
    }
    assert(!seg_prefix(x, h)) by {
        assert(h.subrange(0, 1) =~= h);
        assert(h[0].len() != x[0].len());
    }
    assert(t1.drop_last() =~= t0);
    assert(without_subtree(t0.drop_last(), x) =~= e);
    assert(without_subtree(t1.drop_last(), x) =~= t0);
    assert(without_subtree(t1, x) =~= t1);
    assert(t2 =~= initial_tree());
}

proof fn lemma_split_names()
    ensures
        split_spec("/network"@) == seq!["network"@],
        split_spec("/home"@) == seq!["home"@],
        split_spec("/etc"@) == seq!["etc"@],
{
    reveal_strlit("/network");
    reveal_strlit("network");
    reveal_strlit("/home");
    reveal_strlit("home");
    reveal_strlit("/etc");
    reveal_strlit("etc");
    reveal_with_fuel(split_state, 9);
    assert("/network"@.subrange(1, 8) =~= "network"@);
    assert(split_spec("/network"@) =~= seq!["network"@]);
    assert("/home"@.subrange(1, 5) =~= "home"@);
    assert("/etc"@.subrange(1, 4) =~= "etc"@);
    assert(split_spec("/home"@) =~= seq!["home"@]);
    assert(split_spec("/etc"@) =~= seq!["etc"@]);
}

/// `/home` and `/etc`, created in that order under the root of a
/// filesystem with all three mounts, are stored directories afterwards.
proof fn lemma_fresh_dirs(fs: &FileSystem, t0: Seq<EntryView>, t1: Seq<EntryView>)
    requires
        fs.proc_mount() is Some,
        fs.dev_mounted(),
        fs.network_mount() is Some,
        t1 == without_subtree(t0, seq!["home"@]).push((seq!["home"@], None)),
        fs.tree() == without_subtree(t1, seq!["etc"@]).push((seq!["etc"@], None)),
    ensures
        fs.kind_at("/home"@) == Some(NodeType::Directory),
        fs.kind_at("/etc"@) == Some(NodeType::Directory),
{
    lemma_split_names();
    reveal_strlit("/home");
    reveal_strlit("/etc");
    reveal_strlit("/");
    reveal_strlit("/proc");
    reveal_strlit("/proc/");
    reveal_strlit("/dev");
    reveal_strlit("/dev/");
    reveal_strlit("/network");
    reveal_strlit("/network/");
    let home = seq!["home"@];
    let etc = seq!["etc"@];
    assert(home != etc) by {
        reveal_strlit("home");
        reveal_strlit("etc");
        assert(home[0].len() != etc[0].len());
    }
    assert("/home"@ != "/dev"@) by {
        assert("/home"@[1] != "/dev"@[1]);
    }
    assert(!has_prefix("/home"@, "/dev/"@)) by {
        assert("/home"@.subrange(0, 5)[1] != "/dev/"@[1]);
    }
    assert("/etc"@ != "/dev"@) by {
        assert("/etc"@[1] != "/dev"@[1]);
    }
    assert("/home"@ != "/proc"@);
    assert("/etc"@ != "/proc"@);
    assert("/home"@ != "/network"@);
    assert("/etc"@ != "/network"@);
    assert("/home"@ != "/"@);
    assert("/etc"@ != "/"@);
    assert(fs.path_class("/home"@) == PathClass::Stored(home));
    assert(fs.path_class("/etc"@) == PathClass::Stored(etc));
    assert(!seg_prefix(etc, home)) by {
        assert(home.subrange(0, 1) =~= home);
    }
    lemma_without_subtree(t1, etc, home);
    assert(fs.tree().drop_last() =~= without_subtree(t1, etc));
    assert(t1.drop_last() =~= without_subtree(t0, home));
    assert(find_entry(t1, home) == Some(None::<Seq<u8>>));
}

/// A process that a machine has started shows under `/proc`: its record
/// carries its id, and looking up `/proc/<id>` gives a text file with that
/// record, priority and status included.
pub proof fn lemma_proc_shows_process(inst: VpsInstance, pid: u32, r: Option<Node>)
    requires
        inst.wf(),
        1 <= pid <= inst.scheduler.infos().len(),
        inst.filesystem.found("/proc/"@ + decimal(pid as nat), r),
    ensures
        inst.filesystem.proc_mount()->0.records()[pid - 1].id == pid,
        r matches Some(Node::Text(f)) && f.content@ == process_text(
            inst.scheduler.infos()[pid - 1],
        ),
{
    let d = decimal(pid as nat);
    let p = "/proc/"@ + d;
    let infos = inst.scheduler.infos();
    reveal_strlit("/");
    reveal_strlit("/proc");
    reveal_strlit("/proc/");
    assert(p.len() > 6);
    assert(p != "/"@);
    assert(p != "/proc"@);
    assert(p.subrange(0, 6) =~= "/proc/"@);
    assert(p.subrange(6, p.len() as int) =~= d);
    assert(inst.filesystem.path_class(p) == PathClass::ProcEntry(d));
    let k = pid - 1;
    assert(infos[k].id == pid);
    assert forall|j: int| 0 <= j < k implies #[trigger] infos[j].id != pid by {
        assert(infos[j].id == j + 1);
    }
    lemma_parse_decimal(pid);
    lemma_first_with_id(infos, k, pid);
}

} // verus!
