//! The kinds of node that a filesystem lookup hands out.
use vstd::prelude::*;
use vstd::string::StringExecFns;
use crate::bytes::copy_bytes;
use crate::path::{segs, str_equal};
use crate::scheduler::{ProcessInfo, Scheduler};
use crate::text::{
    decimal, decimal_string, parse_id, parse_u32, process_record, process_text, route_record,
    route_text,
};

verus! {

/// Whether a node holds data or other nodes.
#[derive(Clone, Copy, Debug, PartialEq, Eq, Structural)]
pub enum NodeType {
    File,
    Directory,
}

/// A stored file: a name and a byte buffer that writes append to.
pub struct File {
    pub name: String,
    pub content: Vec<u8>,
}

impl File {
    /// An empty file.
    pub fn new(name: &str) -> (r: File)
        ensures
            r.name@ == name@,
            r.content@.len() == 0,
    {
        File { name: name.to_string(), content: Vec::new() }
    }

    pub fn name(&self) -> (r: String)
        ensures
            r@ == self.name@,
    {
        self.name.clone()
    }

    /// Appends `data` to the contents.
    pub fn write(&mut self, data: &[u8])
        ensures
            final(self).name == old(self).name,
            final(self).content@ == old(self).content@ + data@,
    {
        let mut i: usize = 0;
        let ghost start = self.content@;
        while i < data.len()
            invariant
                i <= data@.len(),
                self.content@ == start + data@.subrange(0, i as int),
                self.name == old(self).name,
            decreases data@.len() - i,
        {
            self.content.push(data[i]);
            i = i + 1;
            assert(self.content@ =~= start + data@.subrange(0, i as int));
        }
        assert(data@.subrange(0, i as int) =~= data@);
    }

    /// All contents written so far.
    pub fn read(&self) -> (r: Vec<u8>)
        ensures
            r@ == self.content@,
    {
        copy_bytes(self.content.as_slice())
    }
}

/// No name stands twice.
pub open spec fn names_unique(names: Seq<Seq<char>>) -> bool {
    forall|a: int, b: int|
        0 <= a < names.len() && 0 <= b < names.len() && a != b ==> #[trigger] names[a]
            != #[trigger] names[b]
}

/// A directory as a lookup hands it out: its name and its direct children.
/// Child directories come without their own children; each is looked up by
/// its own path.
pub struct Directory {
    pub name: String,
    pub children: Vec<Node>,
}

impl Directory {
    /// An empty directory.
    pub fn new(name: &str) -> (r: Directory)
        ensures
            r.name@ == name@,
            r.children@.len() == 0,
    {
        Directory { name: name.to_string(), children: Vec::new() }
    }

    pub fn name(&self) -> (r: String)
        ensures
            r@ == self.name@,
    {
        self.name.clone()
    }

    /// The names of the children, in order.
    pub open spec fn child_names(&self) -> Seq<Seq<char>> {
        self.children@.map_values(|n: Node| n.name_view())
    }

    fn position(&self, name: &str) -> (r: Option<usize>)
        ensures
            match r {
                Some(i) => i < self.children@.len() && self.children@[i as int].name_view()
                    == name@,
                None => forall|i: int|
                    0 <= i < self.children@.len() ==> self.children@[i].name_view() != name@,
            },
    {
        let mut i: usize = 0;
        while i < self.children.len()
            invariant
                i <= self.children@.len(),
                forall|k: int| 0 <= k < i ==> self.children@[k].name_view() != name@,
            decreases self.children@.len() - i,
        {
            let n = self.children[i].name();
            if str_equal(n.as_str(), name) {
                return Some(i);
            }
            i = i + 1;
        }
        None
    }

    /// Adds a child, replacing one of the same name.
    pub fn add(&mut self, node: Node)
        ensures
            final(self).name == old(self).name,
            (exists|i: int|
                0 <= i < old(self).children@.len() && old(self).children@[i].name_view()
                    == node.name_view() && final(self).children@ == old(self).children@.update(
                    i,
                    node,
                )) || ((forall|i: int|
                0 <= i < old(self).children@.len() ==> old(self).children@[i].name_view()
                    != node.name_view()) && final(self).children@ == old(self).children@.push(
                node,
            )),
            names_unique(old(self).child_names()) ==> names_unique(final(self).child_names()),
            exists|i: int|
                0 <= i < final(self).children@.len() && final(self).children@[i] == node,
            forall|x: Seq<char>| #[trigger] final(self).child_names().contains(x) <==> (x == node.name_view()
                || old(self).child_names().contains(x)),
    {
        let ghost o = self.children@;
        match self.position(node.name().as_str()) {
            Some(i) => {
                self.children.set(i, node);
                proof {
                    let n = self.children@;
                    if names_unique(old(self).child_names()) {
                        assert forall|a: int, b: int|
                            0 <= a < n.len() && 0 <= b < n.len() && a != b implies #[trigger] self.child_names()[a]
                            != #[trigger] self.child_names()[b] by {
                            assert(old(self).child_names()[i as int] == node.name_view());
                            if a != i && b != i {
                                assert(self.child_names()[a] == old(self).child_names()[a]);
                                assert(self.child_names()[b] == old(self).child_names()[b]);
                            } else if a == i {
                                assert(self.child_names()[b] == old(self).child_names()[b]);
                            } else {
                                assert(self.child_names()[a] == old(self).child_names()[a]);
                            }
                        }
                    }
                    assert(n[i as int] == node);
                    assert forall|x: Seq<char>| #[trigger] self.child_names().contains(x) <==> (x
                        == node.name_view() || old(self).child_names().contains(x)) by {
                        if self.child_names().contains(x) {
                            let j = choose|j: int| 0 <= j < n.len() && self.child_names()[j] == x;
                            if j != i {
                                assert(old(self).child_names()[j] == x);
                            }
                        }
                        if x == node.name_view() {
                            assert(self.child_names()[i as int] == x);
                        }
                        if old(self).child_names().contains(x) {
                            let j = choose|j: int|
                                0 <= j < o.len() && old(self).child_names()[j] == x;
                            assert(self.child_names()[j] == x);
                        }
                    }
                }
            },
            None => {
                self.children.push(node);
                proof {
                    let n = self.children@;
                    if names_unique(old(self).child_names()) {
                        assert forall|a: int, b: int|
                            0 <= a < n.len() && 0 <= b < n.len() && a != b implies #[trigger] self.child_names()[a]
                            != #[trigger] self.child_names()[b] by {
                            if a < o.len() {
                                assert(self.child_names()[a] == old(self).child_names()[a]);
                            }
                            if b < o.len() {
                                assert(self.child_names()[b] == old(self).child_names()[b]);
                            }
                        }
                    }
                    assert(n[n.len() - 1] == node);
                    assert forall|x: Seq<char>| #[trigger] self.child_names().contains(x) <==> (x
                        == node.name_view() || old(self).child_names().contains(x)) by {
                        if self.child_names().contains(x) {
                            let j = choose|j: int| 0 <= j < n.len() && self.child_names()[j] == x;
                            if j < o.len() {
                                assert(old(self).child_names()[j] == x);
                            }
                        }
                        if x == node.name_view() {
                            assert(self.child_names()[n.len() - 1] == x);
                        }
                        if old(self).child_names().contains(x) {
                            let j = choose|j: int|
                                0 <= j < o.len() && old(self).child_names()[j] == x;
                            assert(self.child_names()[j] == x);
                        }
                    }
                }
            },
        }
    }

    /// The child named `name`, if there is one.
    pub fn get(&self, name: &str) -> (r: Option<&Node>)
        ensures
            match r {
                Some(n) => n.name_view() == name@ && self.children@.contains(*n),
                None => !self.child_names().contains(name@),
            },
    {
        match self.position(name) {
            Some(i) => {
                Some(&self.children[i])
            },
            None => {
                proof {
                    if self.child_names().contains(name@) {
                        let j = choose|j: int|
                            0 <= j < self.children@.len() && self.child_names()[j] == name@;
                        assert(self.children@[j].name_view() == name@);
                    }
                }
                None
            },
        }
    }

    /// The names of the children.
    pub fn list(&self) -> (r: Vec<String>)
        ensures
            segs(r@) == self.child_names(),
    {
        let mut r: Vec<String> = Vec::new();
        let mut i: usize = 0;
        while i < self.children.len()
            invariant
                i <= self.children@.len(),
                segs(r@) == self.child_names().subrange(0, i as int),
            decreases self.children@.len() - i,
        {
            let ghost prev = r@;
            r.push(self.children[i].name());
            i = i + 1;
            assert(segs(r@) =~= self.child_names().subrange(0, i as int)) by {
                assert(segs(r@) =~= segs(prev).push(
                    self.children@[i - 1].name_view(),
                ));
            }
        }
        assert(self.child_names().subrange(0, i as int) =~= self.child_names());
        r
    }
}

/// `/dev/null`: reads give nothing, writes are dropped.
#[derive(Clone, Copy, Debug)]
pub struct NullDevice;

impl NullDevice {
    pub fn new() -> (r: NullDevice) {
        NullDevice
    }

    pub fn read(&self) -> (r: String)
        ensures
            r@.len() == 0,
    {
        String::new()
    }

    pub fn write(&mut self, _data: &str)
        ensures
            *final(self) == *old(self),
    {
    }
}

/// `/dev/random`: reads give the current time in nanoseconds modulo 256, as
/// a decimal numeral. Predictable; not for any use that needs chance.
#[derive(Clone, Copy, Debug)]
pub struct RandomDevice;

impl RandomDevice {
    pub fn new() -> (r: RandomDevice) {
        RandomDevice
    }

    /// What a read gives at the time `now_nanos`.
    pub fn read(&self, now_nanos: u64) -> (r: String)
        ensures
            r@ == decimal((now_nanos % 256) as nat),
    {
        decimal_string(now_nanos % 256)
    }

    pub fn write(&mut self, _data: &str)
        ensures
            *final(self) == *old(self),
    {
    }
}

/// `/dev`: a fixed table of two devices, `null` and `random`.
#[derive(Clone, Copy, Debug)]
pub struct DevDirectory;

impl DevDirectory {
    pub fn new() -> (r: DevDirectory) {
        DevDirectory
    }

    pub fn list(&self) -> (r: Vec<String>)
        ensures
            segs(r@) == seq!["null"@, "random"@],
    {
        let mut r: Vec<String> = Vec::new();
        r.push("null".to_string());
        r.push("random".to_string());
        assert(segs(r@) =~= seq!["null"@, "random"@]);
        r
    }

    /// The device named `name`.
    pub fn get(&self, name: &str) -> (r: Option<Node>)
        ensures
            r == dev_lookup(name@),
    {
        if str_equal(name, "null") {
            Some(Node::Null(NullDevice))
        } else if str_equal(name, "random") {
            Some(Node::Random(RandomDevice))
        } else {
            None
        }
    }

    /// The table is fixed: adding does nothing.
    pub fn add(&self, _node: Node) {
    }
}

pub open spec fn dev_lookup(name: Seq<char>) -> Option<Node> {
    if name == "null"@ {
        Some(Node::Null(NullDevice))
    } else if name == "random"@ {
        Some(Node::Random(RandomDevice))
    } else {
        None
    }
}

/// A read-only text file made on demand: a process record under `/proc`, or
/// a route under `/network`.
pub struct ProcFile {
    pub name: String,
    pub content: String,
}

impl ProcFile {
    pub fn read(&self) -> (r: String)
        ensures
            r@ == self.content@,
    {
        self.content.clone()
    }

    /// Read-only: writes are dropped.
    pub fn write(&mut self, _data: &str)
        ensures
            *final(self) == *old(self),
    {
    }
}

/// The first record with id `id`.
pub open spec fn first_with_id(infos: Seq<ProcessInfo>, id: u32) -> Option<ProcessInfo>
    decreases infos.len(),
{
    if infos.len() == 0 {
        None
    } else if infos[0].id == id {
        Some(infos[0])
    } else {
        first_with_id(infos.drop_first(), id)
    }
}

/// The record that `/proc/<name>` shows: `name` read as a process id, and
/// the first record with that id.
pub open spec fn proc_lookup(infos: Seq<ProcessInfo>, name: Seq<char>) -> Option<ProcessInfo> {
    match parse_u32(name) {
        Some(id) => first_with_id(infos, id),
        None => None,
    }
}

/// The record found for an id is the first that carries it.
pub proof fn lemma_first_with_id(infos: Seq<ProcessInfo>, k: int, id: u32)
    requires
        0 <= k < infos.len(),
        infos[k].id == id,
        forall|j: int| 0 <= j < k ==> #[trigger] infos[j].id != id,
    ensures
        first_with_id(infos, id) == Some(infos[k]),
    decreases k,
{
    if k > 0 {
        let t = infos.drop_first();
        assert forall|j: int| 0 <= j < k - 1 implies #[trigger] t[j].id != id by {
            assert(t[j] == infos[j + 1]);
        }
        assert(infos[0].id != id);
        lemma_first_with_id(t, k - 1, id);
    }
}

/// `/proc`: one read-only file per process record of a scheduler, named by
/// the process id.
pub struct ProcDirectory {
    processes: Vec<ProcessInfo>,
}

impl ProcDirectory {
    /// The records it shows.
    pub closed spec fn records(&self) -> Seq<ProcessInfo> {
        self.processes@
    }

    /// Shows the records of `scheduler` as they stand now.
    pub fn new(scheduler: &Scheduler) -> (r: ProcDirectory)
        ensures
            r.records() == scheduler.infos(),
    {
        ProcDirectory { processes: scheduler.list_processes() }
    }

    /// A second view of the same records.
    pub fn copy(&self) -> (r: ProcDirectory)
        ensures
            r.records() == self.records(),
    {
        let mut processes: Vec<ProcessInfo> = Vec::new();
        let mut i: usize = 0;
        while i < self.processes.len()
            invariant
                i <= self.processes@.len(),
                processes@ == self.processes@.subrange(0, i as int),
            decreases self.processes@.len() - i,
        {
            processes.push(self.processes[i]);
            i = i + 1;
            assert(processes@ =~= self.processes@.subrange(0, i as int));
        }
        assert(processes@ =~= self.processes@);
        ProcDirectory { processes }
    }

    /// Read-only: adding does nothing.
    pub fn add(&self, _node: Node) {
    }

    /// The record of the process whose id is `name`, as a text file.
    pub fn get(&self, name: &str) -> (r: Option<Node>)
        ensures
            match proc_lookup(self.records(), name@) {
                Some(p) => r matches Some(Node::Text(f)) && f.name@ == "task"@ && f.content@
                    == process_text(p),
                None => r is None,
            },
    {
        let id = match parse_id(name) {
            Some(id) => id,
            None => {
                return None;
            },
        };
        let mut i: usize = 0;
        assert(self.processes@.subrange(0, self.processes@.len() as int) =~= self.processes@);
        while i < self.processes.len()
            invariant
                i <= self.processes@.len(),
                parse_u32(name@) == Some(id),
                first_with_id(self.processes@, id) == first_with_id(
                    self.processes@.subrange(i as int, self.processes@.len() as int),
                    id,
                ),
            decreases self.processes@.len() - i,
        {
            let p = self.processes[i];
            let ghost rest = self.processes@.subrange(i as int, self.processes@.len() as int);
            assert(rest[0] == p);
            if p.id == id {
                assert(first_with_id(rest, id) == Some(p));
                assert(proc_lookup(self.records(), name@) == Some(p));
                return Some(Node::Text(ProcFile { name: "task".to_string(), content: process_record(&p) }));
            }
            assert(rest.drop_first() =~= self.processes@.subrange(i + 1, self.processes@.len() as int));
            i = i + 1;
        }
        None
    }

    /// The ids of all processes, in decimal.
    pub fn list(&self) -> (r: Vec<String>)
        ensures
            r@.len() == self.records().len(),
            forall|i: int|
                0 <= i < r@.len() ==> #[trigger] r@[i]@ == decimal(self.records()[i].id as nat),
    {
        let mut r: Vec<String> = Vec::new();
        let mut i: usize = 0;
        while i < self.processes.len()
            invariant
                i <= self.processes@.len(),
                r@.len() == i,
                forall|k: int|
                    0 <= k < i ==> #[trigger] r@[k]@ == decimal(self.processes@[k].id as nat),
            decreases self.processes@.len() - i,
        {
            r.push(decimal_string(self.processes[i].id as u64));
            i = i + 1;
        }
        r
    }
}

/// The routes that remain after dropping those to `dest`.
pub open spec fn routes_without(s: Seq<(String, String)>, dest: Seq<char>) -> Seq<(String, String)>
    decreases s.len(),
{
    if s.len() == 0 {
        s
    } else if s.last().0@ == dest {
        routes_without(s.drop_last(), dest)
    } else {
        routes_without(s.drop_last(), dest).push(s.last())
    }
}

/// The gateway of the last route to `dest`.
pub open spec fn route_lookup(s: Seq<(String, String)>, dest: Seq<char>) -> Option<Seq<char>>
    decreases s.len(),
{
    if s.len() == 0 {
        None
    } else if s.last().0@ == dest {
        Some(s.last().1@)
    } else {
        route_lookup(s.drop_last(), dest)
    }
}

proof fn lemma_routes_without(s: Seq<(String, String)>, dest: Seq<char>, x: Seq<char>)
    ensures
        route_lookup(routes_without(s, dest), x) == if x == dest {
            None
        } else {
            route_lookup(s, x)
        },
    decreases s.len(),
{
    if s.len() > 0 {
        lemma_routes_without(s.drop_last(), dest, x);
        if s.last().0@ != dest {
            assert(routes_without(s, dest).drop_last() == routes_without(s.drop_last(), dest));
        }
    }
}

/// `/network`: a table of routes from destination to gateway.
pub struct NetworkDirectory {
    routes: Vec<(String, String)>,
}

impl NetworkDirectory {
    /// The routes, in order.
    pub closed spec fn route_table(&self) -> Seq<(String, String)> {
        self.routes@
    }

    /// The gateway for `dest`, if there is a route to it.
    pub open spec fn gateway(&self, dest: Seq<char>) -> Option<Seq<char>> {
        route_lookup(self.route_table(), dest)
    }

    /// A table holding the one `default` route.
    pub fn new() -> (r: NetworkDirectory)
        ensures
            r.route_table().len() == 1,
            r.route_table()[0].0@ == "default"@,
            r.route_table()[0].1@ == "0.0.0.0/0 via 192.168.1.1"@,
            forall|x: Seq<char>| #[trigger] r.gateway(x) == if x == "default"@ {
                Some("0.0.0.0/0 via 192.168.1.1"@)
            } else {
                None
            },
    {
        let mut routes: Vec<(String, String)> = Vec::new();
        routes.push(("default".to_string(), "0.0.0.0/0 via 192.168.1.1".to_string()));
        let r = NetworkDirectory { routes };
        assert forall|x: Seq<char>| #[trigger] r.gateway(x) == if x == "default"@ {
            Some("0.0.0.0/0 via 192.168.1.1"@)
        } else {
            None
        } by {
            let t = r.route_table();
            assert(t.len() == 1);
            assert(t.last().0@ == "default"@);
            assert(t.last().1@ == "0.0.0.0/0 via 192.168.1.1"@);
            assert(t.drop_last().len() == 0);
            assert(route_lookup(t.drop_last(), x) == None::<Seq<char>>);
        }
        r
    }

    /// Sets the gateway for `destination`, replacing any route to it.
    pub fn add_route(&mut self, destination: &str, gateway: &str)
        ensures
            forall|x: Seq<char>| #[trigger] final(self).gateway(x) == if x == destination@ {
                Some(gateway@)
            } else {
                old(self).gateway(x)
            },
    {
        let mut kept: Vec<(String, String)> = Vec::new();
        let mut i: usize = 0;
        while i < self.routes.len()
            invariant
                i <= self.routes@.len(),
                self.routes@ == old(self).routes@,
                kept@ == routes_without(self.routes@.subrange(0, i as int), destination@),
            decreases self.routes@.len() - i,
        {
            let ghost t = self.routes@.subrange(0, i as int + 1);
            assert(t.drop_last() =~= self.routes@.subrange(0, i as int));
            if !str_equal(self.routes[i].0.as_str(), destination) {
                let d = self.routes[i].0.clone();
                let g = self.routes[i].1.clone();
                kept.push((d, g));
                proof {
                    assert(t.last() == self.routes@[i as int]);
                    assert((d, g) == self.routes@[i as int]);
                }
            }
            i = i + 1;
        }
        assert(self.routes@.subrange(0, i as int) =~= self.routes@);
        kept.push((destination.to_string(), gateway.to_string()));
        self.routes = kept;
        proof {
            assert forall|x: Seq<char>| #[trigger] self.gateway(x) == if x == destination@ {
                Some(gateway@)
            } else {
                old(self).gateway(x)
            } by {
                assert(self.routes@.drop_last() == routes_without(old(self).routes@, destination@));
                lemma_routes_without(old(self).routes@, destination@, x);
            }
        }
    }

    /// A second table holding the same routes.
    pub fn copy(&self) -> (r: NetworkDirectory)
        ensures
            r.route_table() == self.route_table(),
    {
        let mut routes: Vec<(String, String)> = Vec::new();
        let mut i: usize = 0;
        while i < self.routes.len()
            invariant
                i <= self.routes@.len(),
                routes@ == self.routes@.subrange(0, i as int),
            decreases self.routes@.len() - i,
        {
            routes.push((self.routes[i].0.clone(), self.routes[i].1.clone()));
            i = i + 1;
            assert(routes@ =~= self.routes@.subrange(0, i as int));
        }
        assert(routes@ =~= self.routes@);
        NetworkDirectory { routes }
    }

    /// The routes, in order, as (destination, gateway) pairs.
    pub fn get_routes(&self) -> (r: Vec<(String, String)>)
        ensures
            r@.len() == self.route_table().len(),
            forall|i: int|
                0 <= i < r@.len() ==> #[trigger] r@[i].0@ == self.route_table()[i].0@ && r@[i].1@
                    == self.route_table()[i].1@,
    {
        let mut r: Vec<(String, String)> = Vec::new();
        let mut i: usize = 0;
        while i < self.routes.len()
            invariant
                i <= self.routes@.len(),
                r@.len() == i,
                forall|k: int|
                    0 <= k < i ==> #[trigger] r@[k].0@ == self.routes@[k].0@ && r@[k].1@
                        == self.routes@[k].1@,
            decreases self.routes@.len() - i,
        {
            r.push((self.routes[i].0.clone(), self.routes[i].1.clone()));
            i = i + 1;
        }
        r
    }

    /// The destinations, in order.
    pub fn list(&self) -> (r: Vec<String>)
        ensures
            r@.len() == self.route_table().len(),
            forall|i: int| 0 <= i < r@.len() ==> #[trigger] r@[i]@ == self.route_table()[i].0@,
    {
        let mut r: Vec<String> = Vec::new();
        let mut i: usize = 0;
        while i < self.routes.len()
            invariant
                i <= self.routes@.len(),
                r@.len() == i,
                forall|k: int| 0 <= k < i ==> #[trigger] r@[k]@ == self.routes@[k].0@,
            decreases self.routes@.len() - i,
        {
            r.push(self.routes[i].0.clone());
            i = i + 1;
        }
        r
    }

    /// The route to `name`, as a text file named after it.
    pub fn get(&self, name: &str) -> (r: Option<Node>)
        ensures
            match self.gateway(name@) {
                Some(g) => r matches Some(Node::Text(f)) && f.name@ == name@ && f.content@
                    == route_text(name@, g),
                None => r is None,
            },
    {
        let mut i: usize = self.routes.len();
        assert(self.routes@.subrange(0, i as int) =~= self.routes@);
        while i > 0
            invariant
                i <= self.routes@.len(),
                route_lookup(self.routes@, name@) == route_lookup(
                    self.routes@.subrange(0, i as int),
                    name@,
                ),
            decreases i,
        {
            let ghost t = self.routes@.subrange(0, i as int);
            assert(t.drop_last() =~= self.routes@.subrange(0, i - 1));
            assert(t.last() == self.routes@[i - 1]);
            if str_equal(self.routes[i - 1].0.as_str(), name) {
                let content = route_record(name, self.routes[i - 1].1.as_str());
                return Some(Node::Text(ProcFile { name: name.to_string(), content }));
            }
            i = i - 1;
        }
        None
    }

    /// Routes are added by `add_route`: adding a node does nothing.
    pub fn add(&self, _node: Node) {
    }
}

/// Any node of the filesystem.
pub enum Node {
    File(File),
    Directory(Directory),
    Null(NullDevice),
    Random(RandomDevice),
    Text(ProcFile),
    Proc(ProcDirectory),
    Dev(DevDirectory),
    Network(NetworkDirectory),
}

impl Node {
    pub open spec fn name_view(&self) -> Seq<char> {
        match self {
            Node::File(f) => f.name@,
            Node::Directory(d) => d.name@,
            Node::Null(_) => "null"@,
            Node::Random(_) => "random"@,
            Node::Text(f) => f.name@,
            Node::Proc(_) => "proc"@,
            Node::Dev(_) => "dev"@,
            Node::Network(_) => "network"@,
        }
    }

    pub open spec fn type_view(&self) -> NodeType {
        match self {
            Node::Directory(_) | Node::Proc(_) | Node::Dev(_) | Node::Network(_) => {
                NodeType::Directory
            },
            _ => NodeType::File,
        }
    }

    pub fn name(&self) -> (r: String)
        ensures
            r@ == self.name_view(),
    {
        match self {
            Node::File(f) => f.name.clone(),
            Node::Directory(d) => d.name.clone(),
            Node::Null(_) => "null".to_string(),
            Node::Random(_) => "random".to_string(),
            Node::Text(f) => f.name.clone(),
            Node::Proc(_) => "proc".to_string(),
            Node::Dev(_) => "dev".to_string(),
            Node::Network(_) => "network".to_string(),
        }
    }

    pub fn node_type(&self) -> (r: NodeType)
        ensures
            r == self.type_view(),
    {
        match self {
            Node::Directory(_) | Node::Proc(_) | Node::Dev(_) | Node::Network(_) => {
                NodeType::Directory
            },
            _ => NodeType::File,
        }
    }
}

} // verus!
