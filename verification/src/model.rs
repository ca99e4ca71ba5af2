//! The data that a scan reads and the data that it builds.
use vstd::prelude::*;
use crate::text::strs;

verus! {

/// What is known of one process: its identifier, its name where the status text gives one,
/// and the targets of its descriptors, each once.
#[derive(Debug, PartialEq)]
pub struct Fdinfo {
    /// Process identifier, as the process table names it.
    pub pid: String,
    /// Process name, if the status text holds one.
    pub name: Option<String>,
    /// The targets that the process holds open; no target stands twice.
    pub link: Vec<String>,
}

/// An `Fdinfo` as a mathematical value: the targets form a set.
pub struct FdinfoView {
    pub pid: Seq<char>,
    pub name: Option<Seq<char>>,
    pub link: Set<Seq<char>>,
}

/// The view of an optional string.
pub open spec fn opt_view(s: Option<String>) -> Option<Seq<char>> {
    match s {
        Some(x) => Some(x@),
        None => None,
    }
}

impl View for Fdinfo {
    type V = FdinfoView;

    open spec fn view(&self) -> FdinfoView {
        FdinfoView { pid: self.pid@, name: opt_view(self.name), link: strs(self.link@).to_set() }
    }
}

impl Fdinfo {
    /// No target is listed twice.
    pub open spec fn wf(&self) -> bool {
        strs(self.link@).no_duplicates()
    }

    /// A record for `pid` with no name and no targets.
    pub fn new(pid: String) -> (r: Fdinfo)
        ensures
            r.wf(),
            r.pid@ == pid@,
            r.name is None,
            r.link@.len() == 0,
            r@.link == Set::<Seq<char>>::empty(),
    {
        let r = Fdinfo { pid, name: None, link: Vec::new() };
        assert(strs(r.link@).to_set() =~= Set::<Seq<char>>::empty());
        r
    }
}

impl Default for Fdinfo {
    fn default() -> (r: Fdinfo)
        ensures
            r.wf(),
            r.pid@.len() == 0,
            r.name is None,
            r.link@.len() == 0,
    {
        Fdinfo { pid: String::new(), name: None, link: Vec::new() }
    }
}

impl Clone for Fdinfo {
    fn clone(&self) -> (r: Fdinfo)
        ensures
            r.pid@ == self.pid@,
            opt_view(r.name) == opt_view(self.name),
            strs(r.link@) == strs(self.link@),
            r@ == self@,
    {
        let name = match &self.name {
            Some(n) => Some(n.clone()),
            None => None,
        };
        let mut link: Vec<String> = Vec::new();
        let mut i: usize = 0;
        while i < self.link.len()
            invariant
                i <= self.link@.len(),
                strs(link@) == strs(self.link@).take(i as int),
            decreases self.link@.len() - i,
        {
            let target = self.link[i].clone();
            let ghost before = strs(link@);
            link.push(target);
            assert(strs(link@) =~= before.push(target@));
            i = i + 1;
            assert(strs(link@) =~= strs(self.link@).take(i as int));
        }
        assert(strs(self.link@).take(i as int) =~= strs(self.link@));
        Fdinfo { pid: self.pid.clone(), name, link }
    }
}

/// One entry of the process-table root, as it was read: the entry's name, the status and
/// memory-map texts (empty where they could not be read) and the targets of the links in
/// its descriptor directory, in listing order.
#[derive(Debug)]
pub struct ProcEntry {
    pub name: String,
    pub status: String,
    pub maps: String,
    pub links: Vec<String>,
}

pub struct ProcEntryView {
    pub name: Seq<char>,
    pub status: Seq<char>,
    pub maps: Seq<char>,
    pub links: Seq<Seq<char>>,
}

impl View for ProcEntry {
    type V = ProcEntryView;

    open spec fn view(&self) -> ProcEntryView {
        ProcEntryView {
            name: self.name@,
            status: self.status@,
            maps: self.maps@,
            links: strs(self.links@),
        }
    }
}

/// The four protocol tables, each `None` where it could not be read.
#[derive(Debug)]
pub struct SocketTables {
    pub tcp: Option<String>,
    pub tcp6: Option<String>,
    pub udp: Option<String>,
    pub udp6: Option<String>,
}

/// What one query reads of the system: the entries of the process-table root, `None` where
/// the root could not be listed, and the protocol tables.
#[derive(Debug)]
pub struct Snapshot {
    pub procs: Option<Vec<ProcEntry>>,
    pub sockets: SocketTables,
}

/// The views of the entries of a process table.
pub open spec fn entries(v: Seq<ProcEntry>) -> Seq<ProcEntryView> {
    v.map_values(|e: ProcEntry| e@)
}

/// Which of a process's resources a scan reads besides its descriptors.
#[derive(Debug, Clone, Copy, PartialEq, Eq, Structural)]
pub enum LsofFiletype {
    /// Memory-mapped files.
    Mem,
    /// Descriptors and memory-mapped files.
    All,
    /// Descriptors only; the targets sought are sockets.
    Socket,
}

/// The correlation engine: the process index and the holders of the active target, as the
/// last scan left them.
pub struct LsofData {
    pub(crate) target_filetype: Option<LsofFiletype>,
    pub(crate) pidmap: Vec<Fdinfo>,
    pub(crate) targetmap: Vec<String>,
    pub(crate) target_filename: String,
}

} // verus!
