//! The blocking facade: the three queries, with the reason where one gives no result.
use vstd::prelude::*;
use crate::engine::{file_index, index_view, port_index, valid_index, all_index};
use crate::model::{Fdinfo, FdinfoView, LsofData, Snapshot, SocketTables};
use crate::tables::{port_targets, GetFileInfo};
use crate::text::is_pid;

verus! {

/// Why a query gives no result.
#[derive(Debug, Clone, Copy, PartialEq, Eq, Structural)]
pub enum Error {
    /// The process-table root could not be listed, or none of the protocol tables
    /// could be read.
    EnumerationFailed,
    /// The file is not there, or no process holds the target.
    NotFound,
}

/// None of the four protocol tables could be read.
pub open spec fn no_tables(tables: SocketTables) -> bool {
    tables.tcp is None && tables.tcp6 is None && tables.udp is None && tables.udp6 is None
}

/// Why `find-by-file` fails on a snapshot, if it does. A path that is not there is
/// reported before the process table is looked at.
pub open spec fn file_failure(path: Seq<char>, present: bool, snapshot: Snapshot) -> Option<Error> {
    if !present {
        Some(Error::NotFound)
    } else if snapshot.procs is None {
        Some(Error::EnumerationFailed)
    } else if file_index(snapshot.procs->0@, path) == Map::<Seq<char>, FdinfoView>::empty() {
        Some(Error::NotFound)
    } else {
        None
    }
}

/// Why `find-by-port` fails on a snapshot, if it does. A port that no table names is
/// reported before the process table is looked at.
pub open spec fn port_failure(port: Seq<char>, snapshot: Snapshot) -> Option<Error> {
    if no_tables(snapshot.sockets) {
        Some(Error::EnumerationFailed)
    } else if port_targets(snapshot.sockets, port).len() == 0 {
        Some(Error::NotFound)
    } else if snapshot.procs is None {
        Some(Error::EnumerationFailed)
    } else if port_index(snapshot, port) == Map::<Seq<char>, FdinfoView>::empty() {
        Some(Error::NotFound)
    } else {
        None
    }
}

/// The engine behind a blocking interface.
pub struct LsofSync {
    inner: LsofData,
}

impl LsofSync {
    /// The engine that answers the queries.
    pub closed spec fn engine(&self) -> LsofData {
        self.inner
    }

    /// A facade over an engine that has not scanned yet.
    pub fn new() -> (r: LsofSync)
        ensures
            r.engine().wf(),
            r.engine().index() == Map::<Seq<char>, FdinfoView>::empty(),
            r.engine().holders() == Set::<Seq<char>>::empty(),
    {
        LsofSync { inner: LsofData::new() }
    }

    /// Lists every process of the snapshot with what it holds open.
    pub fn file_ls(&mut self, snapshot: &Snapshot) -> (r: Result<Vec<Fdinfo>, Error>)
        ensures
            match r {
                Ok(list) => {
                    &&& snapshot.procs is Some
                    &&& valid_index(list@)
                    &&& index_view(list@) == all_index(snapshot.procs->0@)
                    &&& forall|i: int| 0 <= i < list@.len() ==> is_pid((#[trigger] list@[i]).pid@)
                },
                Err(e) => snapshot.procs is None && e == Error::EnumerationFailed,
            },
    {
        match self.inner.file_ls(snapshot) {
            Some(list) => Ok(list),
            None => Err(Error::EnumerationFailed),
        }
    }

    /// Lists the processes that hold `path` open. `present` tells whether the path is
    /// there at all.
    pub fn target_file_ls(&mut self, path: &str, present: bool, snapshot: &Snapshot) -> (r: Result<
        Vec<Fdinfo>,
        Error,
    >)
        ensures
            match r {
                Ok(list) => {
                    &&& file_failure(path@, present, *snapshot) is None
                    &&& valid_index(list@)
                    &&& index_view(list@) == file_index(snapshot.procs->0@, path@)
                },
                Err(e) => file_failure(path@, present, *snapshot) == Some(e),
            },
            !present ==> final(self).engine() == old(self).engine(),
    {
        if !present {
            return Err(Error::NotFound);
        }
        match &snapshot.procs {
            None => Err(Error::EnumerationFailed),
            Some(procs) => {
                let list = self.inner.scan_file(path.to_owned(), procs);
                if list.len() == 0 {
                    assert(index_view(list@) =~= Map::empty());
                    Err(Error::NotFound)
                } else {
                    assert(index_view(list@).dom().contains(list@.last().pid@));
                    Ok(list)
                }
            },
        }
    }

    /// Lists the processes that hold a socket bound to `port`, each once.
    pub fn port_ls(&mut self, port: &str, snapshot: &Snapshot) -> (r: Result<Vec<Fdinfo>, Error>)
        ensures
            match r {
                Ok(list) => {
                    &&& port_failure(port@, *snapshot) is None
                    &&& valid_index(list@)
                    &&& index_view(list@) == port_index(*snapshot, port@)
                },
                Err(e) => port_failure(port@, *snapshot) == Some(e),
            },
    {
        let tables = &snapshot.sockets;
        if tables.tcp.is_none() && tables.tcp6.is_none() && tables.udp.is_none()
            && tables.udp6.is_none() {
            return Err(Error::EnumerationFailed);
        }
        let targets = match self.inner.get_port_info(tables, port) {
            None => {
                return Err(Error::NotFound);
            },
            Some(targets) => targets,
        };
        match &snapshot.procs {
            None => Err(Error::EnumerationFailed),
            Some(procs) => {
                let list = self.inner.scan_targets(&targets, procs);
                if list.len() == 0 {
                    assert(index_view(list@) =~= Map::empty());
                    Err(Error::NotFound)
                } else {
                    assert(index_view(list@).dom().contains(list@.last().pid@));
                    Ok(list)
                }
            },
        }
    }
}

impl Default for LsofSync {
    fn default() -> (r: LsofSync)
        ensures
            r.engine().wf(),
            r.engine().index() == Map::<Seq<char>, FdinfoView>::empty(),
    {
        LsofSync::new()
    }
}

} // verus!
