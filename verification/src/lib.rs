//! Open-descriptor correlation over snapshots of the kernel's process table.
//!
//! A caller reads the process table and the protocol tables into a [`Snapshot`]; the
//! engine answers from it which process holds what, who holds a given file and who is
//! bound to a given port.
pub mod engine;
pub mod filesync;
pub mod model;
pub mod tables;
pub mod text;

pub use filesync::Error;
pub use model::{Fdinfo, LsofData, ProcEntry, Snapshot, SocketTables};
pub use tables::GetFileInfo;
