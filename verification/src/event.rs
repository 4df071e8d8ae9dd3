//! Events of processes and threads, whatever their source.

use vstd::prelude::*;

verus! {

/// What happened.
#[derive(Debug, Clone, Copy, PartialEq, Eq, Structural)]
pub enum EventKind {
    /// A process came into being.
    Fork,
    /// A process replaced its image.
    Exec,
    /// A thread came into being.
    ThreadClone,
    /// A thread moved to another CPU.
    CpuMigrate,
    /// A process or a thread ended.
    Exit,
}

/// An event.
#[derive(Debug)]
pub struct ProcessEvent {
    pub pid: i32,
    pub tid: i32,
    pub kind: EventKind,
    /// The CPU that a thread moved to.
    pub cpu: Option<u32>,
    /// The package of the process, if the source has read it.
    pub pkg: Option<String>,
}

impl Clone for ProcessEvent {
    fn clone(&self) -> (r: ProcessEvent)
        ensures
            r == *self,
    {
        let pkg = match &self.pkg {
            Some(p) => Some(p.clone()),
            None => None,
        };
        ProcessEvent { pid: self.pid, tid: self.tid, kind: self.kind, cpu: self.cpu, pkg }
    }
}

impl ProcessEvent {
    /// An event without a package.
    pub open spec fn plain(pid: i32, tid: i32, kind: EventKind) -> ProcessEvent {
        ProcessEvent { pid, tid, kind, cpu: None, pkg: None }
    }

    pub fn fork(pid: i32, tid: i32) -> (r: ProcessEvent)
        ensures
            r == Self::plain(pid, tid, EventKind::Fork),
    {
        ProcessEvent { pid, tid, kind: EventKind::Fork, cpu: None, pkg: None }
    }

    pub fn exec(pid: i32, tid: i32) -> (r: ProcessEvent)
        ensures
            r == Self::plain(pid, tid, EventKind::Exec),
    {
        ProcessEvent { pid, tid, kind: EventKind::Exec, cpu: None, pkg: None }
    }

    pub fn thread_clone(pid: i32, tid: i32) -> (r: ProcessEvent)
        ensures
            r == Self::plain(pid, tid, EventKind::ThreadClone),
    {
        ProcessEvent { pid, tid, kind: EventKind::ThreadClone, cpu: None, pkg: None }
    }

    pub fn cpu_migrate(pid: i32, tid: i32, cpu: u32) -> (r: ProcessEvent)
        ensures
            r == (ProcessEvent {
                cpu: Some(cpu),
                ..Self::plain(pid, tid, EventKind::CpuMigrate)
            }),
    {
        ProcessEvent { pid, tid, kind: EventKind::CpuMigrate, cpu: Some(cpu), pkg: None }
    }

    pub fn exit(pid: i32, tid: i32) -> (r: ProcessEvent)
        ensures
            r == Self::plain(pid, tid, EventKind::Exit),
    {
        ProcessEvent { pid, tid, kind: EventKind::Exit, cpu: None, pkg: None }
    }

    /// The same event with the package of its process.
    pub fn with_pkg(self, pkg: String) -> (r: ProcessEvent)
        ensures
            r == (ProcessEvent { pkg: Some(pkg), ..self }),
    {
        ProcessEvent {
            pid: self.pid,
            tid: self.tid,
            kind: self.kind,
            cpu: self.cpu,
            pkg: Some(pkg),
        }
    }
}

} // verus!
