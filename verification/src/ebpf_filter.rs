//! The filter in the kernel: which events of processes are reported.
//!
//! Forks and images are reported only of tasks whose name holds one of the
//! target keys, and not too often of one process. Ends are always reported.

use vstd::prelude::*;

verus! {

/// Kinds of reports.
pub const EVENT_FORK: u32 = 1;

pub const EVENT_EXEC: u32 = 2;

pub const EVENT_EXIT: u32 = 3;

/// Window in which repeated reports of a process count, in nanoseconds.
pub const DEDUP_WINDOW_NS: u64 = 100_000_000;

/// Reports of a process in a window.
pub const DEDUP_MAX_COUNT: u32 = 2;

/// A report.
#[derive(Debug, Clone, Copy)]
pub struct EbpfProcEvent {
    /// The process: the child of a fork.
    pub pid: i32,
    /// The task.
    pub tid: i32,
    /// The child of a fork, 0 otherwise.
    pub child_pid: i32,
    /// The name of the task, cut to fifteen bytes.
    pub comm: [u8; 16],
    pub event_type: u32,
}

/// What is remembered of the reports of a process.
#[derive(Debug, Clone, Copy, PartialEq, Eq, Structural)]
pub struct DedupEntry {
    /// When the window began, in nanoseconds.
    pub last_ns: u64,
    /// Reports in the window.
    pub count: u32,
}

/// What became of a report.
#[derive(Debug)]
pub struct Submission {
    /// The report, where it passes.
    pub event: Option<EbpfProcEvent>,
    /// What to remember from now on of the process that was counted.
    pub entry: Option<(u32, DedupEntry)>,
}

// ---------------------------------------------------------------------
// Specifications
// ---------------------------------------------------------------------

/// Eight bytes of a name.
pub open spec fn key_at(comm: Seq<u8>, pos: int) -> Seq<u8> {
    comm.subrange(pos, pos + 8)
}

/// Whether some keys hold one.
pub open spec fn holds_key(targets: Seq<[u8; 8]>, key: Seq<u8>) -> bool {
    exists|i: int| 0 <= i < targets.len() && (#[trigger] targets[i])@ == key
}

/// Whether eight bytes in a row of a name are a target.
pub open spec fn name_passes(comm: Seq<u8>, targets: Seq<[u8; 8]>) -> bool {
    exists|pos: int| 0 <= pos <= 8 && holds_key(targets, #[trigger] key_at(comm, pos))
}

/// Whether a report comes within the window of the one before.
pub open spec fn in_window(prev: Option<DedupEntry>, now_ns: u64) -> bool {
    let last = match prev {
        Some(e) => e.last_ns as int,
        None => 0int,
    };
    now_ns - last < DEDUP_WINDOW_NS
}

/// Reports counted so far.
pub open spec fn count_of(prev: Option<DedupEntry>) -> int {
    match prev {
        Some(e) => e.count as int,
        None => 0int,
    }
}

/// Whether a report is one too many in its window.
pub open spec fn too_many(prev: Option<DedupEntry>, now_ns: u64) -> bool {
    in_window(prev, now_ns) && count_of(prev) + 1 > DEDUP_MAX_COUNT
}

/// What is remembered after a report that was not one too many.
pub open spec fn remembered(prev: Option<DedupEntry>, now_ns: u64) -> DedupEntry {
    if in_window(prev, now_ns) {
        DedupEntry {
            last_ns: match prev {
                Some(e) => e.last_ns,
                None => 0,
            },
            count: (count_of(prev) + 1) as u32,
        }
    } else {
        DedupEntry { last_ns: now_ns, count: 1 }
    }
}

/// The window of a process does not begin in the future, and its count can
/// rise.
pub open spec fn plausible(prev: Option<DedupEntry>, now_ns: u64) -> bool {
    match prev {
        Some(e) => e.last_ns <= now_ns && e.count < u32::MAX,
        None => true,
    }
}

/// The process whose reports are counted.
pub open spec fn dedup_key(event: EbpfProcEvent) -> i32 {
    if event.event_type == EVENT_FORK {
        event.child_pid
    } else {
        event.pid
    }
}

/// Whether a report passes.
pub open spec fn reported(
    event: EbpfProcEvent,
    targets: Seq<[u8; 8]>,
    prev: Option<DedupEntry>,
    now_ns: u64,
) -> bool {
    event.event_type == EVENT_EXIT || (name_passes(event.comm@, targets) && !too_many(prev, now_ns))
}

// ---------------------------------------------------------------------
// Executable functions
// ---------------------------------------------------------------------

/// Whether some keys hold eight bytes of a name.
fn is_target(targets: &Vec<[u8; 8]>, comm: &[u8; 16], pos: usize) -> (r: bool)
    requires
        pos <= 8,
    ensures
        r == holds_key(targets@, key_at(comm@, pos as int)),
{
    let mut i: usize = 0;
    while i < targets.len()
        invariant
            0 <= i <= targets@.len(),
            pos <= 8,
            forall|j: int|
                0 <= j < i ==> (#[trigger] targets@[j])@ != key_at(comm@, pos as int),
        decreases targets@.len() - i,
    {
        let key = &targets[i];
        let mut n: usize = 0;
        while n < 8 && key[n] == comm[pos + n]
            invariant
                0 <= n <= 8,
                pos <= 8,
                forall|j: int| 0 <= j < n ==> key@[j] == comm@[pos + j],
            decreases 8 - n,
        {
            n += 1;
        }
        if n == 8 {
            assert(key@ =~= key_at(comm@, pos as int));
            return true;
        }
        assert(key_at(comm@, pos as int)[n as int] == comm@[pos + n]);
        i += 1;
    }
    false
}

/// Whether eight bytes in a row of a name are a target.
pub fn comm_matches(comm: &[u8; 16], targets: &Vec<[u8; 8]>) -> (r: bool)
    ensures
        r == name_passes(comm@, targets@),
{
    let mut pos: usize = 0;
    while pos <= 8
        invariant
            0 <= pos <= 9,
            forall|j: int| 0 <= j < pos ==> !holds_key(targets@, #[trigger] key_at(comm@, j)),
        decreases 9 - pos,
    {
        if is_target(targets, comm, pos) {
            return true;
        }
        pos += 1;
    }
    false
}

/// What is remembered after a report, or nothing where it is one too many.
pub fn should_dedup(prev: Option<DedupEntry>, now_ns: u64) -> (r: Option<DedupEntry>)
    requires
        plausible(prev, now_ns),
    ensures
        r == if too_many(prev, now_ns) {
            None
        } else {
            Some(remembered(prev, now_ns))
        },
{
    let (last_ns, count): (u64, u32) = match prev {
        Some(e) => (e.last_ns, e.count),
        None => (0, 0),
    };
    if now_ns - last_ns < DEDUP_WINDOW_NS {
        let new_count: u32 = count + 1;
        if new_count > DEDUP_MAX_COUNT {
            return None;
        }
        Some(DedupEntry { last_ns, count: new_count })
    } else {
        Some(DedupEntry { last_ns: now_ns, count: 1 })
    }
}

/// The process whose reports are counted.
pub fn counted_process(event: &EbpfProcEvent) -> (r: i32)
    ensures
        r == dedup_key(*event),
{
    if event.event_type == EVENT_FORK {
        event.child_pid
    } else {
        event.pid
    }
}

/// A report on its way out, with what is remembered of the process that is
/// counted.
pub fn submit_event(
    event: EbpfProcEvent,
    targets: &Vec<[u8; 8]>,
    prev: Option<DedupEntry>,
    now_ns: u64,
) -> (r: Submission)
    requires
        plausible(prev, now_ns),
    ensures
        r.event == if reported(event, targets@, prev, now_ns) {
            Some(event)
        } else {
            None
        },
        match r.entry {
            Some((key, e)) => event.event_type != EVENT_EXIT && reported(
                event,
                targets@,
                prev,
                now_ns,
            ) && key == dedup_key(event) as u32 && e == remembered(prev, now_ns),
            None => event.event_type == EVENT_EXIT || !reported(event, targets@, prev, now_ns),
        },
{
    if event.event_type == EVENT_EXIT {
        return Submission { event: Some(event), entry: None };
    }
    if !comm_matches(&event.comm, targets) {
        return Submission { event: None, entry: None };
    }
    let process: i32 = counted_process(&event);
    let key: u32 = #[verifier::truncate]
    (process as u32);
    match should_dedup(prev, now_ns) {
        Some(e) => Submission { event: Some(event), entry: Some((key, e)) },
        None => Submission { event: None, entry: None },
    }
}

// ---------------------------------------------------------------------
// Laws
// ---------------------------------------------------------------------

/// The end of a task is always reported.
pub proof fn law_ends_are_always_reported(
    event: EbpfProcEvent,
    targets: Seq<[u8; 8]>,
    prev: Option<DedupEntry>,
    now_ns: u64,
)
    requires
        event.event_type == EVENT_EXIT,
    ensures
        reported(event, targets, prev, now_ns),
{
}

/// A process is reported at most twice in a window: of three reports that
/// come within one window, the third is dropped.
pub proof fn law_at_most_two_in_a_window(
    prev: Option<DedupEntry>,
    first: u64,
    second: u64,
    third: u64,
)
    requires
        plausible(prev, first),
        !in_window(prev, first),
        first <= second <= third,
        third - first < DEDUP_WINDOW_NS,
    ensures
        !too_many(prev, first),
        !too_many(Some(remembered(prev, first)), second),
        too_many(
            Some(remembered(Some(remembered(prev, first)), second)),
            third,
        ),
{
}

} // verus!
