//! What is known of each process: its package, the threads that policies were
//! applied to, the names of its threads, and the cpuset directories that it
//! uses. A directory that no process uses any more is to be removed.

use std::collections::HashSet;

use vstd::prelude::*;

use crate::tally;
use crate::text;

verus! {

/// Thread names are read anew after this many seconds.
pub const THREAD_NAME_CACHE_TTL_SECS: i64 = 60;

// ---------------------------------------------------------------------
// Thread names
// ---------------------------------------------------------------------

struct TidName {
    tid: i32,
    name: String,
}

/// The names of the threads of one process.
pub struct ThreadNameCache {
    names: Vec<TidName>,
    last_full_refresh: i64,
}

/// The contents of a name cache.
#[verifier::ext_equal]
pub struct NamesView {
    pub names: Seq<(i32, Seq<char>)>,
    pub since: i64,
}

impl View for ThreadNameCache {
    type V = NamesView;

    closed spec fn view(&self) -> NamesView {
        NamesView {
            names: Seq::new(
                self.names@.len(),
                |i: int| (self.names@[i].tid, self.names@[i].name@),
            ),
            since: self.last_full_refresh,
        }
    }
}

/// Index of the name of a thread, or the length.
pub open spec fn name_index(names: Seq<(i32, Seq<char>)>, tid: i32) -> int
    decreases names.len(),
{
    if names.len() == 0 || names[0].0 == tid {
        0
    } else {
        1 + name_index(names.skip(1), tid)
    }
}

/// The cache at a time: names that are too old are gone.
pub open spec fn names_at(c: NamesView, now: i64) -> NamesView {
    if now - c.since >= THREAD_NAME_CACHE_TTL_SECS {
        NamesView { names: Seq::empty(), since: now }
    } else {
        c
    }
}

/// The name of a thread, if the cache has it.
pub open spec fn name_in(c: NamesView, tid: i32) -> Option<Seq<char>> {
    let i = name_index(c.names, tid);
    if i < c.names.len() {
        Some(c.names[i].1)
    } else {
        None
    }
}

/// The name that reading one came to: a thread whose name cannot be read has
/// the empty name.
pub open spec fn name_read(read: Option<Seq<char>>) -> Seq<char> {
    match read {
        Some(n) => n,
        None => Seq::empty(),
    }
}

/// The name of a thread at a time: the one in the cache, else the one read.
pub open spec fn name_given(
    c: NamesView,
    tid: i32,
    now: i64,
    read: Option<Seq<char>>,
) -> Seq<char> {
    match name_in(names_at(c, now), tid) {
        Some(n) => n,
        None => name_read(read),
    }
}

/// The cache after the name of a thread was asked for.
pub open spec fn names_after(
    c: NamesView,
    tid: i32,
    now: i64,
    read: Option<Seq<char>>,
) -> NamesView {
    let at = names_at(c, now);
    if name_in(at, tid) is Some {
        at
    } else {
        NamesView { names: at.names.push((tid, name_read(read))), since: at.since }
    }
}

/// The names of the threads in `tids`.
pub open spec fn names_of(names: Seq<(i32, Seq<char>)>, tids: Set<i32>) -> Seq<(i32, Seq<char>)>
    decreases names.len(),
{
    if names.len() == 0 {
        Seq::empty()
    } else {
        let before = names_of(names.drop_last(), tids);
        if tids.contains(names.last().0) {
            before.push(names.last())
        } else {
            before
        }
    }
}

impl ThreadNameCache {
    /// A cache without names.
    pub fn new(now: i64) -> (r: ThreadNameCache)
        ensures
            r@ == (NamesView { names: Seq::empty(), since: now }),
    {
        let r = ThreadNameCache { names: Vec::new(), last_full_refresh: now };
        proof {
            assert(r@.names =~= Seq::<(i32, Seq<char>)>::empty());
        }
        r
    }

    /// Number of names.
    pub fn len(&self) -> (r: usize)
        ensures
            r == self@.names.len(),
    {
        self.names.len()
    }

    /// Drops names that are too old.
    pub fn expire(&mut self, now: i64)
        ensures
            final(self)@ == names_at(old(self)@, now),
    {
        if now as i128 - self.last_full_refresh as i128 >= THREAD_NAME_CACHE_TTL_SECS as i128 {
            self.names = Vec::new();
            self.last_full_refresh = now;
            proof {
                assert(self@.names =~= Seq::<(i32, Seq<char>)>::empty());
            }
        }
    }

    /// The name of a thread, if it is here.
    pub fn get(&self, tid: i32) -> (r: Option<&String>)
        ensures
            match r {
                Some(n) => name_in(self@, tid) == Some(n@),
                None => name_in(self@, tid) is None,
            },
    {
        let ghost all = self@.names;
        let mut i: usize = 0;
        proof {
            assert(all.skip(0) =~= all);
        }
        while i < self.names.len()
            invariant
                0 <= i <= self.names@.len(),
                all == self@.names,
                name_index(all, tid) == i + name_index(all.skip(i as int), tid),
            decreases self.names@.len() - i,
        {
            proof {
                assert(all.skip(i as int)[0] == all[i as int]);
                assert(all.skip(i as int).skip(1) =~= all.skip(i + 1));
            }
            if self.names[i].tid == tid {
                return Some(&self.names[i].name);
            }
            i += 1;
        }
        None
    }

    /// Whether the name of a thread has to be read.
    pub fn needs_name(&self, tid: i32, now: i64) -> (r: bool)
        ensures
            r == name_in(names_at(self@, now), tid) is None,
    {
        if now as i128 - self.last_full_refresh as i128 >= THREAD_NAME_CACHE_TTL_SECS as i128 {
            true
        } else {
            self.get(tid).is_none()
        }
    }

    /// The name of a thread: the one here, unless it is too old, else the one
    /// that was read, which is kept. A name that cannot be read is empty.
    pub fn get_or_read(&mut self, tid: i32, now: i64, read: Option<&str>) -> (r: String)
        ensures
            r@ == name_given(
                old(self)@,
                tid,
                now,
                match read {
                    Some(n) => Some(n@),
                    None => None,
                },
            ),
            final(self)@ == names_after(
                old(self)@,
                tid,
                now,
                match read {
                    Some(n) => Some(n@),
                    None => None,
                },
            ),
    {
        self.expire(now);
        if let Some(n) = self.get(tid) {
            return n.clone();
        }
        let name = match read {
            Some(n) => n.to_owned(),
            None => String::new(),
        };
        self.remember(tid, name.clone());
        name
    }

    /// Takes in the name of a thread that has none here.
    pub fn remember(&mut self, tid: i32, name: String)
        ensures
            final(self)@ == if name_in(old(self)@, tid) is Some {
                old(self)@
            } else {
                NamesView { names: old(self)@.names.push((tid, name@)), since: old(self)@.since }
            },
    {
        if self.get(tid).is_some() {
            return;
        }
        self.names.push(TidName { tid, name });
        proof {
            assert(self@.names =~= old(self)@.names.push((tid, name@)));
        }
    }

    /// Forgets all names, because the process has a new image.
    pub fn clear(&mut self)
        ensures
            final(self)@ == (NamesView { names: Seq::empty(), since: 0 }),
    {
        self.names = Vec::new();
        self.last_full_refresh = 0;
        proof {
            assert(self@.names =~= Seq::<(i32, Seq<char>)>::empty());
        }
    }

    /// Forgets the names of threads that are gone.
    pub fn retain(&mut self, tids: &HashSet<i32>)
        ensures
            final(self)@ == (NamesView {
                names: names_of(old(self)@.names, tids@),
                since: old(self)@.since,
            }),
    {
        broadcast use vstd::std_specs::hash::group_hash_axioms;

        let mut rest: Vec<TidName> = Vec::new();
        let ghost all = self@.names;
        let ghost mut kept: Seq<(i32, Seq<char>)> = Seq::empty();
        let mut i: usize = 0;
        proof {
            assert(all.take(0) =~= Seq::<(i32, Seq<char>)>::empty());
        }
        while i < self.names.len()
            invariant
                0 <= i <= self.names@.len(),
                self.names == old(self).names,
                self.last_full_refresh == old(self).last_full_refresh,
                all == old(self)@.names,
                kept == names_of(all.take(i as int), tids@),
                kept.len() == rest@.len(),
                forall|j: int|
                    0 <= j < kept.len() ==> #[trigger] kept[j] == (rest@[j].tid, rest@[j].name@),
            decreases self.names@.len() - i,
        {
            broadcast use vstd::std_specs::hash::group_hash_axioms;

            proof {
                assert(all.take(i + 1).drop_last() =~= all.take(i as int));
                assert(all.take(i + 1).last() == all[i as int]);
            }
            let tid: i32 = self.names[i].tid;
            if tids.contains(&tid) {
                rest.push(TidName { tid, name: self.names[i].name.clone() });
                proof {
                    kept = kept.push(all[i as int]);
                }
            }
            i += 1;
        }
        proof {
            assert(all.take(i as int) =~= all);
        }
        self.names = rest;
        proof {
            assert(self@.names =~= kept);
        }
    }
}

// ---------------------------------------------------------------------
// Processes
// ---------------------------------------------------------------------

/// What is known of one process.
pub struct ProcessState {
    pub pid: i32,
    pub pkg: String,
    /// Start time of the process, by which a reused PID is told apart; zero
    /// when it is not known.
    pub start_time: u64,
    /// Whether all threads have been looked at once.
    pub initial_scan_done: bool,
    /// When all threads were last looked at, in seconds.
    pub last_scan_time: i64,
    /// The threads that policies were applied to.
    pub applied_tids: HashSet<i32>,
    /// The cpuset directories that the process uses.
    pub applied_dirs: Vec<String>,
    pub tid_names: ThreadNameCache,
}

/// The contents of a process state.
#[verifier::ext_equal]
pub struct ProcView {
    pub pid: i32,
    pub pkg: Seq<char>,
    pub start_time: u64,
    pub initial_scan_done: bool,
    pub last_scan_time: i64,
    pub tids: Set<i32>,
    /// The cpuset directories that the process uses.
    pub dirs: Seq<Seq<char>>,
    pub names: NamesView,
}

impl View for ProcessState {
    type V = ProcView;

    open spec fn view(&self) -> ProcView {
        ProcView {
            pid: self.pid,
            pkg: self.pkg@,
            start_time: self.start_time,
            initial_scan_done: self.initial_scan_done,
            last_scan_time: self.last_scan_time,
            tids: self.applied_tids@,
            dirs: text::strings(self.applied_dirs@),
            names: self.tid_names@,
        }
    }
}

/// A process that was just found.
pub open spec fn fresh_proc(pid: i32, start_time: u64, pkg: Seq<char>, now: i64) -> ProcView {
    ProcView {
        pid,
        pkg,
        start_time,
        initial_scan_done: false,
        last_scan_time: 0,
        tids: Set::empty(),
        dirs: Seq::empty(),
        names: NamesView { names: Seq::empty(), since: now },
    }
}

impl ProcessState {
    fn new(pid: i32, start_time: u64, pkg: String, now: i64) -> (r: ProcessState)
        ensures
            r@ == fresh_proc(pid, start_time, pkg@, now),
    {
        broadcast use vstd::std_specs::hash::group_hash_axioms;

        let r = ProcessState {
            pid,
            pkg,
            start_time,
            initial_scan_done: false,
            last_scan_time: 0,
            applied_tids: HashSet::new(),
            applied_dirs: Vec::new(),
            tid_names: ThreadNameCache::new(now),
        };
        proof {
            assert(r@.dirs =~= Seq::<Seq<char>>::empty());
            assert(r@.tids =~= Set::<i32>::empty());
        }
        r
    }
}

/// Index of a process, or the length.
pub open spec fn proc_index(procs: Seq<ProcView>, pid: i32) -> int
    decreases procs.len(),
{
    if procs.len() == 0 || procs[0].pid == pid {
        0
    } else {
        1 + proc_index(procs.skip(1), pid)
    }
}

/// Whether a process is among the processes.
pub open spec fn tracks(procs: Seq<ProcView>, pid: i32) -> bool {
    proc_index(procs, pid) < procs.len()
}

/// The weight of a process in the count of a directory.
pub open spec fn uses_dir(dir: Seq<char>) -> spec_fn(ProcView) -> nat {
    |p: ProcView|
        if p.dirs.contains(dir) {
            1nat
        } else {
            0nat
        }
}

/// Number of processes that use a directory.
pub open spec fn users(procs: Seq<ProcView>, dir: Seq<char>) -> nat {
    tally::tally(procs, uses_dir(dir))
}

/// The processes without one of them.
pub open spec fn without(procs: Seq<ProcView>, pid: i32) -> Seq<ProcView> {
    if tracks(procs, pid) {
        procs.remove(proc_index(procs, pid))
    } else {
        procs
    }
}

/// What `proc_index` returns.
pub proof fn lemma_proc_index(procs: Seq<ProcView>, pid: i32)
    ensures
        0 <= proc_index(procs, pid) <= procs.len(),
        proc_index(procs, pid) < procs.len() ==> procs[proc_index(procs, pid)].pid == pid,
        forall|i: int| 0 <= i < proc_index(procs, pid) ==> (#[trigger] procs[i]).pid != pid,
    decreases procs.len(),
{
    if procs.len() > 0 && procs[0].pid != pid {
        lemma_proc_index(procs.skip(1), pid);
        assert forall|i: int| 0 <= i < proc_index(procs, pid) implies (#[trigger] procs[i]).pid
            != pid by {
            if i > 0 {
                assert(procs.skip(1)[i - 1] == procs[i]);
            }
        }
    }
}

/// `proc_index` is the only index with its properties.
proof fn lemma_proc_index_is(procs: Seq<ProcView>, pid: i32, n: int)
    requires
        0 <= n <= procs.len(),
        n < procs.len() ==> procs[n].pid == pid,
        forall|i: int| 0 <= i < n ==> (#[trigger] procs[i]).pid != pid,
    ensures
        proc_index(procs, pid) == n,
{
    lemma_proc_index(procs, pid);
    let m = proc_index(procs, pid);
    if m < n {
        assert(procs[m].pid != pid);
    } else if n < m {
        assert(procs[n].pid != pid);
    }
}

// ---------------------------------------------------------------------
// The tracker
// ---------------------------------------------------------------------

/// A cpuset directory and the number of processes that use it.
#[derive(Debug)]
pub struct DirRef {
    pub dir: String,
    pub count: u64,
}

/// All processes that are followed, and the use of each cpuset directory.
pub struct StateTracker {
    procs: Vec<ProcessState>,
    cpuset_refs: Vec<DirRef>,
}

spec fn proc_views(procs: Seq<ProcessState>) -> Seq<ProcView> {
    Seq::new(procs.len(), |i: int| procs[i]@)
}

spec fn ref_weight(dir: Seq<char>) -> spec_fn(DirRef) -> nat {
    |e: DirRef|
        if e.dir@ == dir {
            e.count as nat
        } else {
            0nat
        }
}

impl View for StateTracker {
    type V = Seq<ProcView>;

    closed spec fn view(&self) -> Seq<ProcView> {
        proc_views(self.procs@)
    }
}

/// Whether a process uses no directory twice, and none without a name.
pub open spec fn proper_dirs(dirs: Seq<Seq<char>>) -> bool {
    &&& forall|i: int, j: int| 0 <= i < j < dirs.len() ==> dirs[i] != dirs[j]
    &&& forall|i: int| 0 <= i < dirs.len() ==> (#[trigger] dirs[i]).len() > 0
}

/// Whether no process is listed twice and the directories of each are proper.
pub open spec fn proper_procs(procs: Seq<ProcView>) -> bool {
    &&& forall|i: int, j: int| 0 <= i < j < procs.len() ==> procs[i].pid != procs[j].pid
    &&& forall|i: int| 0 <= i < procs.len() ==> proper_dirs((#[trigger] procs[i]).dirs)
}

/// Whether some lists of directories hold the same ones, each once.
pub open spec fn same_dirs(r: Seq<Seq<char>>, p: spec_fn(Seq<char>) -> bool) -> bool {
    &&& forall|i: int, j: int| 0 <= i < j < r.len() ==> r[i] != r[j]
    &&& forall|d: Seq<char>| #[trigger] r.contains(d) <==> p(d)
}

/// The test for a directory that was used and is not any more.
pub open spec fn fell_free(
    before: Seq<ProcView>,
    after: Seq<ProcView>,
) -> spec_fn(Seq<char>) -> bool {
    |d: Seq<char>| users(before, d) > 0 && users(after, d) == 0
}

impl StateTracker {
    /// The number that is kept for a directory.
    pub closed spec fn refs(&self, dir: Seq<char>) -> nat {
        tally::tally(self.cpuset_refs@, ref_weight(dir))
    }

    spec fn refs_proper(&self) -> bool {
        &&& forall|i: int, j: int|
            0 <= i < j < self.cpuset_refs@.len() ==> self.cpuset_refs@[i].dir@
                != self.cpuset_refs@[j].dir@
        &&& forall|i: int|
            0 <= i < self.cpuset_refs@.len() ==> (#[trigger] self.cpuset_refs@[i]).count > 0
    }

    /// The number kept for each directory is the number of its users, and
    /// directories without users are not kept.
    pub closed spec fn wf(&self) -> bool {
        &&& proper_procs(self@)
        &&& self.refs_proper()
        &&& forall|d: Seq<char>| #[trigger] self.refs(d) == users(self@, d)
    }

    /// What a valid tracker promises.
    pub proof fn lemma_wf(&self)
        requires
            self.wf(),
        ensures
            proper_procs(self@),
            forall|d: Seq<char>| #[trigger] self.refs(d) == users(self@, d),
    {
    }

    /// A tracker of no process.
    pub fn new() -> (r: StateTracker)
        ensures
            r.wf(),
            r@ == Seq::<ProcView>::empty(),
    {
        let r = StateTracker { procs: Vec::new(), cpuset_refs: Vec::new() };
        proof {
            assert(r@ =~= Seq::<ProcView>::empty());
        }
        r
    }

    fn find(&self, pid: i32) -> (r: usize)
        ensures
            r == proc_index(self@, pid),
            r <= self.procs@.len(),
            self@.len() == self.procs@.len(),
    {
        let mut i: usize = 0;
        proof {
            assert(self@.skip(0) =~= self@);
        }
        while i < self.procs.len()
            invariant
                0 <= i <= self.procs@.len(),
                proc_index(self@, pid) == i + proc_index(self@.skip(i as int), pid),
            decreases self.procs@.len() - i,
        {
            proof {
                assert(self@.skip(i as int)[0] == self@[i as int]);
                assert(self@.skip(i as int).skip(1) =~= self@.skip(i + 1));
            }
            if self.procs[i].pid == pid {
                return i;
            }
            i += 1;
        }
        i
    }

    /// What is known of a process.
    pub fn get(&self, pid: i32) -> (r: Option<&ProcessState>)
        ensures
            match r {
                Some(p) => tracks(self@, pid) && p@ == self@[proc_index(self@, pid)],
                None => !tracks(self@, pid),
            },
    {
        let i = self.find(pid);
        if i < self.procs.len() {
            Some(&self.procs[i])
        } else {
            None
        }
    }

    /// Whether a process is followed.
    pub fn contains(&self, pid: i32) -> (r: bool)
        ensures
            r == tracks(self@, pid),
    {
        self.find(pid) < self.procs.len()
    }

    /// The processes that are followed.
    pub fn pids(&self) -> (r: Vec<i32>)
        ensures
            r@ == Seq::new(self@.len(), |i: int| self@[i].pid),
    {
        let mut out: Vec<i32> = Vec::new();
        let mut i: usize = 0;
        while i < self.procs.len()
            invariant
                0 <= i <= self.procs@.len(),
                out@.len() == i,
                forall|j: int| 0 <= j < i ==> #[trigger] out@[j] == self@[j].pid,
            decreases self.procs@.len() - i,
        {
            out.push(self.procs[i].pid);
            proof {
                assert(self@[i as int].pid == self.procs@[i as int].pid);
            }
            i += 1;
        }
        proof {
            assert(out@ =~= Seq::new(self@.len(), |i: int| self@[i].pid));
        }
        out
    }

    /// Number of processes that are followed.
    pub fn len(&self) -> (r: usize)
        ensures
            r == self@.len(),
    {
        self.procs.len()
    }

    fn find_ref(&self, dir: &str) -> (r: usize)
        ensures
            r <= self.cpuset_refs@.len(),
            r < self.cpuset_refs@.len() ==> self.cpuset_refs@[r as int].dir@ == dir@,
            r == self.cpuset_refs@.len() ==> forall|i: int|
                0 <= i < self.cpuset_refs@.len() ==> (#[trigger] self.cpuset_refs@[i]).dir@ != dir@,
    {
        let mut i: usize = 0;
        while i < self.cpuset_refs.len()
            invariant
                0 <= i <= self.cpuset_refs@.len(),
                forall|j: int| 0 <= j < i ==> (#[trigger] self.cpuset_refs@[j]).dir@ != dir@,
            decreases self.cpuset_refs@.len() - i,
        {
            if text::same_text(self.cpuset_refs[i].dir.as_str(), dir) {
                return i;
            }
            i += 1;
        }
        i
    }

    proof fn lemma_ref_at(&self, i: int)
        requires
            self.refs_proper(),
            0 <= i < self.cpuset_refs@.len(),
        ensures
            self.refs(self.cpuset_refs@[i].dir@) == self.cpuset_refs@[i].count,
    {
        let s = self.cpuset_refs@;
        let w = ref_weight(s[i].dir@);
        tally::lemma_tally_remove(s, w, i);
        assert forall|j: int| 0 <= j < s.remove(i).len() implies w(
            #[trigger] s.remove(i)[j],
        ) == 0 by {
            if j < i {
                assert(s.remove(i)[j] == s[j]);
            } else {
                assert(s.remove(i)[j] == s[j + 1]);
            }
        }
        tally::lemma_tally_zero(s.remove(i), w);
    }

    proof fn lemma_no_ref(&self, dir: Seq<char>)
        requires
            forall|i: int|
                0 <= i < self.cpuset_refs@.len() ==> (#[trigger] self.cpuset_refs@[i]).dir@ != dir,
        ensures
            self.refs(dir) == 0,
    {
        tally::lemma_tally_zero(self.cpuset_refs@, ref_weight(dir));
    }

    /// Number of processes that use a directory; None when there is none.
    pub fn cpuset_ref(&self, dir: &str) -> (r: Option<u64>)
        requires
            self.wf(),
        ensures
            match r {
                Some(n) => n > 0 && n == users(self@, dir@),
                None => users(self@, dir@) == 0,
            },
    {
        let i = self.find_ref(dir);
        if i < self.cpuset_refs.len() {
            proof {
                self.lemma_ref_at(i as int);
                assert(self.refs(dir@) == users(self@, dir@));
            }
            Some(self.cpuset_refs[i].count)
        } else {
            proof {
                self.lemma_no_ref(dir@);
                assert(self.refs(dir@) == users(self@, dir@));
            }
            None
        }
    }

    /// The directories in use, with the number of their users.
    pub fn cpuset_refs(&self) -> (r: &Vec<DirRef>)
        requires
            self.wf(),
        ensures
            forall|i: int|
                0 <= i < r@.len() ==> (#[trigger] r@[i]).count > 0 && r@[i].count == users(
                    self@,
                    r@[i].dir@,
                ),
            forall|i: int, j: int| 0 <= i < j < r@.len() ==> r@[i].dir@ != r@[j].dir@,
            forall|d: Seq<char>|
                #[trigger] users(self@, d) > 0 ==> exists|i: int|
                    0 <= i < r@.len() && (#[trigger] r@[i]).dir@ == d,
    {
        proof {
            assert forall|i: int| 0 <= i < self.cpuset_refs@.len() implies (
            #[trigger] self.cpuset_refs@[i]).count > 0 && self.cpuset_refs@[i].count == users(
                self@,
                self.cpuset_refs@[i].dir@,
            ) by {
                self.lemma_ref_at(i);
                assert(self.refs(self.cpuset_refs@[i].dir@) == users(
                    self@,
                    self.cpuset_refs@[i].dir@,
                ));
            }
            assert forall|d: Seq<char>| #[trigger] users(self@, d) > 0 implies exists|i: int|
                0 <= i < self.cpuset_refs@.len() && (#[trigger] self.cpuset_refs@[i]).dir@ == d by {
                if forall|i: int|
                    0 <= i < self.cpuset_refs@.len() ==> (#[trigger] self.cpuset_refs@[i]).dir@
                        != d {
                    self.lemma_no_ref(d);
                    assert(self.refs(d) == users(self@, d));
                }
            }
        }
        &self.cpuset_refs
    }

    /// Counts one more user of a directory.
    fn add_ref(&mut self, dir: &str)
        requires
            old(self).refs_proper(),
            old(self).refs(dir@) < u64::MAX,
        ensures
            final(self).procs == old(self).procs,
            final(self).refs_proper(),
            forall|d: Seq<char>|
                #[trigger] final(self).refs(d) == old(self).refs(d) + if d == dir@ {
                    1int
                } else {
                    0int
                },
    {
        let i = self.find_ref(dir);
        let ghost s = self.cpuset_refs@;
        if i < self.cpuset_refs.len() {
            proof {
                self.lemma_ref_at(i as int);
            }
            let n: u64 = self.cpuset_refs[i].count;
            let e = DirRef { dir: dir.to_owned(), count: n + 1 };
            self.cpuset_refs.set(i, e);
            proof {
                assert(self.cpuset_refs@ == s.update(i as int, e));
                assert forall|d: Seq<char>| #[trigger] self.refs(d) == old(self).refs(d) + if d
                    == dir@ {
                    1int
                } else {
                    0int
                } by {
                    tally::lemma_tally_update(s, ref_weight(d), i as int, e);
                }
            }
        } else {
            let e = DirRef { dir: dir.to_owned(), count: 1 };
            self.cpuset_refs.push(e);
            proof {
                assert(self.cpuset_refs@ == s.push(e));
                assert forall|d: Seq<char>| #[trigger] self.refs(d) == old(self).refs(d) + if d
                    == dir@ {
                    1int
                } else {
                    0int
                } by {
                    tally::lemma_tally_push(s, ref_weight(d), e);
                }
            }
        }
    }

    /// Counts one user of a directory less; whether it was the last.
    fn drop_ref(&mut self, dir: &str) -> (r: bool)
        requires
            old(self).refs_proper(),
            old(self).refs(dir@) > 0,
        ensures
            final(self).procs == old(self).procs,
            final(self).refs_proper(),
            forall|d: Seq<char>|
                #[trigger] final(self).refs(d) == old(self).refs(d) - if d == dir@ {
                    1int
                } else {
                    0int
                },
            r == (old(self).refs(dir@) == 1),
    {
        let i = self.find_ref(dir);
        let ghost s = self.cpuset_refs@;
        if i < self.cpuset_refs.len() {
            proof {
                self.lemma_ref_at(i as int);
            }
            let n: u64 = self.cpuset_refs[i].count;
            if n == 1 {
                self.cpuset_refs.remove(i);
                proof {
                    assert(self.cpuset_refs@ == s.remove(i as int));
                    assert forall|d: Seq<char>| #[trigger] self.refs(d) == old(self).refs(d) - if d
                        == dir@ {
                        1int
                    } else {
                        0int
                    } by {
                        tally::lemma_tally_remove(s, ref_weight(d), i as int);
                    }
                }
                true
            } else {
                let e = DirRef { dir: dir.to_owned(), count: n - 1 };
                self.cpuset_refs.set(i, e);
                proof {
                    assert(self.cpuset_refs@ == s.update(i as int, e));
                    assert forall|d: Seq<char>| #[trigger] self.refs(d) == old(self).refs(d) - if d
                        == dir@ {
                        1int
                    } else {
                        0int
                    } by {
                        tally::lemma_tally_update(s, ref_weight(d), i as int, e);
                    }
                }
                false
            }
        } else {
            proof {
                self.lemma_no_ref(dir@);
            }
            false
        }
    }
}

// ---------------------------------------------------------------------
// Changes
// ---------------------------------------------------------------------

/// Some directories with more of them: those that have a name and are not
/// there yet.
pub open spec fn dirs_with(dirs: Seq<Seq<char>>, more: Seq<Seq<char>>) -> Seq<Seq<char>>
    decreases more.len(),
{
    if more.len() == 0 {
        dirs
    } else {
        let before = dirs_with(dirs, more.drop_last());
        let d = more.last();
        if d.len() == 0 || before.contains(d) {
            before
        } else {
            before.push(d)
        }
    }
}

/// The processes with one of them replaced.
pub open spec fn changed(procs: Seq<ProcView>, pid: i32, p: ProcView) -> Seq<ProcView> {
    procs.update(proc_index(procs, pid), p)
}

/// The processes without one thread of one of them.
pub open spec fn tid_gone(procs: Seq<ProcView>, pid: i32, tid: i32) -> Seq<ProcView> {
    if tracks(procs, pid) {
        let p = procs[proc_index(procs, pid)];
        changed(procs, pid, ProcView { tids: p.tids.remove(tid), ..p })
    } else {
        procs
    }
}

/// The processes with more threads of one of them that are dealt with.
pub open spec fn tids_done(procs: Seq<ProcView>, pid: i32, tids: Seq<i32>) -> Seq<ProcView> {
    if tracks(procs, pid) {
        let p = procs[proc_index(procs, pid)];
        changed(procs, pid, ProcView { tids: p.tids.union(tid_set(tids)), ..p })
    } else {
        procs
    }
}

/// The processes after all threads of one of them were looked at.
pub open spec fn scanned(procs: Seq<ProcView>, pid: i32, now: i64) -> Seq<ProcView> {
    if tracks(procs, pid) {
        let p = procs[proc_index(procs, pid)];
        changed(procs, pid, ProcView { initial_scan_done: true, last_scan_time: now, ..p })
    } else {
        procs
    }
}

/// The processes with the name of a thread that had none.
pub open spec fn named(
    procs: Seq<ProcView>,
    pid: i32,
    tid: i32,
    read: Option<Seq<char>>,
) -> Seq<ProcView> {
    if tracks(procs, pid) {
        let p = procs[proc_index(procs, pid)];
        if name_in(p.names, tid) is Some {
            procs
        } else {
            changed(
                procs,
                pid,
                ProcView {
                    names: NamesView {
                        names: p.names.names.push((tid, name_read(read))),
                        since: p.names.since,
                    },
                    ..p
                },
            )
        }
    } else {
        procs
    }
}

/// Whether two start times are known to be those of two processes; zero
/// stands for a time that is not known.
pub open spec fn reused(recorded: u64, start_time: u64) -> bool {
    recorded != 0 && start_time != 0 && recorded != start_time
}

/// The processes after one was seen. A process of the same package stays as
/// it is. Another package means a new image, or, with another start time,
/// that the old process is gone and its number is used again.
pub open spec fn entered(
    procs: Seq<ProcView>,
    pid: i32,
    pkg: Seq<char>,
    now: i64,
    start_time: u64,
) -> Seq<ProcView> {
    if tracks(procs, pid) {
        let p = procs[proc_index(procs, pid)];
        if p.pkg == pkg {
            procs
        } else if reused(p.start_time, start_time) {
            without(procs, pid).push(fresh_proc(pid, start_time, pkg, now))
        } else {
            changed(procs, pid, ProcView { pkg, ..p })
        }
    } else {
        procs.push(fresh_proc(pid, start_time, pkg, now))
    }
}

/// The processes whose packages are in a list.
pub open spec fn only_of(procs: Seq<ProcView>, pkgs: Seq<Seq<char>>) -> Seq<ProcView>
    decreases procs.len(),
{
    if procs.len() == 0 {
        Seq::empty()
    } else {
        let before = only_of(procs.drop_last(), pkgs);
        if pkgs.contains(procs.last().pkg) {
            before.push(procs.last())
        } else {
            before
        }
    }
}

proof fn lemma_users_same_dirs(procs: Seq<ProcView>, i: int, p: ProcView)
    requires
        0 <= i < procs.len(),
        p.dirs == procs[i].dirs,
    ensures
        forall|d: Seq<char>| #[trigger] users(procs.update(i, p), d) == users(procs, d),
{
    assert forall|d: Seq<char>| #[trigger] users(procs.update(i, p), d) == users(procs, d) by {
        tally::lemma_tally_update(procs, uses_dir(d), i, p);
    }
}

proof fn lemma_users_push_fresh(procs: Seq<ProcView>, p: ProcView)
    requires
        p.dirs.len() == 0,
    ensures
        forall|d: Seq<char>| #[trigger] users(procs.push(p), d) == users(procs, d),
{
    assert forall|d: Seq<char>| #[trigger] users(procs.push(p), d) == users(procs, d) by {
        tally::lemma_tally_push(procs, uses_dir(d), p);
    }
}

impl StateTracker {
    /// Gives up the directories of a process that was taken out. Returns
    /// those that nobody uses any more.
    fn release(&mut self, dirs: &Vec<String>) -> (r: Vec<String>)
        requires
            proper_procs(old(self)@),
            old(self).refs_proper(),
            proper_dirs(text::strings(dirs@)),
            forall|d: Seq<char>|
                #[trigger] old(self).refs(d) == users(old(self)@, d) + if text::strings(
                    dirs@,
                ).contains(d) {
                    1int
                } else {
                    0int
                },
        ensures
            final(self).wf(),
            final(self)@ == old(self)@,
            same_dirs(
                text::strings(r@),
                |d: Seq<char>| text::strings(dirs@).contains(d) && users(old(self)@, d) == 0,
            ),
    {
        let mut freed: Vec<String> = Vec::new();
        let ghost all = text::strings(dirs@);
        let ghost procs = self@;
        let mut i: usize = 0;
        proof {
            assert(all.skip(0) =~= all);
            assert(all.take(0) =~= Seq::<Seq<char>>::empty());
        }
        while i < dirs.len()
            invariant
                0 <= i <= dirs@.len(),
                all == text::strings(dirs@),
                self.procs == old(self).procs,
                procs == old(self)@,
                self.refs_proper(),
                proper_dirs(all),
                forall|d: Seq<char>|
                    #[trigger] self.refs(d) == users(procs, d) + if all.skip(i as int).contains(
                        d,
                    ) {
                        1int
                    } else {
                        0int
                    },
                forall|d: Seq<char>|
                    #[trigger] text::strings(freed@).contains(d) <==> all.take(i as int).contains(
                        d,
                    ) && users(procs, d) == 0,
                forall|j: int, k: int|
                    0 <= j < k < freed@.len() ==> freed@[j]@ != freed@[k]@,
            decreases dirs@.len() - i,
        {
            let dir = dirs[i].as_str();
            let ghost rest = all.skip(i as int);
            let ghost freed0 = text::strings(freed@);
            proof {
                assert(rest[0] == dir@);
                assert(rest.contains(dir@));
                assert(self.refs(dir@) == users(procs, dir@) + 1);
                assert forall|d: Seq<char>|
                    #[trigger] all.skip(i + 1).contains(d) <==> rest.contains(d) && d != dir@ by {
                    let next = all.skip(i + 1);
                    if next.contains(d) {
                        let j = choose|j: int| 0 <= j < next.len() && next[j] == d;
                        assert(rest[j + 1] == d);
                        assert(all[i + 1 + j] == d);
                    }
                    if rest.contains(d) && d != dir@ {
                        let j = choose|j: int| 0 <= j < rest.len() && rest[j] == d;
                        assert(next[j - 1] == d);
                    }
                }
                assert forall|d: Seq<char>|
                    #[trigger] all.take(i + 1).contains(d) <==> all.take(i as int).contains(d) || d
                        == dir@ by {
                    let a = all.take(i as int);
                    let b = all.take(i + 1);
                    if a.contains(d) {
                        let j = choose|j: int| 0 <= j < a.len() && a[j] == d;
                        assert(b[j] == d);
                    }
                    if b.contains(d) {
                        let j = choose|j: int| 0 <= j < b.len() && b[j] == d;
                        if j < i {
                            assert(a[j] == d);
                        }
                    }
                    if d == dir@ {
                        assert(b[i as int] == d);
                    }
                }
                if freed0.contains(dir@) {
                    let a = all.take(i as int);
                    let j = choose|j: int| 0 <= j < a.len() && a[j] == dir@;
                    assert(all[j] == all[i as int]);
                }
            }
            let last = self.drop_ref(dir);
            if last {
                freed.push(dirs[i].clone());
                proof {
                    let b = text::strings(freed@);
                    assert(b =~= freed0.push(dir@));
                    assert forall|d: Seq<char>| #[trigger] b.contains(d) <==> freed0.contains(d)
                        || d == dir@ by {
                        if freed0.contains(d) {
                            let j = choose|j: int| 0 <= j < freed0.len() && freed0[j] == d;
                            assert(b[j] == d);
                        }
                        if d == dir@ {
                            assert(b[freed0.len() as int] == d);
                        }
                    }
                    assert forall|j: int, k: int| 0 <= j < k < freed@.len() implies freed@[j]@
                        != freed@[k]@ by {
                        if k == freed@.len() - 1 {
                            assert(freed0[j] == freed@[j]@);
                        }
                    }
                }
            }
            i += 1;
        }
        proof {
            assert(all.take(i as int) =~= all);
            assert(self@ == procs);
            assert forall|d: Seq<char>| #[trigger] self.refs(d) == users(self@, d) by {
                assert(!all.skip(i as int).contains(d));
            }
            let f = text::strings(freed@);
            assert forall|j: int, k: int| 0 <= j < k < f.len() implies f[j] != f[k] by {
                assert(freed@[j]@ != freed@[k]@);
            }
        }
        freed
    }

    fn take_out(&mut self, i: usize) -> (r: Vec<String>)
        requires
            old(self).wf(),
            i < old(self)@.len(),
        ensures
            final(self).wf(),
            final(self)@ == old(self)@.remove(i as int),
            same_dirs(text::strings(r@), fell_free(old(self)@, final(self)@)),
    {
        let ghost before = self@;
        let state = self.procs.remove(i);
        let ghost dirs = text::strings(state.applied_dirs@);
        proof {
            assert(self@ =~= before.remove(i as int));
            assert(before[i as int].dirs == dirs);
            assert(proper_procs(self@)) by {
                let after = self@;
                assert forall|j: int, k: int| 0 <= j < k < after.len() implies after[j].pid
                    != after[k].pid by {
                    let a = if j < i {
                        j
                    } else {
                        j + 1
                    };
                    let b = if k < i {
                        k
                    } else {
                        k + 1
                    };
                    assert(after[j] == before[a] && after[k] == before[b]);
                }
                assert forall|j: int| 0 <= j < after.len() implies proper_dirs(
                    (#[trigger] after[j]).dirs,
                ) by {
                    let a = if j < i {
                        j
                    } else {
                        j + 1
                    };
                    assert(after[j] == before[a]);
                }
            }
            assert forall|d: Seq<char>| #[trigger] self.refs(d) == users(self@, d) + if dirs.contains(
                d,
            ) {
                1int
            } else {
                0int
            } by {
                tally::lemma_tally_remove(before, uses_dir(d), i as int);
                assert(old(self).refs(d) == users(before, d));
            }
        }
        let r = self.release(&state.applied_dirs);
        proof {
            let after = self@;
            assert forall|d: Seq<char>| #[trigger] text::strings(r@).contains(d) <==> fell_free(
                before,
                after,
            )(d) by {
                tally::lemma_tally_remove(before, uses_dir(d), i as int);
            }
        }
        r
    }

    /// Stops following a process. None when it is not followed; else the
    /// directories that nobody uses any more and that are to be removed.
    pub fn remove(&mut self, pid: i32) -> (r: Option<Vec<String>>)
        requires
            old(self).wf(),
        ensures
            final(self).wf(),
            final(self)@ == without(old(self)@, pid),
            match r {
                Some(freed) => tracks(old(self)@, pid) && same_dirs(
                    text::strings(freed@),
                    fell_free(old(self)@, final(self)@),
                ),
                None => !tracks(old(self)@, pid),
            },
    {
        let i = self.find(pid);
        if i < self.procs.len() {
            Some(self.take_out(i))
        } else {
            None
        }
    }

    /// Whether the start time of a process has to be read before it is
    /// entered: not when it is followed under the same package.
    pub fn needs_start_time(&self, pid: i32, pkg: &str) -> (r: bool)
        ensures
            r == !(tracks(self@, pid) && self@[proc_index(self@, pid)].pkg == pkg@),
    {
        let i = self.find(pid);
        if i < self.procs.len() {
            proof {
                assert(self@[i as int] == self.procs@[i as int]@);
            }
            !text::same_text(self.procs[i].pkg.as_str(), pkg)
        } else {
            true
        }
    }

    /// Follows a process that was seen. `start_time` is zero when it could
    /// not be read. Returns the directories that are to be removed because
    /// the number of the process is used again.
    pub fn enter(&mut self, pid: i32, pkg: String, now: i64, start_time: u64) -> (r: Vec<String>)
        requires
            old(self).wf(),
        ensures
            final(self).wf(),
            final(self)@ == entered(old(self)@, pid, pkg@, now, start_time),
            tracks(final(self)@, pid),
            same_dirs(text::strings(r@), fell_free(old(self)@, final(self)@)),
    {
        let ghost before = self@;
        let i = self.find(pid);
        proof {
            lemma_proc_index(before, pid);
        }
        if i < self.procs.len() {
            proof {
                assert(before[i as int] == self.procs@[i as int]@);
            }
            if text::same_text(self.procs[i].pkg.as_str(), pkg.as_str()) {
                return Vec::new();
            }
            let recorded: u64 = self.procs[i].start_time;
            if recorded == 0 || start_time == 0 || start_time == recorded {
                self.procs[i].pkg = pkg;
                proof {
                    let p = self.procs@[i as int]@;
                    assert(self@ =~= before.update(i as int, p));
                    lemma_users_same_dirs(before, i as int, p);
                    lemma_proc_index_is(self@, pid, i as int);
                    assert forall|d: Seq<char>| #[trigger] self.refs(d) == users(self@, d) by {
                        assert(old(self).refs(d) == users(before, d));
                    }
                    self.lemma_update_proper(before, i as int, p);
                }
                return Vec::new();
            }
            let freed = self.take_out(i);
            let ghost middle = self@;
            let ghost rest = *self;
            self.procs.push(ProcessState::new(pid, start_time, pkg, now));
            proof {
                let p = fresh_proc(pid, start_time, pkg@, now);
                assert(self@ =~= middle.push(p));
                lemma_users_push_fresh(middle, p);
                self.lemma_push_proper(middle, before, i as int, p);
                assert forall|d: Seq<char>| #[trigger] self.refs(d) == users(self@, d) by {
                    assert(users(middle.push(p), d) == users(middle, d));
                    assert(rest.refs(d) == users(middle, d));
                }
                assert forall|d: Seq<char>| #[trigger] text::strings(freed@).contains(d)
                    <==> fell_free(before, self@)(d) by {
                    assert(users(middle.push(p), d) == users(middle, d));
                }
            }
            freed
        } else {
            self.procs.push(ProcessState::new(pid, start_time, pkg, now));
            proof {
                let p = fresh_proc(pid, start_time, pkg@, now);
                assert(self@ =~= before.push(p));
                lemma_users_push_fresh(before, p);
                lemma_proc_index_is(self@, pid, before.len() as int);
                assert forall|j: int, k: int| 0 <= j < k < self@.len() implies self@[j].pid
                    != self@[k].pid by {
                    if k < before.len() {
                        assert(self@[j] == before[j] && self@[k] == before[k]);
                    } else {
                        assert(self@[j] == before[j]);
                    }
                }
                assert forall|j: int| 0 <= j < self@.len() implies proper_dirs(
                    (#[trigger] self@[j]).dirs,
                ) by {
                    if j < before.len() {
                        assert(self@[j] == before[j]);
                    }
                }
                assert forall|d: Seq<char>| #[trigger] self.refs(d) == users(self@, d) by {
                    assert(old(self).refs(d) == users(before, d));
                }
            }
            Vec::new()
        }
    }

    proof fn lemma_update_proper(&self, before: Seq<ProcView>, i: int, p: ProcView)
        requires
            proper_procs(before),
            0 <= i < before.len(),
            self@ == before.update(i, p),
            p.pid == before[i].pid,
            proper_dirs(p.dirs),
        ensures
            proper_procs(self@),
    {
        assert forall|j: int, k: int| 0 <= j < k < self@.len() implies self@[j].pid
            != self@[k].pid by {
            assert(before[j].pid != before[k].pid);
        }
        assert forall|j: int| 0 <= j < self@.len() implies proper_dirs(
            (#[trigger] self@[j]).dirs,
        ) by {
            assert(proper_dirs(before[j].dirs));
        }
    }

    proof fn lemma_push_proper(
        &self,
        middle: Seq<ProcView>,
        before: Seq<ProcView>,
        i: int,
        p: ProcView,
    )
        requires
            proper_procs(before),
            proper_procs(middle),
            0 <= i < before.len(),
            middle == before.remove(i),
            self@ == middle.push(p),
            p.pid == before[i].pid,
            p.dirs.len() == 0,
        ensures
            proper_procs(self@),
            tracks(self@, p.pid),
    {
        assert forall|j: int| 0 <= j < middle.len() implies (#[trigger] middle[j]).pid != p.pid by {
            if j < i {
                assert(middle[j] == before[j]);
            } else {
                assert(middle[j] == before[j + 1]);
            }
        }
        assert forall|j: int| 0 <= j < middle.len() implies (#[trigger] self@[j]).pid != p.pid by {
            assert(self@[j] == middle[j]);
        }
        lemma_proc_index_is(self@, p.pid, middle.len() as int);
        assert forall|j: int, k: int| 0 <= j < k < self@.len() implies self@[j].pid
            != self@[k].pid by {
            assert(self@[j] == middle[j]);
            if k < middle.len() {
                assert(self@[k] == middle[k]);
            }
        }
        assert forall|j: int| 0 <= j < self@.len() implies proper_dirs(
            (#[trigger] self@[j]).dirs,
        ) by {
            if j < middle.len() {
                assert(self@[j] == middle[j]);
            }
        }
    }

    fn add_dir(&mut self, i: usize, dir: &str)
        requires
            old(self).wf(),
            i < old(self)@.len(),
        ensures
            final(self).wf(),
            final(self)@ == old(self)@.update(
                i as int,
                ProcView {
                    dirs: dirs_with(old(self)@[i as int].dirs, seq![dir@]),
                    ..old(self)@[i as int]
                },
            ),
    {
        let ghost before = self@;
        let ghost dirs = before[i as int].dirs;
        let count: usize = self.procs.len();
        proof {
            assert(before[i as int] == self.procs@[i as int]@);
            let one = seq![dir@];
            assert(one.drop_last() =~= Seq::<Seq<char>>::empty());
            assert(dirs_with(dirs, one.drop_last()) == dirs);
            assert(one.last() == dir@);
        }
        if dir.is_empty() || text::holds_text(self.procs[i].applied_dirs.as_slice(), dir) {
            proof {
                assert(before =~= before.update(
                    i as int,
                    ProcView { dirs, ..before[i as int] },
                ));
            }
            return;
        }
        self.procs[i].applied_dirs.push(dir.to_owned());
        let ghost p = self.procs@[i as int]@;
        proof {
            assert(p.dirs =~= dirs.push(dir@));
            assert(self@ =~= before.update(i as int, p));
            assert forall|j: int, k: int| 0 <= j < k < p.dirs.len() implies p.dirs[j]
                != p.dirs[k] by {
                assert(p.dirs[j] == dirs[j]);
                if k < dirs.len() {
                    assert(p.dirs[k] == dirs[k]);
                }
            }
            assert forall|j: int| 0 <= j < p.dirs.len() implies (#[trigger] p.dirs[j]).len() > 0 by {
                if j < dirs.len() {
                    assert(p.dirs[j] == dirs[j]);
                }
            }
            self.lemma_update_proper(before, i as int, p);
            assert forall|d: Seq<char>| #[trigger] users(self@, d) == users(before, d) + if d
                == dir@ {
                1int
            } else {
                0int
            } by {
                tally::lemma_tally_update(before, uses_dir(d), i as int, p);
                if dirs.contains(d) {
                    let j = choose|j: int| 0 <= j < dirs.len() && dirs[j] == d;
                    assert(p.dirs[j] == d);
                }
                if d == dir@ {
                    assert(p.dirs[dirs.len() as int] == d);
                }
                if p.dirs.contains(d) && d != dir@ {
                    let j = choose|j: int| 0 <= j < p.dirs.len() && p.dirs[j] == d;
                    assert(dirs[j] == d);
                }
            }
            assert(self.refs(dir@) == old(self).refs(dir@));
            assert(old(self).refs(dir@) == users(before, dir@));
            assert(users(self@, dir@) <= self@.len()) by {
                tally::lemma_tally_bound(self@, uses_dir(dir@));
            }
            assert(self@.len() == count);
        }
        let ghost middle = *self;
        self.add_ref(dir);
        proof {
            assert(self@ == middle@);
            assert forall|d: Seq<char>| #[trigger] self.refs(d) == users(self@, d) by {
                assert(middle.refs(d) == old(self).refs(d));
                assert(old(self).refs(d) == users(before, d));
                assert(users(middle@, d) == users(before, d) + if d == dir@ {
                    1int
                } else {
                    0int
                });
            }
        }
    }

    /// Notes that a process uses some directories; a directory counts once
    /// for a process, and one without a name not at all.
    pub fn register_dirs(&mut self, pid: i32, dirs: &[String])
        requires
            old(self).wf(),
        ensures
            final(self).wf(),
            final(self)@ == if tracks(old(self)@, pid) {
                let p = old(self)@[proc_index(old(self)@, pid)];
                changed(
                    old(self)@,
                    pid,
                    ProcView { dirs: dirs_with(p.dirs, text::strings(dirs@)), ..p },
                )
            } else {
                old(self)@
            },
    {
        let i = self.find(pid);
        if i >= self.procs.len() {
            return;
        }
        let ghost before = self@;
        let ghost p = before[i as int];
        let ghost all = text::strings(dirs@);
        let mut k: usize = 0;
        proof {
            assert(all.take(0) =~= Seq::<Seq<char>>::empty());
            assert(self@ =~= before.update(
                i as int,
                ProcView { dirs: dirs_with(p.dirs, all.take(0)), ..p },
            ));
        }
        while k < dirs.len()
            invariant
                0 <= k <= dirs@.len(),
                i < before.len(),
                p == before[i as int],
                all == text::strings(dirs@),
                self.wf(),
                self@ == before.update(
                    i as int,
                    ProcView { dirs: dirs_with(p.dirs, all.take(k as int)), ..p },
                ),
            decreases dirs@.len() - k,
        {
            let ghost now = self@[i as int].dirs;
            proof {
                assert(all.take(k + 1).drop_last() =~= all.take(k as int));
                assert(all.take(k + 1).last() == dirs@[k as int]@);
                let one = seq![dirs@[k as int]@];
                assert(one.drop_last() =~= Seq::<Seq<char>>::empty());
                assert(dirs_with(now, one.drop_last()) == now);
                assert(dirs_with(now, one) == dirs_with(p.dirs, all.take(k + 1)));
            }
            self.add_dir(i, dirs[k].as_str());
            proof {
                assert(self@ =~= before.update(
                    i as int,
                    ProcView { dirs: dirs_with(p.dirs, all.take(k + 1)), ..p },
                ));
            }
            k += 1;
        }
        proof {
            assert(all.take(k as int) =~= all);
        }
    }
}

/// The set of some threads.
pub open spec fn tid_set(tids: Seq<i32>) -> Set<i32> {
    tids.to_set()
}

/// Collects threads.
pub fn collect_tids(tids: &[i32]) -> (r: HashSet<i32>)
    ensures
        r@ == tid_set(tids@),
{
    broadcast use vstd::std_specs::hash::group_hash_axioms;

    let mut out: HashSet<i32> = HashSet::new();
    let mut i: usize = 0;
    proof {
        assert(out@ =~= tids@.take(0).to_set());
    }
    while i < tids.len()
        invariant
            0 <= i <= tids@.len(),
            out@ == tids@.take(i as int).to_set(),
        decreases tids@.len() - i,
    {
        broadcast use vstd::std_specs::hash::group_hash_axioms;

        let ghost before = out@;
        out.insert(tids[i]);
        proof {
            lemma_set_push(tids@, i as int);
        }
        i += 1;
    }
    proof {
        assert(tids@.take(i as int) =~= tids@);
    }
    out
}

proof fn lemma_set_push(tids: Seq<i32>, i: int)
    requires
        0 <= i < tids.len(),
    ensures
        tids.take(i + 1).to_set() == tids.take(i).to_set().insert(tids[i]),
{
    let a = tids.take(i);
    let b = tids.take(i + 1);
    assert forall|x: i32| b.contains(x) <==> a.contains(x) || x == tids[i] by {
        if a.contains(x) {
            let j = choose|j: int| 0 <= j < a.len() && a[j] == x;
            assert(b[j] == x);
        }
        if b.contains(x) {
            let j = choose|j: int| 0 <= j < b.len() && b[j] == x;
            if j < i {
                assert(a[j] == x);
            }
        }
        if x == tids[i] {
            assert(b[i] == x);
        }
    }
    assert(b.to_set() =~= a.to_set().insert(tids[i]));
}

impl StateTracker {
    proof fn lemma_change(&self, was: StateTracker, i: int, p: ProcView)
        requires
            was.wf(),
            self.cpuset_refs == was.cpuset_refs,
            0 <= i < was@.len(),
            self@ == was@.update(i, p),
            p.pid == was@[i].pid,
            p.dirs == was@[i].dirs,
        ensures
            self.wf(),
    {
        lemma_users_same_dirs(was@, i, p);
        self.lemma_update_proper(was@, i, p);
        assert forall|d: Seq<char>| #[trigger] self.refs(d) == users(self@, d) by {
            assert(was.refs(d) == users(was@, d));
        }
    }

    /// Forgets that a policy was applied to a thread, which has ended.
    pub fn remove_tid(&mut self, pid: i32, tid: i32)
        requires
            old(self).wf(),
        ensures
            final(self).wf(),
            final(self)@ == tid_gone(old(self)@, pid, tid),
    {
        broadcast use vstd::std_specs::hash::group_hash_axioms;

        let i = self.find(pid);
        if i < self.procs.len() {
            self.procs[i].applied_tids.remove(&tid);
            proof {
                let p = self.procs@[i as int]@;
                assert(self@ =~= old(self)@.update(i as int, p));
                self.lemma_change(*old(self), i as int, p);
            }
        }
    }

    /// Notes that a policy was applied to a thread.
    pub fn note_tid(&mut self, pid: i32, tid: i32)
        requires
            old(self).wf(),
        ensures
            final(self).wf(),
            final(self)@ == if tracks(old(self)@, pid) {
                let p = old(self)@[proc_index(old(self)@, pid)];
                changed(old(self)@, pid, ProcView { tids: p.tids.insert(tid), ..p })
            } else {
                old(self)@
            },
    {
        broadcast use vstd::std_specs::hash::group_hash_axioms;

        let i = self.find(pid);
        if i < self.procs.len() {
            self.procs[i].applied_tids.insert(tid);
            proof {
                let p = self.procs@[i as int]@;
                assert(self@ =~= old(self)@.update(i as int, p));
                self.lemma_change(*old(self), i as int, p);
            }
        }
    }

    /// Notes that policies were applied to some threads.
    pub fn record_applied_tids(&mut self, pid: i32, tids: &[i32])
        requires
            old(self).wf(),
        ensures
            final(self).wf(),
            final(self)@ == tids_done(old(self)@, pid, tids@),
    {
        broadcast use vstd::std_specs::hash::group_hash_axioms;

        let i = self.find(pid);
        if i >= self.procs.len() {
            return;
        }
        let ghost before = self@;
        let ghost p = before[i as int];
        let mut k: usize = 0;
        proof {
            assert(p.tids.union(tids@.take(0).to_set()) =~= p.tids);
            assert(self@ =~= before.update(
                i as int,
                ProcView { tids: p.tids.union(tids@.take(0).to_set()), ..p },
            ));
        }
        while k < tids.len()
            invariant
                0 <= k <= tids@.len(),
                before == old(self)@,
                i < before.len(),
                p == before[i as int],
                self.cpuset_refs == old(self).cpuset_refs,
                self@ == before.update(
                    i as int,
                    ProcView { tids: p.tids.union(tids@.take(k as int).to_set()), ..p },
                ),
            decreases tids@.len() - k,
        {
            broadcast use vstd::std_specs::hash::group_hash_axioms;

            let ghost middle = self@;
            proof {
                assert(self@.len() == self.procs@.len());
                assert(middle[i as int] == self.procs@[i as int]@);
            }
            self.procs[i].applied_tids.insert(tids[k]);
            proof {
                lemma_set_push(tids@, k as int);
                let a = tids@.take(k as int).to_set();
                assert(p.tids.union(a).insert(tids@[k as int]) =~= p.tids.union(
                    a.insert(tids@[k as int]),
                ));
                let q = self.procs@[i as int]@;
                assert(q.tids == middle[i as int].tids.insert(tids@[k as int]));
                assert(q =~= ProcView { tids: p.tids.union(tids@.take(k + 1).to_set()), ..p });
                assert(self@ =~= middle.update(i as int, q));
                assert(self@ =~= before.update(i as int, q));
            }
            k += 1;
        }
        proof {
            assert(tids@.take(k as int) =~= tids@);
            self.lemma_change(
                *old(self),
                i as int,
                ProcView { tids: p.tids.union(tid_set(tids@)), ..p },
            );
        }
    }

    /// Notes that all threads of a process have been looked at.
    pub fn mark_scanned(&mut self, pid: i32, now: i64)
        requires
            old(self).wf(),
        ensures
            final(self).wf(),
            final(self)@ == scanned(old(self)@, pid, now),
    {
        let i = self.find(pid);
        if i < self.procs.len() {
            self.procs[i].initial_scan_done = true;
            self.procs[i].last_scan_time = now;
            proof {
                let p = self.procs@[i as int]@;
                assert(self@ =~= old(self)@.update(i as int, p));
                self.lemma_change(*old(self), i as int, p);
            }
        }
    }

    /// Drops the thread names of a process that are too old.
    pub fn expire_names(&mut self, pid: i32, now: i64)
        requires
            old(self).wf(),
        ensures
            final(self).wf(),
            final(self)@ == if tracks(old(self)@, pid) {
                let p = old(self)@[proc_index(old(self)@, pid)];
                changed(old(self)@, pid, ProcView { names: names_at(p.names, now), ..p })
            } else {
                old(self)@
            },
    {
        let i = self.find(pid);
        if i < self.procs.len() {
            self.procs[i].tid_names.expire(now);
            proof {
                let p = self.procs@[i as int]@;
                assert(self@ =~= old(self)@.update(i as int, p));
                self.lemma_change(*old(self), i as int, p);
            }
        }
    }

    /// Takes in the name of a thread that has none yet; one that could not be
    /// read is empty.
    pub fn remember_name(&mut self, pid: i32, tid: i32, read: Option<String>)
        requires
            old(self).wf(),
        ensures
            final(self).wf(),
            final(self)@ == named(old(self)@, pid, tid, text::opt_text(read)),
    {
        let i = self.find(pid);
        if i < self.procs.len() {
            proof {
                assert(self@[i as int] == self.procs@[i as int]@);
            }
            let name = match read {
                Some(n) => n,
                None => String::new(),
            };
            self.procs[i].tid_names.remember(tid, name);
            proof {
                let p = self.procs@[i as int]@;
                assert(self@ =~= old(self)@.update(i as int, p));
                self.lemma_change(*old(self), i as int, p);
                if name_in(old(self)@[i as int].names, tid) is Some {
                    assert(self@ =~= old(self)@);
                }
            }
        }
    }

    /// Takes over the threads that a process has now: they count as done, and
    /// the names of others are forgotten.
    pub fn settle_tids(&mut self, pid: i32, tids: &[i32])
        requires
            old(self).wf(),
        ensures
            final(self).wf(),
            final(self)@ == if tracks(old(self)@, pid) {
                let p = old(self)@[proc_index(old(self)@, pid)];
                changed(
                    old(self)@,
                    pid,
                    ProcView {
                        tids: tid_set(tids@),
                        names: NamesView {
                            names: names_of(p.names.names, tid_set(tids@)),
                            since: p.names.since,
                        },
                        ..p
                    },
                )
            } else {
                old(self)@
            },
    {
        let i = self.find(pid);
        if i < self.procs.len() {
            proof {
                assert(self@[i as int] == self.procs@[i as int]@);
            }
            let set = collect_tids(tids);
            self.procs[i].tid_names.retain(&set);
            self.procs[i].applied_tids = set;
            proof {
                let p = self.procs@[i as int]@;
                assert(self@ =~= old(self)@.update(i as int, p));
                self.lemma_change(*old(self), i as int, p);
            }
        }
    }

    /// Stops following the processes whose packages are not in the list.
    /// Returns the directories that are to be removed.
    pub fn retain_interested(&mut self, pkgs: &[String]) -> (r: Vec<String>)
        requires
            old(self).wf(),
        ensures
            final(self).wf(),
            final(self)@ == only_of(old(self)@, text::strings(pkgs@)),
            same_dirs(text::strings(r@), fell_free(old(self)@, final(self)@)),
    {
        let mut freed: Vec<String> = Vec::new();
        let ghost all = self@;
        let ghost names = text::strings(pkgs@);
        let ghost mut seen: int = 0;
        let mut i: usize = 0;
        proof {
            assert(all.take(0) =~= Seq::<ProcView>::empty());
            assert(self@.take(0) =~= only_of(all.take(0), names));
            assert(self@.skip(0) =~= all.skip(0));
        }
        while i < self.procs.len()
            invariant
                0 <= i <= self.procs@.len(),
                self.procs@.len() == self@.len(),
                self.wf(),
                all == old(self)@,
                names == text::strings(pkgs@),
                0 <= seen <= all.len(),
                self@.take(i as int) == only_of(all.take(seen), names),
                self@.skip(i as int) == all.skip(seen),
                same_dirs(text::strings(freed@), fell_free(all, self@)),
                forall|d: Seq<char>| #[trigger] users(self@, d) <= users(all, d),
            decreases self.procs@.len() - i,
        {
            let ghost here = self@;
            proof {
                assert(here.skip(i as int).len() == here.len() - i);
                assert(all.skip(seen).len() == all.len() - seen);
                assert(here.skip(i as int)[0] == here[i as int]);
                assert(all.skip(seen)[0] == all[seen]);
                assert(all.take(seen + 1).drop_last() =~= all.take(seen));
                assert(all.take(seen + 1).last() == all[seen]);
                assert(here[i as int] == self.procs@[i as int]@);
                assert(all.skip(seen).skip(1) =~= all.skip(seen + 1));
                assert(here.skip(i as int).skip(1) =~= here.skip(i + 1));
            }
            if text::holds_text(pkgs, self.procs[i].pkg.as_str()) {
                proof {
                    assert(here.take(i + 1) =~= here.take(i as int).push(here[i as int]));
                    seen = seen + 1;
                }
                i += 1;
            } else {
                let more = self.take_out(i);
                proof {
                    let after = self@;
                    assert(after.take(i as int) =~= here.take(i as int));
                    assert(after.skip(i as int) =~= here.skip(i + 1));
                    seen = seen + 1;
                    assert forall|d: Seq<char>| #[trigger] users(after, d) <= users(here, d)
                        && users(after, d) <= users(all, d) by {
                        tally::lemma_tally_remove(here, uses_dir(d), i as int);
                        assert(users(here, d) <= users(all, d));
                    }
                    lemma_freed(text::strings(freed@), text::strings(more@), all, here, after);
                }
                append_dirs(&mut freed, &more);
            }
        }
        proof {
            assert(all.skip(seen).len() == 0);
            assert(all.take(seen) =~= all);
            assert(self@.take(i as int) =~= self@);
        }
        freed
    }
}

/// Appends directory names.
pub fn append_dirs(to: &mut Vec<String>, more: &Vec<String>)
    ensures
        text::strings(final(to)@) == text::strings(old(to)@) + text::strings(more@),
{
    let ghost start = text::strings(to@);
    let mut i: usize = 0;
    proof {
        assert(start + text::strings(more@).take(0) =~= start);
    }
    while i < more.len()
        invariant
            0 <= i <= more@.len(),
            text::strings(to@) == start + text::strings(more@).take(i as int),
        decreases more@.len() - i,
    {
        let ghost now = text::strings(to@);
        to.push(more[i].clone());
        proof {
            assert(text::strings(to@) =~= now.push(more@[i as int]@));
            assert(text::strings(to@) =~= start + text::strings(more@).take(i + 1));
        }
        i += 1;
    }
    proof {
        assert(text::strings(more@).take(i as int) =~= text::strings(more@));
    }
}

/// What falls free in two steps falls free in all.
pub proof fn lemma_freed(
    first: Seq<Seq<char>>,
    second: Seq<Seq<char>>,
    a: Seq<ProcView>,
    b: Seq<ProcView>,
    c: Seq<ProcView>,
)
    requires
        same_dirs(first, fell_free(a, b)),
        same_dirs(second, fell_free(b, c)),
        forall|d: Seq<char>| #[trigger] users(b, d) <= users(a, d),
        forall|d: Seq<char>| #[trigger] users(c, d) <= users(b, d),
    ensures
        same_dirs(first + second, fell_free(a, c)),
{
    let r = first + second;
    assert forall|d: Seq<char>| #[trigger] r.contains(d) <==> fell_free(a, c)(d) by {
        assert(users(b, d) <= users(a, d));
        assert(users(c, d) <= users(b, d));
        if first.contains(d) {
            let j = choose|j: int| 0 <= j < first.len() && first[j] == d;
            assert(r[j] == d);
        }
        if second.contains(d) {
            let j = choose|j: int| 0 <= j < second.len() && second[j] == d;
            assert(r[first.len() + j] == d);
        }
        if r.contains(d) {
            let j = choose|j: int| 0 <= j < r.len() && r[j] == d;
            if j < first.len() {
                assert(first[j] == d);
            } else {
                assert(second[j - first.len()] == d);
            }
        }
        assert(first.contains(d) <==> fell_free(a, b)(d));
        assert(second.contains(d) <==> fell_free(b, c)(d));
    }
    assert forall|i: int, j: int| 0 <= i < j < r.len() implies r[i] != r[j] by {
        if j < first.len() {
            assert(first[i] != first[j]);
        } else if i >= first.len() {
            assert(second[i - first.len()] != second[j - first.len()]);
        } else {
            assert(first.contains(first[i]));
            assert(second.contains(second[j - first.len()]));
            assert(fell_free(a, b)(first[i]));
            assert(fell_free(b, c)(second[j - first.len()]));
        }
    }
}

// ---------------------------------------------------------------------
// Laws
// ---------------------------------------------------------------------

/// A name that was asked for stays the same for as long as the cache is not a
/// minute old, whatever the kernel says by then; after that it is read anew.
pub proof fn law_names_last_a_minute(
    c: NamesView,
    tid: i32,
    first: i64,
    later: i64,
    read: Option<Seq<char>>,
    again: Option<Seq<char>>,
)
    ensures
        ({
            let kept = names_after(c, tid, first, read);
            &&& later - kept.since < THREAD_NAME_CACHE_TTL_SECS ==> name_given(kept, tid, later, again)
                == name_given(c, tid, first, read)
            &&& later - kept.since >= THREAD_NAME_CACHE_TTL_SECS ==> name_given(
                kept,
                tid,
                later,
                again,
            ) == name_read(again)
        }),
        name_in(names_at(c, first), tid) is None && read is None ==> name_given(
            c,
            tid,
            first,
            read,
        ) == Seq::<char>::empty(),
{
    let at = names_at(c, first);
    if name_in(at, tid) is None {
        lemma_name_pushed(at.names, tid, name_read(read));
    }
}

proof fn lemma_name_pushed(names: Seq<(i32, Seq<char>)>, tid: i32, name: Seq<char>)
    requires
        name_index(names, tid) >= names.len(),
    ensures
        name_index(names.push((tid, name)), tid) == names.len(),
    decreases names.len(),
{
    if names.len() > 0 {
        assert(names.push((tid, name)).skip(1) =~= names.skip(1).push((tid, name)));
        assert(names.push((tid, name))[0] == names[0]);
        lemma_name_pushed(names.skip(1), tid, name);
    }
}

/// A process that was seen is followed under the package it was seen with,
/// and nothing changes for any other. Under the same package it stays as it
/// is; a new process, also one that has the number of an old one, starts with
/// no thread dealt with and no directory.
pub proof fn law_entering_follows_the_package(
    procs: Seq<ProcView>,
    pid: i32,
    pkg: Seq<char>,
    now: i64,
    start_time: u64,
)
    requires
        proper_procs(procs),
    ensures
        ({
            let after = entered(procs, pid, pkg, now, start_time);
            let q = after[proc_index(after, pid)];
            &&& tracks(after, pid)
            &&& q.pid == pid && q.pkg == pkg
            &&& forall|other: i32|
                other != pid ==> #[trigger] tracks(after, other) == tracks(procs, other)
            &&& forall|other: i32|
                other != pid && #[trigger] tracks(after, other) ==> after[proc_index(after, other)]
                    == procs[proc_index(procs, other)]
            &&& tracks(procs, pid) && procs[proc_index(procs, pid)].pkg == pkg ==> after == procs
            &&& !tracks(procs, pid) || (procs[proc_index(procs, pid)].pkg != pkg && reused(
                procs[proc_index(procs, pid)].start_time,
                start_time,
            )) ==> q.tids == Set::<i32>::empty() && q.dirs == Seq::<Seq<char>>::empty()
        }),
{
    let after = entered(procs, pid, pkg, now, start_time);
    let fresh = fresh_proc(pid, start_time, pkg, now);
    let i = proc_index(procs, pid);
    lemma_proc_index(procs, pid);
    if !tracks(procs, pid) {
        lemma_proc_index_is(after, pid, procs.len() as int);
        assert forall|other: i32| other != pid implies {
            &&& #[trigger] tracks(after, other) == tracks(procs, other)
            &&& tracks(procs, other) ==> after[proc_index(after, other)] == procs[proc_index(
                procs,
                other,
            )]
        } by {
            lemma_proc_index(procs, other);
            lemma_proc_index(after, other);
            if tracks(procs, other) {
                lemma_proc_index_is(after, other, proc_index(procs, other));
            } else {
                lemma_proc_index_is(after, other, after.len() as int);
            }
        }
    } else if procs[i].pkg == pkg {
    } else if reused(procs[i].start_time, start_time) {
        let rest = without(procs, pid);
        assert(rest =~= procs.remove(i));
        assert forall|j: int| 0 <= j < rest.len() implies (#[trigger] rest[j]).pid != pid by {
            assert(rest[j] == procs[if j < i { j } else { j + 1 }]);
        }
        assert forall|j: int| 0 <= j < rest.len() implies (#[trigger] after[j]).pid != pid by {
            assert(after[j] == rest[j]);
        }
        lemma_proc_index_is(after, pid, rest.len() as int);
        assert forall|other: i32| other != pid implies {
            &&& #[trigger] tracks(after, other) == tracks(procs, other)
            &&& tracks(procs, other) ==> after[proc_index(after, other)] == procs[proc_index(
                procs,
                other,
            )]
        } by {
            lemma_proc_index(procs, other);
            let k = proc_index(procs, other);
            let m = if tracks(procs, other) {
                if k < i {
                    k
                } else {
                    k - 1
                }
            } else {
                after.len() as int
            };
            assert forall|j: int| 0 <= j < m implies (#[trigger] after[j]).pid != other by {
                if j < rest.len() {
                    assert(after[j] == rest[j]);
                    assert(rest[j] == procs[if j < i { j } else { j + 1 }]);
                }
            }
            if tracks(procs, other) {
                assert(after[m] == rest[m]);
                assert(rest[m] == procs[k]);
            }
            lemma_proc_index_is(after, other, m);
        }
    } else {
        assert forall|j: int| 0 <= j < after.len() implies (#[trigger] after[j]).pid
            == procs[j].pid by {}
        lemma_proc_index_is(after, pid, i);
        assert forall|other: i32| other != pid implies {
            &&& #[trigger] tracks(after, other) == tracks(procs, other)
            &&& tracks(procs, other) ==> after[proc_index(after, other)] == procs[proc_index(
                procs,
                other,
            )]
        } by {
            lemma_proc_index(procs, other);
            lemma_proc_index_is(after, other, proc_index(procs, other));
        }
    }
}

/// Noting the same directories twice changes nothing more.
pub proof fn law_registering_is_idempotent(dirs: Seq<Seq<char>>, more: Seq<Seq<char>>)
    ensures
        dirs_with(dirs_with(dirs, more), more) == dirs_with(dirs, more),
{
    lemma_dirs_with(dirs, more);
    lemma_dirs_known(dirs_with(dirs, more), more);
}

proof fn lemma_dirs_with(dirs: Seq<Seq<char>>, more: Seq<Seq<char>>)
    ensures
        forall|d: Seq<char>|
            #[trigger] dirs_with(dirs, more).contains(d) <==> dirs.contains(d) || (more.contains(d)
                && d.len() > 0),
    decreases more.len(),
{
    let r = dirs_with(dirs, more);
    if more.len() > 0 {
        let front = more.drop_last();
        lemma_dirs_with(dirs, front);
        let before = dirs_with(dirs, front);
        let last = more.last();
        assert forall|d: Seq<char>| #[trigger] r.contains(d) <==> dirs.contains(d) || (
        more.contains(d) && d.len() > 0) by {
            assert(before.contains(d) <==> dirs.contains(d) || (front.contains(d) && d.len() > 0));
            if front.contains(d) {
                let j = choose|j: int| 0 <= j < front.len() && front[j] == d;
                assert(more[j] == d);
            }
            if more.contains(d) && d != last {
                let j = choose|j: int| 0 <= j < more.len() && more[j] == d;
                assert(front[j] == d);
            }
            assert(more[more.len() - 1] == last);
            if last.len() > 0 && !before.contains(last) {
                assert(r[before.len() as int] == last);
                if before.contains(d) {
                    let j = choose|j: int| 0 <= j < before.len() && before[j] == d;
                    assert(r[j] == d);
                }
                if r.contains(d) && d != last {
                    let j = choose|j: int| 0 <= j < r.len() && r[j] == d;
                    assert(before[j] == d);
                }
            }
        }
    }
}

proof fn lemma_dirs_known(dirs: Seq<Seq<char>>, more: Seq<Seq<char>>)
    requires
        forall|i: int|
            0 <= i < more.len() && (#[trigger] more[i]).len() > 0 ==> dirs.contains(more[i]),
    ensures
        dirs_with(dirs, more) == dirs,
    decreases more.len(),
{
    if more.len() > 0 {
        let front = more.drop_last();
        assert forall|i: int| 0 <= i < front.len() && (#[trigger] front[i]).len()
            > 0 implies dirs.contains(front[i]) by {
            assert(more[i] == front[i]);
        }
        lemma_dirs_known(dirs, front);
        assert(more[more.len() - 1] == more.last());
    }
}

/// A process that is no longer followed uses no directory, and the use of
/// directories by others is as it was.
pub proof fn law_removal_gives_up_one_use(procs: Seq<ProcView>, pid: i32, dir: Seq<char>)
    requires
        proper_procs(procs),
        tracks(procs, pid),
    ensures
        !tracks(without(procs, pid), pid),
        users(procs, dir) == users(without(procs, pid), dir) + if procs[proc_index(
            procs,
            pid,
        )].dirs.contains(dir) {
            1int
        } else {
            0int
        },
{
    lemma_proc_index(procs, pid);
    let i = proc_index(procs, pid);
    let after = procs.remove(i);
    tally::lemma_tally_remove(procs, uses_dir(dir), i);
    assert forall|j: int| 0 <= j < after.len() implies (#[trigger] after[j]).pid != pid by {
        if j < i {
            assert(after[j] == procs[j]);
        } else {
            assert(after[j] == procs[j + 1]);
            assert(procs[i].pid != procs[j + 1].pid);
        }
    }
    lemma_proc_index_is(after, pid, after.len() as int);
}

} // verus!
