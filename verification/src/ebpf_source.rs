//! Events from the kernel's reports.
//!
//! Reports come from the filter in the kernel. A fork waits until the child
//! has a name; whether it is a process or a thread shows only then.

use std::collections::HashSet;

use vstd::prelude::*;

use crate::ebpf_filter;
use crate::ebpf_filter::EbpfProcEvent;
use crate::event::{EventKind, ProcessEvent};
use crate::pending;
use crate::pending::Pending;
use crate::proc_source;
use crate::proc_source::ProcReading;
use crate::ruleset;
use crate::ruleset::RuleSet;
use crate::text;
use crate::tracker;
use crate::tracker::StateTracker;

verus! {

/// Forks that may wait for their name.
pub const PENDING_MAX_PENDING: usize = 128;

/// Seconds between two alignments of the kernel's table with the tracker.
pub const TRACKED_SYNC_SECS: u64 = 30;

/// Reports dealt with in one round.
pub const BATCH_MAX: usize = 256;

/// Bytes of a report.
pub const EVENT_BYTES: usize = 32;

/// What was read of a fork that waits.
#[derive(Debug)]
pub struct ForkReading {
    pub alive: bool,
    /// The name of its package, where it has one.
    pub pkg: Option<String>,
    /// The package patterns that match the name.
    pub hits: Vec<String>,
    /// The process it belongs to, where that could be read.
    pub tgid: Option<i32>,
    /// The package of that process, where it has one.
    pub owner: Option<String>,
    /// The package patterns that match that name.
    pub owner_hits: Vec<String>,
}

/// What a report leads to.
#[derive(Debug)]
pub struct RawOutcome {
    pub event: Option<ProcessEvent>,
    /// The process to take off the kernel's table.
    pub forget: Option<i32>,
}

/// The forks that turned out to matter.
#[derive(Debug)]
pub struct Flushed {
    pub events: Vec<ProcessEvent>,
    /// The processes to put on the kernel's table.
    pub follow: Vec<i32>,
}

/// How to align the kernel's table with the tracker.
#[derive(Debug)]
pub struct SyncPlan {
    pub insert: Vec<i32>,
    pub remove: Vec<i32>,
}

/// The state between two rounds.
#[derive(Debug)]
pub struct EbpfSource {
    /// Forks that wait for their name.
    pub pending: Vec<Pending>,
    /// Whether the processes that ran before were looked at.
    pub initial_scan_done: bool,
    /// The processes that the first look has reported.
    pub initial_scanned: HashSet<i32>,
    /// When the kernel's table was last aligned, in milliseconds.
    pub last_tracked_sync: u64,
}

// ---------------------------------------------------------------------
// Specifications
// ---------------------------------------------------------------------

/// The number that four bytes hold, lowest first.
pub open spec fn word_at(b: Seq<u8>, pos: int) -> int {
    b[pos] + 256 * b[pos + 1] + 65536 * b[pos + 2] + 16777216 * b[pos + 3]
}

/// A number below 2^32 as a signed one.
pub open spec fn as_signed(n: int) -> int {
    if n < 0x8000_0000 {
        n
    } else {
        n - 0x1_0000_0000
    }
}

/// Whether a report is what some bytes hold.
pub open spec fn decodes(b: Seq<u8>, e: EbpfProcEvent) -> bool {
    &&& e.pid == as_signed(word_at(b, 0))
    &&& e.tid == as_signed(word_at(b, 4))
    &&& e.child_pid == as_signed(word_at(b, 8))
    &&& e.comm@ == b.subrange(12, 28)
    &&& e.event_type == word_at(b, 28)
}

/// Whether a package name gives a key: its first eight bytes, filled up with
/// zeros, and its last eight, where it has more.
pub open spec fn gives_key(pkg: Seq<char>, key: Seq<u8>) -> bool {
    let b = vstd::utf8::encode_utf8(pkg);
    b.len() > 0 && (key == first_key(b) || (b.len() > 8 && key == b.skip(b.len() - 8)))
}

/// The first eight bytes, filled up with zeros.
pub open spec fn first_key(b: Seq<u8>) -> Seq<u8> {
    Seq::new(
        8,
        |i: int|
            if i < b.len() {
                b[i]
            } else {
                0u8
            },
    )
}

/// Whether any of some packages gives a key.
pub open spec fn is_key(pkgs: Seq<String>, key: Seq<u8>) -> bool {
    exists|i: int| 0 <= i < pkgs.len() && gives_key((#[trigger] pkgs[i])@, key)
}

/// Whether the kernel's table is to be aligned again.
pub open spec fn sync_due(last: u64, now: u64) -> bool {
    (now - last) / 1000 >= TRACKED_SYNC_SECS
}

/// Whether a key goes before another: it is smaller at the first byte in
/// which they differ.
pub open spec fn goes_before(a: Seq<u8>, b: Seq<u8>) -> bool {
    exists|i: int|
        0 <= i < 8 && #[trigger] a[i] < b[i] && forall|j: int| 0 <= j < i ==> #[trigger] a[j] == b[j]
}

/// Whether keys ascend, each once.
pub open spec fn ascending(v: Seq<[u8; 8]>) -> bool {
    forall|i: int, j: int| 0 <= i < j < v.len() ==> goes_before((#[trigger] v[i])@, (#[trigger] v[j])@)
}

/// Whether any rule applies to a fork under a name.
pub open spec fn applies(rules: RuleSet, pkg: Option<String>, hits: Seq<String>) -> bool {
    pkg is Some && ruleset::package_matches(rules@, pkg.unwrap()@, text::strings(hits)).len() > 0
}

/// The process that a fork belongs to.
pub open spec fn owner_of(p: Pending, r: ForkReading) -> i32 {
    match r.tgid {
        Some(t) => t,
        None => p.pid,
    }
}

/// What a round has found so far.
#[verifier::ext_equal]
pub struct Found {
    pub pending: Seq<Pending>,
    pub events: Seq<ProcessEvent>,
    pub follow: Seq<i32>,
}

/// The round after one fork: one that has no name waits on; one that has is
/// a process of its own, or a thread of the process it belongs to.
pub open spec fn flush_step(
    f: Found,
    p: Pending,
    r: ForkReading,
    rules: RuleSet,
    now: u64,
) -> Found {
    let tgid = owner_of(p, r);
    if now < p.next {
        Found { pending: f.pending.push(p), ..f }
    } else if !r.alive {
        f
    } else if r.pkg is None || r.pkg.unwrap()@.len() == 0 {
        Found { pending: pending::put_back(f.pending, pending::retried(p, now)), ..f }
    } else if tgid == p.pid {
        if applies(rules, r.pkg, r.hits@) {
            Found {
                events: f.events.push(
                    ProcessEvent {
                        pid: p.pid,
                        tid: p.pid,
                        kind: EventKind::Fork,
                        cpu: None,
                        pkg: r.pkg,
                    },
                ),
                follow: f.follow.push(tgid),
                ..f
            }
        } else {
            f
        }
    } else if applies(rules, r.owner, r.owner_hits@) {
        Found {
            events: f.events.push(
                ProcessEvent {
                    pid: tgid,
                    tid: p.pid,
                    kind: EventKind::ThreadClone,
                    cpu: None,
                    pkg: r.owner,
                },
            ),
            follow: f.follow.push(tgid),
            ..f
        }
    } else {
        f
    }
}

/// The round after the first `n` forks that wait.
pub open spec fn flushed(
    q: Seq<Pending>,
    rs: Seq<ForkReading>,
    rules: RuleSet,
    now: u64,
    n: int,
) -> Found
    decreases n,
{
    if n <= 0 {
        Found { pending: Seq::empty(), events: Seq::empty(), follow: Seq::empty() }
    } else {
        flush_step(flushed(q, rs, rules, now, n - 1), q[n - 1], rs[n - 1], rules, now)
    }
}

/// The forks that the first look reports.
pub open spec fn first_look(rules: RuleSet, rs: Seq<ProcReading>) -> Seq<ProcessEvent>
    decreases rs.len(),
{
    if rs.len() == 0 {
        Seq::empty()
    } else {
        let before = first_look(rules, rs.drop_last());
        let r = rs.last();
        if proc_source::named(r) && proc_source::interesting(rules, r) {
            before.push(proc_source::named_event(r.pid, r.pid, EventKind::Fork, r))
        } else {
            before
        }
    }
}

/// The processes that some events are about.
pub open spec fn event_pids(events: Seq<ProcessEvent>) -> Set<i32>
    decreases events.len(),
{
    if events.len() == 0 {
        Set::empty()
    } else {
        event_pids(events.drop_last()).insert(events.last().pid)
    }
}

/// The event that a report leads to at once.
pub open spec fn raw_event(ev: EbpfProcEvent, procs: Seq<tracker::ProcView>) -> Option<
    ProcessEvent,
> {
    if ev.event_type == ebpf_filter::EVENT_EXEC {
        Some(ProcessEvent::plain(ev.pid, ev.pid, EventKind::Exec))
    } else if ev.event_type == ebpf_filter::EVENT_EXIT && tracker::tracks(procs, ev.pid) {
        Some(ProcessEvent::plain(ev.pid, ev.tid, EventKind::Exit))
    } else {
        None
    }
}

/// The forks that wait after a report: a fork does, unless the first look has
/// reported it.
pub open spec fn raw_pending(
    ev: EbpfProcEvent,
    q: Seq<Pending>,
    scanned: Set<i32>,
    now: u64,
) -> Seq<Pending> {
    if ev.event_type == ebpf_filter::EVENT_FORK && !scanned.contains(ev.pid) {
        pending::queued(q, ev.pid, now, PENDING_MAX_PENDING)
    } else {
        q
    }
}

/// The process to take off the kernel's table after a report.
pub open spec fn raw_forget(ev: EbpfProcEvent) -> Option<i32> {
    if ev.event_type == ebpf_filter::EVENT_EXIT && ev.tid == ev.pid {
        Some(ev.pid)
    } else {
        None
    }
}

/// The keys of the kernel's table that the tracker does not know.
pub open spec fn stale(keys: Seq<i32>, procs: Seq<tracker::ProcView>) -> Seq<i32>
    decreases keys.len(),
{
    if keys.len() == 0 {
        Seq::empty()
    } else if tracker::tracks(procs, keys.last()) {
        stale(keys.drop_last(), procs)
    } else {
        stale(keys.drop_last(), procs).push(keys.last())
    }
}

// ---------------------------------------------------------------------
// Keys
// ---------------------------------------------------------------------

/// Order of keys is transitive.
proof fn lemma_before_trans(a: Seq<u8>, b: Seq<u8>, c: Seq<u8>)
    requires
        goes_before(a, b),
        goes_before(b, c),
    ensures
        goes_before(a, c),
{
    let i = choose|i: int|
        0 <= i < 8 && #[trigger] a[i] < b[i] && forall|j: int| 0 <= j < i ==> #[trigger] a[j]
            == b[j];
    let k = choose|k: int|
        0 <= k < 8 && #[trigger] b[k] < c[k] && forall|j: int| 0 <= j < k ==> #[trigger] b[j]
            == c[j];
    let m = if i < k {
        i
    } else {
        k
    };
    assert forall|j: int| 0 <= j < m implies #[trigger] a[j] == c[j] by {
        assert(a[j] == b[j] && b[j] == c[j]);
    }
    if i < k {
        assert(b[i] == c[i]);
    } else if k < i {
        assert(a[k] == b[k]);
    }
    assert(a[m] < c[m]);
}

/// The first byte in which two keys differ, or eight.
fn differ_at(a: &[u8; 8], b: &[u8; 8]) -> (n: usize)
    ensures
        n <= 8,
        forall|j: int| 0 <= j < n ==> a@[j] == b@[j],
        n < 8 ==> a@[n as int] != b@[n as int],
{
    let mut n: usize = 0;
    while n < 8 && a[n] == b[n]
        invariant
            0 <= n <= 8,
            forall|j: int| 0 <= j < n ==> a@[j] == b@[j],
        decreases 8 - n,
    {
        n += 1;
    }
    n
}

/// Puts a key into its place, unless it is there.
fn insert_key(out: &mut Vec<[u8; 8]>, key: [u8; 8])
    requires
        ascending(old(out)@),
    ensures
        ascending(final(out)@),
        forall|k: Seq<u8>| #[trigger]
            ebpf_filter::holds_key(final(out)@, k) <==> ebpf_filter::holds_key(old(out)@, k) || k
                == key@,
{
    let ghost before = out@;
    let mut at: usize = 0;
    while at < out.len()
        invariant_except_break
            0 <= at <= out@.len(),
            out@ == before,
            ascending(before),
            forall|i: int| 0 <= i < at ==> goes_before((#[trigger] before[i])@, key@),
        ensures
            0 <= at <= out@.len(),
            out@ == before,
            ascending(before),
            forall|i: int| 0 <= i < at ==> goes_before((#[trigger] before[i])@, key@),
            at < out@.len() ==> goes_before(key@, before[at as int]@) || before[at as int]@ == key@,
        decreases out@.len() - at,
    {
        let here = &out[at];
        let n: usize = differ_at(here, &key);
        if n == 8 {
            assert(here@ =~= key@);
            break;
        }
        if here[n] > key[n] {
            assert(key@[n as int] < here@[n as int]);
            assert(goes_before(key@, before[at as int]@));
            break;
        }
        assert(here@[n as int] < key@[n as int]);
        assert(goes_before(before[at as int]@, key@));
        at += 1;
    }
    if at < out.len() {
        let n: usize = differ_at(&out[at], &key);
        if n == 8 {
            assert(before[at as int]@ =~= key@);
            return;
        }
    }
    out.insert(at, key);
    proof {
        let after = out@;
        assert forall|i: int, j: int| 0 <= i < j < after.len() implies goes_before(
            (#[trigger] after[i])@,
            (#[trigger] after[j])@,
        ) by {
            if j < at {
                assert(after[i] == before[i] && after[j] == before[j]);
            } else if j == at {
                assert(after[i] == before[i]);
            } else if i < at {
                assert(after[i] == before[i] && after[j] == before[j - 1]);
            } else if i == at {
                assert(after[j] == before[j - 1]);
                if j - 1 > at {
                    lemma_before_trans(key@, before[at as int]@, before[j - 1]@);
                }
            } else {
                assert(after[i] == before[i - 1] && after[j] == before[j - 1]);
            }
        }
        assert forall|k: Seq<u8>| #[trigger]
            ebpf_filter::holds_key(after, k) <==> ebpf_filter::holds_key(before, k) || k
                == key@ by {
            if ebpf_filter::holds_key(after, k) {
                let i = choose|i: int| 0 <= i < after.len() && (#[trigger] after[i])@ == k;
                if i < at {
                    assert(before[i]@ == k);
                } else if i > at {
                    assert(before[i - 1]@ == k);
                }
            }
            if ebpf_filter::holds_key(before, k) {
                let i = choose|i: int| 0 <= i < before.len() && (#[trigger] before[i])@ == k;
                if i < at {
                    assert(after[i]@ == k);
                } else {
                    assert(after[i + 1]@ == k);
                }
            }
            if k == key@ {
                assert(after[at as int]@ == k);
            }
        }
    }
}

/// Eight bytes of a name from a place on, filled up with zeros.
fn key_from(b: &[u8], start: usize) -> (r: [u8; 8])
    requires
        start <= b@.len(),
    ensures
        r@ == first_key(b@.skip(start as int)),
{
    let r: [u8; 8] = [
        byte_or_zero(b, start, 0),
        byte_or_zero(b, start, 1),
        byte_or_zero(b, start, 2),
        byte_or_zero(b, start, 3),
        byte_or_zero(b, start, 4),
        byte_or_zero(b, start, 5),
        byte_or_zero(b, start, 6),
        byte_or_zero(b, start, 7),
    ];
    assert(r@ =~= first_key(b@.skip(start as int)));
    r
}

/// A byte of a name, zero beyond its end.
fn byte_or_zero(b: &[u8], start: usize, n: usize) -> (r: u8)
    requires
        start <= b@.len(),
        n < 8,
    ensures
        r == first_key(b@.skip(start as int))[n as int],
{
    if n < b.len() - start {
        b[start + n]
    } else {
        0
    }
}

/// The keys of some packages for the filter in the kernel, in ascending
/// order, each once.
pub fn target_entries(pkgs: &[String]) -> (r: Vec<[u8; 8]>)
    ensures
        ascending(r@),
        forall|k: Seq<u8>| #[trigger] ebpf_filter::holds_key(r@, k) <==> is_key(pkgs@, k),
{
    let mut out: Vec<[u8; 8]> = Vec::new();
    let mut i: usize = 0;
    while i < pkgs.len()
        invariant
            0 <= i <= pkgs@.len(),
            ascending(out@),
            forall|k: Seq<u8>| #[trigger]
                ebpf_filter::holds_key(out@, k) <==> is_key(pkgs@.take(i as int), k),
        decreases pkgs@.len() - i,
    {
        let ghost before = out@;
        let ghost pkg = pkgs@[i as int]@;
        let b = pkgs[i].as_str().as_bytes();
        assert(b@ == vstd::utf8::encode_utf8(pkg));
        if b.len() > 0 {
            let key = key_from(b, 0);
            assert(b@.skip(0) =~= b@);
            insert_key(&mut out, key);
            if b.len() > 8 {
                let start: usize = b.len() - 8;
                let key = key_from(b, start);
                assert(first_key(b@.skip(start as int)) =~= b@.skip(start as int));
                insert_key(&mut out, key);
            }
        }
        assert forall|k: Seq<u8>| #[trigger]
            ebpf_filter::holds_key(out@, k) <==> is_key(pkgs@.take(i + 1), k) by {
            assert(ebpf_filter::holds_key(out@, k) <==> ebpf_filter::holds_key(before, k)
                || gives_key(pkg, k));
            let now = pkgs@.take(i as int);
            let next = pkgs@.take(i + 1);
            if is_key(now, k) {
                let m = choose|m: int| 0 <= m < now.len() && gives_key((#[trigger] now[m])@, k);
                assert(gives_key(next[m]@, k));
            }
            if gives_key(pkg, k) {
                assert(gives_key(next[i as int]@, k));
            }
            if is_key(next, k) {
                let m = choose|m: int| 0 <= m < next.len() && gives_key((#[trigger] next[m])@, k);
                if m < i {
                    assert(gives_key(now[m]@, k));
                }
            }
        }
        i += 1;
    }
    assert(pkgs@.take(i as int) =~= pkgs@);
    out
}

/// Room for the keys of some packages in the kernel's table: the smallest
/// power of two that holds two keys for each, 64 at least.
pub fn map_capacity(pkgs: usize) -> (r: u32)
    requires
        pkgs <= 0x4000_0000,
    ensures
        exists|e: nat| r == #[trigger] vstd::arithmetic::power2::pow2(e),
        r >= 64,
        r >= 2 * pkgs,
        r == 64 || r < 4 * pkgs,
{
    let want: u32 = (pkgs * 2) as u32;
    let mut cap: u32 = 64;
    let ghost mut e: nat = 6;
    proof {
        vstd::arithmetic::power2::lemma2_to64();
    }
    while cap < want
        invariant
            cap == vstd::arithmetic::power2::pow2(e),
            want == 2 * pkgs,
            want <= 0x8000_0000,
            64 <= cap <= 0x8000_0000,
            cap == 64 || cap < 2 * want,
            cap < want ==> e < 31,
            e <= 31,
        decreases 0x8000_0000 - cap,
    {
        proof {
            vstd::arithmetic::power2::lemma_pow2_unfold(e + 1);
            vstd::arithmetic::power2::lemma2_to64();
            if e + 1 == 31 {
                assert(cap * 2 == 0x8000_0000);
            }
            if e + 1 < 31 {
                vstd::arithmetic::power2::lemma_pow2_strictly_increases(e + 1, 31);
            }
            e = e + 1;
        }
        cap = cap * 2;
        proof {
            if cap < want {
                if e >= 31 {
                    assert(e == 31);
                    assert(cap == 0x8000_0000);
                }
            }
        }
    }
    cap
}

// ---------------------------------------------------------------------
// Reports
// ---------------------------------------------------------------------

/// The number that four bytes hold, lowest first.
fn read_word(b: &[u8], pos: usize) -> (r: u32)
    requires
        pos + 4 <= b@.len(),
    ensures
        r == word_at(b@, pos as int),
{
    b[pos] as u32 + 256 * b[pos + 1] as u32 + 65536 * b[pos + 2] as u32 + 16777216 * b[pos
        + 3] as u32
}

/// A number as a signed one.
fn signed(n: u32) -> (r: i32)
    ensures
        r == as_signed(n as int),
{
    if n < 0x8000_0000 {
        n as i32
    } else {
        (n as i64 - 0x1_0000_0000) as i32
    }
}

/// The report that some bytes hold, where there are enough of them.
pub fn decode(b: &[u8]) -> (r: Option<EbpfProcEvent>)
    ensures
        match r {
            Some(e) => b@.len() >= EVENT_BYTES && decodes(b@, e),
            None => b@.len() < EVENT_BYTES,
        },
{
    if b.len() < EVENT_BYTES {
        return None;
    }
    let comm: [u8; 16] = [
        b[12],
        b[13],
        b[14],
        b[15],
        b[16],
        b[17],
        b[18],
        b[19],
        b[20],
        b[21],
        b[22],
        b[23],
        b[24],
        b[25],
        b[26],
        b[27],
    ];
    assert(comm@ =~= b@.subrange(12, 28));
    Some(
        EbpfProcEvent {
            pid: signed(read_word(b, 0)),
            tid: signed(read_word(b, 4)),
            child_pid: signed(read_word(b, 8)),
            comm,
            event_type: read_word(b, 28),
        },
    )
}

/// Whether any rule applies to a name.
fn rule_applies(rules: &RuleSet, pkg: &Option<String>, hits: &Vec<String>) -> (r: bool)
    ensures
        r == applies(*rules, *pkg, hits@),
{
    match pkg {
        Some(p) => rules.is_interested(p.as_str(), hits.as_slice()),
        None => false,
    }
}

/// How to align the kernel's table with the tracker: every process that is
/// followed goes in, every other key goes out.
pub fn tracked_sync(t: &StateTracker, keys: &[i32]) -> (r: SyncPlan)
    ensures
        r.insert@ == Seq::new(t@.len(), |i: int| t@[i].pid),
        r.remove@ == stale(keys@, t@),
{
    let mut remove: Vec<i32> = Vec::new();
    let mut i: usize = 0;
    assert(keys@.take(0) =~= Seq::<i32>::empty());
    while i < keys.len()
        invariant
            0 <= i <= keys@.len(),
            remove@ == stale(keys@.take(i as int), t@),
        decreases keys@.len() - i,
    {
        assert(keys@.take(i + 1).drop_last() =~= keys@.take(i as int));
        let key: i32 = keys[i];
        if !t.contains(key) {
            remove.push(key);
        }
        i += 1;
    }
    assert(keys@.take(i as int) =~= keys@);
    SyncPlan { insert: t.pids(), remove }
}

impl EbpfSource {
    /// The queue is orderly.
    pub open spec fn wf(&self) -> bool {
        pending::orderly(self.pending@) && self.pending@.len() <= PENDING_MAX_PENDING
    }

    /// A source that has seen nothing.
    pub fn new(now: u64) -> (r: EbpfSource)
        ensures
            r.wf(),
            r.pending@ == Seq::<Pending>::empty(),
            !r.initial_scan_done,
            r.initial_scanned@ == Set::<i32>::empty(),
            r.last_tracked_sync == now,
    {
        EbpfSource {
            pending: Vec::new(),
            initial_scan_done: false,
            initial_scanned: HashSet::new(),
            last_tracked_sync: now,
        }
    }

    /// Forks that wait under an old configuration are forgotten.
    pub fn on_config_changed(&mut self)
        ensures
            final(self).wf(),
            final(self).pending@ == Seq::<Pending>::empty(),
            final(self).initial_scan_done == old(self).initial_scan_done,
            final(self).initial_scanned == old(self).initial_scanned,
            final(self).last_tracked_sync == old(self).last_tracked_sync,
    {
        self.pending = Vec::new();
    }

    /// The first look at the processes that ran before.
    pub fn initial_scan(&mut self, rules: &RuleSet, listing: &[ProcReading]) -> (events: Vec<
        ProcessEvent,
    >)
        ensures
            events@ == first_look(*rules, listing@),
            final(self).initial_scan_done,
            final(self).initial_scanned@ == old(self).initial_scanned@.union(event_pids(events@)),
            final(self).pending == old(self).pending,
            final(self).last_tracked_sync == old(self).last_tracked_sync,
    {
        broadcast use vstd::std_specs::hash::group_hash_axioms;

        let mut events: Vec<ProcessEvent> = Vec::new();
        self.initial_scan_done = true;
        let mut i: usize = 0;
        assert(listing@.take(0) =~= Seq::<ProcReading>::empty());
        assert(self.initial_scanned@ =~= old(self).initial_scanned@.union(event_pids(events@)));
        while i < listing.len()
            invariant
                0 <= i <= listing@.len(),
                self.initial_scan_done,
                self.pending == old(self).pending,
                self.last_tracked_sync == old(self).last_tracked_sync,
                events@ == first_look(*rules, listing@.take(i as int)),
                self.initial_scanned@ == old(self).initial_scanned@.union(event_pids(events@)),
            decreases listing@.len() - i,
        {
            broadcast use vstd::std_specs::hash::group_hash_axioms;

            assert(listing@.take(i + 1).drop_last() =~= listing@.take(i as int));
            let r = &listing[i];
            let named = match &r.pkg {
                Some(p) => text::chars_of(p.as_str()).len() > 0,
                None => false,
            };
            if named && rule_applies(rules, &r.pkg, &r.hits) {
                let ghost before = events@;
                events.push(
                    ProcessEvent {
                        pid: r.pid,
                        tid: r.pid,
                        kind: EventKind::Fork,
                        cpu: None,
                        pkg: text::copy_opt(&r.pkg),
                    },
                );
                assert(events@.drop_last() =~= before);
                let _ = self.initial_scanned.insert(r.pid);
                assert(self.initial_scanned@ =~= old(self).initial_scanned@.union(
                    event_pids(events@),
                ));
            }
            i += 1;
        }
        assert(listing@.take(i as int) =~= listing@);
        events
    }

    /// Deals with one report. A fork waits for its name, unless the first
    /// look has reported it already.
    pub fn handle_raw(&mut self, ev: &EbpfProcEvent, t: &StateTracker, now: u64) -> (r: RawOutcome)
        requires
            old(self).wf(),
        ensures
            final(self).wf(),
            final(self).initial_scan_done == old(self).initial_scan_done,
            final(self).initial_scanned == old(self).initial_scanned,
            final(self).last_tracked_sync == old(self).last_tracked_sync,
            final(self).pending@ == raw_pending(
                *ev,
                old(self).pending@,
                old(self).initial_scanned@,
                now,
            ),
            r.event == raw_event(*ev, t@),
            r.forget == raw_forget(*ev),
    {
        broadcast use vstd::std_specs::hash::group_hash_axioms;

        if ev.event_type == ebpf_filter::EVENT_FORK {
            if !self.initial_scanned.contains(&ev.pid) {
                pending::enqueue(&mut self.pending, ev.pid, now, PENDING_MAX_PENDING);
            }
            return RawOutcome { event: None, forget: None };
        }
        if ev.event_type == ebpf_filter::EVENT_EXEC {
            return RawOutcome { event: Some(ProcessEvent::exec(ev.pid, ev.pid)), forget: None };
        }
        if ev.event_type == ebpf_filter::EVENT_EXIT {
            let event = if t.contains(ev.pid) {
                Some(ProcessEvent::exit(ev.pid, ev.tid))
            } else {
                None
            };
            let forget: Option<i32> = if ev.tid == ev.pid {
                Some(ev.pid)
            } else {
                None
            };
            return RawOutcome { event, forget };
        }
        RawOutcome { event: None, forget: None }
    }

    /// Looks at the forks that wait, given what was read of each.
    pub fn flush_pending(&mut self, rules: &RuleSet, waiting: &[ForkReading], now: u64) -> (r:
        Flushed)
        requires
            old(self).wf(),
            waiting@.len() == old(self).pending@.len(),
            now + 1000 <= u64::MAX,
        ensures
            final(self).wf(),
            final(self).initial_scan_done == old(self).initial_scan_done,
            final(self).initial_scanned == old(self).initial_scanned,
            final(self).last_tracked_sync == old(self).last_tracked_sync,
            ({
                let f = flushed(
                    old(self).pending@,
                    waiting@,
                    *rules,
                    now,
                    waiting@.len() as int,
                );
                &&& final(self).pending@ == f.pending
                &&& r.events@ == f.events
                &&& r.follow@ == f.follow
            }),
    {
        let ghost q = self.pending@;
        let mut kept: Vec<Pending> = Vec::new();
        let mut events: Vec<ProcessEvent> = Vec::new();
        let mut follow: Vec<i32> = Vec::new();
        let mut i: usize = 0;
        while i < self.pending.len()
            invariant
                0 <= i <= q.len(),
                q == self.pending@,
                *self == *old(self),
                self.wf(),
                waiting@.len() == q.len(),
                now + 1000 <= u64::MAX,
                kept@ == flushed(q, waiting@, *rules, now, i as int).pending,
                events@ == flushed(q, waiting@, *rules, now, i as int).events,
                follow@ == flushed(q, waiting@, *rules, now, i as int).follow,
                kept@.len() <= i,
                pending::orderly(kept@),
                forall|k: int|
                    0 <= k < kept@.len() ==> exists|m: int|
                        0 <= m < i && (#[trigger] q[m]).pid == (#[trigger] kept@[k]).pid,
            decreases q.len() - i,
        {
            let p: Pending = self.pending[i];
            let r = &waiting[i];
            let ghost before = kept@;
            assert forall|k: int| 0 <= k < kept@.len() implies (#[trigger] kept@[k]).pid
                != p.pid by {
                let m = choose|m: int| 0 <= m < i && (#[trigger] q[m]).pid == kept@[k].pid;
                assert(q[m].pid != q[i as int].pid);
            }
            if now < p.next {
                kept.push(p);
            } else if r.alive {
                let named = match &r.pkg {
                    Some(name) => text::chars_of(name.as_str()).len() > 0,
                    None => false,
                };
                if !named {
                    if let Some(again) = pending::retry(&p, now) {
                        kept.push(again);
                    }
                } else {
                    let tgid: i32 = match r.tgid {
                        Some(n) => n,
                        None => p.pid,
                    };
                    if tgid == p.pid {
                        if rule_applies(rules, &r.pkg, &r.hits) {
                            events.push(
                                ProcessEvent {
                                    pid: p.pid,
                                    tid: p.pid,
                                    kind: EventKind::Fork,
                                    cpu: None,
                                    pkg: text::copy_opt(&r.pkg),
                                },
                            );
                            follow.push(tgid);
                        }
                    } else if rule_applies(rules, &r.owner, &r.owner_hits) {
                        events.push(
                            ProcessEvent {
                                pid: tgid,
                                tid: p.pid,
                                kind: EventKind::ThreadClone,
                                cpu: None,
                                pkg: text::copy_opt(&r.owner),
                            },
                        );
                        follow.push(tgid);
                    }
                }
            }
            assert forall|k: int| 0 <= k < kept@.len() implies exists|m: int|
                0 <= m < i + 1 && (#[trigger] q[m]).pid == (#[trigger] kept@[k]).pid by {
                if k < before.len() {
                    assert(kept@[k] == before[k]);
                    let m = choose|m: int| 0 <= m < i && (#[trigger] q[m]).pid == before[k].pid;
                    assert(q[m].pid == kept@[k].pid);
                } else {
                    assert(q[i as int].pid == kept@[k].pid);
                }
            }
            i += 1;
        }
        self.pending = kept;
        Flushed { events, follow }
    }

    /// Ends the reports of a round: the processes of the first look are
    /// known from now on. Says whether the kernel's table is to be aligned.
    pub fn end_round(&mut self, now: u64) -> (sync: bool)
        requires
            old(self).last_tracked_sync <= now,
        ensures
            sync == sync_due(old(self).last_tracked_sync, now),
            final(self).initial_scanned@ == Set::<i32>::empty(),
            final(self).last_tracked_sync == if sync {
                now
            } else {
                old(self).last_tracked_sync
            },
            final(self).pending == old(self).pending,
            final(self).initial_scan_done == old(self).initial_scan_done,
    {
        self.initial_scanned = HashSet::new();
        let due = (now - self.last_tracked_sync) / 1000 >= TRACKED_SYNC_SECS;
        if due {
            self.last_tracked_sync = now;
        }
        due
    }
}

// ---------------------------------------------------------------------
// Laws
// ---------------------------------------------------------------------

/// The filter in the kernel lets a task pass whose name holds, anywhere, the
/// first or the last eight bytes of a package's name.
pub proof fn law_targets_pass_the_filter(
    targets: Seq<[u8; 8]>,
    pkgs: Seq<String>,
    i: int,
    comm: Seq<u8>,
    pos: int,
)
    requires
        forall|k: Seq<u8>| #[trigger] ebpf_filter::holds_key(targets, k) <==> is_key(pkgs, k),
        0 <= i < pkgs.len(),
        0 <= pos <= 8,
        gives_key(pkgs[i]@, ebpf_filter::key_at(comm, pos)),
    ensures
        ebpf_filter::name_passes(comm, targets),
{
    let key = ebpf_filter::key_at(comm, pos);
    assert(is_key(pkgs, key));
    assert(ebpf_filter::holds_key(targets, key));
}

/// A task passes the filter only if its name holds a key of some package.
pub proof fn law_others_are_filtered(
    targets: Seq<[u8; 8]>,
    pkgs: Seq<String>,
    comm: Seq<u8>,
)
    requires
        forall|k: Seq<u8>| #[trigger] ebpf_filter::holds_key(targets, k) <==> is_key(pkgs, k),
        ebpf_filter::name_passes(comm, targets),
    ensures
        exists|pos: int| 0 <= pos <= 8 && is_key(pkgs, #[trigger] ebpf_filter::key_at(comm, pos)),
{
    let pos = choose|pos: int|
        0 <= pos <= 8 && ebpf_filter::holds_key(targets, #[trigger] ebpf_filter::key_at(comm, pos));
    assert(is_key(pkgs, ebpf_filter::key_at(comm, pos)));
}

/// After an alignment, the kernel's table holds the processes that are
/// followed and no other.
pub proof fn law_alignment_is_exact(keys: Seq<i32>, procs: Seq<tracker::ProcView>, key: i32)
    requires
        keys.contains(key),
    ensures
        stale(keys, procs).contains(key) <==> !tracker::tracks(procs, key),
    decreases keys.len(),
{
    let rest = keys.drop_last();
    let before = stale(rest, procs);
    let after = stale(keys, procs);
    let k = choose|k: int| 0 <= k < keys.len() && keys[k] == key;
    if rest.contains(key) {
        law_alignment_is_exact(rest, procs, key);
        if before.contains(key) {
            let m = choose|m: int| 0 <= m < before.len() && before[m] == key;
            assert(after[m] == key);
        }
        if after.contains(key) && !before.contains(key) {
            let m = choose|m: int| 0 <= m < after.len() && after[m] == key;
            if m < before.len() {
                assert(before[m] == key);
            }
        }
    } else {
        if k < rest.len() {
            assert(rest[k] == key);
        }
        assert(keys.last() == key);
        if !tracker::tracks(procs, key) {
            assert(after.last() == key);
        } else if after.contains(key) {
            lemma_stale(rest, procs, key);
        }
    }
}

/// Only keys are stale.
proof fn lemma_stale(keys: Seq<i32>, procs: Seq<tracker::ProcView>, key: i32)
    requires
        stale(keys, procs).contains(key),
    ensures
        keys.contains(key),
    decreases keys.len(),
{
    if keys.len() > 0 {
        let before = stale(keys.drop_last(), procs);
        let after = stale(keys, procs);
        let m = choose|m: int| 0 <= m < after.len() && after[m] == key;
        if m < before.len() {
            assert(before[m] == key);
            lemma_stale(keys.drop_last(), procs, key);
            let k = choose|k: int|
                0 <= k < keys.drop_last().len() && keys.drop_last()[k] == key;
            assert(keys[k] == key);
        } else {
            assert(keys[keys.len() - 1] == key);
        }
    }
}

} // verus!
