//! Observation of threads: snapshots, and statistics over a window of them.
//!
//! A sampler turns what was read of the tracked threads into snapshots; a
//! window folds the snapshots of each round into one record per thread.

use std::collections::{HashMap, HashSet};

use vstd::prelude::*;

use crate::proc;
use crate::tally;
use crate::text;
use crate::topology;
use crate::topology::CpuSet;

verus! {

/// Samples kept per thread.
pub const WINDOW_SAMPLES: usize = 150;

/// Ticks per second of the kernel's accounting.
pub const TICKS_PER_SECOND: u64 = 100;

/// One thread at one moment.
#[derive(Debug)]
pub struct ThreadSnapshot {
    pub tid: i32,
    pub name: String,
    /// The CPUs it may run on, as ranges.
    pub affinity: String,
    /// The CPU it last ran on.
    pub running_cpu: Option<u32>,
    /// Load since the sample before, in percent.
    pub load_pct: u8,
    /// Ticks used so far.
    pub cpu_ticks: u64,
}

/// How many samples saw a thread on one CPU.
#[derive(Debug, Clone, Copy, PartialEq, Eq, Structural)]
pub struct CpuCount {
    pub cpu: u32,
    pub count: usize,
}

/// What was counted of one thread.
#[derive(Debug)]
pub struct ThreadStats {
    pub tid: i32,
    pub name: String,
    /// Changes of the running CPU between neighbouring samples.
    pub migrations: u64,
    /// Changes of the allowed CPUs between neighbouring samples.
    pub affinity_changes: u64,
    /// Samples per CPU, in order of first sight.
    pub cpu_distribution: Vec<CpuCount>,
    pub samples: usize,
    /// Mean of the load over all samples.
    pub avg_load_pct: u64,
    pub max_load_pct: u8,
    /// The CPU with the most samples.
    pub primary_cpu: Option<u32>,
}

/// One sample in a thread's window.
#[derive(Debug)]
pub struct Sample {
    pub seq: u64,
    pub cpu: Option<u32>,
    pub affinity: String,
}

/// The statistics of one thread, the sum of its loads and its last samples.
#[derive(Debug)]
struct ThreadRecord {
    stats: ThreadStats,
    load_sum: u128,
    recent: Vec<Sample>,
}

/// The records of all observed threads.
#[derive(Debug)]
pub struct SnapshotWindow {
    records: Vec<ThreadRecord>,
    seq: u64,
}

// ---------------------------------------------------------------------
// Specifications
// ---------------------------------------------------------------------

/// A snapshot as plain values.
pub struct SnapView {
    pub tid: i32,
    pub name: Seq<char>,
    pub affinity: Seq<char>,
    pub cpu: Option<u32>,
    pub load: u8,
    pub ticks: u64,
}

/// Statistics as plain values.
#[verifier::ext_equal]
pub struct StatsView {
    pub tid: i32,
    pub name: Seq<char>,
    pub migrations: int,
    pub affinity_changes: int,
    pub distribution: Seq<CpuCount>,
    pub samples: int,
    pub avg: int,
    pub max: int,
    pub primary: Option<u32>,
}

/// A sample as plain values.
pub struct SampleView {
    pub seq: int,
    pub cpu: Option<u32>,
    pub affinity: Seq<char>,
}

/// A record as plain values.
#[verifier::ext_equal]
pub struct RecordView {
    pub stats: StatsView,
    /// Sum of the loads of all samples.
    pub load_sum: int,
    pub recent: Seq<SampleView>,
}

impl View for ThreadSnapshot {
    type V = SnapView;

    open spec fn view(&self) -> SnapView {
        SnapView {
            tid: self.tid,
            name: self.name@,
            affinity: self.affinity@,
            cpu: self.running_cpu,
            load: self.load_pct,
            ticks: self.cpu_ticks,
        }
    }
}

impl View for ThreadStats {
    type V = StatsView;

    open spec fn view(&self) -> StatsView {
        StatsView {
            tid: self.tid,
            name: self.name@,
            migrations: self.migrations as int,
            affinity_changes: self.affinity_changes as int,
            distribution: self.cpu_distribution@,
            samples: self.samples as int,
            avg: self.avg_load_pct as int,
            max: self.max_load_pct as int,
            primary: self.primary_cpu,
        }
    }
}

impl View for Sample {
    type V = SampleView;

    open spec fn view(&self) -> SampleView {
        SampleView { seq: self.seq as int, cpu: self.cpu, affinity: self.affinity@ }
    }
}

/// Snapshots as plain values.
pub open spec fn snaps(v: Seq<ThreadSnapshot>) -> Seq<SnapView> {
    Seq::new(v.len(), |i: int| v[i]@)
}

/// Samples as plain values.
pub open spec fn samples_of(v: Seq<Sample>) -> Seq<SampleView> {
    Seq::new(v.len(), |i: int| v[i]@)
}

/// The place of a CPU in a distribution, or its length.
pub open spec fn place_of(d: Seq<CpuCount>, cpu: u32) -> int
    decreases d.len(),
{
    if d.len() == 0 || d[0].cpu == cpu {
        0
    } else {
        1 + place_of(d.skip(1), cpu)
    }
}

/// How many samples a distribution counts for a CPU.
pub open spec fn counted(d: Seq<CpuCount>, cpu: u32) -> int {
    let i = place_of(d, cpu);
    if i < d.len() {
        d[i].count as int
    } else {
        0
    }
}

/// A distribution with one more sample on `cpu`.
pub open spec fn count_more(d: Seq<CpuCount>, cpu: u32) -> Seq<CpuCount> {
    let i = place_of(d, cpu);
    if i < d.len() {
        d.update(i, CpuCount { cpu, count: (d[i].count + 1) as usize })
    } else {
        d.push(CpuCount { cpu, count: 1 })
    }
}

/// The first CPU of a distribution that no other exceeds.
pub open spec fn primary_of(d: Seq<CpuCount>) -> Option<CpuCount>
    decreases d.len(),
{
    if d.len() == 0 {
        None
    } else {
        match primary_of(d.drop_last()) {
            Some(best) => if d.last().count > best.count {
                Some(d.last())
            } else {
                Some(best)
            },
            None => Some(d.last()),
        }
    }
}

/// The CPU of a count.
pub open spec fn cpu_of(c: Option<CpuCount>) -> Option<u32> {
    match c {
        Some(c) => Some(c.cpu),
        None => None,
    }
}

/// Whether a thread moved to another CPU between two samples.
pub open spec fn moved(before: Option<u32>, after: Option<u32>) -> bool {
    before is Some && after is Some && before != after
}

/// The record of a thread that was never seen.
pub open spec fn unseen(tid: i32) -> RecordView {
    RecordView {
        stats: StatsView {
            tid,
            name: Seq::empty(),
            migrations: 0,
            affinity_changes: 0,
            distribution: Seq::empty(),
            samples: 0,
            avg: 0,
            max: 0,
            primary: None,
        },
        load_sum: 0,
        recent: Seq::empty(),
    }
}

/// The last samples that fit in a window.
pub open spec fn clipped(recent: Seq<SampleView>) -> Seq<SampleView> {
    if recent.len() > WINDOW_SAMPLES {
        recent.skip(recent.len() - WINDOW_SAMPLES)
    } else {
        recent
    }
}

/// The record of a thread with one more snapshot.
pub open spec fn seen(r: RecordView, snap: SnapView, seq: int) -> RecordView {
    let n = r.stats.samples + 1;
    let distribution = match snap.cpu {
        Some(cpu) => count_more(r.stats.distribution, cpu),
        None => r.stats.distribution,
    };
    let fresh = r.recent.len() == 0;
    RecordView {
        stats: StatsView {
            tid: r.stats.tid,
            name: snap.name,
            migrations: r.stats.migrations + if !fresh && moved(r.recent.last().cpu, snap.cpu) {
                1int
            } else {
                0
            },
            affinity_changes: r.stats.affinity_changes + if !fresh && r.recent.last().affinity
                != snap.affinity {
                1int
            } else {
                0
            },
            distribution,
            samples: n,
            avg: (r.load_sum + snap.load) / n,
            max: if snap.load > r.stats.max {
                snap.load as int
            } else {
                r.stats.max
            },
            primary: cpu_of(primary_of(distribution)),
        },
        load_sum: r.load_sum + snap.load,
        recent: clipped(
            r.recent.push(SampleView { seq, cpu: snap.cpu, affinity: snap.affinity }),
        ),
    }
}

/// The place of a thread among the records, or their number.
pub open spec fn index_of(rs: Seq<RecordView>, tid: i32) -> int
    decreases rs.len(),
{
    if rs.len() == 0 || rs[0].stats.tid == tid {
        0
    } else {
        1 + index_of(rs.skip(1), tid)
    }
}

/// The records with one more snapshot.
pub open spec fn with_snap(rs: Seq<RecordView>, snap: SnapView, seq: int) -> Seq<RecordView> {
    let i = index_of(rs, snap.tid);
    if i < rs.len() {
        rs.update(i, seen(rs[i], snap, seq))
    } else {
        rs.push(seen(unseen(snap.tid), snap, seq))
    }
}

/// The records with one more round of snapshots.
pub open spec fn with_batch(rs: Seq<RecordView>, batch: Seq<SnapView>, seq: int) -> Seq<RecordView>
    decreases batch.len(),
{
    if batch.len() == 0 {
        rs
    } else {
        with_snap(with_batch(rs, batch.drop_last(), seq), batch.last(), seq)
    }
}

/// The records of the threads that are still alive.
pub open spec fn living(rs: Seq<RecordView>, alive: Set<i32>) -> Seq<RecordView>
    decreases rs.len(),
{
    if rs.len() == 0 {
        Seq::empty()
    } else if alive.contains(rs.last().stats.tid) {
        living(rs.drop_last(), alive).push(rs.last())
    } else {
        living(rs.drop_last(), alive)
    }
}

/// The statistics among the records.
pub open spec fn all_stats(rs: Seq<RecordView>) -> Seq<StatsView> {
    Seq::new(rs.len(), |i: int| rs[i].stats)
}

/// The weight of a CPU in the count of samples.
pub open spec fn count_weight() -> spec_fn(CpuCount) -> nat {
    |c: CpuCount| c.count as nat
}

/// How many samples a distribution counts in all.
pub open spec fn counted_in_all(d: Seq<CpuCount>) -> nat {
    tally::tally(d, count_weight())
}

/// What holds of every record: its counters stay below its samples, its
/// average is the mean of its loads, no CPU is listed twice, the samples on
/// all CPUs together are not more than there were, and its window is neither
/// empty nor too long.
pub open spec fn sound(r: RecordView) -> bool {
    &&& 1 <= r.stats.samples <= usize::MAX
    &&& 0 <= r.stats.migrations < r.stats.samples
    &&& 0 <= r.stats.affinity_changes < r.stats.samples
    &&& 0 <= r.load_sum <= 255 * r.stats.samples
    &&& r.stats.avg == r.load_sum / r.stats.samples
    &&& 0 <= r.stats.avg <= 255
    &&& 0 <= r.stats.max <= 255
    &&& 1 <= r.recent.len() <= WINDOW_SAMPLES
    &&& forall|i: int|
        0 <= i < r.stats.distribution.len() ==> 1 <= (#[trigger] r.stats.distribution[i]).count
            <= r.stats.samples
    &&& forall|i: int, j: int|
        0 <= i < j < r.stats.distribution.len() ==> r.stats.distribution[i].cpu
            != r.stats.distribution[j].cpu
    &&& counted_in_all(r.stats.distribution) <= r.stats.samples
    &&& r.stats.primary == cpu_of(primary_of(r.stats.distribution))
}

/// What holds of all records: each is sound, and no thread has two.
pub open spec fn sound_all(rs: Seq<RecordView>) -> bool {
    &&& forall|i: int| 0 <= i < rs.len() ==> sound(#[trigger] rs[i])
    &&& forall|i: int, j: int|
        0 <= i < j < rs.len() ==> (#[trigger] rs[i]).stats.tid != (#[trigger] rs[j]).stats.tid
}

/// Whether `n` more snapshots can be counted without overflow.
pub open spec fn room(rs: Seq<RecordView>, n: int) -> bool {
    forall|i: int| 0 <= i < rs.len() ==> (#[trigger] rs[i]).stats.samples + n <= usize::MAX
}

// ---------------------------------------------------------------------
// Proofs about the specifications
// ---------------------------------------------------------------------

/// The place of a CPU is the first entry that names it.
proof fn lemma_place_of(d: Seq<CpuCount>, cpu: u32)
    ensures
        0 <= place_of(d, cpu) <= d.len(),
        place_of(d, cpu) < d.len() ==> d[place_of(d, cpu)].cpu == cpu,
        forall|i: int| 0 <= i < place_of(d, cpu) ==> (#[trigger] d[i]).cpu != cpu,
    decreases d.len(),
{
    if d.len() > 0 && d[0].cpu != cpu {
        lemma_place_of(d.skip(1), cpu);
        assert forall|i: int| 0 <= i < place_of(d, cpu) implies (#[trigger] d[i]).cpu != cpu by {
            if i > 0 {
                assert(d.skip(1)[i - 1] == d[i]);
            }
        }
    }
}

/// The first entry that names a CPU is its place.
proof fn lemma_place_is(d: Seq<CpuCount>, cpu: u32, n: int)
    requires
        0 <= n <= d.len(),
        forall|i: int| 0 <= i < n ==> (#[trigger] d[i]).cpu != cpu,
        n < d.len() ==> d[n].cpu == cpu,
    ensures
        place_of(d, cpu) == n,
    decreases d.len(),
{
    if d.len() > 0 && d[0].cpu != cpu {
        assert forall|i: int| 0 <= i < n - 1 implies (#[trigger] d.skip(1)[i]).cpu != cpu by {
            assert(d.skip(1)[i] == d[i + 1]);
        }
        lemma_place_is(d.skip(1), cpu, n - 1);
    }
}

/// The place of a thread is the first record that names it.
proof fn lemma_index_of(rs: Seq<RecordView>, tid: i32)
    ensures
        0 <= index_of(rs, tid) <= rs.len(),
        index_of(rs, tid) < rs.len() ==> rs[index_of(rs, tid)].stats.tid == tid,
        forall|i: int| 0 <= i < index_of(rs, tid) ==> (#[trigger] rs[i]).stats.tid != tid,
    decreases rs.len(),
{
    if rs.len() > 0 && rs[0].stats.tid != tid {
        lemma_index_of(rs.skip(1), tid);
        assert forall|i: int| 0 <= i < index_of(rs, tid) implies (#[trigger] rs[i]).stats.tid
            != tid by {
            if i > 0 {
                assert(rs.skip(1)[i - 1] == rs[i]);
            }
        }
    }
}

/// The first record that names a thread is its place.
proof fn lemma_index_is(rs: Seq<RecordView>, tid: i32, n: int)
    requires
        0 <= n <= rs.len(),
        forall|i: int| 0 <= i < n ==> (#[trigger] rs[i]).stats.tid != tid,
        n < rs.len() ==> rs[n].stats.tid == tid,
    ensures
        index_of(rs, tid) == n,
    decreases rs.len(),
{
    if rs.len() > 0 && rs[0].stats.tid != tid {
        assert forall|i: int| 0 <= i < n - 1 implies (#[trigger] rs.skip(1)[i]).stats.tid
            != tid by {
            assert(rs.skip(1)[i] == rs[i + 1]);
        }
        lemma_index_is(rs.skip(1), tid, n - 1);
    }
}

/// A mean of values up to a bound stays within the bound.
proof fn lemma_mean(sum: int, n: int)
    by (nonlinear_arith)
    requires
        0 <= sum <= 255 * n,
        n >= 1,
    ensures
        0 <= sum / n <= 255,
{
}

/// One more sample on a CPU is one more in all.
proof fn lemma_count_in_all(d: Seq<CpuCount>, cpu: u32)
    requires
        counted(d, cpu) < usize::MAX,
    ensures
        counted_in_all(count_more(d, cpu)) == counted_in_all(d) + 1,
{
    let i = place_of(d, cpu);
    lemma_place_of(d, cpu);
    if i < d.len() {
        tally::lemma_tally_update(
            d,
            count_weight(),
            i,
            CpuCount { cpu, count: (d[i].count + 1) as usize },
        );
    } else {
        assert(d.push(CpuCount { cpu, count: 1 }).drop_last() =~= d);
    }
}

/// The CPU with the most samples is one of the distribution, and no other
/// exceeds it.
proof fn lemma_primary(d: Seq<CpuCount>)
    ensures
        (primary_of(d) is None) == (d.len() == 0),
        primary_of(d) matches Some(best) ==> d.contains(best) && forall|i: int|
            0 <= i < d.len() ==> (#[trigger] d[i]).count <= best.count,
    decreases d.len(),
{
    if d.len() > 0 {
        let before = d.drop_last();
        lemma_primary(before);
        assert(d[d.len() - 1] == d.last());
        if before.len() > 0 {
            let best = primary_of(before).unwrap();
            let k = choose|k: int| 0 <= k < before.len() && before[k] == best;
            assert(d[k] == best);
            assert forall|i: int| 0 <= i < d.len() implies (#[trigger] d[i]).count
                <= primary_of(d).unwrap().count by {
                if i < before.len() {
                    assert(before[i] == d[i]);
                }
            }
        }
    }
}

/// One more snapshot keeps a record sound.
proof fn lemma_seen(r: RecordView, snap: SnapView, seq: int)
    requires
        sound(r) || r == unseen(snap.tid),
        r.stats.samples < usize::MAX,
    ensures
        sound(seen(r, snap, seq)),
        seen(r, snap, seq).stats.tid == r.stats.tid,
        seen(r, snap, seq).stats.samples == r.stats.samples + 1,
{
    let n = r.stats.samples + 1;
    lemma_mean(r.load_sum + snap.load, n);
    let d = r.stats.distribution;
    assert(counted_in_all(Seq::<CpuCount>::empty()) == 0);
    if let Some(cpu) = snap.cpu {
        lemma_place_of(d, cpu);
        lemma_count_in_all(d, cpu);
        let after = count_more(d, cpu);
        assert forall|i: int, j: int| 0 <= i < j < after.len() implies after[i].cpu
            != after[j].cpu by {
            if j < d.len() {
                assert(d[i].cpu != d[j].cpu);
                assert(after[i].cpu == d[i].cpu && after[j].cpu == d[j].cpu);
            } else {
                assert(after[i] == d[i]);
            }
        }
    }
}

/// One more snapshot keeps all records sound and uses up one place.
proof fn lemma_with_snap(rs: Seq<RecordView>, snap: SnapView, seq: int, n: int)
    requires
        sound_all(rs),
        room(rs, n),
        1 <= n <= usize::MAX,
    ensures
        sound_all(with_snap(rs, snap, seq)),
        room(with_snap(rs, snap, seq), n - 1),
{
    let i = index_of(rs, snap.tid);
    lemma_index_of(rs, snap.tid);
    if i < rs.len() {
        lemma_seen(rs[i], snap, seq);
    } else {
        lemma_seen(unseen(snap.tid), snap, seq);
    }
}

/// Living records are records, in their order.
proof fn lemma_living(rs: Seq<RecordView>, alive: Set<i32>)
    ensures
        forall|r: RecordView| #[trigger]
            living(rs, alive).contains(r) <==> rs.contains(r) && alive.contains(r.stats.tid),
        sound_all(rs) ==> sound_all(living(rs, alive)),
    decreases rs.len(),
{
    if rs.len() > 0 {
        let before = rs.drop_last();
        let kept = living(before, alive);
        lemma_living(before, alive);
        assert(rs =~= before.push(rs.last()));
        assert forall|r: RecordView| #[trigger] living(rs, alive).contains(r) implies rs.contains(r)
            && alive.contains(r.stats.tid) by {
            if r == rs.last() && alive.contains(r.stats.tid) {
                assert(rs[rs.len() - 1] == r);
            } else {
                let k = choose|k: int|
                    0 <= k < living(rs, alive).len() && living(rs, alive)[k] == r;
                assert(kept[k] == r);
                assert(kept.contains(r));
                let m = choose|m: int| 0 <= m < before.len() && before[m] == r;
                assert(rs[m] == r);
            }
        }
        assert forall|r: RecordView| rs.contains(r) && alive.contains(r.stats.tid) implies
            #[trigger] living(rs, alive).contains(r) by {
            let m = choose|m: int| 0 <= m < rs.len() && rs[m] == r;
            if m < before.len() {
                assert(before[m] == r);
                assert(kept.contains(r));
                let k = choose|k: int| 0 <= k < kept.len() && kept[k] == r;
                assert(living(rs, alive)[k] == r);
            } else {
                assert(living(rs, alive).last() == r);
            }
        }
        if sound_all(rs) {
            assert(sound_all(before)) by {
                assert forall|i: int| 0 <= i < before.len() implies sound(#[trigger] before[i]) by {
                    assert(before[i] == rs[i]);
                }
                assert forall|i: int, j: int| 0 <= i < j < before.len() implies (
                #[trigger] before[i]).stats.tid != (#[trigger] before[j]).stats.tid by {
                    assert(before[i] == rs[i] && before[j] == rs[j]);
                }
            }
            assert forall|i: int| 0 <= i < kept.len() implies (#[trigger] kept[i]).stats.tid
                != rs.last().stats.tid by {
                assert(kept.contains(kept[i]));
                let m = choose|m: int| 0 <= m < before.len() && before[m] == kept[i];
                assert(rs[m] == kept[i] && rs[rs.len() - 1] == rs.last());
            }
            assert(sound(rs[rs.len() - 1]));
        }
    }
}

// ---------------------------------------------------------------------
// The window
// ---------------------------------------------------------------------

impl ThreadStats {
    /// How many samples saw the thread on a CPU.
    pub fn samples_on(&self, cpu: u32) -> (r: Option<usize>)
        ensures
            match r {
                Some(n) => place_of(self@.distribution, cpu) < self@.distribution.len() && n
                    == counted(self@.distribution, cpu),
                None => place_of(self@.distribution, cpu) == self@.distribution.len(),
            },
    {
        let i: usize = self.place(cpu);
        if i < self.cpu_distribution.len() {
            Some(self.cpu_distribution[i].count)
        } else {
            None
        }
    }

    /// The place of a CPU in the distribution.
    fn place(&self, cpu: u32) -> (n: usize)
        ensures
            n == place_of(self.cpu_distribution@, cpu),
            n <= self.cpu_distribution@.len(),
    {
        let mut i: usize = 0;
        while i < self.cpu_distribution.len() && self.cpu_distribution[i].cpu != cpu
            invariant
                0 <= i <= self.cpu_distribution@.len(),
                forall|j: int|
                    0 <= j < i ==> (#[trigger] self.cpu_distribution@[j]).cpu != cpu,
            decreases self.cpu_distribution@.len() - i,
        {
            i += 1;
        }
        proof {
            lemma_place_is(self.cpu_distribution@, cpu, i as int);
        }
        i
    }

    /// Makes the CPU with the most samples the primary one.
    fn compute_primary(&mut self)
        ensures
            final(self)@ == (StatsView {
                primary: cpu_of(primary_of(old(self)@.distribution)),
                ..old(self)@
            }),
    {
        let mut best: Option<CpuCount> = None;
        let mut i: usize = 0;
        assert(self.cpu_distribution@.take(0) =~= Seq::<CpuCount>::empty());
        while i < self.cpu_distribution.len()
            invariant
                0 <= i <= self.cpu_distribution@.len(),
                best == primary_of(self.cpu_distribution@.take(i as int)),
                *self == *old(self),
            decreases self.cpu_distribution@.len() - i,
        {
            assert(self.cpu_distribution@.take(i + 1).drop_last()
                =~= self.cpu_distribution@.take(i as int));
            let here: CpuCount = self.cpu_distribution[i];
            best = match best {
                Some(b) => if here.count > b.count {
                    Some(here)
                } else {
                    Some(b)
                },
                None => Some(here),
            };
            i += 1;
        }
        assert(self.cpu_distribution@.take(i as int) =~= self.cpu_distribution@);
        self.primary_cpu = match best {
            Some(b) => Some(b.cpu),
            None => None,
        };
    }
}

impl ThreadRecord {
    spec fn view(&self) -> RecordView {
        RecordView {
            stats: self.stats@,
            load_sum: self.load_sum as int,
            recent: samples_of(self.recent@),
        }
    }

    /// The record of a thread that was never seen.
    fn unseen(tid: i32) -> (r: ThreadRecord)
        ensures
            r@ == unseen(tid),
    {
        let r = ThreadRecord {
            stats: ThreadStats {
                tid,
                name: String::new(),
                migrations: 0,
                affinity_changes: 0,
                cpu_distribution: Vec::new(),
                samples: 0,
                avg_load_pct: 0,
                max_load_pct: 0,
                primary_cpu: None,
            },
            load_sum: 0,
            recent: Vec::new(),
        };
        assert(r@ =~= unseen(tid));
        r
    }

    /// Counts one more snapshot.
    fn note(&mut self, snap: &ThreadSnapshot, seq: u64)
        requires
            sound(old(self)@) || old(self)@ == unseen(snap.tid),
            old(self)@.stats.samples < usize::MAX,
        ensures
            final(self)@ == seen(old(self)@, snap@, seq as int),
    {
        let ghost before = self@;
        let ghost after = seen(before, snap@, seq as int);
        self.stats.name = snap.name.clone();
        self.stats.samples = self.stats.samples + 1;
        let n: u128 = self.stats.samples as u128;
        self.load_sum = self.load_sum + snap.load_pct as u128;
        proof {
            lemma_mean(self.load_sum as int, n as int);
        }
        self.stats.avg_load_pct = (self.load_sum / n) as u64;
        if snap.load_pct > self.stats.max_load_pct {
            self.stats.max_load_pct = snap.load_pct;
        }
        if let Some(cpu) = snap.running_cpu {
            let i: usize = self.stats.place(cpu);
            proof {
                lemma_place_of(before.stats.distribution, cpu);
            }
            if i < self.stats.cpu_distribution.len() {
                let count: usize = self.stats.cpu_distribution[i].count;
                assert(before.stats.distribution[i as int].count <= before.stats.samples);
                self.stats.cpu_distribution.set(i, CpuCount { cpu, count: count + 1 });
            } else {
                self.stats.cpu_distribution.push(CpuCount { cpu, count: 1 });
            }
        }
        let len: usize = self.recent.len();
        if len > 0 {
            assert(before.recent.last() == self.recent@[len - 1]@);
            let last_cpu: Option<u32> = self.recent[len - 1].cpu;
            if let (Some(now), Some(then_on)) = (snap.running_cpu, last_cpu) {
                if now != then_on {
                    self.stats.migrations = self.stats.migrations + 1;
                }
            }
            if !text::same_text(self.recent[len - 1].affinity.as_str(), snap.affinity.as_str()) {
                self.stats.affinity_changes = self.stats.affinity_changes + 1;
            }
        }
        let ghost kept = self.recent@;
        self.recent.push(
            Sample { seq, cpu: snap.running_cpu, affinity: snap.affinity.clone() },
        );
        let ghost pushed = self.recent@;
        assert(samples_of(pushed) =~= before.recent.push(
            SampleView { seq: seq as int, cpu: snap.running_cpu, affinity: snap.affinity@ },
        ));
        if self.recent.len() > WINDOW_SAMPLES {
            let _ = self.recent.remove(0);
            assert(samples_of(self.recent@) =~= samples_of(pushed).skip(1));
        }
        self.stats.compute_primary();
        assert(self@.stats =~= after.stats);
        assert(self@.recent =~= after.recent);
    }
}

impl SnapshotWindow {
    /// The records of the window.
    pub closed spec fn records(&self) -> Seq<RecordView> {
        Seq::new(self.records@.len(), |i: int| self.records@[i]@)
    }

    /// Rounds pushed so far.
    pub closed spec fn rounds(&self) -> int {
        self.seq as int
    }

    /// Every record is sound, and no thread has two.
    pub open spec fn wf(&self) -> bool {
        sound_all(self.records())
    }

    /// An empty window.
    pub fn new() -> (r: SnapshotWindow)
        ensures
            r.records() == Seq::<RecordView>::empty(),
            r.rounds() == 0,
            r.wf(),
    {
        let r = SnapshotWindow { records: Vec::new(), seq: 0 };
        assert(r.records() =~= Seq::<RecordView>::empty());
        r
    }

    /// The place of a thread among the records.
    fn find(&self, tid: i32) -> (n: usize)
        ensures
            n == index_of(self.records(), tid),
            n <= self.records@.len(),
    {
        let mut i: usize = 0;
        while i < self.records.len() && self.records[i].stats.tid != tid
            invariant
                0 <= i <= self.records@.len(),
                forall|j: int| 0 <= j < i ==> (#[trigger] self.records()[j]).stats.tid != tid,
            decreases self.records@.len() - i,
        {
            i += 1;
        }
        proof {
            lemma_index_is(self.records(), tid, i as int);
        }
        i
    }

    /// Whether one more round of `n` snapshots can be counted.
    pub fn has_room(&self, n: usize) -> (r: bool)
        ensures
            r == (room(self.records(), n as int) && self.rounds() < u64::MAX),
    {
        let mut i: usize = 0;
        while i < self.records.len()
            invariant
                0 <= i <= self.records@.len(),
                forall|j: int|
                    0 <= j < i ==> (#[trigger] self.records()[j]).stats.samples + n <= usize::MAX,
            decreases self.records@.len() - i,
        {
            if self.records[i].stats.samples > usize::MAX - n {
                assert(self.records()[i as int].stats.samples + n > usize::MAX);
                return false;
            }
            i += 1;
        }
        self.seq < u64::MAX
    }

    /// Counts one snapshot of a round.
    fn push_one(&mut self, snap: &ThreadSnapshot, seq: u64)
        requires
            old(self).wf(),
            room(old(self).records(), 1),
        ensures
            final(self).records() == with_snap(old(self).records(), snap@, seq as int),
            final(self).rounds() == old(self).rounds(),
    {
        let ghost before = self.records();
        let i: usize = self.find(snap.tid);
        if i < self.records.len() {
            assert(before[i as int] == self.records@[i as int]@);
            self.records[i].note(snap, seq);
            assert(self.records() =~= before.update(
                i as int,
                seen(before[i as int], snap@, seq as int),
            ));
        } else {
            let mut fresh = ThreadRecord::unseen(snap.tid);
            fresh.note(snap, seq);
            self.records.push(fresh);
            assert(self.records() =~= before.push(seen(unseen(snap.tid), snap@, seq as int)));
        }
    }

    /// Counts one round of snapshots.
    pub fn push_batch(&mut self, snapshots: &[ThreadSnapshot])
        requires
            old(self).wf(),
            room(old(self).records(), snapshots@.len() as int),
            old(self).rounds() < u64::MAX,
        ensures
            final(self).wf(),
            final(self).records() == with_batch(
                old(self).records(),
                snaps(snapshots@),
                old(self).rounds() + 1,
            ),
            final(self).rounds() == old(self).rounds() + 1,
    {
        let ghost before = self.records();
        self.seq = self.seq + 1;
        assert(self.records() =~= before);
        let seq: u64 = self.seq;
        let ghost all = snaps(snapshots@);
        assert(all.take(0) =~= Seq::<SnapView>::empty());
        let n: usize = snapshots.len();
        let mut i: usize = 0;
        while i < n
            invariant
                0 <= i <= n,
                n == snapshots@.len(),
                all == snaps(snapshots@),
                self.wf(),
                self.rounds() == seq,
                room(self.records(), snapshots@.len() - i),
                self.records() == with_batch(before, all.take(i as int), seq as int),
            decreases snapshots@.len() - i,
        {
            let ghost now = self.records();
            assert(all.take(i + 1).drop_last() =~= all.take(i as int));
            assert(all.take(i + 1).last() == snapshots@[i as int]@);
            proof {
                lemma_with_snap(now, all[i as int], seq as int, snapshots@.len() - i);
            }
            self.push_one(&snapshots[i], seq);
            i += 1;
        }
        assert(all.take(i as int) =~= all);
    }

    /// The statistics of all threads, by ascending task number.
    pub fn stats(&self) -> (r: Vec<&ThreadStats>)
        requires
            self.wf(),
        ensures
            forall|i: int, j: int|
                0 <= i < j < r@.len() ==> (#[trigger] r@[i]).tid < (#[trigger] r@[j]).tid,
            forall|s: StatsView|
                (exists|i: int| 0 <= i < r@.len() && (#[trigger] r@[i])@ == s) <==> #[trigger]
                all_stats(self.records()).contains(s),
    {
        let mut out: Vec<&ThreadStats> = Vec::new();
        let ghost all = self.records();
        let ghost mut from: Seq<int> = Seq::empty();
        let mut i: usize = 0;
        while i < self.records.len()
            invariant
                0 <= i <= self.records@.len(),
                all == self.records(),
                sound_all(all),
                from.len() == out@.len(),
                forall|k: int|
                    #![trigger out@[k]]
                    #![trigger from[k]]
                    0 <= k < out@.len() ==> 0 <= from[k] < i && out@[k]@ == all[from[k]].stats,
                forall|m: int| 0 <= m < i ==> #[trigger] from.contains(m),
                forall|j: int, k: int|
                    0 <= j < k < out@.len() ==> (#[trigger] out@[j]).tid < (
                    #[trigger] out@[k]).tid,
            decreases self.records@.len() - i,
        {
            let here: &ThreadStats = &self.records[i].stats;
            assert(here@ == all[i as int].stats);
            let mut at: usize = 0;
            while at < out.len() && out[at].tid < here.tid
                invariant
                    0 <= at <= out@.len(),
                    forall|k: int| 0 <= k < at ==> (#[trigger] out@[k]).tid < here.tid,
                decreases out@.len() - at,
            {
                at += 1;
            }
            let ghost old_out = out@;
            let ghost old_from = from;
            assert forall|k: int| at <= k < out@.len() implies here.tid < (
            #[trigger] out@[k]).tid by {
                assert(all[from[k]].stats.tid != all[i as int].stats.tid);
                assert(out@[k].tid == out@[k]@.tid);
            }
            out.insert(at, here);
            proof {
                from = from.insert(at as int, i as int);
                assert forall|m: int| 0 <= m < i + 1 implies #[trigger] from.contains(m) by {
                    if m == i {
                        assert(from[at as int] == m);
                    } else {
                        assert(old_from.contains(m));
                        let k = choose|k: int| 0 <= k < old_from.len() && old_from[k] == m;
                        if k < at {
                            assert(from[k] == m);
                        } else {
                            assert(from[k + 1] == m);
                        }
                    }
                }
                assert forall|k: int|
                    #![trigger out@[k]]
                    #![trigger from[k]]
                    0 <= k < out@.len() implies 0 <= from[k] < i + 1 && out@[k]@
                    == all[from[k]].stats by {
                    if k < at {
                        assert(out@[k] == old_out[k] && from[k] == old_from[k]);
                    } else if k > at {
                        assert(out@[k] == old_out[k - 1] && from[k] == old_from[k - 1]);
                    }
                }
                assert forall|j: int, k: int| 0 <= j < k < out@.len() implies (
                #[trigger] out@[j]).tid < (#[trigger] out@[k]).tid by {
                    if k < at {
                        assert(out@[j] == old_out[j] && out@[k] == old_out[k]);
                    } else if k == at {
                        assert(out@[j] == old_out[j]);
                    } else if j < at {
                        assert(out@[j] == old_out[j] && out@[k] == old_out[k - 1]);
                    } else if j == at {
                        assert(out@[k] == old_out[k - 1]);
                    } else {
                        assert(out@[j] == old_out[j - 1] && out@[k] == old_out[k - 1]);
                    }
                }
            }
            i += 1;
        }
        assert forall|s: StatsView|
            (exists|k: int| 0 <= k < out@.len() && (#[trigger] out@[k])@ == s) <==> #[trigger]
            all_stats(all).contains(s) by {
            if exists|k: int| 0 <= k < out@.len() && (#[trigger] out@[k])@ == s {
                let k = choose|k: int| 0 <= k < out@.len() && (#[trigger] out@[k])@ == s;
                assert(all_stats(all)[from[k]] == s);
            }
            if all_stats(all).contains(s) {
                let m = choose|m: int| 0 <= m < all_stats(all).len() && all_stats(all)[m] == s;
                assert(from.contains(m));
                let k = choose|k: int| 0 <= k < from.len() && from[k] == m;
                assert(out@[k]@ == s);
            }
        }
        out
    }

    /// The statistics of one thread.
    pub fn stats_of(&self, tid: i32) -> (r: Option<&ThreadStats>)
        ensures
            match r {
                Some(s) => index_of(self.records(), tid) < self.records().len() && s@
                    == self.records()[index_of(self.records(), tid)].stats,
                None => index_of(self.records(), tid) == self.records().len(),
            },
    {
        let i: usize = self.find(tid);
        if i < self.records.len() {
            Some(&self.records[i].stats)
        } else {
            None
        }
    }

    /// The last sample of one thread.
    pub fn recent_sample(&self, tid: i32) -> (r: Option<&Sample>)
        requires
            self.wf(),
        ensures
            match r {
                Some(s) => index_of(self.records(), tid) < self.records().len() && s@
                    == self.records()[index_of(self.records(), tid)].recent.last(),
                None => index_of(self.records(), tid) == self.records().len(),
            },
    {
        let i: usize = self.find(tid);
        if i < self.records.len() {
            assert(sound(self.records()[i as int]));
            let n: usize = self.records[i].recent.len();
            assert(self.records()[i as int].recent.len() == n);
            Some(&self.records[i].recent[n - 1])
        } else {
            None
        }
    }

    /// How many samples the window of one thread holds.
    pub fn recent_len(&self, tid: i32) -> (r: usize)
        ensures
            r == if index_of(self.records(), tid) < self.records().len() {
                self.records()[index_of(self.records(), tid)].recent.len()
            } else {
                0
            },
    {
        let i: usize = self.find(tid);
        if i < self.records.len() {
            self.records[i].recent.len()
        } else {
            0
        }
    }

    /// Forgets the threads that are not alive.
    pub fn retain(&mut self, alive: &HashSet<i32>)
        requires
            old(self).wf(),
        ensures
            final(self).wf(),
            final(self).records() == living(old(self).records(), alive@),
            final(self).rounds() == old(self).rounds(),
    {
        broadcast use vstd::std_specs::hash::group_hash_axioms;

        let ghost all = self.records();
        let mut rest: Vec<ThreadRecord> = Vec::new();
        let mut kept: Vec<ThreadRecord> = Vec::new();
        std::mem::swap(&mut rest, &mut self.records);
        let ghost whole = rest@;
        proof {
            lemma_living(all, alive@);
            assert(all =~= Seq::new(whole.len(), |i: int| whole[i]@));
        }
        let n: usize = rest.len();
        let mut i: usize = 0;
        assert(all.take(0) =~= Seq::<RecordView>::empty());
        while i < n
            invariant
                0 <= i <= n,
                n == whole.len(),
                rest@ == whole.skip(i as int),
                all == Seq::new(whole.len(), |j: int| whole[j]@),
                Seq::new(kept@.len(), |j: int| kept@[j]@) == living(all.take(i as int), alive@),
            decreases n - i,
        {
            broadcast use vstd::std_specs::hash::group_hash_axioms;

            assert(all.take(i + 1).drop_last() =~= all.take(i as int));
            let ghost before = kept@;
            let here = rest.remove(0);
            assert(here == whole[i as int]);
            assert(rest@ =~= whole.skip(i + 1));
            if alive.contains(&here.stats.tid) {
                kept.push(here);
                assert(Seq::new(kept@.len(), |j: int| kept@[j]@) =~= Seq::new(
                    before.len(),
                    |j: int| before[j]@,
                ).push(all[i as int]));
            }
            i += 1;
        }
        assert(all.take(n as int) =~= all);
        self.records = kept;
        assert(self.records() =~= living(all, alive@));
    }
}

impl Default for SnapshotWindow {
    fn default() -> (r: SnapshotWindow)
        ensures
            r.records() == Seq::<RecordView>::empty(),
            r.rounds() == 0,
            r.wf(),
    {
        SnapshotWindow::new()
    }
}

/// A listing of the statistics names every thread that has a record, and
/// each entry is that thread's.
pub proof fn law_listing_is_complete(rs: Seq<RecordView>, v: Seq<&ThreadStats>)
    requires
        sound_all(rs),
        forall|s: StatsView|
            (exists|i: int| 0 <= i < v.len() && (#[trigger] v[i])@ == s) <==> #[trigger] all_stats(
                rs,
            ).contains(s),
    ensures
        forall|i: int|
            0 <= i < v.len() ==> index_of(rs, (#[trigger] v[i]).tid) < rs.len() && v[i]@
                == rs[index_of(rs, v[i].tid)].stats,
        forall|tid: i32|
            #[trigger] index_of(rs, tid) < rs.len() ==> exists|i: int|
                0 <= i < v.len() && (#[trigger] v[i]).tid == tid,
{
    assert forall|i: int| 0 <= i < v.len() implies index_of(rs, (#[trigger] v[i]).tid) < rs.len()
        && v[i]@ == rs[index_of(rs, v[i].tid)].stats by {
        let s = v[i]@;
        assert(all_stats(rs).contains(s));
        let m = choose|m: int| 0 <= m < all_stats(rs).len() && all_stats(rs)[m] == s;
        assert(rs[m].stats == s);
        assert forall|k: int| 0 <= k < m implies (#[trigger] rs[k]).stats.tid != s.tid by {
            assert(rs[k].stats.tid != rs[m].stats.tid);
        }
        lemma_index_is(rs, s.tid, m);
    }
    assert forall|tid: i32| #[trigger] index_of(rs, tid) < rs.len() implies exists|i: int|
        0 <= i < v.len() && (#[trigger] v[i]).tid == tid by {
        lemma_index_of(rs, tid);
        let s = rs[index_of(rs, tid)].stats;
        assert(all_stats(rs)[index_of(rs, tid)] == s);
        assert(all_stats(rs).contains(s));
        let k = choose|k: int| 0 <= k < v.len() && (#[trigger] v[k])@ == s;
        assert(v[k].tid == tid);
    }
}

// ---------------------------------------------------------------------
// The sampler
// ---------------------------------------------------------------------

/// What was read of one thread.
#[derive(Debug)]
pub struct ThreadReading {
    pub tid: i32,
    /// The thread's name, where it could be read.
    pub name: Option<String>,
    /// The thread's stat line, where it could be read.
    pub stat: Option<String>,
}

/// What was read of one tracked process.
#[derive(Debug)]
pub struct ProcessReading {
    /// The CPUs it may run on, where they could be read.
    pub allowed: Option<CpuSet>,
    pub threads: Vec<ThreadReading>,
}

/// Turns readings into snapshots; the load of a thread is the share of the
/// interval that it has used since its last snapshot.
pub struct Sampler {
    last_cpu: HashMap<i32, u64>,
    interval_secs: u64,
}

/// Load in percent: the ticks used since the last sample against those of
/// the interval, and nothing for a thread that is new or whose ticks fell.
pub open spec fn load_of(last: Option<u64>, ticks: u64, interval: u64) -> int {
    match last {
        Some(prev) => if ticks >= prev {
            let pct = ((ticks - prev) * 100) / (interval * TICKS_PER_SECOND);
            if pct < 100 {
                pct
            } else {
                100
            }
        } else {
            0
        },
        None => 0,
    }
}

/// The last ticks of a thread.
pub open spec fn last_of(last: Map<i32, u64>, tid: i32) -> Option<u64> {
    if last.contains_key(tid) {
        Some(last[tid])
    } else {
        None
    }
}

/// A text, or the empty one.
pub open spec fn text_or_empty(s: Option<String>) -> Seq<char> {
    match s {
        Some(s) => s@,
        None => Seq::empty(),
    }
}

/// The CPU in a stat line.
pub open spec fn cpu_in(stat: Option<String>) -> Option<u32> {
    match stat {
        Some(s) => match proc::stat_number(s@, 36, u32::MAX as nat) {
            Some(n) => Some(n as u32),
            None => None,
        },
        None => None,
    }
}

/// The ticks in a stat line, 0 where there are none.
pub open spec fn ticks_in(stat: Option<String>) -> u64 {
    match stat {
        Some(s) => match proc::ticks(s@) {
            Some(n) => n as u64,
            None => 0,
        },
        None => 0,
    }
}

/// The allowed CPUs of a process as ranges, empty where they are unknown.
pub open spec fn allowed_text(allowed: Option<CpuSet>) -> Seq<char> {
    match allowed {
        Some(m) => topology::range_text(m@),
        None => Seq::empty(),
    }
}

/// The snapshot of one thread.
pub open spec fn snap_of(
    last: Map<i32, u64>,
    interval: u64,
    affinity: Seq<char>,
    t: ThreadReading,
) -> SnapView {
    SnapView {
        tid: t.tid,
        name: text_or_empty(t.name),
        affinity,
        cpu: cpu_in(t.stat),
        load: load_of(last_of(last, t.tid), ticks_in(t.stat), interval) as u8,
        ticks: ticks_in(t.stat),
    }
}

/// The last ticks after the threads of a process were sampled.
pub open spec fn last_after(last: Map<i32, u64>, threads: Seq<ThreadReading>) -> Map<i32, u64>
    decreases threads.len(),
{
    if threads.len() == 0 {
        last
    } else {
        last_after(last, threads.drop_last()).insert(
            threads.last().tid,
            ticks_in(threads.last().stat),
        )
    }
}

/// The snapshots of the threads of a process.
pub open spec fn snaps_of(
    last: Map<i32, u64>,
    interval: u64,
    affinity: Seq<char>,
    threads: Seq<ThreadReading>,
) -> Seq<SnapView>
    decreases threads.len(),
{
    if threads.len() == 0 {
        Seq::empty()
    } else {
        snaps_of(last, interval, affinity, threads.drop_last()).push(
            snap_of(last_after(last, threads.drop_last()), interval, affinity, threads.last()),
        )
    }
}

/// The last ticks after some processes were sampled.
pub open spec fn last_after_all(last: Map<i32, u64>, all: Seq<ProcessReading>) -> Map<i32, u64>
    decreases all.len(),
{
    if all.len() == 0 {
        last
    } else {
        last_after(last_after_all(last, all.drop_last()), all.last().threads@)
    }
}

/// The snapshots of some processes.
pub open spec fn snaps_of_all(
    last: Map<i32, u64>,
    interval: u64,
    all: Seq<ProcessReading>,
) -> Seq<SnapView>
    decreases all.len(),
{
    if all.len() == 0 {
        Seq::empty()
    } else {
        snaps_of_all(last, interval, all.drop_last()) + snaps_of(
            last_after_all(last, all.drop_last()),
            interval,
            allowed_text(all.last().allowed),
            all.last().threads@,
        )
    }
}

impl Sampler {
    /// The ticks that each thread had used when it was last sampled.
    pub closed spec fn last(&self) -> Map<i32, u64> {
        self.last_cpu@
    }

    /// Seconds between two rounds.
    pub closed spec fn interval(&self) -> u64 {
        self.interval_secs
    }

    /// The interval is at least one second.
    pub open spec fn wf(&self) -> bool {
        self.interval() >= 1
    }

    /// A sampler for rounds that far apart, one second at least.
    pub fn new(interval_secs: u64) -> (r: Sampler)
        ensures
            r.wf(),
            r.interval() == if interval_secs >= 1 {
                interval_secs
            } else {
                1
            },
            r.last() == Map::<i32, u64>::empty(),
    {
        Sampler {
            last_cpu: HashMap::new(),
            interval_secs: if interval_secs >= 1 {
                interval_secs
            } else {
                1
            },
        }
    }

    /// The load of a thread since its last sample.
    fn load(&self, tid: i32, ticks: u64) -> (r: u8)
        requires
            self.wf(),
        ensures
            r == load_of(last_of(self.last(), tid), ticks, self.interval()),
    {
        broadcast use vstd::std_specs::hash::group_hash_axioms;

        match self.last_cpu.get(&tid) {
            Some(prev) => if ticks >= *prev {
                let used: u128 = (ticks - *prev) as u128;
                let span: u128 = self.interval_secs as u128 * TICKS_PER_SECOND as u128;
                let pct: u128 = (used * 100) / span;
                if pct < 100 {
                    pct as u8
                } else {
                    100
                }
            } else {
                0
            },
            None => 0,
        }
    }

    /// Samples one thread.
    fn sample_thread(&mut self, affinity: &str, t: &ThreadReading) -> (r: ThreadSnapshot)
        requires
            old(self).wf(),
        ensures
            final(self).wf(),
            final(self).interval() == old(self).interval(),
            final(self).last() == old(self).last().insert(t.tid, ticks_in(t.stat)),
            r@ == snap_of(old(self).last(), old(self).interval(), affinity@, *t),
    {
        broadcast use vstd::std_specs::hash::group_hash_axioms;

        let name = match &t.name {
            Some(s) => s.clone(),
            None => String::new(),
        };
        let running_cpu = match &t.stat {
            Some(s) => proc::read_processor(s.as_str()),
            None => None,
        };
        let cpu_ticks: u64 = match &t.stat {
            Some(s) => match proc::read_thread_cpu_secs(s.as_str()) {
                Some(n) => n,
                None => 0,
            },
            None => 0,
        };
        let load_pct: u8 = self.load(t.tid, cpu_ticks);
        let _ = self.last_cpu.insert(t.tid, cpu_ticks);
        ThreadSnapshot {
            tid: t.tid,
            name,
            affinity: affinity.to_owned(),
            running_cpu,
            load_pct,
            cpu_ticks,
        }
    }

    /// Samples every thread of the processes that were read.
    pub fn sample(&mut self, readings: &[ProcessReading]) -> (r: Vec<ThreadSnapshot>)
        requires
            old(self).wf(),
        ensures
            final(self).wf(),
            final(self).interval() == old(self).interval(),
            final(self).last() == last_after_all(old(self).last(), readings@),
            snaps(r@) == snaps_of_all(old(self).last(), old(self).interval(), readings@),
    {
        let mut out: Vec<ThreadSnapshot> = Vec::new();
        let ghost start = self.last();
        let ghost interval = self.interval();
        assert(readings@.take(0) =~= Seq::<ProcessReading>::empty());
        assert(snaps(out@) =~= Seq::<SnapView>::empty());
        let mut i: usize = 0;
        while i < readings.len()
            invariant
                0 <= i <= readings@.len(),
                self.wf(),
                self.interval() == interval,
                self.last() == last_after_all(start, readings@.take(i as int)),
                snaps(out@) == snaps_of_all(start, interval, readings@.take(i as int)),
            decreases readings@.len() - i,
        {
            assert(readings@.take(i + 1).drop_last() =~= readings@.take(i as int));
            let p = &readings[i];
            let affinity = match &p.allowed {
                Some(m) => m.to_range_string(),
                None => String::new(),
            };
            let ghost here = self.last();
            let ghost before = snaps(out@);
            assert(p.threads@.take(0) =~= Seq::<ThreadReading>::empty());
            assert(before =~= before + Seq::<SnapView>::empty());
            let mut j: usize = 0;
            while j < p.threads.len()
                invariant
                    0 <= j <= p.threads@.len(),
                    self.wf(),
                    self.interval() == interval,
                    self.last() == last_after(here, p.threads@.take(j as int)),
                    snaps(out@) == before + snaps_of(
                        here,
                        interval,
                        affinity@,
                        p.threads@.take(j as int),
                    ),
                decreases p.threads@.len() - j,
            {
                assert(p.threads@.take(j + 1).drop_last() =~= p.threads@.take(j as int));
                let ghost sofar = out@;
                let snap = self.sample_thread(affinity.as_str(), &p.threads[j]);
                out.push(snap);
                assert(snaps(out@) =~= snaps(sofar).push(snap@));
                j += 1;
            }
            assert(p.threads@.take(j as int) =~= p.threads@);
            i += 1;
        }
        assert(readings@.take(i as int) =~= readings@);
        out
    }
}

// ---------------------------------------------------------------------
// Laws
// ---------------------------------------------------------------------

/// The record of a thread after a history of snapshots, each with the round
/// it came in.
pub open spec fn history(tid: i32, h: Seq<(SnapView, int)>) -> RecordView
    decreases h.len(),
{
    if h.len() == 0 {
        unseen(tid)
    } else {
        seen(history(tid, h.drop_last()), h.last().0, h.last().1)
    }
}

/// How often the running CPU changed in a history.
pub open spec fn moves(h: Seq<(SnapView, int)>) -> int
    decreases h.len(),
{
    if h.len() < 2 {
        0
    } else {
        moves(h.drop_last()) + if moved(h[h.len() - 2].0.cpu, h.last().0.cpu) {
            1int
        } else {
            0
        }
    }
}

/// How often the allowed CPUs changed in a history.
pub open spec fn changes(h: Seq<(SnapView, int)>) -> int
    decreases h.len(),
{
    if h.len() < 2 {
        0
    } else {
        changes(h.drop_last()) + if h[h.len() - 2].0.affinity != h.last().0.affinity {
            1int
        } else {
            0
        }
    }
}

/// How often a history saw the thread on a CPU.
pub open spec fn sightings(h: Seq<(SnapView, int)>, cpu: u32) -> int
    decreases h.len(),
{
    if h.len() == 0 {
        0
    } else {
        sightings(h.drop_last(), cpu) + if h.last().0.cpu == Some(cpu) {
            1int
        } else {
            0
        }
    }
}

/// The sum of the loads of a history.
pub open spec fn loads(h: Seq<(SnapView, int)>) -> int
    decreases h.len(),
{
    if h.len() == 0 {
        0
    } else {
        loads(h.drop_last()) + h.last().0.load
    }
}

/// The sample that a snapshot leaves in the window.
pub open spec fn sample_of(e: (SnapView, int)) -> SampleView {
    SampleView { seq: e.1, cpu: e.0.cpu, affinity: e.0.affinity }
}

/// The samples that a history leaves.
pub open spec fn all_samples(h: Seq<(SnapView, int)>) -> Seq<SampleView> {
    Seq::new(h.len(), |i: int| sample_of(h[i]))
}

/// The record of a thread.
pub open spec fn record_of(rs: Seq<RecordView>, tid: i32) -> Option<RecordView> {
    let i = index_of(rs, tid);
    if i < rs.len() {
        Some(rs[i])
    } else {
        None
    }
}

/// One more sample on a CPU raises its count by one and no other.
proof fn lemma_count_more(d: Seq<CpuCount>, cpu: u32, other: u32)
    requires
        counted(d, cpu) < usize::MAX,
    ensures
        counted(count_more(d, cpu), other) == counted(d, other) + if other == cpu {
            1int
        } else {
            0
        },
{
    let after = count_more(d, cpu);
    let i = place_of(d, cpu);
    let k = place_of(d, other);
    lemma_place_of(d, cpu);
    lemma_place_of(d, other);
    if i < d.len() {
        assert forall|j: int| 0 <= j < k implies (#[trigger] after[j]).cpu != other by {
            assert(d[j].cpu != other);
        }
        if k < d.len() {
            assert(after[k].cpu == other);
        }
        lemma_place_is(after, other, k);
    } else {
        assert forall|j: int| 0 <= j < k implies (#[trigger] after[j]).cpu != other by {
            assert(d[j].cpu != other);
        }
        if k < d.len() {
            lemma_place_is(after, other, k);
        } else if other == cpu {
            lemma_place_is(after, other, k);
        } else {
            lemma_place_is(after, other, k + 1);
        }
    }
}

/// The statistics of a thread are those of all its snapshots, however many
/// the window still holds: migrations and changes are counted between
/// neighbours, every CPU has as many samples as saw the thread there, the
/// average is the mean of all loads, the peak is the largest of them, and the
/// window holds the last samples.
pub proof fn law_statistics_follow_history(tid: i32, h: Seq<(SnapView, int)>)
    requires
        0 < h.len() <= usize::MAX,
        forall|i: int| 0 <= i < h.len() ==> (#[trigger] h[i]).0.tid == tid,
    ensures
        sound(history(tid, h)),
        history(tid, h).stats.tid == tid,
        history(tid, h).stats.name == h.last().0.name,
        history(tid, h).stats.samples == h.len(),
        history(tid, h).stats.migrations == moves(h),
        history(tid, h).stats.affinity_changes == changes(h),
        forall|cpu: u32|
            counted(history(tid, h).stats.distribution, cpu) == #[trigger] sightings(h, cpu),
        history(tid, h).load_sum == loads(h),
        history(tid, h).stats.avg == loads(h) / h.len() as int,
        forall|i: int|
            0 <= i < h.len() ==> (#[trigger] h[i]).0.load <= history(tid, h).stats.max,
        exists|i: int| 0 <= i < h.len() && (#[trigger] h[i]).0.load == history(tid, h).stats.max,
        history(tid, h).recent == clipped(all_samples(h)),
    decreases h.len(),
{
    let before = h.drop_last();
    let r = history(tid, before);
    let last = h.last();
    let after = history(tid, h);
    assert(h[h.len() - 1] == last);
    if before.len() > 0 {
        assert forall|i: int| 0 <= i < before.len() implies (#[trigger] before[i]).0.tid == tid by {
            assert(before[i] == h[i]);
        }
        law_statistics_follow_history(tid, before);
        assert(before.last() == h[h.len() - 2]);
        assert(all_samples(before).last() == sample_of(before.last()));
        assert(r.recent.last() == sample_of(before.last()));
        assert forall|i: int| 0 <= i < h.len() implies (#[trigger] h[i]).0.load
            <= after.stats.max by {
            if i < before.len() {
                assert(before[i] == h[i]);
            }
        }
        let k = choose|k: int| 0 <= k < before.len() && (#[trigger] before[k]).0.load == r.stats.max;
        assert(before[k] == h[k]);
    } else {
        assert(r == unseen(tid));
        assert(loads(before) == 0);
        assert forall|cpu: u32| counted(r.stats.distribution, cpu) == #[trigger] sightings(
            before,
            cpu,
        ) by {
            lemma_place_of(r.stats.distribution, cpu);
        }
        assert(all_samples(before) =~= Seq::<SampleView>::empty());
    }
    lemma_seen(r, last.0, last.1);
    assert forall|cpu: u32| counted(after.stats.distribution, cpu) == #[trigger] sightings(
        h,
        cpu,
    ) by {
        assert(counted(r.stats.distribution, cpu) == sightings(before, cpu));
        if let Some(on) = last.0.cpu {
            lemma_place_of(r.stats.distribution, on);
            lemma_count_more(r.stats.distribution, on, cpu);
        }
    }
    assert(all_samples(h) =~= all_samples(before).push(sample_of(last)));
    assert(after.recent =~= clipped(all_samples(h)));
}

/// Threads are counted apart: a snapshot adds to the record of its own
/// thread and leaves every other as it was.
pub proof fn law_threads_are_counted_apart(rs: Seq<RecordView>, snap: SnapView, seq: int, tid: i32)
    ensures
        record_of(with_snap(rs, snap, seq), tid) == if tid == snap.tid {
            match record_of(rs, tid) {
                Some(r) => Some(seen(r, snap, seq)),
                None => Some(seen(unseen(tid), snap, seq)),
            }
        } else {
            record_of(rs, tid)
        },
{
    let after = with_snap(rs, snap, seq);
    let i = index_of(rs, snap.tid);
    let k = index_of(rs, tid);
    lemma_index_of(rs, snap.tid);
    lemma_index_of(rs, tid);
    assert forall|j: int| 0 <= j < k implies (#[trigger] after[j]).stats.tid != tid by {
        assert(rs[j].stats.tid != tid);
    }
    if k < rs.len() || tid == snap.tid {
        lemma_index_is(after, tid, k);
    } else if i < rs.len() {
        lemma_index_is(after, tid, k);
    } else {
        lemma_index_is(after, tid, k + 1);
    }
}

/// Threads that are not alive are forgotten, and only they.
pub proof fn law_dead_threads_are_forgotten(rs: Seq<RecordView>, alive: Set<i32>, r: RecordView)
    ensures
        living(rs, alive).contains(r) <==> rs.contains(r) && alive.contains(r.stats.tid),
{
    lemma_living(rs, alive);
}

/// The primary CPU of a thread is one that it was seen on, and it was seen
/// on no other more often.
pub proof fn law_primary_is_most_frequent(r: RecordView, i: int)
    requires
        sound(r),
        0 <= i < r.stats.distribution.len(),
    ensures
        r.stats.primary is Some,
        exists|k: int|
            0 <= k < r.stats.distribution.len() && Some(
                (#[trigger] r.stats.distribution[k]).cpu,
            ) == r.stats.primary && r.stats.distribution[i].count <= r.stats.distribution[k].count,
{
    let d = r.stats.distribution;
    lemma_primary(d);
    let best = primary_of(d).unwrap();
    let k = choose|k: int| 0 <= k < d.len() && d[k] == best;
    assert(d[k] == best);
    assert(d[i].count <= best.count);
}

/// The samples on all CPUs together are not more than there were, a thread
/// moved less often than it was sampled, and it has a primary CPU just where
/// it was seen on one.
pub proof fn law_counts_fit_the_samples(r: RecordView)
    requires
        sound(r),
    ensures
        counted_in_all(r.stats.distribution) <= r.stats.samples,
        r.stats.migrations < r.stats.samples,
        r.stats.affinity_changes < r.stats.samples,
        r.stats.primary is None <==> r.stats.distribution.len() == 0,
{
    lemma_primary(r.stats.distribution);
}

/// The load is a percentage.
pub proof fn law_load_is_a_percentage(last: Option<u64>, ticks: u64, interval: u64)
    requires
        interval >= 1,
    ensures
        0 <= load_of(last, ticks, interval) <= 100,
{
    if let Some(prev) = last {
        if ticks >= prev {
            let used = (ticks - prev) * 100;
            let span = interval * TICKS_PER_SECOND;
            assert(used / span >= 0) by (nonlinear_arith)
                requires
                    used >= 0,
                    span >= 1,
            ;
        }
    }
}

} // verus!
