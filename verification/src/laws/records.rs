//! What is recorded, read and tuned.

use vstd::prelude::*;

use crate::audit;
use crate::audit::{AuditEntry, AuditSummary};
use crate::foreground;
use crate::laws::words;
use crate::system_context;
use crate::system_context::{BatteryReading, ThermalZone, ZoneReading};
use crate::text;
use crate::tune;
use crate::tune::{BlockEntry, CpuEntry, WriteFailure};

verus! {

// ---------------------------------------------------------------------
// The audit log
// ---------------------------------------------------------------------

/// A log ends with what was recorded last, under the time of recording unless
/// it had a time. What stood in it stays, in its order; only from 256 entries
/// on the oldest goes.
pub proof fn law_logs_keep_the_newest(log: Seq<AuditEntry>, e: AuditEntry, now: u64, i: int)
    requires
        log.len() <= 256,
    ensures
        ({
            let after = audit::recorded(log, e, now);
            let gone: int = if log.len() == 256 {
                1
            } else {
                0
            };
            &&& after.len() == log.len() + 1 - gone
            &&& after.len() <= 256
            &&& 0 <= i < after.len() - 1 ==> after[i] == log[i + gone]
            &&& after.last().tid == e.tid && after.last().pkg == e.pkg && after.last().reason
                == e.reason && after.last().success == e.success
            &&& after.last().requested_cpus == e.requested_cpus && after.last().effective_cpus
                == e.effective_cpus
            &&& after.last().timestamp == if e.timestamp == 0 {
                now
            } else {
                e.timestamp
            }
        }),
{
}

/// The newest entries are the last ones, as many as asked for or all.
pub proof fn law_newest_entries_are_the_last(log: Seq<AuditEntry>, n: nat, i: int)
    ensures
        ({
            let r = audit::newest(log, n as int);
            &&& n >= log.len() ==> r == log
            &&& n < log.len() ==> r.len() == n
            &&& 0 <= i < r.len() ==> r[i] == log[log.len() - r.len() + i]
        }),
{
    assert(log.skip(0) =~= log);
}

spec fn one(b: bool) -> int {
    if b {
        1
    } else {
        0
    }
}

/// Each entry of the window counts as an attempt, as a success where it is
/// one, and for its reason: a thread that no CPU remained for, or that could
/// not be moved, as blocked by its cgroup. Older entries do not count.
pub proof fn law_each_entry_counts_once(
    log: Seq<AuditEntry>,
    e: AuditEntry,
    since: int,
    s: AuditSummary,
    t: AuditSummary,
)
    requires
        audit::sums_up(s, log, since),
        audit::sums_up(t, log.push(e), since),
    ensures
        e.timestamp < since ==> t == s,
        e.timestamp >= since ==> t.total_attempts == s.total_attempts + 1,
        e.timestamp >= since ==> t.success == s.success + if e.success {
            1int
        } else {
            0
        },
        e.timestamp >= since ==> t.blocked_by_cgroup == s.blocked_by_cgroup + if e.reason@
            == "cgroup"@ || e.reason@ == "cpuset_write_failed"@ {
            1int
        } else {
            0
        },
        e.timestamp >= since ==> t.blocked_by_perm == s.blocked_by_perm + if e.reason@ == "eperm"@ {
            1int
        } else {
            0
        },
        e.timestamp >= since ==> t.downgraded == s.downgraded + if e.reason@ == "downgraded"@ {
            1int
        } else {
            0
        },
        e.timestamp >= since ==> t.esrch == s.esrch + if e.reason@ == "esrch"@ {
            1int
        } else {
            0
        },
        log.len() == 0 ==> s.total_attempts == 0 && s.success == 0 && s.blocked_by_cgroup == 0
            && s.blocked_by_perm == 0 && s.downgraded == 0 && s.esrch == 0,
{
    reveal_strlit("cgroup");
    reveal_strlit("cpuset_write_failed");
    assert("cgroup"@.len() == 6 && "cpuset_write_failed"@.len() == 19);
    lemma_count(log, e, audit::is_since(since));
    lemma_count(log, e, audit::is_success(since));
    lemma_count(log, e, audit::has_reason(since, "cgroup"@));
    lemma_count(log, e, audit::has_reason(since, "cpuset_write_failed"@));
    lemma_count(log, e, audit::has_reason(since, "eperm"@));
    lemma_count(log, e, audit::has_reason(since, "downgraded"@));
    lemma_count(log, e, audit::has_reason(since, "esrch"@));
}

proof fn lemma_count(log: Seq<AuditEntry>, e: AuditEntry, p: spec_fn(AuditEntry) -> bool)
    ensures
        audit::count(log.push(e), p) == audit::count(log, p) + one(p(e)),
        log.len() == 0 ==> audit::count(log, p) == 0,
{
    assert(log.push(e).drop_last() =~= log);
}

/// A window takes in what was recorded in its last seconds, both ends
/// included; one of no seconds takes in everything.
pub proof fn law_windows_reach_back(window: u64, now: u64, at: u64)
    ensures
        at >= audit::window_start(window, now) <==> window == 0 || at + window >= now,
{
}

/// The share of failures: of all attempts those that were no success, and
/// zero where there were none.
pub proof fn law_failures_are_what_did_not_succeed(s: AuditSummary)
    requires
        s.success <= s.total_attempts,
    ensures
        ({
            let r = audit::failures_of(s);
            &&& s.total_attempts > 0 ==> r.den == s.total_attempts && r.num + s.success
                == s.total_attempts
            &&& s.total_attempts == 0 ==> r.num == 0 && r.den > 0
        }),
{
}

// ---------------------------------------------------------------------
// The foreground
// ---------------------------------------------------------------------

/// The user of a process is the first number behind the key, in the first
/// line of its status that starts with it.
pub proof fn law_users_follow_the_key(
    before: Seq<char>,
    n: nat,
    rest: Seq<char>,
    after: Seq<char>,
)
    requires
        words::free_of(before, '\n'),
        before.len() == 0 || before.last() != '\r',
        !text::starts_with(before, "Uid:"@),
        words::free_of(rest, '\n'),
        rest.len() == 0 || rest.last() != '\r',
        n <= u32::MAX,
    ensures
        foreground::uid_of(before + seq!['\n'] + after) == foreground::uid_of(after),
        foreground::uid_of(
            "Uid:\t"@ + text::decimal(n) + seq!['\t'] + rest + seq!['\n'] + after,
        ) == Some(n),
        foreground::uid_of(Seq::empty()) is None,
{
    reveal_strlit("Uid:");
    reveal_strlit("Uid:\t");
    let key = "Uid:"@;
    let d = text::decimal(n);
    text::lemma_decimal(n);
    words::law_lines_end_at_line_feeds(before, after);
    assert((seq![before] + text::lines(after)).skip(1) =~= text::lines(after));
    let line = "Uid:\t"@ + d + seq!['\t'] + rest;
    assert("Uid:\t"@ =~= key.push('\t'));
    assert(words::free_of(line, '\n')) by {
        assert forall|i: int| 0 <= i < line.len() implies #[trigger] line[i] != '\n' by {
            if i < 5 {
                assert(line[i] == "Uid:\t"@[i]);
            } else if i < 5 + d.len() {
                assert(line[i] == d[i - 5]);
                assert(text::is_digit(d[i - 5]));
            } else if i > 5 + d.len() {
                assert(line[i] == rest[i - 6 - d.len()]);
            }
        }
    }
    assert(line.last() == if rest.len() == 0 { '\t' } else { rest.last() });
    words::law_lines_end_at_line_feeds(line, after);
    assert(line.take(4) =~= key);
    let tail = d + seq!['\t'] + rest;
    assert(line.skip(4) =~= seq!['\t'] + tail);
    assert(words::solid(d)) by {
        assert forall|i: int| 0 <= i < d.len() implies !text::is_white(#[trigger] d[i]) by {
            assert(text::is_digit(d[i]));
        }
    }
    words::law_words_are_parted_by_white_space(d, '\t', rest);
    words::law_words_are_parted_by_white_space(d, '\t', tail);
    words::law_numbers_are_read_as_written(n, u32::MAX as nat, 0);
    assert((seq![d] + text::words(rest))[0] == d);
    assert(text::lines(Seq::<char>::empty()) =~= Seq::<Seq<char>>::empty());
}

// ---------------------------------------------------------------------
// Tuning
// ---------------------------------------------------------------------

/// Whether an entry is a CPU with a governor.
pub open spec fn steerable(e: CpuEntry) -> bool {
    e.has_governor && exists|d: Seq<char>|
        e.name@ == #[trigger] ("cpu"@ + d) && (forall|i: int|
            0 <= i < d.len() ==> '0' <= #[trigger] d[i] && d[i] <= '9')
}

/// Whether an entry lists a governor among those it can have.
pub open spec fn lists(available: Option<String>, value: Seq<char>) -> bool {
    available matches Some(a) && exists|i: int|
        0 <= i < text::words(a@).len() && #[trigger] text::words(a@)[i] == value
}

proof fn lemma_steerable(e: CpuEntry)
    ensures
        tune::governed(e) <==> steerable(e),
{
    reveal_strlit("cpu");
    let key = "cpu"@;
    if tune::governed(e) {
        let d = e.name@.skip(3);
        assert forall|i: int| 0 <= i < d.len() implies '0' <= #[trigger] d[i] && d[i] <= '9' by {
            assert(text::is_digit(d[i]));
        }
        assert forall|i: int| 0 <= i < 3 implies #[trigger] key[i] == e.name@[i] by {
            assert(e.name@.take(3)[i] == e.name@[i]);
        }
        assert(e.name@ =~= key + d);
    }
    if steerable(e) {
        let d = choose|d: Seq<char>|
            e.name@ == #[trigger] (key + d) && (forall|i: int|
                0 <= i < d.len() ==> '0' <= #[trigger] d[i] && d[i] <= '9');
        assert(e.name@.skip(3) =~= d);
        assert(e.name@.take(3) =~= key);
        assert forall|i: int| 0 <= i < d.len() implies text::is_digit(#[trigger] d[i]) by {}
    }
}

proof fn lemma_lists(available: Option<String>, value: Seq<char>)
    ensures
        tune::offers(tune::read_text(available), value) <==> lists(available, value),
{
    if available is None {
        let none = Seq::<char>::empty();
        words::law_words_are_parted_by_white_space(none, ' ', none);
    }
}

proof fn lemma_reach(entries: Seq<CpuEntry>, gov: Seq<char>)
    ensures
        ({
            let n = tune::reach(entries, gov);
            &&& 0 <= n <= entries.len()
            &&& forall|i: int| 0 <= i < n ==> !tune::refuses(#[trigger] entries[i], gov)
            &&& n < entries.len() ==> tune::refuses(entries[n], gov)
        }),
    decreases entries.len(),
{
    if entries.len() > 0 && !tune::refuses(entries[0], gov) {
        let rest = entries.skip(1);
        lemma_reach(rest, gov);
        let n = tune::reach(rest, gov);
        assert forall|i: int| 0 <= i < n + 1 implies !tune::refuses(
            #[trigger] entries[i],
            gov,
        ) by {
            if i > 0 {
                assert(rest[i - 1] == entries[i]);
            }
        }
        if n < rest.len() {
            assert(rest[n] == entries[n + 1]);
        }
    }
}

proof fn lemma_governed_in(entries: Seq<CpuEntry>, n: int, i: int)
    requires
        0 <= n <= entries.len(),
    ensures
        tune::governed_in(entries, n).contains(i) <==> 0 <= i < n && tune::governed(entries[i]),
        forall|a: int, b: int|
            0 <= a < b < tune::governed_in(entries, n).len() ==> #[trigger] tune::governed_in(
                entries,
                n,
            )[a] < #[trigger] tune::governed_in(entries, n)[b],
        forall|a: int|
            0 <= a < tune::governed_in(entries, n).len() ==> #[trigger] tune::governed_in(
                entries,
                n,
            )[a] < n,
    decreases n,
{
    if n > 0 {
        let before = tune::governed_in(entries, n - 1);
        let all = tune::governed_in(entries, n);
        lemma_governed_in(entries, n - 1, i);
        if before.contains(i) {
            let k = choose|k: int| 0 <= k < before.len() && before[k] == i;
            assert(all[k] == i);
        }
        if i == n - 1 && tune::governed(entries[i]) {
            assert(all[before.len() as int] == i);
        }
        if all.contains(i) {
            let k = choose|k: int| 0 <= k < all.len() && all[k] == i;
            if k < before.len() {
                assert(before[k] == i);
            }
        }
        assert forall|a: int, b: int| 0 <= a < b < all.len() implies #[trigger] all[a]
            < #[trigger] all[b] by {
            if b < before.len() {
                assert(before[a] < before[b]);
            } else {
                assert(before[a] < n - 1);
            }
        }
        assert forall|a: int| 0 <= a < all.len() implies #[trigger] all[a] < n by {
            if a < before.len() {
                assert(before[a] < n - 1);
            }
        }
    } else {
        assert(tune::governed_in(entries, n) =~= Seq::<int>::empty());
    }
}

/// A governor is written to each CPU that has one, in order, up to the first
/// that does not list it. The run succeeds just when no write failed, every
/// CPU with a governor lists it and there is one; it then tells how many there
/// are.
pub proof fn law_governors_are_written_where_listed(
    entries: Seq<CpuEntry>,
    gov: Seq<char>,
    failed: Option<WriteFailure>,
    i: int,
)
    ensures
        tune::governor_targets(entries, gov).contains(i) <==> 0 <= i < entries.len() && steerable(
            entries[i],
        ) && (forall|k: int|
            0 <= k <= i && steerable(#[trigger] entries[k]) ==> lists(entries[k].available, gov)),
        forall|a: int, b: int|
            0 <= a < b < tune::governor_targets(entries, gov).len()
                ==> #[trigger] tune::governor_targets(entries, gov)[a]
                < #[trigger] tune::governor_targets(entries, gov)[b],
        tune::governor_result(entries, gov, failed) is Ok <==> failed is None && (exists|k: int|
            0 <= k < entries.len() && steerable(#[trigger] entries[k])) && (forall|k: int|
            0 <= k < entries.len() && steerable(#[trigger] entries[k]) ==> lists(
                entries[k].available,
                gov,
            )),
        tune::governor_result(entries, gov, failed) matches Ok(n) ==> n == tune::governor_targets(
            entries,
            gov,
        ).len(),
{
    let n = tune::reach(entries, gov);
    let targets = tune::governor_targets(entries, gov);
    lemma_reach(entries, gov);
    lemma_governed_in(entries, n, i);
    assert forall|k: int| 0 <= k < entries.len() implies (steerable(#[trigger] entries[k])
        <==> tune::governed(entries[k])) && (tune::refuses(entries[k], gov) <==> steerable(
        entries[k],
    ) && !lists(entries[k].available, gov)) by {
        lemma_steerable(entries[k]);
        lemma_lists(entries[k].available, gov);
    }
    if n < entries.len() {
        assert(tune::refuses(entries[n], gov));
    }
    if exists|k: int| 0 <= k < entries.len() && steerable(#[trigger] entries[k]) {
        let k = choose|k: int| 0 <= k < entries.len() && steerable(#[trigger] entries[k]);
        lemma_governed_in(entries, n, k);
        if n == entries.len() {
            assert(targets.contains(k));
        }
    }
    if targets.len() > 0 {
        lemma_governed_in(entries, n, targets[0]);
        assert(targets.contains(targets[0]));
        assert(steerable(entries[targets[0]]));
    }
}

proof fn lemma_schedulable_in(entries: Seq<BlockEntry>, sched: Seq<char>, n: int, i: int)
    requires
        0 <= n <= entries.len(),
    ensures
        tune::schedulable_in(entries, sched, n).contains(i) <==> 0 <= i < n && tune::schedulable(
            entries[i],
            sched,
        ),
    decreases n,
{
    if n > 0 {
        let before = tune::schedulable_in(entries, sched, n - 1);
        let all = tune::schedulable_in(entries, sched, n);
        lemma_schedulable_in(entries, sched, n - 1, i);
        if before.contains(i) {
            let k = choose|k: int| 0 <= k < before.len() && before[k] == i;
            assert(all[k] == i);
        }
        if i == n - 1 && tune::schedulable(entries[i], sched) {
            assert(all[before.len() as int] == i);
        }
        if all.contains(i) {
            let k = choose|k: int| 0 <= k < all.len() && all[k] == i;
            if k < before.len() {
                assert(before[k] == i);
            }
        }
    } else {
        assert(tune::schedulable_in(entries, sched, n) =~= Seq::<int>::empty());
    }
}

/// A scheduler is written to each block device that lists it, and to no
/// other. The run succeeds just when no write failed and there is one.
pub proof fn law_schedulers_are_written_where_listed(
    entries: Seq<BlockEntry>,
    sched: Seq<char>,
    failed: Option<WriteFailure>,
    i: int,
)
    ensures
        tune::io_targets(entries, sched).contains(i) <==> 0 <= i < entries.len()
            && entries[i].has_scheduler && lists(entries[i].available, sched),
        tune::io_result(entries, sched, failed) is Ok <==> failed is None && exists|k: int|
            0 <= k < entries.len() && (#[trigger] entries[k]).has_scheduler && lists(
                entries[k].available,
                sched,
            ),
        tune::io_result(entries, sched, failed) matches Ok(n) ==> n == tune::io_targets(
            entries,
            sched,
        ).len(),
{
    let n = entries.len() as int;
    let targets = tune::io_targets(entries, sched);
    lemma_schedulable_in(entries, sched, n, i);
    assert forall|k: int| 0 <= k < entries.len() implies (tune::schedulable(
        #[trigger] entries[k],
        sched,
    ) <==> entries[k].has_scheduler && lists(entries[k].available, sched)) by {
        lemma_lists(entries[k].available, sched);
    }
    if exists|k: int|
        0 <= k < entries.len() && (#[trigger] entries[k]).has_scheduler && lists(
            entries[k].available,
            sched,
        ) {
        let k = choose|k: int|
            0 <= k < entries.len() && (#[trigger] entries[k]).has_scheduler && lists(
                entries[k].available,
                sched,
            );
        lemma_schedulable_in(entries, sched, n, k);
        assert(targets.contains(k));
    }
    if targets.len() > 0 {
        lemma_schedulable_in(entries, sched, n, targets[0]);
        assert(targets.contains(targets[0]));
        assert(entries[targets[0]].has_scheduler);
    }
}

/// The current scheduler is the first that stands in square brackets.
pub proof fn law_the_current_scheduler_is_marked(
    ws: Seq<Seq<char>>,
    w: Seq<char>,
    more: Seq<Seq<char>>,
)
    ensures
        tune::marked_in(seq![seq!['['] + w + seq![']']] + more) == w,
        !(w.len() >= 2 && w[0] == '[' && w.last() == ']') ==> tune::marked_in(seq![w] + more)
            == tune::marked_in(more),
        tune::marked_in(Seq::empty()).len() == 0,
{
    let m = seq!['['] + w + seq![']'];
    assert((seq![m] + more)[0] == m);
    assert(m.subrange(1, m.len() - 1) =~= w);
    assert((seq![w] + more)[0] == w);
    assert((seq![w] + more).skip(1) =~= more);
}

// ---------------------------------------------------------------------
// The system
// ---------------------------------------------------------------------

/// The averages of a pressure file are what stands behind `avg10=`, in order.
pub proof fn law_averages_follow_the_key(ws: Seq<Seq<char>>, w: Seq<char>, x: Seq<char>)
    ensures
        system_context::avg10_words(ws.push("avg10="@ + x)) == system_context::avg10_words(ws).push(
            x,
        ),
        !text::starts_with(w, "avg10="@) ==> system_context::avg10_words(ws.push(w))
            == system_context::avg10_words(ws),
        system_context::avg10_words(Seq::empty()).len() == 0,
{
    reveal_strlit("avg10=");
    assert(ws.push("avg10="@ + x).drop_last() =~= ws);
    assert(ws.push(w).drop_last() =~= ws);
    assert(("avg10="@ + x).take(6) =~= "avg10="@);
    assert(("avg10="@ + x).skip(6) =~= x);
}

/// The battery is the first of the readings with a capacity: its charge is
/// that number where it is one, and it charges where its status says so.
pub proof fn law_the_first_battery_counts(rs: Seq<BatteryReading>)
    requires
        rs.len() > 0,
    ensures
        rs[0].capacity is None ==> system_context::battery_of(rs) == system_context::battery_of(
            rs.skip(1),
        ),
        rs[0].capacity is Some ==> system_context::battery_of(rs).0 == text::unsigned(
            text::trim(rs[0].capacity->Some_0@),
            255,
        ),
        rs[0].capacity is Some ==> (system_context::battery_of(rs).1 <==> (
        rs[0].status matches Some(s) && text::trim(s@) == "Charging"@)),
        system_context::battery_of(Seq::empty()) == (None::<nat>, false),
{
}

/// Sensors count while they are connected.
pub proof fn law_connected_sensors_count(zones: Seq<ThermalZone>, z: ThermalZone)
    ensures
        system_context::valid_count(zones.push(z)) == system_context::valid_count(zones)
            + if z.temperature_mc > -100_000 {
            1int
        } else {
            0
        },
        system_context::valid_count(Seq::empty()) == 0,
{
    assert(zones.push(z).drop_last() =~= zones);
}

/// A thermal zone has the type and the temperature that were read of it; one
/// without a type is none.
pub proof fn law_zones_are_read(r: ZoneReading)
    ensures
        r.zone() is Some <==> text::starts_with(r.name@, "thermal_zone"@) && (
        r.zone_type matches Some(t) && text::trim(t@).len() > 0),
        r.zone() matches Some(z) ==> (r.zone_type matches Some(t) && z.0 == text::trim(t@)),
        r.zone() matches Some(z) ==> (r.temp matches Some(t) ==> (forall|n: int|
            text::signed(
                text::trim(t@),
                0x8000_0000_0000_0000,
                0x7FFF_FFFF_FFFF_FFFF,
            ) == Some(n) ==> z.1 == n)),
{
}

proof fn lemma_place(zones: Seq<(Seq<char>, int)>, z: (Seq<char>, int), x: (Seq<char>, int))
    ensures
        system_context::place_zone(zones, z).len() == zones.len() + 1,
        system_context::place_zone(zones, z).contains(x) <==> zones.contains(x) || x == z,
    decreases zones.len(),
{
    let all = system_context::place_zone(zones, z);
    if zones.len() == 0 || system_context::text_le(zones.last().0, z.0) {
        if zones.contains(x) {
            let i = choose|i: int| 0 <= i < zones.len() && zones[i] == x;
            assert(all[i] == x);
        }
        assert(all[zones.len() as int] == z);
    } else {
        let front = zones.drop_last();
        let before = system_context::place_zone(front, z);
        lemma_place(front, z, x);
        if before.contains(x) {
            let i = choose|i: int| 0 <= i < before.len() && before[i] == x;
            assert(all[i] == x);
        }
        if front.contains(x) {
            let i = choose|i: int| 0 <= i < front.len() && front[i] == x;
            assert(zones[i] == x);
        }
        if zones.contains(x) {
            let i = choose|i: int| 0 <= i < zones.len() && zones[i] == x;
            if i < front.len() {
                assert(front[i] == x);
            } else {
                assert(all[before.len() as int] == x);
            }
        }
        if all.contains(x) {
            let i = choose|i: int| 0 <= i < all.len() && all[i] == x;
            if i < before.len() {
                assert(before[i] == x);
            } else {
                assert(zones[zones.len() - 1] == x);
            }
        }
    }
}

/// The zones are those of the readings, each of them and no others.
pub proof fn law_every_zone_is_listed(rs: Seq<ZoneReading>, x: (Seq<char>, int))
    ensures
        system_context::zones_of(rs).contains(x) <==> exists|i: int|
            0 <= i < rs.len() && #[trigger] rs[i].zone() == Some(x),
    decreases rs.len(),
{
    let all = system_context::zones_of(rs);
    if rs.len() > 0 {
        let front = rs.drop_last();
        let n = rs.len() - 1;
        law_every_zone_is_listed(front, x);
        assert forall|i: int| 0 <= i < n implies #[trigger] front[i] == rs[i] by {}
        assert(rs[n] == rs.last());
        if let Some(z) = rs[n].zone() {
            lemma_place(system_context::zones_of(front), z, x);
        }
        if exists|i: int| 0 <= i < front.len() && #[trigger] front[i].zone() == Some(x) {
            let i = choose|i: int| 0 <= i < front.len() && #[trigger] front[i].zone() == Some(x);
            assert(rs[i].zone() == Some(x));
        }
        if exists|i: int| 0 <= i < rs.len() && #[trigger] rs[i].zone() == Some(x) {
            let i = choose|i: int| 0 <= i < rs.len() && #[trigger] rs[i].zone() == Some(x);
            if i < n {
                assert(front[i].zone() == Some(x));
            }
        }
        if rs[n].zone() == Some(x) {
            assert(rs[n].zone() == Some(x));
        }
    } else {
        assert(all =~= Seq::<(Seq<char>, int)>::empty());
    }
}

/// Whether a text goes before another, or is the same: at the first place in
/// which they differ its character is the lower, or it ends there.
pub open spec fn not_behind(a: Seq<char>, b: Seq<char>) -> bool {
    exists|n: int|
        0 <= n <= a.len() && n <= b.len() && #[trigger] a.take(n) == b.take(n) && (n == a.len() || (n
            < b.len() && a[n] < b[n]))
}

proof fn lemma_order(a: Seq<char>, b: Seq<char>)
    ensures
        system_context::text_le(a, b) <==> not_behind(a, b),
    decreases a.len(),
{
    if a.len() == 0 {
        assert(a.take(0) =~= b.take(0));
    } else if b.len() == 0 {
        if not_behind(a, b) {
            let n = choose|n: int|
                0 <= n <= a.len() && n <= b.len() && #[trigger] a.take(n) == b.take(n) && (n
                    == a.len() || (n < b.len() && a[n] < b[n]));
        }
    } else if a[0] != b[0] {
        assert(a.take(0) =~= b.take(0));
        if not_behind(a, b) {
            let n = choose|n: int|
                0 <= n <= a.len() && n <= b.len() && #[trigger] a.take(n) == b.take(n) && (n
                    == a.len() || (n < b.len() && a[n] < b[n]));
            if n > 0 {
                assert(a.take(n)[0] == b.take(n)[0]);
            }
        }
    } else {
        let x = a.skip(1);
        let y = b.skip(1);
        lemma_order(x, y);
        if not_behind(x, y) {
            let n = choose|n: int|
                0 <= n <= x.len() && n <= y.len() && #[trigger] x.take(n) == y.take(n) && (n
                    == x.len() || (n < y.len() && x[n] < y[n]));
            assert forall|i: int| 0 <= i < n + 1 implies #[trigger] a.take(n + 1)[i] == b.take(
                n + 1,
            )[i] by {
                if i > 0 {
                    assert(x.take(n)[i - 1] == y.take(n)[i - 1]);
                }
            }
            assert(a.take(n + 1) =~= b.take(n + 1));
        }
        if not_behind(a, b) {
            let n = choose|n: int|
                0 <= n <= a.len() && n <= b.len() && #[trigger] a.take(n) == b.take(n) && (n
                    == a.len() || (n < b.len() && a[n] < b[n]));
            assert(n > 0);
            assert forall|i: int| 0 <= i < n - 1 implies #[trigger] x.take(n - 1)[i] == y.take(
                n - 1,
            )[i] by {
                assert(a.take(n)[i + 1] == b.take(n)[i + 1]);
            }
            assert(x.take(n - 1) =~= y.take(n - 1));
        }
    }
}

proof fn lemma_order_is_total(a: Seq<char>, b: Seq<char>, c: Seq<char>)
    ensures
        system_context::text_le(a, b) || system_context::text_le(b, a),
        system_context::text_le(a, b) && system_context::text_le(b, c) ==> system_context::text_le(
            a,
            c,
        ),
    decreases a.len(),
{
    if a.len() > 0 && b.len() > 0 {
        lemma_order_is_total(
            a.skip(1),
            b.skip(1),
            if c.len() > 0 {
                c.skip(1)
            } else {
                c
            },
        );
    }
}

proof fn lemma_placed_in_order(zones: Seq<(Seq<char>, int)>, z: (Seq<char>, int))
    requires
        forall|i: int, j: int|
            0 <= i < j < zones.len() ==> system_context::text_le(
                (#[trigger] zones[i]).0,
                (#[trigger] zones[j]).0,
            ),
    ensures
        forall|i: int, j: int|
            0 <= i < j < system_context::place_zone(zones, z).len() ==> system_context::text_le(
                (#[trigger] system_context::place_zone(zones, z)[i]).0,
                (#[trigger] system_context::place_zone(zones, z)[j]).0,
            ),
    decreases zones.len(),
{
    let all = system_context::place_zone(zones, z);
    if zones.len() == 0 {
    } else if system_context::text_le(zones.last().0, z.0) {
        assert forall|i: int, j: int| 0 <= i < j < all.len() implies system_context::text_le(
            (#[trigger] all[i]).0,
            (#[trigger] all[j]).0,
        ) by {
            if j == zones.len() {
                if i < zones.len() - 1 {
                    assert(system_context::text_le(zones[i].0, zones[zones.len() - 1].0));
                    lemma_order_is_total(zones[i].0, zones.last().0, z.0);
                }
            } else {
                assert(all[i] == zones[i] && all[j] == zones[j]);
            }
        }
    } else {
        let front = zones.drop_last();
        let before = system_context::place_zone(front, z);
        assert forall|i: int, j: int| 0 <= i < j < front.len() implies system_context::text_le(
            (#[trigger] front[i]).0,
            (#[trigger] front[j]).0,
        ) by {
            assert(front[i] == zones[i] && front[j] == zones[j]);
        }
        lemma_placed_in_order(front, z);
        lemma_order_is_total(zones.last().0, z.0, z.0);
        assert forall|i: int, j: int| 0 <= i < j < all.len() implies system_context::text_le(
            (#[trigger] all[i]).0,
            (#[trigger] all[j]).0,
        ) by {
            if j == before.len() {
                assert(before.contains(before[i]));
                lemma_place(front, z, before[i]);
                if before[i] != z {
                    let k = choose|k: int| 0 <= k < front.len() && front[k] == before[i];
                    assert(zones[k] == before[i]);
                    assert(system_context::text_le(zones[k].0, zones[zones.len() - 1].0));
                }
            } else {
                assert(all[i] == before[i] && all[j] == before[j]);
            }
        }
    }
}

/// The zones stand in the order of their types.
pub proof fn law_zones_stand_in_order(rs: Seq<ZoneReading>, i: int, j: int)
    requires
        0 <= i < j < system_context::zones_of(rs).len(),
    ensures
        not_behind(system_context::zones_of(rs)[i].0, system_context::zones_of(rs)[j].0),
{
    lemma_zones_in_order(rs);
    lemma_order(system_context::zones_of(rs)[i].0, system_context::zones_of(rs)[j].0);
}

proof fn lemma_zones_in_order(rs: Seq<ZoneReading>)
    ensures
        forall|i: int, j: int|
            0 <= i < j < system_context::zones_of(rs).len() ==> system_context::text_le(
                (#[trigger] system_context::zones_of(rs)[i]).0,
                (#[trigger] system_context::zones_of(rs)[j]).0,
            ),
    decreases rs.len(),
{
    if rs.len() > 0 {
        lemma_zones_in_order(rs.drop_last());
        if let Some(z) = rs.last().zone() {
            lemma_placed_in_order(system_context::zones_of(rs.drop_last()), z);
        }
    }
}

/// A zone counts for a kind when its sensor is connected and its type begins
/// with the word for the kind.
pub proof fn law_which_zones_count(z: ThermalZone, word: Seq<char>, rest: Seq<char>)
    ensures
        z.temperature_mc <= -100_000 ==> !system_context::counts_for(z, word),
        z.temperature_mc > -100_000 && z.zone_type@ == word + rest ==> system_context::counts_for(
            z,
            word,
        ),
        z.zone_type@.len() < word.len() ==> !system_context::counts_for(z, word),
{
    assert((word + rest).take(word.len() as int) =~= word);
}

/// The current scheduler of a device is the first that stands in brackets; a
/// line without brackets names none.
pub proof fn law_brackets_mark_the_current(line: Seq<char>, w: Seq<char>, k: int)
    requires
        w.len() > 0,
    ensures
        ({
            let ws = text::words(line);
            &&& 0 <= k < ws.len() && ws[k] == seq!['['] + w + seq![']'] && (forall|j: int|
                0 <= j < k ==> !in_brackets(#[trigger] ws[j])) ==> tune::current_of(line) == Some(w)
            &&& (forall|j: int| 0 <= j < ws.len() ==> !in_brackets(#[trigger] ws[j]))
                ==> tune::current_of(line) is None
        }),
{
    let ws = text::words(line);
    if 0 <= k < ws.len() && ws[k] == seq!['['] + w + seq![']'] && (forall|j: int|
        0 <= j < k ==> !in_brackets(#[trigger] ws[j])) {
        lemma_marked(ws, w, k);
    }
    if forall|j: int| 0 <= j < ws.len() ==> !in_brackets(#[trigger] ws[j]) {
        lemma_unmarked(ws);
    }
}

/// Whether a word stands in brackets.
pub open spec fn in_brackets(w: Seq<char>) -> bool {
    w.len() >= 2 && w[0] == '[' && w[w.len() - 1] == ']'
}

proof fn lemma_marked(ws: Seq<Seq<char>>, w: Seq<char>, k: int)
    requires
        0 <= k < ws.len(),
        ws[k] == seq!['['] + w + seq![']'],
        forall|j: int| 0 <= j < k ==> !in_brackets(#[trigger] ws[j]),
    ensures
        tune::marked_in(ws) == w,
    decreases k,
{
    if k == 0 {
        let m = ws[0];
        assert(m.subrange(1, m.len() - 1) =~= w);
    } else {
        let rest = ws.skip(1);
        assert(!in_brackets(ws[0]));
        assert(rest[k - 1] == ws[k]);
        assert forall|j: int| 0 <= j < k - 1 implies !in_brackets(#[trigger] rest[j]) by {
            assert(rest[j] == ws[j + 1]);
        }
        lemma_marked(rest, w, k - 1);
    }
}

proof fn lemma_unmarked(ws: Seq<Seq<char>>)
    requires
        forall|j: int| 0 <= j < ws.len() ==> !in_brackets(#[trigger] ws[j]),
    ensures
        tune::marked_in(ws).len() == 0,
    decreases ws.len(),
{
    if ws.len() > 0 {
        let rest = ws.skip(1);
        assert(!in_brackets(ws[0]));
        assert forall|j: int| 0 <= j < rest.len() implies !in_brackets(#[trigger] rest[j]) by {
            assert(rest[j] == ws[j + 1]);
        }
        lemma_unmarked(rest);
    }
}

/// An entry is a CPU just when its name is `cpu` and digits.
pub proof fn law_which_entries_are_cpus(name: Seq<char>)
    ensures
        tune::is_cpu(name) <==> name.len() >= 3 && name[0] == 'c' && name[1] == 'p' && name[2] == 'u'
            && forall|i: int| 3 <= i < name.len() ==> '0' <= #[trigger] name[i] && name[i] <= '9',
{
    reveal_strlit("cpu");
    let w = "cpu"@;
    if name.len() >= 3 {
        let head = name.take(3);
        let tail = name.skip(3);
        assert(head[0] == name[0] && head[1] == name[1] && head[2] == name[2]);
        if name[0] == 'c' && name[1] == 'p' && name[2] == 'u' {
            assert(head =~= w);
        }
        assert forall|i: int| 3 <= i < name.len() implies #[trigger] name[i] == tail[i - 3] by {}
        assert forall|i: int| 0 <= i < tail.len() implies #[trigger] tail[i] == name[i + 3] by {}
    }
}

} // verus!
