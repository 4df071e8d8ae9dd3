//! When things are done again.

use vstd::prelude::*;

use crate::config::EngineMode;
use crate::daemon;
use crate::daemon::{Rounds, Sources};
use crate::ebpf_source;
use crate::ratio::Ratio;
use crate::relock;
use crate::relock::RelockGuard;
use crate::store;
use crate::store::{HotReload, PollResult, WatchEvent, WatchRecord};
use crate::system_context;
use crate::system_context::AdaptivePoller;
use crate::tally;
use crate::text;

verus! {

// ---------------------------------------------------------------------
// Applying policies anew
// ---------------------------------------------------------------------

/// A guard lets an application pass when its cooldown has gone by since the
/// last one, and starts the cooldown again then; a refusal changes nothing. It
/// says how long that still takes: then it passes, and not a millisecond
/// sooner.
pub proof fn law_guards_keep_their_cooldown(g: RelockGuard, now: u64, later: u64)
    requires
        g.last_at <= now,
    ensures
        relock::passes(g, now) <==> now - g.last_at >= g.cooldown_ms,
        relock::passes(g, now) ==> relock::after_try(g, now) == (RelockGuard {
            last_at: now as i128,
            cooldown_ms: g.cooldown_ms,
        }),
        !relock::passes(g, now) ==> relock::after_try(g, now) == g,
        relock::left(g, now) == 0 <==> relock::passes(g, now),
        now <= later ==> (relock::passes(g, later) <==> later - now >= relock::left(g, now)),
{
}

/// Policies are applied anew in time just when they are at all, when the
/// interval of the rank has gone by, 3, 10, 60 or 300 seconds, and when the
/// guard lets it pass. They are applied at once just when a sample shows a
/// process that was moved out, and the guard lets it pass. Samples are taken
/// every five seconds, unless policies are never applied anew.
pub proof fn law_when_policies_are_applied_anew(
    r: Rounds,
    lock_interval: u64,
    rank: int,
    g: RelockGuard,
    now: i64,
    now_ms: u64,
    ratio: Ratio,
)
    requires
        0 <= rank < 4,
        g.last_at <= now_ms,
    ensures
        ({
            let every = if rank == 0 {
                3int
            } else if rank == 1 {
                10
            } else if rank == 2 {
                60
            } else {
                300
            };
            let cooled = now_ms - g.last_at >= g.cooldown_ms;
            &&& daemon::relock_in_time(r, lock_interval, rank, g, now, now_ms) <==> lock_interval
                != 0 && now - r.last_lock >= every && cooled
            &&& daemon::relock_at_once(ratio, g, now_ms) <==> ratio.num != 0 && cooled
            &&& daemon::sample_asked(r, now, lock_interval) <==> lock_interval != 0 && now
                - r.last_coverage_sample >= 5
        }),
{
}

/// The system is looked at again when the interval has gone by, and a wait
/// lasts just until then, or until the deadline where that comes first: before
/// its end neither has come, at its end one of them has.
pub proof fn law_the_system_is_looked_at_in_time(
    p: AdaptivePoller,
    now: u64,
    deadline: u64,
    t: u64,
)
    requires
        0 <= p.last_sample <= now,
        now <= t,
    ensures
        ({
            let wait = system_context::wait_of(p, now, deadline);
            let due = system_context::sample_due(p, t);
            &&& due <==> t - p.last_sample >= p.next_interval
            &&& wait >= 0
            &&& t < now + wait ==> !due && t < deadline
            &&& t == now + wait ==> due || t >= deadline
        }),
{
}

/// After a look the next one is due when the seconds that it asked for have
/// gone by, and not before.
pub proof fn law_a_look_asks_for_the_next(secs: u64, now: u64, t: u64)
    requires
        secs <= 18_446_744_073_709_551,
        now <= t,
    ensures
        system_context::sample_due(system_context::poller_after(secs, now), t) <==> t - now
            >= secs * 1000,
{
}

/// The kernel's table is aligned every thirty seconds.
pub proof fn law_the_table_is_aligned_in_time(last: u64, now: u64)
    requires
        last <= now,
    ensures
        ebpf_source::sync_due(last, now) <==> now - last >= 30_000,
{
}

/// A watch that fails is lost; one that ends without a record is quiet; and
/// records are read just when there are some.
pub proof fn law_what_polling_tells(p: PollResult)
    ensures
        store::poll_verdict(p) is None <==> p == PollResult::Ready,
        store::poll_verdict(p) == Some(WatchEvent::Lost) <==> p == PollResult::Failed,
        store::poll_verdict(p) != Some(WatchEvent::Changed),
{
}

/// One for a move, nothing for none.
pub open spec fn one(moved: bool) -> int {
    if moved {
        1
    } else {
        0
    }
}

proof fn lemma_recent(g: Seq<bool>)
    requires
        g.len() >= 6,
    ensures
        ({
            let n = g.len();
            relock::recent_moves(g) == one(g[n - 6]) + one(g[n - 5]) + one(g[n - 4]) + one(g[n - 3])
                + one(g[n - 2]) + one(g[n - 1])
        }),
{
    let s = relock::last_six(g);
    let n = g.len();
    assert(s.len() == 6);
    assert(s[0] == g[n - 6] && s[1] == g[n - 5] && s[2] == g[n - 4] && s[3] == g[n - 3] && s[4]
        == g[n - 2] && s[5] == g[n - 1]);
    reveal_with_fuel(tally::tally, 7);
}

proof fn lemma_clear_run(g: Seq<bool>, j: nat)
    requires
        g.len() >= 5 + j,
        forall|i: int| g.len() - 5 - j <= i < g.len() ==> !(#[trigger] g[i]),
        g.len() == 5 + j || g[g.len() - 6 - j],
    ensures
        relock::clear_run(g) == j,
    decreases j,
{
    if g.len() >= 6 {
        lemma_recent(g);
    }
    if j > 0 {
        let front = g.drop_last();
        assert forall|i: int| front.len() - 5 - (j - 1) <= i < front.len() implies !(
        #[trigger] front[i]) by {
            assert(front[i] == g[i]);
        }
        if g.len() > 5 + j {
            assert(front[front.len() - 6 - (j - 1)] == g[g.len() - 6 - j]);
        }
        lemma_clear_run(front, (j - 1) as nat);
    }
}

/// The interval between applications goes by the last six samples. Three moves
/// among them, or more, take it one place down; one or two leave it; and none
/// never take it down. Without a move in the last seventeen it goes one place
/// up, where the one before was a move or these are all.
pub proof fn law_moves_shorten_the_interval(rank: int, g: Seq<bool>)
    requires
        0 <= rank < 4,
        g.len() >= 6,
    ensures
        ({
            let n = g.len();
            let m = one(g[n - 6]) + one(g[n - 5]) + one(g[n - 4]) + one(g[n - 3]) + one(g[n - 2])
                + one(g[n - 1]);
            let a = relock::observed_all(rank, g.drop_last()).rank;
            let b = relock::observed_all(rank, g).rank;
            &&& m >= 3 && a > 0 ==> b == a - 1
            &&& m >= 3 && a == 0 ==> b == 0
            &&& 1 <= m <= 2 ==> b == a
            &&& m == 0 ==> b >= a
            &&& n >= 17 && (forall|i: int| n - 17 <= i < n ==> !(#[trigger] g[i])) && (n == 17 || g[n
                - 18]) ==> b == if a < 3 {
                a + 1
            } else {
                3
            }
        }),
{
    let n = g.len();
    let front = g.drop_last();
    assert(front.push(g.last()) =~= g);
    relock::law_interval_follows_the_observations(rank, front, g.last());
    lemma_recent(g);
    if n >= 17 && (forall|i: int| n - 17 <= i < n ==> !(#[trigger] g[i])) && (n == 17 || g[n - 18]) {
        lemma_clear_run(g, 12);
    }
}

/// A sample counts as a move when half of the processes or more were moved
/// out.
pub proof fn law_half_is_a_move(r: Ratio)
    ensures
        relock::shows_moves(r) <==> 2 * r.num >= r.den,
{
}

/// The first interval is one of 3, 10, 60 and 300 seconds, and none of these is
/// nearer to what was asked for.
pub proof fn law_the_first_interval_is_near(secs: int)
    ensures
        ({
            let s = relock::interval_at(relock::nearest_rank(secs)) as int;
            &&& s == 3 || s == 10 || s == 60 || s == 300
            &&& (s - secs) * (s - secs) <= (3 - secs) * (3 - secs)
            &&& (s - secs) * (s - secs) <= (10 - secs) * (10 - secs)
            &&& (s - secs) * (s - secs) <= (60 - secs) * (60 - secs)
            &&& (s - secs) * (s - secs) <= (300 - secs) * (300 - secs)
        }),
{
    let s = relock::interval_at(relock::nearest_rank(secs)) as int;
    lemma_nearer(s, 3, secs);
    lemma_nearer(s, 10, secs);
    lemma_nearer(s, 60, secs);
    lemma_nearer(s, 300, secs);
}

proof fn lemma_nearer(a: int, b: int, x: int)
    ensures
        relock::distance(a, x) <= relock::distance(b, x) ==> (a - x) * (a - x) <= (b - x) * (b - x),
{
    let p = relock::distance(a, x);
    let q = relock::distance(b, x);
    if p <= q {
        assert(p * p <= q * q) by (nonlinear_arith)
            requires
                0 <= p <= q,
        ;
        assert((a - x) * (a - x) == p * p) by (nonlinear_arith)
            requires
                p == a - x || p == x - a,
        ;
        assert((b - x) * (b - x) == q * q) by (nonlinear_arith)
            requires
                q == b - x || q == x - b,
        ;
    }
}

/// A process was moved out unless its cpuset lies below the directory, named
/// by its full path or by its path below the mount point. The share counts
/// each process once.
pub proof fn law_who_was_moved_out(
    owners: Seq<Option<String>>,
    base: Seq<char>,
    more: Option<String>,
    rest: Seq<char>,
)
    requires
        owners.len() + 1 <= u64::MAX,
    ensures
        relock::is_ours(Some(base + rest), base),
        !relock::is_ours(None, base),
        relock::coverage(owners.push(more), base).den == owners.len() + 1,
        relock::coverage(owners.push(more), base).num == if owners.len() == 0 {
            0int
        } else {
            relock::coverage(owners, base).num as int
        } + if relock::is_ours(text::opt_text(more), base) {
            0int
        } else {
            1
        },
        relock::coverage(Seq::empty(), base).num == 0,
{
    let w = relock::moved_out(base);
    tally::lemma_tally_push(owners, w, more);
    tally::lemma_tally_bound(owners, w);
    assert((base + rest).take(base.len() as int) =~= base);
    assert(text::starts_with(base + rest, base));
    if owners.len() == 0 {
        assert(tally::tally(owners, w) == 0);
    }
}

/// The kernel names a cpuset by its path below the mount point: such a path
/// counts as the full one.
pub proof fn law_cpusets_are_named_below_the_mount(owner: Seq<char>, base: Seq<char>)
    ensures
        relock::is_ours(Some(owner), base) <==> (exists|x: Seq<char>| owner == #[trigger] (base
            + x)) || (exists|x: Seq<char>| relock::CPUSET_MOUNT@ + owner == #[trigger] (base + x)),
{
    let full = relock::CPUSET_MOUNT@ + owner;
    lemma_prefix(owner, base);
    lemma_prefix(full, base);
}

proof fn lemma_prefix(s: Seq<char>, p: Seq<char>)
    ensures
        text::starts_with(s, p) <==> exists|x: Seq<char>| s == #[trigger] (p + x),
{
    if text::starts_with(s, p) {
        let x = s.skip(p.len() as int);
        assert forall|i: int| 0 <= i < p.len() implies #[trigger] p[i] == s[i] by {
            assert(s.take(p.len() as int)[i] == s[i]);
        }
        assert(s =~= p + x);
    }
    if exists|x: Seq<char>| s == #[trigger] (p + x) {
        let x = choose|x: Seq<char>| s == #[trigger] (p + x);
        assert(s.take(p.len() as int) =~= p);
    }
}

// ---------------------------------------------------------------------
// The daemon
// ---------------------------------------------------------------------

/// Something is due when its interval has gone by, and an interval of no
/// seconds counts as one.
pub proof fn law_when_something_is_due(last: i64, now: i64, every: u64)
    ensures
        daemon::due(last, now, every) <==> now >= last + every,
        daemon::one_at_least(every) >= 1,
        every != 0 ==> daemon::one_at_least(every) == every,
        every == 0 ==> daemon::one_at_least(every) == 1,
{
}

/// A sleep ends at the deadline, and lasts a tenth of a second at most. The
/// process table is read no more often than either setting says.
pub proof fn law_sleep_is_short(now_ms: u64, deadline_ms: u64, a: u64, b: u64)
    ensures
        0 <= daemon::nap_of(now_ms, deadline_ms) <= 100,
        now_ms <= deadline_ms ==> now_ms + daemon::nap_of(now_ms, deadline_ms) <= deadline_ms,
        now_ms < deadline_ms ==> daemon::nap_of(now_ms, deadline_ms) > 0,
        daemon::nap_of(now_ms, deadline_ms) < 100 ==> now_ms + daemon::nap_of(now_ms, deadline_ms)
            >= deadline_ms,
        daemon::longer(a, b) >= a && daemon::longer(a, b) >= b,
        daemon::longer(a, b) == a || daemon::longer(a, b) == b,
{
}

/// Both sources are used only where both were asked for and can be had; eBPF
/// alone only where it can be had and the process table was not asked for; and
/// none only where eBPF alone was asked for and cannot be had.
pub proof fn law_which_sources_are_used(mode: EngineMode, ebpf: bool)
    ensures
        daemon::sources_of(mode, ebpf) == Sources::Both <==> mode == EngineMode::Hybrid && ebpf,
        daemon::sources_of(mode, ebpf) == Sources::Ebpf <==> ebpf && (mode == EngineMode::Auto
            || mode == EngineMode::Ebpf),
        daemon::sources_of(mode, ebpf) == Sources::Nowhere <==> mode == EngineMode::Ebpf && !ebpf,
        daemon::sources_of(mode, ebpf) == Sources::Proc <==> mode == EngineMode::Proc || (!ebpf
            && mode != EngineMode::Ebpf),
{
}

// ---------------------------------------------------------------------
// Watching the configuration file
// ---------------------------------------------------------------------

/// The file is read again when it was written or replaced, as long as the
/// watch holds. A file that was replaced and could not be watched again loses
/// the watch, whatever else was seen.
pub proof fn law_changes_are_seen(records: Seq<WatchRecord>, i: int, h: HotReload)
    requires
        0 <= i < records.len(),
    ensures
        records[i].replaced && !records[i].restored ==> store::verdict(records) == WatchEvent::Lost,
        (forall|k: int|
            0 <= k < records.len() ==> !(#[trigger] records[k]).replaced || records[k].restored)
            && (records[i].written || records[i].replaced) ==> store::verdict(records)
            == WatchEvent::Changed,
        (forall|k: int|
            0 <= k < records.len() ==> !(#[trigger] records[k]).replaced && !records[k].written)
            ==> store::verdict(records) == WatchEvent::Quiet,
        store::watched(h, WatchEvent::Changed) == (h, true),
        store::watched(h, WatchEvent::Quiet) == (h, false),
        !store::watched(h, WatchEvent::Lost).0.watching && !store::watched(h, WatchEvent::Lost).1,
{
    if records[i].replaced && !records[i].restored {
        assert(store::is_lost(records[i]));
    }
    if records[i].written || records[i].replaced {
        assert(store::tells_change(records[i]));
    }
}

/// Without a watch the file is read again when the time of its last change is
/// known and another than before. After the loss of a watch any known time is.
pub proof fn law_times_of_change_are_seen(h: HotReload, mtime: i64)
    ensures
        store::touched(h, mtime) <==> mtime != -1 && mtime != h.last_mtime,
        mtime != -1 ==> store::touched(store::watched(h, WatchEvent::Lost).0, mtime),
{
}

} // verus!
