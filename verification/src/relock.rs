//! When policies are applied anew: after threads were moved out of our
//! cpusets, at an interval that follows how often that happens, and never in
//! quick succession.

use vstd::prelude::*;

use crate::ratio::Ratio;
use crate::system_context;
use crate::tally;
use crate::text;

verus! {

// ---------------------------------------------------------------------
// Who owns a process
// ---------------------------------------------------------------------

/// Where cpusets are mounted.
pub const CPUSET_MOUNT: &'static str = "/dev/cpuset";

/// The cpuset of a process by the text of `/proc/<pid>/cpuset`, such as
/// `/threadctl/3-7`; None for a blank text.
pub open spec fn owner_of(content: Option<Seq<char>>) -> Option<Seq<char>> {
    match content {
        Some(c) => if text::trim(c).len() > 0 {
            Some(text::trim(c))
        } else {
            None
        },
        None => None,
    }
}

/// The cpuset of a process by the text of `/proc/<pid>/cpuset`, which is None
/// when it cannot be read.
pub fn read_cpuset_owner(content: Option<&str>) -> (r: Option<String>)
    ensures
        text::opt_text(r) == owner_of(
            match content {
                Some(c) => Some(c@),
                None => None,
            },
        ),
{
    match content {
        Some(c) => {
            let t = text::trimmed(c);
            if t.as_str().is_empty() {
                None
            } else {
                Some(t)
            }
        },
        None => None,
    }
}

/// Whether a cpuset lies below the directory `base`. The kernel names a
/// cpuset by its path below the mount point.
pub open spec fn lies_below(owner: Seq<char>, base: Seq<char>) -> bool {
    text::starts_with(owner, base) || text::starts_with(CPUSET_MOUNT@ + owner, base)
}

/// Whether a process is in a cpuset below `base`.
pub open spec fn is_ours(owner: Option<Seq<char>>, base: Seq<char>) -> bool {
    owner matches Some(o) && lies_below(o, base)
}

/// Whether a process with this cpuset is still in one below `base`.
pub fn is_in_our_cpuset(owner: &Option<String>, base: &str) -> (r: bool)
    ensures
        r == is_ours(text::opt_text(*owner), base@),
{
    match owner {
        Some(o) => {
            let plain = text::chars_of(o.as_str());
            let mut mounted = CPUSET_MOUNT.to_owned();
            mounted.append(o.as_str());
            let full = text::chars_of(mounted.as_str());
            text::begins(plain.as_slice(), base) || text::begins(full.as_slice(), base)
        },
        None => false,
    }
}

/// The weight of a process in the count of those that were moved out.
pub open spec fn moved_out(base: Seq<char>) -> spec_fn(Option<String>) -> nat {
    |o: Option<String>|
        if is_ours(text::opt_text(o), base) {
            0nat
        } else {
            1nat
        }
}

/// The share of some processes that were moved out; zero when there are none.
pub open spec fn coverage(owners: Seq<Option<String>>, base: Seq<char>) -> Ratio {
    if owners.len() == 0 {
        Ratio { num: 0, den: 1 }
    } else {
        Ratio { num: tally::tally(owners, moved_out(base)) as u64, den: owners.len() as u64 }
    }
}

/// The share of processes that are not in a cpuset below `base`, by the
/// cpusets of all processes; zero when there is no process.
pub fn sample_coverage(owners: &[Option<String>], base: &str) -> (r: Ratio)
    ensures
        r == coverage(owners@, base@),
        r.num <= r.den,
{
    if owners.len() == 0 {
        return Ratio::zero();
    }
    let mut covered: usize = 0;
    let mut i: usize = 0;
    proof {
        assert(owners@.take(0) =~= Seq::<Option<String>>::empty());
    }
    while i < owners.len()
        invariant
            0 <= i <= owners@.len(),
            covered <= i,
            covered == tally::tally(owners@.take(i as int), moved_out(base@)),
        decreases owners@.len() - i,
    {
        proof {
            assert(owners@.take(i + 1).drop_last() =~= owners@.take(i as int));
            assert(owners@.take(i + 1).last() == owners@[i as int]);
        }
        if !is_in_our_cpuset(&owners[i], base) {
            covered += 1;
        }
        i += 1;
    }
    proof {
        assert(owners@.take(i as int) =~= owners@);
    }
    Ratio { num: covered as u64, den: owners.len() as u64 }
}

// ---------------------------------------------------------------------
// The guard
// ---------------------------------------------------------------------

/// Keeps applications of policies apart. Times are milliseconds of a clock
/// that does not go back.
#[derive(Debug, Clone, Copy, PartialEq, Eq, Structural)]
pub struct RelockGuard {
    pub last_at: i128,
    pub cooldown_ms: u64,
}

/// Whether the guard lets an application pass.
pub open spec fn passes(g: RelockGuard, now: u64) -> bool {
    system_context::elapsed(g.last_at as int, now as int) >= g.cooldown_ms
}

/// The guard after an application was asked for.
pub open spec fn after_try(g: RelockGuard, now: u64) -> RelockGuard {
    if passes(g, now) {
        RelockGuard { last_at: now as i128, cooldown_ms: g.cooldown_ms }
    } else {
        g
    }
}

/// Milliseconds until the guard lets an application pass.
pub open spec fn left(g: RelockGuard, now: u64) -> int {
    if passes(g, now) {
        0
    } else {
        g.cooldown_ms - system_context::elapsed(g.last_at as int, now as int)
    }
}

impl RelockGuard {
    /// A guard without a cooldown, as if the last application were an hour
    /// ago.
    pub fn new(now: u64) -> (r: RelockGuard)
        ensures
            r.last_at == now - 3_600_000,
            r.cooldown_ms == 0,
    {
        RelockGuard { last_at: now as i128 - 3_600_000, cooldown_ms: 0 }
    }

    fn elapsed_ms(&self, now: u64) -> (r: u128)
        ensures
            r == system_context::elapsed(self.last_at as int, now as int),
    {
        let now = now as i128;
        if now <= self.last_at {
            0
        } else if self.last_at >= 0 {
            (now - self.last_at) as u128
        } else if self.last_at == i128::MIN {
            now as u128 + 0x8000_0000_0000_0000_0000_0000_0000_0000
        } else {
            now as u128 + (-self.last_at) as u128
        }
    }

    /// Whether an application may pass; if so, it counts from now on.
    pub fn try_lock(&mut self, now: u64) -> (r: bool)
        ensures
            r == passes(*old(self), now),
            *final(self) == after_try(*old(self), now),
    {
        if self.elapsed_ms(now) >= self.cooldown_ms as u128 {
            self.last_at = now as i128;
            true
        } else {
            false
        }
    }

    /// Sets the least distance of two applications.
    pub fn set_cooldown(&mut self, ms: u64)
        ensures
            *final(self) == (RelockGuard { last_at: old(self).last_at, cooldown_ms: ms }),
    {
        self.cooldown_ms = ms;
    }

    /// The least distance of two applications.
    pub fn cooldown_ms(&self) -> (r: u64)
        ensures
            r == self.cooldown_ms,
    {
        self.cooldown_ms
    }

    /// Milliseconds until the next application may pass.
    pub fn remaining(&self, now: u64) -> (r: u64)
        ensures
            r == left(*self, now),
    {
        let e = self.elapsed_ms(now);
        if e >= self.cooldown_ms as u128 {
            0
        } else {
            self.cooldown_ms - e as u64
        }
    }
}

/// After an application has passed, none passes before the cooldown is over,
/// and every one passes after; without a cooldown every one passes.
pub proof fn law_cooldown_separates(g: RelockGuard, now: u64, later: u64)
    requires
        now <= later,
    ensures
        passes(RelockGuard { last_at: now as i128, cooldown_ms: g.cooldown_ms }, later)
            <==> later - now >= g.cooldown_ms,
        g.cooldown_ms == 0 ==> passes(g, now),
{
}

// ---------------------------------------------------------------------
// The interval
// ---------------------------------------------------------------------

/// The interval that is taken at first, in seconds.
pub const DEFAULT_INTERVAL: u64 = 60;

/// Seconds between two observations.
pub const SAMPLE_INTERVAL_SECS: u64 = 5;

/// Observations in the window.
pub const WINDOW_SAMPLES: usize = 6;

/// Seconds without any move after which the interval grows.
pub const STABLE_SECS_EXTEND: u64 = 60;

/// The intervals that are taken, in seconds.
pub const INTERVALS_SECS: [u64; 4] = [3, 10, 60, 300];

/// The interval of a rank.
pub open spec fn interval_at(rank: int) -> u64 {
    INTERVALS_SECS@[rank]
}

/// The state of the interval.
#[verifier::ext_equal]
pub struct AdaptiveView {
    pub rank: int,
    /// Whether threads had been moved, in the last observations.
    pub samples: Seq<bool>,
    pub stable_secs: int,
}

/// Chooses the interval at which policies are applied anew.
#[derive(Debug)]
pub struct AdaptiveRelock {
    rank: usize,
    samples: Vec<bool>,
    stable_secs: u64,
}

impl View for AdaptiveRelock {
    type V = AdaptiveView;

    closed spec fn view(&self) -> AdaptiveView {
        AdaptiveView {
            rank: self.rank as int,
            samples: self.samples@,
            stable_secs: self.stable_secs as int,
        }
    }
}

/// The weight of an observation in the count of moves.
pub open spec fn seen() -> spec_fn(bool) -> nat {
    |b: bool|
        if b {
            1nat
        } else {
            0nat
        }
}

/// Whether a share of processes that were moved out counts as a move: half of
/// them or more.
pub open spec fn shows_moves(ratio: Ratio) -> bool {
    ratio.reaches(1, 2)
}

/// The window with one more observation.
pub open spec fn window_with(samples: Seq<bool>, covered: bool) -> Seq<bool> {
    let longer = samples.push(covered);
    if longer.len() > WINDOW_SAMPLES {
        longer.skip(1)
    } else {
        longer
    }
}

/// The state after one more observation. Nothing changes before the window is
/// full. Moves in half of the window or more shorten the interval; none for a
/// minute lengthens it.
pub open spec fn observed(a: AdaptiveView, covered: bool) -> AdaptiveView {
    let samples = window_with(a.samples, covered);
    let moves = tally::tally(samples, seen());
    if samples.len() < WINDOW_SAMPLES {
        AdaptiveView { samples, ..a }
    } else if 2 * moves >= samples.len() {
        AdaptiveView {
            rank: if a.rank > 0 {
                a.rank - 1
            } else {
                0
            },
            samples,
            stable_secs: 0,
        }
    } else if moves == 0 {
        if a.stable_secs + SAMPLE_INTERVAL_SECS >= STABLE_SECS_EXTEND {
            AdaptiveView {
                rank: if a.rank < 3 {
                    a.rank + 1
                } else {
                    a.rank
                },
                samples,
                stable_secs: 0,
            }
        } else {
            AdaptiveView { samples, stable_secs: a.stable_secs + SAMPLE_INTERVAL_SECS, ..a }
        }
    } else {
        AdaptiveView { samples, stable_secs: 0, ..a }
    }
}

/// The distance of two numbers.
pub open spec fn distance(a: int, b: int) -> int {
    if a >= b {
        a - b
    } else {
        b - a
    }
}

/// The rank whose interval is nearest, the lower one of two.
pub open spec fn nearest_rank(secs: int) -> int {
    if distance(3, secs) <= distance(10, secs) && distance(3, secs) <= distance(60, secs)
        && distance(3, secs) <= distance(300, secs) {
        0
    } else if distance(10, secs) <= distance(60, secs) && distance(10, secs) <= distance(
        300,
        secs,
    ) {
        1
    } else if distance(60, secs) <= distance(300, secs) {
        2
    } else {
        3
    }
}

impl AdaptiveRelock {
    /// The interval is one of the list, the window has its size at most, and
    /// quiet times are counted up to a minute.
    pub open spec fn wf(&self) -> bool {
        &&& 0 <= self@.rank < 4
        &&& self@.samples.len() <= WINDOW_SAMPLES
        &&& 0 <= self@.stable_secs < STABLE_SECS_EXTEND
    }

    /// Starts at the default interval.
    pub fn new() -> (r: AdaptiveRelock)
        ensures
            r.wf(),
            r@ == (AdaptiveView { rank: 2, samples: Seq::empty(), stable_secs: 0 }),
    {
        let r = AdaptiveRelock { rank: 2, samples: Vec::new(), stable_secs: 0 };
        proof {
            assert(r@.samples =~= Seq::<bool>::empty());
        }
        r
    }

    /// Starts at the interval nearest to the configured one.
    pub fn from_initial(secs: u64) -> (r: AdaptiveRelock)
        ensures
            r.wf(),
            r@ == (AdaptiveView {
                rank: nearest_rank(secs as int),
                samples: Seq::empty(),
                stable_secs: 0,
            }),
    {
        let d0: u64 = apart(3, secs);
        let d1: u64 = apart(10, secs);
        let d2: u64 = apart(60, secs);
        let d3: u64 = apart(300, secs);
        let rank: usize = if d0 <= d1 && d0 <= d2 && d0 <= d3 {
            0
        } else if d1 <= d2 && d1 <= d3 {
            1
        } else if d2 <= d3 {
            2
        } else {
            3
        };
        let r = AdaptiveRelock { rank, samples: Vec::new(), stable_secs: 0 };
        proof {
            assert(r@.samples =~= Seq::<bool>::empty());
        }
        r
    }

    /// The interval, in seconds.
    pub fn interval_secs(&self) -> (r: u64)
        requires
            self.wf(),
        ensures
            r == interval_at(self@.rank),
    {
        INTERVALS_SECS[self.rank]
    }

    fn count_moves(&self) -> (r: usize)
        ensures
            r == tally::tally(self@.samples, seen()),
            r <= self@.samples.len(),
    {
        let mut n: usize = 0;
        let mut i: usize = 0;
        proof {
            assert(self.samples@.take(0) =~= Seq::<bool>::empty());
        }
        while i < self.samples.len()
            invariant
                0 <= i <= self.samples@.len(),
                n <= i,
                n == tally::tally(self.samples@.take(i as int), seen()),
            decreases self.samples@.len() - i,
        {
            proof {
                assert(self.samples@.take(i + 1).drop_last() =~= self.samples@.take(i as int));
                assert(self.samples@.take(i + 1).last() == self.samples@[i as int]);
            }
            if self.samples[i] {
                n += 1;
            }
            i += 1;
        }
        proof {
            assert(self.samples@.take(i as int) =~= self.samples@);
        }
        n
    }

    /// Takes in whether threads had been moved.
    pub fn observe(&mut self, covered: bool)
        requires
            old(self).wf(),
        ensures
            final(self).wf(),
            final(self)@ == observed(old(self)@, covered),
    {
        self.samples.push(covered);
        if self.samples.len() > WINDOW_SAMPLES {
            self.samples.remove(0);
            proof {
                assert(self.samples@ =~= old(self).samples@.push(covered).skip(1));
            }
        }
        if self.samples.len() < WINDOW_SAMPLES {
            return;
        }
        let moves = self.count_moves();
        if 2 * moves >= self.samples.len() {
            self.stable_secs = 0;
            if self.rank > 0 {
                self.rank = self.rank - 1;
            }
        } else if moves == 0 {
            self.stable_secs = self.stable_secs + SAMPLE_INTERVAL_SECS;
            if self.stable_secs >= STABLE_SECS_EXTEND {
                self.stable_secs = 0;
                if self.rank < 3 {
                    self.rank = self.rank + 1;
                }
            }
        } else {
            self.stable_secs = 0;
        }
    }

    /// Takes in the share of processes that had been moved: half of them or
    /// more count as a move.
    pub fn observe_ratio(&mut self, ratio: Ratio)
        requires
            old(self).wf(),
        ensures
            final(self).wf(),
            final(self)@ == observed(old(self)@, shows_moves(ratio)),
    {
        self.observe(ratio.at_least(1, 2));
    }
}

fn apart(a: u64, b: u64) -> (r: u64)
    ensures
        r == distance(a as int, b as int),
{
    if a >= b {
        a - b
    } else {
        b - a
    }
}

/// No interval is nearer to the configured one than the one taken at first;
/// of two that are equally near it is the shorter one.
pub proof fn law_first_interval_is_nearest(secs: u64, rank: int)
    requires
        0 <= rank < 4,
    ensures
        0 <= nearest_rank(secs as int) < 4,
        distance(interval_at(nearest_rank(secs as int)) as int, secs as int) <= distance(
            interval_at(rank) as int,
            secs as int,
        ),
        distance(interval_at(nearest_rank(secs as int)) as int, secs as int) == distance(
            interval_at(rank) as int,
            secs as int,
        ) ==> interval_at(nearest_rank(secs as int)) <= interval_at(rank),
{
    assert(interval_at(0) == 3 && interval_at(1) == 10 && interval_at(2) == 60 && interval_at(3)
        == 300);
}

/// The state after several observations, from the interval of a rank on.
pub open spec fn observed_all(rank: int, given: Seq<bool>) -> AdaptiveView
    decreases given.len(),
{
    if given.len() == 0 {
        AdaptiveView { rank, samples: Seq::empty(), stable_secs: 0 }
    } else {
        observed(observed_all(rank, given.drop_last()), given.last())
    }
}

/// The last six observations, or all where there are fewer.
pub open spec fn last_six(given: Seq<bool>) -> Seq<bool> {
    if given.len() <= 6 {
        given
    } else {
        given.skip(given.len() - 6)
    }
}

/// How many of the last six observations show moves.
pub open spec fn recent_moves(given: Seq<bool>) -> nat {
    tally::tally(last_six(given), seen())
}

/// How many times in a row, up to now, the last six observations showed no
/// move.
pub open spec fn clear_run(given: Seq<bool>) -> nat
    decreases given.len(),
{
    if given.len() < 6 || recent_moves(given) > 0 {
        0
    } else {
        1 + clear_run(given.drop_last())
    }
}

#[verifier::spinoff_prover]
#[verifier::rlimit(40)]
proof fn lemma_state(rank: int, given: Seq<bool>)
    requires
        0 <= rank < 4,
    ensures
        0 <= observed_all(rank, given).rank < 4,
        observed_all(rank, given).samples == last_six(given),
        observed_all(rank, given).stable_secs == 5 * (clear_run(given) % 12),
    decreases given.len(),
{
    if given.len() > 0 {
        let before = given.drop_last();
        lemma_state(rank, before);
        let a = observed_all(rank, before);
        assert(window_with(last_six(before), given.last()) =~= last_six(given)) by {
            lemma_window(before, given.last());
            assert(before.push(given.last()) =~= given);
        }
        assert(observed_all(rank, given) == observed(a, given.last()));
        assert(last_six(given).len() < 6 <==> given.len() < 6);
        let k = clear_run(before);
        assert((k + 1) % 12 == if k % 12 == 11 {
            0nat
        } else {
            k % 12 + 1
        });
        if given.len() >= 6 && recent_moves(given) == 0 {
            assert(clear_run(given) == k + 1);
        } else {
            assert(clear_run(given) == 0);
        }
    }
}

/// The window after one more observation.
proof fn lemma_window(given: Seq<bool>, covered: bool)
    ensures
        window_with(last_six(given), covered) == last_six(given.push(covered)),
{
    assert(window_with(last_six(given), covered) =~= last_six(given.push(covered)));
}

/// The interval over the observations that were given. With fewer than six it
/// stays. After that, three moves or more among the last six take it one place
/// down, and one or two leave it. None leaves it too, but for every twelfth
/// time in a row, which takes it one place up. The ends of the list hold.
pub proof fn law_interval_follows_the_observations(rank: int, given: Seq<bool>, covered: bool)
    requires
        0 <= rank < 4,
    ensures
        ({
            let now = given.push(covered);
            let a = observed_all(rank, given).rank;
            let b = observed_all(rank, now).rank;
            &&& 0 <= a < 4
            &&& now.len() < 6 ==> b == a
            &&& now.len() >= 6 && recent_moves(now) >= 3 ==> b == if a > 0 {
                a - 1
            } else {
                0
            }
            &&& now.len() >= 6 && 1 <= recent_moves(now) <= 2 ==> b == a
            &&& now.len() >= 6 && recent_moves(now) == 0 && clear_run(now) % 12 != 0 ==> b == a
            &&& now.len() >= 6 && recent_moves(now) == 0 && clear_run(now) % 12 == 0 ==> b == if a
                < 3 {
                a + 1
            } else {
                3
            }
        }),
{
    let now = given.push(covered);
    assert(now.drop_last() =~= given);
    lemma_state(rank, given);
    lemma_state(rank, now);
    lemma_window(given, covered);
}

/// The interval moves by one place at most. It stays while the window is not
/// full. It shrinks only when half of the window shows moves, so a single one
/// never shortens it, and it grows only when the window shows none.
pub proof fn law_interval_is_steady(a: AdaptiveView, covered: bool)
    requires
        0 <= a.rank < 4,
        a.samples.len() <= WINDOW_SAMPLES,
    ensures
        ({
            let b = observed(a, covered);
            let moves = tally::tally(b.samples, seen());
            &&& 0 <= b.rank < 4
            &&& -1 <= b.rank - a.rank <= 1
            &&& b.samples.len() < WINDOW_SAMPLES ==> b.rank == a.rank && b.stable_secs
                == a.stable_secs
            &&& b.rank < a.rank ==> moves >= 3
            &&& b.rank > a.rank ==> moves == 0 && a.stable_secs + SAMPLE_INTERVAL_SECS
                >= STABLE_SECS_EXTEND
        }),
{
}

} // verus!
