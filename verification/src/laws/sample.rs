//! What is read of processes and threads, and what is made of it.

use vstd::prelude::*;

use crate::backend;
use crate::caps;
use crate::caps::EffectiveCaps;
use crate::laws::words;
use crate::observe;
use crate::observe::{CpuCount, RecordView, SampleView, SnapView, ThreadReading};
use crate::pool;
use crate::proc;
use crate::text;

verus! {

// ---------------------------------------------------------------------
// Names
// ---------------------------------------------------------------------

proof fn lemma_name_end(a: Seq<u8>, rest: Seq<u8>, lines: bool)
    requires
        forall|i: int| 0 <= i < a.len() ==> #[trigger] a[i] != 0 && (lines ==> a[i] != 10),
        rest.len() == 0 || rest[0] == 0 || (lines && rest[0] == 10),
    ensures
        proc::name_end(a + rest, lines) == a.len(),
    decreases a.len(),
{
    let b = a + rest;
    if a.len() > 0 {
        let tail = a.skip(1);
        assert(b[0] == a[0]);
        assert(b.skip(1) =~= tail + rest);
        assert forall|i: int| 0 <= i < tail.len() implies #[trigger] tail[i] != 0 && (lines
            ==> tail[i] != 10) by {
            assert(tail[i] == a[i + 1]);
        }
        lemma_name_end(tail, rest, lines);
    } else {
        assert(b =~= rest);
    }
}

/// The text of a name ends before the first zero byte, or at the end of its
/// line where lines count; it is what the bytes hold, where they are UTF-8.
pub proof fn law_names_end_at_zero(a: Seq<u8>, end: u8, rest: Seq<u8>, lines: bool)
    requires
        forall|i: int| 0 <= i < a.len() ==> #[trigger] a[i] != 0 && (lines ==> a[i] != 10),
        end == 0 || (lines && end == 10),
    ensures
        proc::name_text(a + seq![end] + rest, lines) == if vstd::utf8::valid_utf8(a) {
            Some(vstd::utf8::decode_utf8(a))
        } else {
            None
        },
        a.len() > 0 ==> proc::name_text(a, lines) == if vstd::utf8::valid_utf8(a) {
            Some(vstd::utf8::decode_utf8(a))
        } else {
            None
        },
{
    let tail = seq![end] + rest;
    let b = a + seq![end] + rest;
    assert(b =~= a + tail);
    lemma_name_end(a, tail, lines);
    assert(b.take(a.len() as int) =~= a);
    lemma_name_end(a, Seq::empty(), lines);
    assert(a + Seq::<u8>::empty() =~= a);
    assert(a.take(a.len() as int) =~= a);
}

/// The name of a process is what stands behind the last slash of its first
/// argument, without blanks around it; where nothing does, it has none.
pub proof fn law_processes_go_by_their_last_segment(
    b: Seq<u8>,
    dir: Seq<char>,
    name: Seq<char>,
)
    requires
        words::free_of(name, '/'),
    ensures
        proc::name_text(b, false) == Some(dir + seq!['/'] + name) || proc::name_text(b, false)
            == Some(name) ==> proc::process_name(b) == if text::trim(name).len() > 0 {
            Some(text::trim(name))
        } else {
            None
        },
        proc::name_text(b, false) is None ==> proc::process_name(b) is None,
        proc::name_text(b, true) matches Some(t) ==> proc::comm_name(b) == Some(text::trim(t)),
        proc::name_text(b, true) is None ==> proc::comm_name(b) is None,
{
    let s = dir + seq!['/'] + name;
    words::law_where_a_character_stands(dir, '/', name);
    words::law_where_a_character_stands(name, '/', name);
    assert(s.skip(dir.len() as int + 1) =~= name);
    assert(name.skip(0) =~= name);
}

// ---------------------------------------------------------------------
// Statistics of the kernel
// ---------------------------------------------------------------------

/// The fields of a stat line are the words behind the last parenthesis,
/// whatever the name holds.
pub proof fn law_fields_follow_the_name(name: Seq<char>, rest: Seq<char>)
    requires
        words::free_of(rest, ')'),
    ensures
        proc::stat_fields(name + seq![')'] + rest) == Some(text::words(rest)),
        proc::stat_fields(rest) is None,
{
    let s = name + seq![')'] + rest;
    words::law_where_a_character_stands(name, ')', rest);
    words::law_where_a_character_stands(rest, ')', rest);
    assert(s.skip(name.len() as int + 1) =~= rest);
}

/// The ticks of a thread are those in user mode and those in the kernel
/// together; the start of a process and the last CPU stand in their own
/// fields.
pub proof fn law_where_the_numbers_stand(
    s: Seq<char>,
    f: Seq<Seq<char>>,
    user: nat,
    system: nat,
    start: nat,
    cpu: nat,
)
    requires
        proc::stat_fields(s) == Some(f),
        user <= u64::MAX,
        system <= u64::MAX,
        start <= u64::MAX,
        cpu <= u32::MAX,
    ensures
        f.len() > 11 && f[10] == text::decimal(user) && f[11] == text::decimal(system)
            ==> proc::ticks(s) == Some(
            if user + system <= u64::MAX {
                user + system
            } else {
                u64::MAX as nat
            },
        ),
        f.len() > 19 && f[19] == text::decimal(start) ==> proc::start_time_in(s) == Some(start),
        f.len() > 36 && f[36] == text::decimal(cpu) ==> proc::processor_in(s) == Some(cpu),
        f.len() <= 11 ==> proc::ticks(s) is None,
        f.len() <= 19 ==> proc::start_time_in(s) is None,
        f.len() <= 36 ==> proc::processor_in(s) is None,
{
    words::law_numbers_are_read_as_written(user, u64::MAX as nat, 0);
    words::law_numbers_are_read_as_written(system, u64::MAX as nat, 0);
    words::law_numbers_are_read_as_written(start, u64::MAX as nat, 0);
    words::law_numbers_are_read_as_written(cpu, u32::MAX as nat, 0);
}

/// An `oom_score_adj` is the number that its file holds, and 0 where it holds
/// none or cannot be read.
pub proof fn law_oom_adj_is_the_number_read(n: i32)
    ensures
        proc::oom_in(Some(text::signed_decimal(n as int))) == n,
        proc::oom_in(Some(text::signed_decimal(n as int) + seq!['\n'])) == n,
        proc::oom_in(None) == 0,
{
    let d = text::signed_decimal(n as int);
    let m: nat = if n < 0 {
        (-n) as nat
    } else {
        n as nat
    };
    let none = Seq::<char>::empty();
    text::lemma_decimal(m);
    words::law_numbers_are_read_as_written(m, 0x7FFF_FFFF, 0x8000_0000);
    let x = text::decimal(m);
    assert(text::is_digit(x[0]) && text::is_digit(x[x.len() - 1]));
    assert(d.last() == x.last());
    words::law_trimming_takes_the_ends(none, d, none);
    words::law_trimming_takes_the_ends(none, d, seq!['\n']);
    assert(none + d + none =~= d);
    assert(none + d + seq!['\n'] =~= d + seq!['\n']);
}

/// The number of a key is that in the first line that starts with the key and
/// has one.
pub proof fn law_keys_come_with_numbers(
    line: Seq<char>,
    rest: Seq<Seq<char>>,
    key: Seq<char>,
    n: nat,
)
    requires
        n <= 0x7FFF_FFFF,
        key.len() > 0,
        !text::is_white(key[0]),
    ensures
        proc::keyed_number(seq![key + seq!['\t'] + text::decimal(n)] + rest, key) == Some(n as int),
        !text::starts_with(text::trim(line), key) ==> proc::keyed_number(seq![line] + rest, key)
            == proc::keyed_number(rest, key),
        proc::keyed_number(Seq::empty(), key) is None,
{
    let d = text::decimal(n);
    let none = Seq::<char>::empty();
    let full = key + seq!['\t'] + d;
    text::lemma_decimal(n);
    assert(text::is_digit(d[0]) && text::is_digit(d[d.len() - 1]));
    assert(full[0] == key[0]);
    assert(full.last() == d.last());
    words::law_trimming_takes_the_ends(none, full, none);
    assert(none + full + none =~= full);
    assert((seq![full] + rest)[0] == full);
    assert(full.take(key.len() as int) =~= key);
    assert(full.skip(key.len() as int) =~= seq!['\t'] + d);
    words::law_trimming_takes_the_ends(seq!['\t'], d, none);
    assert(seq!['\t'] + d + none =~= seq!['\t'] + d);
    words::law_numbers_are_read_as_written(n, 0x7FFF_FFFF, 0x8000_0000);
    assert((seq![line] + rest)[0] == line);
    assert((seq![line] + rest).skip(1) =~= rest);
}

/// The threads of a process are the entries that are numbers, in order.
pub proof fn law_numbers_among_names(names: Seq<Seq<char>>, n: nat, other: Seq<char>)
    requires
        n <= 0x7FFF_FFFF,
    ensures
        proc::numbers(names.push(text::decimal(n))) == proc::numbers(names).push(n as int),
        text::i32_of(other) is None ==> proc::numbers(names.push(other)) == proc::numbers(names),
        proc::numbers(Seq::empty()).len() == 0,
{
    words::law_numbers_are_read_as_written(n, 0x7FFF_FFFF, 0x8000_0000);
    assert(names.push(text::decimal(n)).drop_last() =~= names);
    assert(names.push(other).drop_last() =~= names);
}

/// A process lives when a signal could be sent to it, and also when it could
/// not for any other reason than that it does not exist.
pub proof fn law_who_lives(sent: bool, errno: Option<i32>)
    ensures
        sent ==> proc::lives(sent, errno),
        !sent ==> (proc::lives(sent, errno) <==> !(errno matches Some(e) && e == 3)),
{
}

// ---------------------------------------------------------------------
// Loads and statistics
// ---------------------------------------------------------------------

/// A load is the share of the interval, in whole percent, for which a thread
/// ran since it was last sampled: a hundred ticks are a second. It is a
/// hundred at most, and nothing for a thread that is new or whose ticks fell.
pub proof fn law_loads_are_shares_of_the_interval(prev: u64, ticks: u64, interval: u64)
    requires
        interval >= 1,
    ensures
        ({
            let load = observe::load_of(Some(prev), ticks, interval);
            let ran = ticks - prev;
            &&& ticks < prev ==> load == 0
            &&& ran >= 0 && ran >= interval * 100 ==> load == 100
            &&& ran >= 0 && ran < interval * 100 ==> load * interval <= ran < (load + 1) * interval
        }),
        observe::load_of(None, ticks, interval) == 0,
{
    if ticks >= prev {
        let ran = ticks - prev;
        let whole = interval * 100;
        let pct = (ran * 100) / whole;
        vstd::arithmetic::div_mod::lemma_fundamental_div_mod(ran * 100, whole);
        vstd::arithmetic::div_mod::lemma_mod_bound(ran * 100, whole);
        assert(whole * pct == 100 * (pct * interval)) by (nonlinear_arith)
            requires
                whole == interval * 100,
        ;
        assert((pct + 1) * interval == pct * interval + interval) by (nonlinear_arith);
        if ran >= whole {
            assert(pct >= 100) by (nonlinear_arith)
                requires
                    ran >= whole,
                    whole >= 1,
                    whole * pct + (ran * 100) % whole == ran * 100,
                    (ran * 100) % whole < whole,
            ;
        } else {
            assert(pct < 100) by (nonlinear_arith)
                requires
                    ran < whole,
                    whole >= 1,
                    whole * pct <= ran * 100,
            ;
            assert(pct >= 0) by (nonlinear_arith)
                requires
                    pct == (ran * 100) / whole,
                    ran >= 0,
                    whole >= 1,
            ;
        }
    }
}

/// Each thread of a process that was read gives one snapshot, in order, with
/// its number, its name, the CPUs of the process, its CPU and its ticks; its
/// load is against the ticks that it had before, and these ticks are
/// remembered.
pub proof fn law_each_thread_gives_a_snapshot(
    last: Map<i32, u64>,
    interval: u64,
    affinity: Seq<char>,
    threads: Seq<ThreadReading>,
    i: int,
)
    requires
        0 <= i < threads.len(),
        forall|a: int, b: int|
            0 <= a < b < threads.len() ==> (#[trigger] threads[a]).tid != (
            #[trigger] threads[b]).tid,
    ensures
        ({
            let all = observe::snaps_of(last, interval, affinity, threads);
            let x = all[i];
            let t = threads[i];
            let before: Option<u64> = if last.contains_key(t.tid) {
                Some(last[t.tid])
            } else {
                None
            };
            &&& all.len() == threads.len()
            &&& x.tid == t.tid
            &&& x.affinity == affinity
            &&& x.name == match t.name {
                Some(n) => n@,
                None => Seq::<char>::empty(),
            }
            &&& x.ticks == match t.stat {
                Some(s) => match proc::ticks(s@) {
                    Some(n) => n as u64,
                    None => 0,
                },
                None => 0,
            }
            &&& x.cpu == match t.stat {
                Some(s) => match proc::processor_in(s@) {
                    Some(n) => Some(n as u32),
                    None => None,
                },
                None => None,
            }
            &&& x.load == observe::load_of(before, x.ticks, interval) as u8
        }),
        observe::last_after(last, threads).contains_key(threads[i].tid),
        observe::last_after(last, threads)[threads[i].tid] == observe::snaps_of(
            last,
            interval,
            affinity,
            threads,
        )[i].ticks,
    decreases threads.len(),
{
    let front = threads.drop_last();
    let n = threads.len() - 1;
    assert forall|a: int, b: int| 0 <= a < b < front.len() implies (#[trigger] front[a]).tid != (
    #[trigger] front[b]).tid by {
        assert(threads[a].tid != threads[b].tid);
    }
    lemma_snaps_len(last, interval, affinity, front);
    if i < n {
        assert(front[i] == threads[i]);
        assert(threads[i].tid != threads[n].tid);
        law_each_thread_gives_a_snapshot(last, interval, affinity, front, i);
    } else {
        lemma_last_kept(last, front, threads[n].tid);
    }
}

proof fn lemma_snaps_len(
    last: Map<i32, u64>,
    interval: u64,
    affinity: Seq<char>,
    threads: Seq<ThreadReading>,
)
    ensures
        observe::snaps_of(last, interval, affinity, threads).len() == threads.len(),
    decreases threads.len(),
{
    if threads.len() > 0 {
        lemma_snaps_len(last, interval, affinity, threads.drop_last());
    }
}

proof fn lemma_last_kept(last: Map<i32, u64>, threads: Seq<ThreadReading>, tid: i32)
    requires
        forall|a: int| 0 <= a < threads.len() ==> (#[trigger] threads[a]).tid != tid,
    ensures
        observe::last_after(last, threads).contains_key(tid) == last.contains_key(tid),
        last.contains_key(tid) ==> observe::last_after(last, threads)[tid] == last[tid],
    decreases threads.len(),
{
    if threads.len() > 0 {
        let front = threads.drop_last();
        assert forall|a: int| 0 <= a < front.len() implies (#[trigger] front[a]).tid != tid by {
            assert(threads[a].tid != tid);
        }
        assert(threads[threads.len() - 1].tid != tid);
        lemma_last_kept(last, front, tid);
    }
}

/// A snapshot counts as one more sample. It is a move when the CPU of the one
/// before and its own are known and differ, and a change when the allowed
/// CPUs differ. The sum of the loads grows by its load and the peak rises to
/// it. The window holds the last samples, 150 at most, and ends with it.
pub proof fn law_a_snapshot_counts_once(r: RecordView, snap: SnapView, seq: int, i: int)
    requires
        0 < r.recent.len() <= 150,
    ensures
        ({
            let a = observe::seen(r, snap, seq);
            let prev = r.recent.last();
            let gone: int = if r.recent.len() == 150 {
                1
            } else {
                0
            };
            &&& a.stats.tid == r.stats.tid
            &&& a.stats.name == snap.name
            &&& a.stats.samples == r.stats.samples + 1
            &&& a.load_sum == r.load_sum + snap.load
            &&& a.stats.avg == (r.load_sum + snap.load) / (r.stats.samples + 1)
            &&& a.stats.max >= snap.load && a.stats.max >= r.stats.max && (a.stats.max == snap.load
                || a.stats.max == r.stats.max)
            &&& a.stats.migrations == r.stats.migrations + match (prev.cpu, snap.cpu) {
                (Some(x), Some(y)) => if x != y {
                    1int
                } else {
                    0
                },
                _ => 0,
            }
            &&& a.stats.affinity_changes == r.stats.affinity_changes + if prev.affinity
                == snap.affinity {
                0int
            } else {
                1
            }
            &&& a.recent.len() == r.recent.len() + 1 - gone
            &&& a.recent.last() == (SampleView { seq, cpu: snap.cpu, affinity: snap.affinity })
            &&& 0 <= i < a.recent.len() - 1 ==> a.recent[i] == r.recent[i + gone]
        }),
{
}

// ---------------------------------------------------------------------
// What is permitted and set
// ---------------------------------------------------------------------

/// Clamps are set just when a policy has one; each that it has is flagged and
/// brought to 1024 at most, and one that it has not clamps nothing.
pub proof fn law_clamps_are_flagged(min: Option<u32>, max: Option<u32>)
    ensures
        backend::clamped_to(min, max) is None <==> min is None && max is None,
        backend::clamped_to(min, max) matches Some(s) ==> {
            &&& s.flags == (if min is Some {
                0x20int
            } else {
                0
            }) + (if max is Some {
                0x40int
            } else {
                0
            })
            &&& min is None ==> s.util_min == 0
            &&& max is None ==> s.util_max == 1024
            &&& min matches Some(n) ==> s.util_min == if n <= 1024 {
                n
            } else {
                1024
            }
            &&& max matches Some(n) ==> s.util_max == if n <= 1024 {
                n
            } else {
                1024
            }
        },
{
}

/// The two words are the halves of one mask, with the lower bits in the first:
/// a capability is effective when its bit of the mask is set.
pub proof fn law_capabilities_are_bits(c: EffectiveCaps, n: u32)
    requires
        n < 64,
    ensures
        caps::effective(c, n) <==> (((c.low as u64) | ((c.high as u64) << 32u64)) >> (n as u64)) & 1
            == 1,
{
    let low = c.low;
    let high = c.high;
    if n < 32 {
        assert(((((low as u64) | ((high as u64) << 32u64)) >> (n as u64)) & 1 == 1) <==> (low >> n)
            & 1 == 1) by (bit_vector)
            requires
                n < 32,
        ;
    } else {
        let m: u32 = (n - 32) as u32;
        assert(((((low as u64) | ((high as u64) << 32u64)) >> (n as u64)) & 1 == 1) <==> (high >> m)
            & 1 == 1) by (bit_vector)
            requires
                32 <= n < 64,
                m == n - 32,
        ;
    }
}

/// Real-time classes are permitted to the superuser, and to whom the
/// capability to set priorities is given, bit 23 of the lower word.
pub proof fn law_who_may_use_real_time(root: bool, c: EffectiveCaps)
    ensures
        root ==> caps::may_rt(root, None),
        !caps::may_rt(false, None),
        caps::may_rt(root, Some(c)) <==> root || (c.low >> 23u32) & 1 == 1,
{
}

/// Tasks go to the workers in turn: any run of as many tasks as there are
/// workers visits each of them.
pub proof fn law_each_worker_has_its_turn(turn: nat, size: nat, w: nat)
    requires
        w < size,
        turn + size <= usize::MAX,
    ensures
        pool::turn_after(turn) == turn + 1,
        0 <= pool::worker_at(turn, size) < size,
        exists|t: nat| turn <= t < turn + size && #[trigger] pool::worker_at(t, size) == w,
{
    let s = size as int;
    let r = turn as int % s;
    vstd::arithmetic::div_mod::lemma_mod_bound(turn as int, s);
    let t: nat = if w >= r {
        (turn + (w - r)) as nat
    } else {
        (turn + (w - r) + s) as nat
    };
    vstd::arithmetic::div_mod::lemma_fundamental_div_mod(turn as int, s);
    let q = turn as int / s;
    if w >= r {
        assert(t as int == q * s + w) by (nonlinear_arith)
            requires
                turn as int == s * q + r,
                t as int == turn as int + (w - r),
        ;
        vstd::arithmetic::div_mod::lemma_fundamental_div_mod_converse(t as int, s, q, w as int);
    } else {
        assert(t as int == (q + 1) * s + w) by (nonlinear_arith)
            requires
                turn as int == s * q + r,
                t as int == turn as int + (w - r) + s,
        ;
        vstd::arithmetic::div_mod::lemma_fundamental_div_mod_converse(
            t as int,
            s,
            q + 1,
            w as int,
        );
    }
    assert(pool::worker_at(t, size) == w);
}

// ---------------------------------------------------------------------
// Statistics
// ---------------------------------------------------------------------

/// Whether a distribution has each CPU once.
pub open spec fn apart(d: Seq<CpuCount>) -> bool {
    forall|i: int, j: int| 0 <= i < j < d.len() ==> (#[trigger] d[i]).cpu != (#[trigger] d[j]).cpu
}

proof fn lemma_cpu_place(d: Seq<CpuCount>, cpu: u32)
    ensures
        0 <= observe::place_of(d, cpu) <= d.len(),
        observe::place_of(d, cpu) < d.len() ==> d[observe::place_of(d, cpu)].cpu == cpu,
        forall|i: int| 0 <= i < observe::place_of(d, cpu) ==> (#[trigger] d[i]).cpu != cpu,
    decreases d.len(),
{
    if d.len() > 0 && d[0].cpu != cpu {
        let rest = d.skip(1);
        lemma_cpu_place(rest, cpu);
        let n = observe::place_of(rest, cpu);
        if n < rest.len() {
            assert(rest[n] == d[n + 1]);
        }
        assert forall|i: int| 0 <= i < n + 1 implies (#[trigger] d[i]).cpu != cpu by {
            if i > 0 {
                assert(rest[i - 1] == d[i]);
            }
        }
    }
}

/// A sample on a CPU adds one to the count of that CPU, or is the first one
/// there; the counts of the others stay.
pub proof fn law_each_cpu_is_counted(d: Seq<CpuCount>, cpu: u32, c: CpuCount)
    requires
        apart(d),
        c.count < usize::MAX,
    ensures
        ({
            let e = observe::count_more(d, cpu);
            &&& apart(e)
            &&& d.contains(c) && c.cpu == cpu ==> e.contains(
                CpuCount { cpu, count: (c.count + 1) as usize },
            )
            &&& (forall|i: int| 0 <= i < d.len() ==> (#[trigger] d[i]).cpu != cpu) ==> e.contains(
                CpuCount { cpu, count: 1 },
            )
            &&& c.cpu != cpu ==> (e.contains(c) <==> d.contains(c))
            &&& c.cpu == cpu && d.contains(c) ==> observe::counted(d, cpu) == c.count
            &&& (forall|i: int| 0 <= i < d.len() ==> (#[trigger] d[i]).cpu != cpu)
                ==> observe::counted(d, cpu) == 0
        }),
{
    let e = observe::count_more(d, cpu);
    let n = observe::place_of(d, cpu);
    lemma_cpu_place(d, cpu);
    if d.contains(c) {
        let k = choose|k: int| 0 <= k < d.len() && d[k] == c;
        if c.cpu == cpu {
            assert(n <= k);
            if n < k {
                assert(d[n].cpu != d[k].cpu);
            }
            assert(e[n] == (CpuCount { cpu, count: (c.count + 1) as usize }));
        } else {
            assert(e[k] == c);
        }
    }
    if n == d.len() {
        assert(e[n] == (CpuCount { cpu, count: 1 }));
    }
    if e.contains(c) && c.cpu != cpu {
        let k = choose|k: int| 0 <= k < e.len() && e[k] == c;
        assert(k != n);
        assert(d[k] == c);
    }
    assert forall|i: int, j: int| 0 <= i < j < e.len() implies (#[trigger] e[i]).cpu != (
    #[trigger] e[j]).cpu by {
        if i != n && j != n {
            assert(e[i] == d[i] && e[j] == d[j]);
        } else if n < d.len() {
            assert(e[i].cpu == d[i].cpu && e[j].cpu == d[j].cpu);
        }
    }
}

/// The main CPU of a thread is one that was counted, and none was counted more
/// often.
pub proof fn law_the_main_cpu_leads(d: Seq<CpuCount>, i: int)
    requires
        0 <= i < d.len(),
    ensures
        observe::primary_of(d) matches Some(c) && d.contains(c) && d[i].count <= c.count,
    decreases d.len(),
{
    let front = d.drop_last();
    let n = d.len() - 1;
    assert(d[n] == d.last());
    if n > 0 {
        law_the_main_cpu_leads(front, if i < n {
            i
        } else {
            0
        });
        let c = observe::primary_of(front)->Some_0;
        let k = choose|k: int| 0 <= k < front.len() && front[k] == c;
        assert(d[k] == c);
        if i < n {
            assert(front[i] == d[i]);
        }
    }
}

/// Whether each thread has one record.
pub open spec fn recorded_once(rs: Seq<RecordView>) -> bool {
    forall|i: int, j: int|
        0 <= i < j < rs.len() ==> (#[trigger] rs[i]).stats.tid != (#[trigger] rs[j]).stats.tid
}

proof fn lemma_record_place(rs: Seq<RecordView>, tid: i32)
    ensures
        0 <= observe::index_of(rs, tid) <= rs.len(),
        observe::index_of(rs, tid) < rs.len() ==> rs[observe::index_of(rs, tid)].stats.tid == tid,
        forall|i: int| 0 <= i < observe::index_of(rs, tid) ==> (#[trigger] rs[i]).stats.tid != tid,
    decreases rs.len(),
{
    if rs.len() > 0 && rs[0].stats.tid != tid {
        let rest = rs.skip(1);
        lemma_record_place(rest, tid);
        let n = observe::index_of(rest, tid);
        if n < rest.len() {
            assert(rest[n] == rs[n + 1]);
        }
        assert forall|i: int| 0 <= i < n + 1 implies (#[trigger] rs[i]).stats.tid != tid by {
            if i > 0 {
                assert(rest[i - 1] == rs[i]);
            }
        }
    }
}

/// A round takes in its snapshots one after the other; each changes the record
/// of its own thread, or begins one, and leaves the others.
pub proof fn law_rounds_take_in_each_snapshot(
    rs: Seq<RecordView>,
    batch: Seq<SnapView>,
    snap: SnapView,
    seq: int,
    r: RecordView,
)
    requires
        recorded_once(observe::with_batch(rs, batch, seq)),
    ensures
        observe::with_batch(rs, Seq::empty(), seq) == rs,
        ({
            let a = observe::with_batch(rs, batch, seq);
            let b = observe::with_batch(rs, batch.push(snap), seq);
            &&& recorded_once(b)
            &&& r.stats.tid != snap.tid ==> (b.contains(r) <==> a.contains(r))
            &&& a.contains(r) && r.stats.tid == snap.tid ==> b.contains(observe::seen(r, snap, seq))
            &&& exists|q: RecordView| #[trigger]
                b.contains(q) && q.stats.tid == snap.tid && q.stats.name == snap.name
                    && q.recent.last() == (SampleView {
                    seq,
                    cpu: snap.cpu,
                    affinity: snap.affinity,
                })
        }),
{
    let a = observe::with_batch(rs, batch, seq);
    let b = observe::with_batch(rs, batch.push(snap), seq);
    assert(batch.push(snap).drop_last() =~= batch);
    let n = observe::index_of(a, snap.tid);
    lemma_record_place(a, snap.tid);
    let q = b[n];
    assert(b.contains(q));
    if a.contains(r) {
        let k = choose|k: int| 0 <= k < a.len() && a[k] == r;
        if r.stats.tid == snap.tid {
            if n < k {
                assert(a[n].stats.tid != a[k].stats.tid);
            }
            assert(b[n] == observe::seen(r, snap, seq));
        } else {
            assert(b[k] == r);
        }
    }
    if b.contains(r) && r.stats.tid != snap.tid {
        let k = choose|k: int| 0 <= k < b.len() && b[k] == r;
        assert(k != n);
        assert(a[k] == r);
    }
    assert forall|i: int, j: int| 0 <= i < j < b.len() implies (#[trigger] b[i]).stats.tid != (
    #[trigger] b[j]).stats.tid by {
        if i != n && j != n {
            assert(b[i] == a[i] && b[j] == a[j]);
        } else if n < a.len() {
            assert(b[i].stats.tid == a[i].stats.tid && b[j].stats.tid == a[j].stats.tid);
        }
    }
}

} // verus!
