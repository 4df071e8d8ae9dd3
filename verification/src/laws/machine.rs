//! What the CPUs of a machine are taken to be.

use vstd::prelude::*;

use crate::laws::words;
use crate::text;
use crate::topology;
use crate::topology::{CapacityReading, CpuCluster, CpuClusterKind, PolicyReading};

verus! {

// ---------------------------------------------------------------------
// Sets of CPUs as texts
// ---------------------------------------------------------------------

/// The CPUs from one to another.
pub open spec fn stretch(a: int, b: int) -> Set<int> {
    Set::new(|c: int| a <= c <= b)
}

proof fn lemma_no_runs(s: Set<int>, from: int)
    requires
        0 <= from,
        forall|c: int| from <= c ==> !s.contains(c),
    ensures
        topology::runs(s, from) == Seq::<(int, int)>::empty(),
    decreases 1024 - from,
{
    if from < 1024 {
        lemma_no_runs(s, from + 1);
    }
}

proof fn lemma_some_runs(s: Set<int>, from: int, c: int)
    requires
        0 <= from <= c < 1024,
        s.contains(c),
    ensures
        topology::runs(s, from).len() > 0,
    decreases 1024 - from,
{
    if !s.contains(from) {
        lemma_some_runs(s, from + 1, c);
    }
}

proof fn lemma_same_runs(s: Set<int>, t: Set<int>, from: int)
    requires
        0 <= from,
        forall|c: int| from <= c ==> (#[trigger] s.contains(c) <==> t.contains(c)),
    ensures
        topology::runs(s, from) == topology::runs(t, from),
    decreases 1024 - from,
{
    if from < 1024 {
        if s.contains(from) {
            lemma_same_run(s, t, from, 1024);
            topology::lemma_run_end(s, from);
            lemma_same_runs(s, t, topology::run_end(s, from) + 1);
        } else {
            lemma_same_runs(s, t, from + 1);
        }
    }
}

proof fn lemma_same_run(s: Set<int>, t: Set<int>, from: int, m: int)
    requires
        0 <= from < m <= 1024,
        s.contains(from),
        forall|c: int| from <= c < m ==> (#[trigger] s.contains(c) <==> t.contains(c)),
        m < 1024 ==> !s.contains(m) && !t.contains(m),
    ensures
        topology::run_end(s, from) == topology::run_end(t, from),
        topology::run_end(s, from) < m,
    decreases m - from,
{
    if from + 1 < m && s.contains(from + 1) {
        lemma_same_run(s, t, from + 1, m);
    }
}

proof fn lemma_runs_in_two(lo: Set<int>, hi: Set<int>, m: int, from: int)
    requires
        0 <= from <= m < 1024,
        forall|c: int| #[trigger] lo.contains(c) ==> c < m,
        forall|c: int| #[trigger] hi.contains(c) ==> m < c,
    ensures
        topology::runs(lo.union(hi), from) == topology::runs(lo, from) + topology::runs(hi, m),
    decreases m - from,
{
    let u = lo.union(hi);
    if from == m {
        lemma_no_runs(lo, m);
        lemma_same_runs(u, hi, m);
        assert(Seq::<(int, int)>::empty() + topology::runs(hi, m) =~= topology::runs(hi, m));
    } else if lo.contains(from) {
        lemma_same_run(u, lo, from, m);
        topology::lemma_run_end(lo, from);
        let e = topology::run_end(lo, from);
        lemma_runs_in_two(lo, hi, m, e + 1);
        assert(topology::runs(u, from) =~= topology::runs(lo, from) + topology::runs(hi, m));
    } else {
        lemma_runs_in_two(lo, hi, m, from + 1);
    }
}

proof fn lemma_joined_in_two(a: Seq<Seq<char>>, b: Seq<Seq<char>>, sep: Seq<char>)
    requires
        a.len() > 0,
        b.len() > 0,
    ensures
        text::join(a + b, sep) == text::join(a, sep) + sep + text::join(b, sep),
    decreases b.len(),
{
    let front = b.drop_last();
    assert((a + b).drop_last() =~= a + front);
    if front.len() == 0 {
        assert(a + front =~= a);
    } else {
        lemma_joined_in_two(a, front, sep);
        assert(text::join(a, sep) + sep + (text::join(front, sep) + sep + b.last()) =~= text::join(
            a,
            sep,
        ) + sep + text::join(front, sep) + sep + b.last());
    }
}

/// Of a set of CPUs, those below a gap and those above it are written one
/// after the other, parted by a comma.
pub proof fn law_gaps_are_commas(lo: Set<int>, hi: Set<int>, m: int, a: int, b: int)
    requires
        lo.contains(a),
        hi.contains(b),
        forall|c: int| #[trigger] lo.contains(c) ==> 0 <= c < m,
        forall|c: int| #[trigger] hi.contains(c) ==> m < c < 1024,
    ensures
        topology::range_text(lo.union(hi)) == topology::range_text(lo) + seq![',']
            + topology::range_text(hi),
{
    lemma_runs_in_two(lo, hi, m, 0);
    lemma_runs_in_two(Set::empty(), hi, m, 0);
    lemma_no_runs(Set::empty(), 0);
    assert(Set::<int>::empty().union(hi) =~= hi);
    assert(Seq::<(int, int)>::empty() + topology::runs(hi, m) =~= topology::runs(hi, m));
    lemma_some_runs(lo, 0, a);
    lemma_some_runs(hi, m, b);
    let x = topology::run_texts(topology::runs(lo, 0));
    let y = topology::run_texts(topology::runs(hi, m));
    assert(topology::run_texts(topology::runs(lo.union(hi), 0)) =~= x + y);
    lemma_joined_in_two(x, y, seq![',']);
}

proof fn lemma_stretch_end(a: int, b: int, from: int)
    requires
        a <= from <= b < 1024,
    ensures
        topology::run_end(stretch(a, b), from) == b,
    decreases b - from,
{
    if from < b {
        lemma_stretch_end(a, b, from + 1);
    }
}

proof fn lemma_stretch_runs(a: int, b: int, from: int)
    requires
        0 <= from <= a <= b < 1024,
    ensures
        topology::runs(stretch(a, b), from) == seq![(a, b)],
    decreases a - from,
{
    if from < a {
        lemma_stretch_runs(a, b, from + 1);
    } else {
        lemma_stretch_end(a, b, a);
        lemma_no_runs(stretch(a, b), b + 1);
        assert(seq![(a, b)] + Seq::<(int, int)>::empty() =~= seq![(a, b)]);
    }
}

/// CPUs without a gap are written as the first and the last of them with a
/// dash between, a single one as its number, and none as the empty text.
pub proof fn law_stretches_are_dashes(a: int, b: int)
    requires
        0 <= a <= b < 1024,
    ensures
        topology::range_text(Set::empty()) == Seq::<char>::empty(),
        topology::range_text(stretch(a, a)) == text::decimal(a as nat),
        a < b ==> topology::range_text(stretch(a, b)) == text::decimal(a as nat) + seq!['-']
            + text::decimal(b as nat),
{
    lemma_stretch_runs(a, a, 0);
    lemma_stretch_runs(a, b, 0);
    lemma_no_runs(Set::empty(), 0);
    assert(topology::run_texts(Seq::empty()) =~= Seq::<Seq<char>>::empty());
    assert(topology::run_texts(seq![(a, b)]) =~= seq![topology::run_text((a, b))]);
    assert(topology::run_texts(seq![(a, a)]) =~= seq![topology::run_text((a, a))]);
}

// ---------------------------------------------------------------------
// CPU lists
// ---------------------------------------------------------------------

/// A CPU list names what its parts name, whether a comma, a blank or a tab
/// stands between them.
pub proof fn law_lists_name_what_their_parts_name(a: Seq<char>, c: char, b: Seq<char>, cpu: int)
    requires
        c == ',' || c == ' ' || c == '\t',
    ensures
        topology::range_cpus(a + seq![c] + b).contains(cpu) <==> topology::range_cpus(a).contains(
            cpu,
        ) || topology::range_cpus(b).contains(cpu),
{
    let sep = topology::range_sep();
    lemma_pieces(a, c, b);
    let x = text::pieces(a, sep);
    let y = text::pieces(b, sep);
    let z = text::pieces(a + seq![c] + b, sep);
    if topology::pieces_name(x, cpu) {
        let i = choose|i: int| 0 <= i < x.len() && #[trigger] topology::piece_names(x[i], cpu);
        assert(z[i] == x[i]);
    }
    if topology::pieces_name(y, cpu) {
        let i = choose|i: int| 0 <= i < y.len() && #[trigger] topology::piece_names(y[i], cpu);
        assert(z[x.len() + i] == y[i]);
    }
    if topology::pieces_name(z, cpu) {
        let i = choose|i: int| 0 <= i < z.len() && #[trigger] topology::piece_names(z[i], cpu);
        if i < x.len() {
            assert(topology::piece_names(x[i], cpu));
        } else {
            assert(topology::piece_names(y[i - x.len()], cpu));
        }
    }
}

proof fn lemma_pieces(a: Seq<char>, c: char, b: Seq<char>)
    requires
        topology::range_sep()(c),
    ensures
        text::pieces(a + seq![c] + b, topology::range_sep()) == text::pieces(
            a,
            topology::range_sep(),
        ) + text::pieces(b, topology::range_sep()),
    decreases a.len(),
{
    let sep = topology::range_sep();
    let t = a + seq![c] + b;
    text::lemma_scan(a, sep);
    let n = text::scan(a, sep);
    assert forall|i: int| 0 <= i < n implies !sep(#[trigger] t[i]) by {
        assert(t[i] == a[i]);
    }
    if n < a.len() {
        assert(t[n] == a[n]);
        text::lemma_scan_is(t, sep, n);
        assert(t.take(n) =~= a.take(n));
        assert(t.skip(n + 1) =~= a.skip(n + 1) + seq![c] + b);
        lemma_pieces(a.skip(n + 1), c, b);
        assert(text::pieces(t, sep) =~= text::pieces(a, sep) + text::pieces(b, sep));
    } else {
        assert(t[n] == c);
        text::lemma_scan_is(t, sep, n);
        assert(t.take(n) =~= a);
        assert(t.skip(n + 1) =~= b);
        assert(text::pieces(t, sep) =~= text::pieces(a, sep) + text::pieces(b, sep));
    }
}

proof fn lemma_one_piece(t: Seq<char>, lo: nat, hi: nat, cpu: int)
    requires
        t.len() > 0,
        forall|i: int|
            0 <= i < t.len() ==> text::is_digit(#[trigger] t[i]) || t[i] == '-',
        topology::piece_range(t) == Some((lo, hi)),
    ensures
        topology::range_cpus(t).contains(cpu) <==> lo <= cpu <= hi && cpu < 1024,
{
    let sep = topology::range_sep();
    assert forall|i: int| 0 <= i < t.len() implies !sep(#[trigger] t[i]) by {
        assert(text::is_digit(t[i]) || t[i] == '-');
    }
    text::lemma_scan_is(t, sep, t.len() as int);
    let ps = text::pieces(t, sep);
    assert(ps =~= seq![t]);
    assert(text::is_digit(t[0]) || t[0] == '-');
    assert(text::is_digit(t[t.len() - 1]) || t[t.len() - 1] == '-');
    let none = Seq::<char>::empty();
    words::law_trimming_takes_the_ends(none, t, none);
    assert(none + t + none =~= t);
    assert(ps[0] == t);
    assert(topology::piece_names(ps[0], cpu) <==> lo <= cpu <= hi);
    if topology::pieces_name(ps, cpu) {
        let i = choose|i: int| 0 <= i < ps.len() && #[trigger] topology::piece_names(ps[i], cpu);
        assert(i == 0);
    }
}

/// A number names the CPU of that number, and two numbers with a dash between
/// them name the CPUs from the lower to the higher. There is no CPU from 1024
/// on.
pub proof fn law_numbers_name_cpus(a: nat, b: nat, cpu: int)
    requires
        a < u64::MAX,
        b < u64::MAX,
    ensures
        topology::range_cpus(text::decimal(a)).contains(cpu) <==> cpu == a && cpu < 1024,
        topology::range_cpus(text::decimal(a) + seq!['-'] + text::decimal(b)).contains(cpu) <==> (
        (a <= cpu <= b || b <= cpu <= a) && cpu < 1024),
        !topology::range_cpus(Seq::empty()).contains(cpu),
{
    let x = text::decimal(a);
    let y = text::decimal(b);
    let t = x + seq!['-'] + y;
    text::lemma_decimal(a);
    text::lemma_decimal(b);
    assert forall|i: int| 0 <= i < x.len() implies text::is_digit(#[trigger] x[i]) || x[i]
        == '-' by {}
    assert forall|i: int| 0 <= i < t.len() implies text::is_digit(#[trigger] t[i]) || t[i]
        == '-' by {
        if i < x.len() {
            assert(t[i] == x[i]);
        } else if i > x.len() {
            assert(t[i] == y[i - x.len() - 1]);
        }
    }
    words::law_numbers_are_read_as_written(a, u64::MAX as nat, 0);
    words::law_numbers_are_read_as_written(b, u64::MAX as nat, 0);
    assert(words::free_of(x, '-')) by {
        assert forall|i: int| 0 <= i < x.len() implies #[trigger] x[i] != '-' by {
            assert(text::is_digit(x[i]));
        }
    }
    words::law_where_a_character_stands(x, '-', y);
    assert(topology::piece_range(x) == Some((a, a)));
    lemma_one_piece(x, a, a, cpu);
    assert(t.take(x.len() as int) =~= x);
    assert(t.skip(x.len() as int + 1) =~= y);
    let lo = if a <= b {
        a
    } else {
        b
    };
    let hi = if a <= b {
        b
    } else {
        a
    };
    assert(topology::piece_range(t) == Some((lo, hi)));
    lemma_one_piece(t, lo, hi, cpu);
    let none = Seq::<char>::empty();
    text::lemma_scan_is(none, topology::range_sep(), 0);
    let ps = text::pieces(none, topology::range_sep());
    assert(ps =~= seq![none]);
    text::lemma_scan_is(none, text::not_white(), 0);
    assert(text::trim(none) =~= none);
    text::lemma_scan_is(none, text::is_char('-'), 0);
    if topology::pieces_name(ps, cpu) {
        let i = choose|i: int| 0 <= i < ps.len() && #[trigger] topology::piece_names(ps[i], cpu);
        assert(ps[i] == none);
    }
}

/// The allowed CPUs of a thread are what follows the key in the first line of
/// its status that starts with it.
pub proof fn law_allowed_cpus_follow_the_key(before: Seq<char>, list: Seq<char>, after: Seq<char>)
    requires
        words::free_of(before, '\n'),
        before.len() == 0 || before.last() != '\r',
        !text::starts_with(before, "Cpus_allowed_list:"@),
        words::free_of(list, '\n'),
        list.len() > 0,
        !text::is_white(list[0]),
        !text::is_white(list.last()),
    ensures
        topology::allowed_list("Cpus_allowed_list:"@ + list + seq!['\n'] + after) == Some(list),
        topology::allowed_list("Cpus_allowed_list:\t"@ + list + seq!['\n'] + after) == Some(list),
        topology::allowed_list(before + seq!['\n'] + after) == topology::allowed_list(after),
        topology::allowed_list(Seq::empty()) is None,
{
    let key = "Cpus_allowed_list:"@;
    reveal_strlit("Cpus_allowed_list:");
    reveal_strlit("Cpus_allowed_list:\t");
    let none = Seq::<char>::empty();
    assert(list.last() != '\r');
    words::law_lines_end_at_line_feeds(before, after);
    assert((seq![before] + text::lines(after)).skip(1) =~= text::lines(after));
    let a = key + list;
    assert(words::free_of(a, '\n')) by {
        assert forall|i: int| 0 <= i < a.len() implies #[trigger] a[i] != '\n' by {
            if i < key.len() {
                assert(a[i] == key[i]);
            } else {
                assert(a[i] == list[i - key.len()]);
            }
        }
    }
    assert(a.last() == list.last());
    words::law_lines_end_at_line_feeds(a, after);
    assert(a.take(key.len() as int) =~= key);
    assert(a.skip(key.len() as int) =~= list);
    words::law_trimming_takes_the_ends(none, list, none);
    assert(none + list + none =~= list);
    let tabbed = "Cpus_allowed_list:\t"@;
    assert(tabbed =~= key.push('\t'));
    let b = tabbed + list;
    assert(words::free_of(b, '\n')) by {
        assert forall|i: int| 0 <= i < b.len() implies #[trigger] b[i] != '\n' by {
            if i < tabbed.len() {
                assert(b[i] == tabbed[i]);
            } else {
                assert(b[i] == list[i - tabbed.len()]);
            }
        }
    }
    assert(b.last() == list.last());
    words::law_lines_end_at_line_feeds(b, after);
    assert(b.take(key.len() as int) =~= key);
    assert(b.skip(key.len() as int) =~= seq!['\t'] + list);
    words::law_trimming_takes_the_ends(seq!['\t'], list, none);
    assert(seq!['\t'] + list + none =~= seq!['\t'] + list);
    assert(text::lines(none) =~= Seq::<Seq<char>>::empty());
}

// ---------------------------------------------------------------------
// Clusters
// ---------------------------------------------------------------------

/// How strong a kind of cluster is.
pub open spec fn power(k: CpuClusterKind) -> int {
    match k {
        CpuClusterKind::Unknown => 0,
        CpuClusterKind::Little => 1,
        CpuClusterKind::Mid => 2,
        CpuClusterKind::Big => 3,
        CpuClusterKind::Prime => 4,
    }
}

/// Kinds rise with capacity. One group alone is of unknown kind. Of two, the
/// lower is little and the upper big, unless the lower is above 300 and more
/// than half of the upper: then they are big and prime. Of three or more the
/// lowest is little, the highest prime, and the others big, but for the second
/// of four or more, which is in the middle.
pub proof fn law_kinds_rise_with_capacity(caps: Seq<u32>, i: int, j: int)
    requires
        0 <= i < j < caps.len(),
    ensures
        ({
            let a = power(topology::cluster_kind(caps, i));
            let b = power(topology::cluster_kind(caps, j));
            let n = caps.len();
            let near = 2 * caps[0] > caps[1] && caps[0] > 300;
            &&& a <= b
            &&& i == 0 || j == n - 1 ==> a < b
            &&& n == 2 ==> a == if near {
                3int
            } else {
                1
            }
            &&& n == 2 ==> b == if near {
                4int
            } else {
                3
            }
            &&& n > 2 && i == 0 ==> a == 1
            &&& n > 2 && j == n - 1 ==> b == 4
            &&& n == 3 && i == 1 ==> a == 3
            &&& n > 3 && i == 1 ==> a == 2
            &&& n > 3 && 1 < j < n - 1 ==> b == 3
        }),
        topology::cluster_kind(seq![caps[0]], 0) == CpuClusterKind::Unknown,
{
}

/// Whether a directory says that a CPU has a capacity.
pub open spec fn reports(r: CapacityReading, cpu: nat, cap: nat) -> bool {
    &&& r.name@ == "cpu"@ + text::decimal(cpu)
    &&& r.capacity@ == text::decimal(cap) || r.capacity@ == text::decimal(cap) + seq!['\n']
}

proof fn lemma_reports(r: CapacityReading, cpu: nat, cap: nat)
    requires
        reports(r, cpu, cap),
        cpu <= u64::MAX,
        cap <= u32::MAX,
    ensures
        r.group_member() == Some((cap as u32, cpu)),
{
    reveal_strlit("cpu");
    let d = text::decimal(cap);
    let none = Seq::<char>::empty();
    text::lemma_decimal(cap);
    assert(text::is_digit(d[0]) && text::is_digit(d[d.len() - 1]));
    words::law_trimming_takes_the_ends(none, d, none);
    words::law_trimming_takes_the_ends(none, d, seq!['\n']);
    assert(none + d + none =~= d);
    assert(none + d + seq!['\n'] =~= d + seq!['\n']);
    words::law_numbers_are_read_as_written(cap, u32::MAX as nat, 0);
    words::law_numbers_are_read_as_written(cpu, u64::MAX as nat, 0);
    assert(r.name@.skip(3) =~= text::decimal(cpu));
    assert(r.name@.take(3) =~= "cpu"@);
}

/// A CPU whose capacity was read is in the cluster of that capacity, and that
/// cluster says so in its list. Clusters stand in the order of their
/// capacities, and no CPU is in one without a reading.
pub proof fn law_cpus_are_in_the_cluster_of_their_capacity(
    clusters: Seq<CpuCluster>,
    readings: Seq<CapacityReading>,
    k: int,
    cpu: nat,
    cap: nat,
)
    requires
        topology::groups_readings(clusters, readings),
        0 <= k < readings.len(),
        reports(readings[k], cpu, cap),
        cpu < 1024,
        cap <= u32::MAX,
    ensures
        exists|i: int|
            0 <= i < clusters.len() && (#[trigger] clusters[i]).capacity == cap
                && clusters[i].cpus@.contains(cpu as int) && topology::range_cpus(
                clusters[i].range_str@,
            ).contains(cpu as int),
        forall|i: int, j: int|
            0 <= i < j < clusters.len() ==> (#[trigger] clusters[i]).capacity < (
            #[trigger] clusters[j]).capacity,
        forall|i: int, c: int|
            0 <= i < clusters.len() && #[trigger] clusters[i].cpus@.contains(c) ==> 0 <= c < 1024
                && exists|m: int|
                0 <= m < readings.len() && #[trigger] readings[m].group_member() == Some(
                    (clusters[i].capacity, c as nat),
                ),
{
    lemma_reports(readings[k], cpu, cap);
    let caps = Seq::new(clusters.len(), |i: int| clusters[i].capacity);
    assert(readings[k].group_member() == Some((cap as u32, cpu)));
    assert(topology::reads_capacity(readings, cap as u32));
    let i = choose|i: int| 0 <= i < caps.len() && caps[i] == cap as u32;
    let c = clusters[i];
    assert(readings[k].group_member() == Some((c.capacity, (cpu as int) as nat)));
    assert(topology::reads_as(readings, c.capacity, cpu as int));
    assert(c.cpus@.contains(cpu as int));
    topology::law_range_round_trip(c.cpus@);
}

/// Whether a directory says that a frequency policy has a CPU list.
pub open spec fn governs(r: PolicyReading, n: nat, list: Seq<char>) -> bool {
    &&& r.name@ == "policy"@ + text::decimal(n)
    &&& match r.related {
        Some(t) => t@ == list,
        None => r.affected matches Some(t) && t@ == list,
    }
}

proof fn lemma_placed(d: Seq<(nat, Set<int>)>, e: (nat, Set<int>))
    ensures
        ({
            let all = topology::place_domain(d, e);
            &&& all.len() == d.len() + 1
            &&& forall|x: (nat, Set<int>)| #[trigger] all.contains(x) <==> d.contains(x) || x == e
            &&& rising(d) ==> rising(all)
        }),
    decreases d.len(),
{
    let all = topology::place_domain(d, e);
    if d.len() == 0 || d.last().0 <= e.0 {
        assert forall|x: (nat, Set<int>)| #[trigger] all.contains(x) <==> d.contains(x) || x
            == e by {
            if d.contains(x) {
                let i = choose|i: int| 0 <= i < d.len() && d[i] == x;
                assert(all[i] == x);
            }
            assert(all[d.len() as int] == e);
        }
        if rising(d) {
            assert forall|i: int, j: int| 0 <= i <= j < all.len() implies (#[trigger] all[i]).0 <= (
            #[trigger] all[j]).0 by {
                if i < d.len() {
                    assert(d[i].0 <= d[d.len() - 1].0);
                    if j < d.len() {
                        assert(d[i].0 <= d[j].0);
                    }
                }
            }
        }
    } else {
        let front = d.drop_last();
        let before = topology::place_domain(front, e);
        lemma_placed(front, e);
        assert forall|x: (nat, Set<int>)| #[trigger] all.contains(x) <==> d.contains(x) || x
            == e by {
            if d.contains(x) {
                let i = choose|i: int| 0 <= i < d.len() && d[i] == x;
                if i < front.len() {
                    assert(front[i] == x);
                    assert(before.contains(x));
                    let k = choose|k: int| 0 <= k < before.len() && before[k] == x;
                    assert(all[k] == x);
                } else {
                    assert(all[before.len() as int] == x);
                }
            }
            if x == e {
                assert(before.contains(x));
                let k = choose|k: int| 0 <= k < before.len() && before[k] == x;
                assert(all[k] == x);
            }
            if all.contains(x) {
                let k = choose|k: int| 0 <= k < all.len() && all[k] == x;
                if k < before.len() {
                    assert(before[k] == x);
                    assert(before.contains(x));
                    if front.contains(x) {
                        let i = choose|i: int| 0 <= i < front.len() && front[i] == x;
                        assert(d[i] == x);
                    }
                } else {
                    assert(d[d.len() - 1] == x);
                }
            }
        }
        if rising(d) {
            assert(rising(front)) by {
                assert forall|i: int, j: int| 0 <= i <= j < front.len() implies (
                #[trigger] front[i]).0 <= (#[trigger] front[j]).0 by {
                    assert(d[i].0 <= d[j].0);
                }
            }
            assert forall|i: int, j: int| 0 <= i <= j < all.len() implies (#[trigger] all[i]).0 <= (
            #[trigger] all[j]).0 by {
                if j < before.len() {
                    assert(before[i].0 <= before[j].0);
                } else if i < before.len() {
                    assert(before.contains(before[i]));
                    if front.contains(before[i]) {
                        let k = choose|k: int| 0 <= k < front.len() && front[k] == before[i];
                        assert(d[k].0 <= d[d.len() - 1].0);
                    }
                }
            }
        }
    }
}

/// Whether domains stand in the order of their policies.
pub open spec fn rising(d: Seq<(nat, Set<int>)>) -> bool {
    forall|i: int, j: int| 0 <= i <= j < d.len() ==> (#[trigger] d[i]).0 <= (#[trigger] d[j]).0
}

/// Each frequency policy with a CPU makes a domain of the CPUs in its list,
/// and no others do; they stand in the order of their policies. The list of
/// related CPUs goes before that of the affected ones.
pub proof fn law_policies_make_domains(
    readings: Seq<PolicyReading>,
    k: int,
    n: nat,
    list: Seq<char>,
)
    ensures
        rising(topology::domains(readings)),
        0 <= k < readings.len() && governs(readings[k], n, list) && n <= u64::MAX
            && topology::range_cpus(text::trim(list)) != Set::<int>::empty()
            ==> topology::domains(readings).contains(
            (n, topology::range_cpus(text::trim(list))),
        ),
        forall|d: (nat, Set<int>)| #[trigger]
            topology::domains(readings).contains(d) ==> d.1 != Set::<int>::empty() && exists|m: int|
                0 <= m < readings.len() && #[trigger] readings[m].domain() == Some(d),
    decreases readings.len(),
{
    if readings.len() > 0 {
        let front = readings.drop_last();
        let last = readings.len() - 1;
        let before = topology::domains(front);
        let all = topology::domains(readings);
        law_policies_make_domains(front, k, n, list);
        assert forall|i: int| 0 <= i < last implies #[trigger] front[i] == readings[i] by {}
        if let Some(e) = readings[last].domain() {
            lemma_placed(before, e);
        }
        if 0 <= k < readings.len() && governs(readings[k], n, list) && n <= u64::MAX
            && topology::range_cpus(text::trim(list)) != Set::<int>::empty() {
            lemma_governs(readings[k], n, list);
            if k < last {
                assert(front[k] == readings[k]);
                assert(before.contains((n, topology::range_cpus(text::trim(list)))));
            }
        }
        assert forall|d: (nat, Set<int>)| #[trigger] all.contains(d) implies d.1 != Set::<
            int,
        >::empty() && exists|m: int|
            0 <= m < readings.len() && #[trigger] readings[m].domain() == Some(d) by {
            if before.contains(d) {
                let m = choose|m: int|
                    0 <= m < front.len() && #[trigger] front[m].domain() == Some(d);
                assert(readings[m].domain() == Some(d));
            } else {
                assert(readings[last].domain() == Some(d));
            }
        }
    }
}

proof fn lemma_governs(r: PolicyReading, n: nat, list: Seq<char>)
    requires
        governs(r, n, list),
        n <= u64::MAX,
        topology::range_cpus(text::trim(list)) != Set::<int>::empty(),
    ensures
        r.domain() == Some((n, topology::range_cpus(text::trim(list)))),
{
    reveal_strlit("policy");
    words::law_numbers_are_read_as_written(n, u64::MAX as nat, 0);
    assert(r.name@.skip(6) =~= text::decimal(n));
    assert(r.name@.take(6) =~= "policy"@);
}

} // verus!
