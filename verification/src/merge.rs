//! How the policies of several matching rules become one.
//!
//! | field      | strategy                                               |
//! |------------|--------------------------------------------------------|
//! | CPUs       | union within the highest-ranking source that names any |
//! | scheduling | the first in order of rank                             |
//! | niceness   | the first in order of rank                             |
//! | lower clamp| the highest of all                                     |
//! | upper clamp| the lowest of all                                      |

use vstd::prelude::*;

use crate::policy::{Policy, PolicyView, SchedPolicy};
use crate::ruleset;
use crate::ruleset::{CompiledRule, CompiledView, RuleMatch, RuleSource};
use crate::text;
use crate::topology;
use crate::topology::CpuSet;

verus! {

/// How a field is merged.
#[derive(Debug, Clone, Copy, PartialEq, Eq, Structural)]
pub enum MergeStrategy {
    /// A higher-ranking source replaces the field.
    Override,
    /// A lower-ranking source fills a gap.
    FillMissing,
    /// Union within one source.
    BitOr,
    /// The first in order of rank.
    FirstWins,
    /// The highest value.
    Max,
    /// The lowest value.
    Min,
}

/// The strategy of each field.
pub open spec fn merge_table_spec() -> Seq<(Seq<char>, MergeStrategy)> {
    seq![
        ("cpus"@, MergeStrategy::BitOr),
        ("sched"@, MergeStrategy::FirstWins),
        ("nice"@, MergeStrategy::FirstWins),
        ("uclamp_min"@, MergeStrategy::Max),
        ("uclamp_max"@, MergeStrategy::Min),
    ]
}

/// The strategy of each field.
pub fn merge_table() -> (r: Vec<(&'static str, MergeStrategy)>)
    ensures
        r@.len() == merge_table_spec().len(),
        forall|i: int|
            0 <= i < r@.len() ==> ((#[trigger] r@[i]).0@, r@[i].1) == merge_table_spec()[i],
{
    vec![
        ("cpus", MergeStrategy::BitOr),
        ("sched", MergeStrategy::FirstWins),
        ("nice", MergeStrategy::FirstWins),
        ("uclamp_min", MergeStrategy::Max),
        ("uclamp_max", MergeStrategy::Min),
    ]
}

/// Whether the table names each field once, which it does.
pub fn validate_table() -> (r: bool)
    ensures
        r == (forall|i: int, j: int|
            0 <= i < j < merge_table_spec().len() ==> (#[trigger] merge_table_spec()[i]).0 != (
            #[trigger] merge_table_spec()[j]).0),
        r,
{
    let table = merge_table();
    proof {
        reveal_strlit("cpus");
        reveal_strlit("sched");
        reveal_strlit("nice");
        reveal_strlit("uclamp_min");
        reveal_strlit("uclamp_max");
        assert("cpus"@[0] == 'c' && "nice"@[0] == 'n');
        assert("uclamp_min"@[8] == 'i' && "uclamp_max"@[8] == 'a');
        assert("sched"@.len() == 5 && "cpus"@.len() == 4 && "uclamp_min"@.len() == 10);
    }
    let mut i: usize = 0;
    while i < table.len()
        invariant
            0 <= i <= table@.len(),
            table@.len() == merge_table_spec().len(),
            forall|k: int|
                0 <= k < table@.len() ==> ((#[trigger] table@[k]).0@, table@[k].1)
                    == merge_table_spec()[k],
            forall|k: int, j: int|
                0 <= k < j < merge_table_spec().len() ==> (#[trigger] merge_table_spec()[k]).0 != (
                #[trigger] merge_table_spec()[j]).0,
        decreases table@.len() - i,
    {
        let mut j: usize = i + 1;
        while j < table.len()
            invariant
                0 <= i < j <= table@.len(),
                table@.len() == merge_table_spec().len(),
                forall|k: int|
                    0 <= k < table@.len() ==> ((#[trigger] table@[k]).0@, table@[k].1)
                        == merge_table_spec()[k],
                forall|k: int, m: int|
                    0 <= k < m < merge_table_spec().len() ==> (#[trigger] merge_table_spec()[k]).0
                        != (#[trigger] merge_table_spec()[m]).0,
            decreases table@.len() - j,
        {
            if text::same_text(table[i].0, table[j].0) {
                proof {
                    assert(merge_table_spec()[i as int].0 != merge_table_spec()[j as int].0);
                }
                return false;
            }
            j += 1;
        }
        i += 1;
    }
    true
}

// ---------------------------------------------------------------------
// Merging
// ---------------------------------------------------------------------

/// The policy of the rule that a match points to.
pub open spec fn matched(m: RuleMatch, rules: Seq<CompiledView>) -> PolicyView {
    rules[m.index as int].policy
}

/// Index of the first match, in order of rank and then of the list, whose
/// policy satisfies `p`.
pub open spec fn leader(
    ms: Seq<RuleMatch>,
    rules: Seq<CompiledView>,
    p: spec_fn(PolicyView) -> bool,
) -> Option<int>
    decreases ms.len(),
{
    if ms.len() == 0 {
        None
    } else {
        let last = ms.len() - 1;
        match leader(ms.drop_last(), rules, p) {
            None => if p(matched(ms[last], rules)) {
                Some(last)
            } else {
                None
            },
            Some(k) => if p(matched(ms[last], rules)) && ms[last].source.rank()
                > ms[k].source.rank() {
                Some(last)
            } else {
                Some(k)
            },
        }
    }
}

/// The test for a policy with CPUs.
pub open spec fn with_cpus() -> spec_fn(PolicyView) -> bool {
    |p: PolicyView| p.cpus != Set::<int>::empty()
}

/// The test for a policy with a scheduling class.
pub open spec fn with_sched() -> spec_fn(PolicyView) -> bool {
    |p: PolicyView| p.sched is Some
}

/// The test for a policy with a niceness.
pub open spec fn with_nice() -> spec_fn(PolicyView) -> bool {
    |p: PolicyView| p.nice is Some
}

/// All CPUs of the matches of one source.
pub open spec fn source_cpus(
    ms: Seq<RuleMatch>,
    rules: Seq<CompiledView>,
    source: RuleSource,
) -> Set<int>
    decreases ms.len(),
{
    if ms.len() == 0 {
        Set::empty()
    } else {
        let before = source_cpus(ms.drop_last(), rules, source);
        if ms.last().source == source {
            before.union(matched(ms.last(), rules).cpus)
        } else {
            before
        }
    }
}

/// The higher of two floors.
pub open spec fn higher(a: Option<u32>, b: Option<u32>) -> Option<u32> {
    match (a, b) {
        (Some(x), Some(y)) => if x >= y {
            Some(x)
        } else {
            Some(y)
        },
        (Some(x), None) => Some(x),
        (None, y) => y,
    }
}

/// The lower of two ceilings.
pub open spec fn lower(a: Option<u32>, b: Option<u32>) -> Option<u32> {
    match (a, b) {
        (Some(x), Some(y)) => if x <= y {
            Some(x)
        } else {
            Some(y)
        },
        (Some(x), None) => Some(x),
        (None, y) => y,
    }
}

/// The highest floor of all matches.
pub open spec fn highest_floor(ms: Seq<RuleMatch>, rules: Seq<CompiledView>) -> Option<u32>
    decreases ms.len(),
{
    if ms.len() == 0 {
        None
    } else {
        higher(highest_floor(ms.drop_last(), rules), matched(ms.last(), rules).uclamp_min)
    }
}

/// The lowest ceiling of all matches.
pub open spec fn lowest_ceiling(ms: Seq<RuleMatch>, rules: Seq<CompiledView>) -> Option<u32>
    decreases ms.len(),
{
    if ms.len() == 0 {
        None
    } else {
        lower(lowest_ceiling(ms.drop_last(), rules), matched(ms.last(), rules).uclamp_max)
    }
}

/// The merged policy, before it is known to say anything.
pub open spec fn merged_fields(ms: Seq<RuleMatch>, rules: Seq<CompiledView>) -> PolicyView {
    let cpus = match leader(ms, rules, with_cpus()) {
        Some(k) => source_cpus(ms, rules, ms[k].source),
        None => Set::empty(),
    };
    PolicyView {
        cpus,
        cpuset_dir: topology::range_text(cpus),
        sched: match leader(ms, rules, with_sched()) {
            Some(k) => matched(ms[k], rules).sched,
            None => None,
        },
        sched_prio: match leader(ms, rules, with_sched()) {
            Some(k) => matched(ms[k], rules).sched_prio,
            None => None,
        },
        nice: match leader(ms, rules, with_nice()) {
            Some(k) => matched(ms[k], rules).nice,
            None => None,
        },
        uclamp_min: highest_floor(ms, rules),
        uclamp_max: lowest_ceiling(ms, rules),
    }
}

/// Whether a policy says nothing at all.
pub open spec fn says_nothing(p: PolicyView) -> bool {
    p.cpus == Set::<int>::empty() && p.sched is None && p.nice is None && p.uclamp_min is None
        && p.uclamp_max is None
}

/// The policy of several matches; None when it says nothing.
pub open spec fn merged(ms: Seq<RuleMatch>, rules: Seq<CompiledView>) -> Option<PolicyView> {
    let p = merged_fields(ms, rules);
    if says_nothing(p) {
        None
    } else {
        Some(p)
    }
}

/// Whether all matches point to rules.
pub open spec fn in_range(ms: Seq<RuleMatch>, rules: Seq<CompiledView>) -> bool {
    forall|i: int| 0 <= i < ms.len() ==> (#[trigger] ms[i]).index < rules.len()
}

/// What `leader` returns: a match that satisfies the test, none that does
/// ranks higher, and none of its rank stands before it.
pub proof fn lemma_leader(
    ms: Seq<RuleMatch>,
    rules: Seq<CompiledView>,
    p: spec_fn(PolicyView) -> bool,
)
    ensures
        match leader(ms, rules, p) {
            Some(k) => {
                &&& 0 <= k < ms.len()
                &&& p(matched(ms[k], rules))
                &&& forall|j: int|
                    0 <= j < ms.len() && p(matched(#[trigger] ms[j], rules))
                        ==> ms[j].source.rank() < ms[k].source.rank() || (ms[j].source.rank()
                        == ms[k].source.rank() && k <= j)
            },
            None => forall|j: int|
                0 <= j < ms.len() ==> !p(matched(#[trigger] ms[j], rules)),
        },
    decreases ms.len(),
{
    if ms.len() > 0 {
        let front = ms.drop_last();
        lemma_leader(front, rules, p);
        assert forall|j: int| 0 <= j < front.len() implies front[j] == #[trigger] ms[j] by {}
    }
}

/// The CPUs of one match are among those of its source.
proof fn lemma_source_cpus(
    ms: Seq<RuleMatch>,
    rules: Seq<CompiledView>,
    source: RuleSource,
    k: int,
)
    requires
        0 <= k < ms.len(),
        ms[k].source == source,
    ensures
        matched(ms[k], rules).cpus.subset_of(source_cpus(ms, rules, source)),
    decreases ms.len(),
{
    if k < ms.len() - 1 {
        assert(ms.drop_last()[k] == ms[k]);
        lemma_source_cpus(ms.drop_last(), rules, source, k);
    }
}

fn max_of(a: Option<u32>, b: Option<u32>) -> (r: Option<u32>)
    ensures
        r == higher(a, b),
{
    match (a, b) {
        (Some(x), Some(y)) => if x >= y {
            Some(x)
        } else {
            Some(y)
        },
        (Some(x), None) => Some(x),
        (None, y) => y,
    }
}

fn min_of(a: Option<u32>, b: Option<u32>) -> (r: Option<u32>)
    ensures
        r == lower(a, b),
{
    match (a, b) {
        (Some(x), Some(y)) => if x <= y {
            Some(x)
        } else {
            Some(y)
        },
        (Some(x), None) => Some(x),
        (None, y) => y,
    }
}

/// One more match at the end of the list: whether it takes the lead.
fn takes_lead(lead: Option<usize>, ms: &[RuleMatch], i: usize) -> (r: bool)
    requires
        i < ms@.len(),
        lead matches Some(k) ==> k < ms@.len(),
    ensures
        r == match lead {
            None => true,
            Some(k) => ms@[i as int].source.rank() > ms@[k as int].source.rank(),
        },
{
    match lead {
        None => true,
        Some(k) => ms[i].source.priority() > ms[k].source.priority(),
    }
}

spec fn lead_is(lead: Option<usize>, want: Option<int>) -> bool {
    match lead {
        Some(k) => want == Some(k as int),
        None => want is None,
    }
}

/// Merges the policies of the rules that the matches point to. Nothing
/// depends on the order of the sources in the list.
pub fn merge_rules(matches: &[RuleMatch], rules: &[CompiledRule]) -> (r: Option<Policy>)
    requires
        in_range(matches@, ruleset::compiled_views(rules@)),
    ensures
        match r {
            Some(p) => merged(matches@, ruleset::compiled_views(rules@)) == Some(p@),
            None => merged(matches@, ruleset::compiled_views(rules@)) is None,
        },
{
    let mut lead_cpus: Option<usize> = None;
    let mut lead_sched: Option<usize> = None;
    let mut lead_nice: Option<usize> = None;
    let mut uclamp_min: Option<u32> = None;
    let mut uclamp_max: Option<u32> = None;
    let ghost ms = matches@;
    let ghost rs = ruleset::compiled_views(rules@);
    let mut i: usize = 0;
    proof {
        assert(ms.take(0) =~= Seq::<RuleMatch>::empty());
    }
    while i < matches.len()
        invariant
            0 <= i <= ms.len(),
            ms == matches@,
            rs == ruleset::compiled_views(rules@),
            in_range(ms, rs),
            lead_is(lead_cpus, leader(ms.take(i as int), rs, with_cpus())),
            lead_is(lead_sched, leader(ms.take(i as int), rs, with_sched())),
            lead_is(lead_nice, leader(ms.take(i as int), rs, with_nice())),
            lead_cpus matches Some(k) ==> k < i,
            lead_sched matches Some(k) ==> k < i,
            lead_nice matches Some(k) ==> k < i,
            uclamp_min == highest_floor(ms.take(i as int), rs),
            uclamp_max == lowest_ceiling(ms.take(i as int), rs),
        decreases ms.len() - i,
    {
        proof {
            assert(ms.take(i + 1).drop_last() =~= ms.take(i as int));
            assert(ms.take(i + 1).last() == ms[i as int]);
            assert forall|j: int| 0 <= j < i + 1 implies #[trigger] ms.take(i + 1)[j]
                == ms[j] by {}
        }
        let rule = &rules[matches[i].index];
        if rule.policy.cpus.count() > 0 && takes_lead(lead_cpus, matches, i) {
            lead_cpus = Some(i);
        }
        if rule.policy.sched.is_some() && takes_lead(lead_sched, matches, i) {
            lead_sched = Some(i);
        }
        if rule.policy.nice.is_some() && takes_lead(lead_nice, matches, i) {
            lead_nice = Some(i);
        }
        uclamp_min = max_of(uclamp_min, rule.policy.uclamp_min);
        uclamp_max = min_of(uclamp_max, rule.policy.uclamp_max);
        i += 1;
    }
    proof {
        assert(ms.take(i as int) =~= ms);
        lemma_leader(ms, rs, with_cpus());
        lemma_leader(ms, rs, with_sched());
        lemma_leader(ms, rs, with_nice());
    }
    let cpus = match lead_cpus {
        Some(k) => {
            proof {
                lemma_source_cpus(ms, rs, ms[k as int].source, k as int);
                let own = matched(ms[k as int], rs).cpus;
                if source_cpus(ms, rs, ms[k as int].source) == Set::<int>::empty() {
                    assert(own =~= Set::<int>::empty());
                }
            }
            union_of_source(matches, rules, matches[k].source)
        },
        None => CpuSet::new(),
    };
    let mut sched: Option<SchedPolicy> = None;
    let mut sched_prio: Option<i32> = None;
    match lead_sched {
        Some(k) => {
            sched = rules[matches[k].index].policy.sched;
            sched_prio = rules[matches[k].index].policy.sched_prio;
        },
        None => {},
    }
    let nice: Option<i32> = match lead_nice {
        Some(k) => rules[matches[k].index].policy.nice,
        None => None,
    };
    if cpus.count() == 0 && sched.is_none() && nice.is_none() && uclamp_min.is_none()
        && uclamp_max.is_none() {
        return None;
    }
    Some(
        Policy {
            cpus,
            cpuset_dir: cpus.to_range_string(),
            sched,
            sched_prio,
            nice,
            uclamp_min,
            uclamp_max,
        },
    )
}

fn union_of_source(matches: &[RuleMatch], rules: &[CompiledRule], source: RuleSource) -> (r: CpuSet)
    requires
        in_range(matches@, ruleset::compiled_views(rules@)),
    ensures
        r@ == source_cpus(matches@, ruleset::compiled_views(rules@), source),
{
    let mut cpus = CpuSet::new();
    let ghost ms = matches@;
    let ghost rs = ruleset::compiled_views(rules@);
    let mut i: usize = 0;
    proof {
        assert(ms.take(0) =~= Seq::<RuleMatch>::empty());
    }
    while i < matches.len()
        invariant
            0 <= i <= ms.len(),
            ms == matches@,
            rs == ruleset::compiled_views(rules@),
            in_range(ms, rs),
            cpus@ == source_cpus(ms.take(i as int), rs, source),
        decreases ms.len() - i,
    {
        proof {
            assert(ms.take(i + 1).drop_last() =~= ms.take(i as int));
            assert(ms.take(i + 1).last() == ms[i as int]);
        }
        if matches[i].source == source {
            cpus.or(&rules[matches[i].index].policy.cpus);
        }
        i += 1;
    }
    proof {
        assert(ms.take(i as int) =~= ms);
    }
    cpus
}

/// `primary` with the fields that it leaves open taken from `fallback`; the
/// directory name stays.
pub open spec fn filled(primary: PolicyView, fallback: PolicyView) -> PolicyView {
    PolicyView {
        cpus: if primary.cpus == Set::<int>::empty() {
            fallback.cpus
        } else {
            primary.cpus
        },
        cpuset_dir: primary.cpuset_dir,
        sched: if primary.sched is None {
            fallback.sched
        } else {
            primary.sched
        },
        sched_prio: if primary.sched is None {
            fallback.sched_prio
        } else {
            primary.sched_prio
        },
        nice: if primary.nice is None {
            fallback.nice
        } else {
            primary.nice
        },
        uclamp_min: if primary.uclamp_min is None {
            fallback.uclamp_min
        } else {
            primary.uclamp_min
        },
        uclamp_max: if primary.uclamp_max is None {
            fallback.uclamp_max
        } else {
            primary.uclamp_max
        },
    }
}

/// Fills the fields that `primary` leaves open from `fallback`.
pub fn fill_missing(primary: &mut Policy, fallback: &Policy)
    ensures
        final(primary)@ == filled(old(primary)@, fallback@),
{
    if primary.cpus.count() == 0 {
        primary.cpus = fallback.cpus;
    }
    if primary.sched.is_none() {
        primary.sched = fallback.sched;
        primary.sched_prio = fallback.sched_prio;
    }
    if primary.nice.is_none() {
        primary.nice = fallback.nice;
    }
    if primary.uclamp_min.is_none() {
        primary.uclamp_min = fallback.uclamp_min;
    }
    if primary.uclamp_max.is_none() {
        primary.uclamp_max = fallback.uclamp_max;
    }
}

// ---------------------------------------------------------------------
// Laws
// ---------------------------------------------------------------------

/// No floor is undercut and no ceiling exceeded: the merged lower clamp is at
/// least, and the merged upper clamp at most, that of every match.
pub proof fn law_clamps_hold(ms: Seq<RuleMatch>, rules: Seq<CompiledView>, k: int)
    requires
        0 <= k < ms.len(),
    ensures
        matched(ms[k], rules).uclamp_min matches Some(a) ==> (merged_fields(
            ms,
            rules,
        ).uclamp_min matches Some(b) && a <= b),
        matched(ms[k], rules).uclamp_max matches Some(a) ==> (merged_fields(
            ms,
            rules,
        ).uclamp_max matches Some(b) && b <= a),
    decreases ms.len(),
{
    if k < ms.len() - 1 {
        assert(ms.drop_last()[k] == ms[k]);
        law_clamps_hold(ms.drop_last(), rules, k);
    }
}

/// The scheduling class, and likewise the niceness, is that of a match that
/// no match with one outranks, and it is set when any match sets it.
pub proof fn law_highest_source_decides(ms: Seq<RuleMatch>, rules: Seq<CompiledView>, k: int)
    requires
        0 <= k < ms.len(),
    ensures
        matched(ms[k], rules).sched is Some ==> exists|j: int|
            0 <= j < ms.len() && (#[trigger] ms[j]).source.rank() >= ms[k].source.rank()
                && matched(ms[j], rules).sched is Some && merged_fields(ms, rules).sched == matched(
                ms[j],
                rules,
            ).sched && merged_fields(ms, rules).sched_prio == matched(ms[j], rules).sched_prio,
        matched(ms[k], rules).nice is Some ==> exists|j: int|
            0 <= j < ms.len() && (#[trigger] ms[j]).source.rank() >= ms[k].source.rank()
                && matched(ms[j], rules).nice is Some && merged_fields(ms, rules).nice == matched(
                ms[j],
                rules,
            ).nice,
{
    lemma_leader(ms, rules, with_sched());
    lemma_leader(ms, rules, with_nice());
    if matched(ms[k], rules).sched is Some {
        assert(with_sched()(matched(ms[k], rules)));
        let j = leader(ms, rules, with_sched())->0;
        assert(with_sched()(matched(ms[j], rules)));
        assert(ms[j].source.rank() >= ms[k].source.rank());
    }
    if matched(ms[k], rules).nice is Some {
        assert(with_nice()(matched(ms[k], rules)));
        let j = leader(ms, rules, with_nice())->0;
        assert(with_nice()(matched(ms[j], rules)));
        assert(ms[j].source.rank() >= ms[k].source.rank());
    }
}

/// The merged CPUs take in those of a match unless a source that ranks higher
/// names CPUs.
pub proof fn law_cpus_unite_within_a_source(
    ms: Seq<RuleMatch>,
    rules: Seq<CompiledView>,
    k: int,
)
    requires
        0 <= k < ms.len(),
        forall|j: int|
            0 <= j < ms.len() && (#[trigger] ms[j]).source.rank() > ms[k].source.rank()
                ==> matched(ms[j], rules).cpus == Set::<int>::empty(),
    ensures
        matched(ms[k], rules).cpus.subset_of(merged_fields(ms, rules).cpus),
{
    lemma_leader(ms, rules, with_cpus());
    let own = matched(ms[k], rules).cpus;
    if own != Set::<int>::empty() {
        assert(with_cpus()(matched(ms[k], rules)));
        let j = leader(ms, rules, with_cpus())->0;
        assert(with_cpus()(matched(ms[j], rules)));
        assert(ms[j].source.rank() == ms[k].source.rank());
        assert(ms[j].source == ms[k].source);
        lemma_source_cpus(ms, rules, ms[j].source, k);
    } else {
        assert(own =~= Set::<int>::empty());
    }
}

/// Filling gaps never changes a field that is set.
pub proof fn law_filling_keeps_what_is_set(primary: PolicyView, fallback: PolicyView)
    ensures
        primary.cpus != Set::<int>::empty() ==> filled(primary, fallback).cpus == primary.cpus,
        primary.sched is Some ==> filled(primary, fallback).sched == primary.sched && filled(
            primary,
            fallback,
        ).sched_prio == primary.sched_prio,
        primary.nice is Some ==> filled(primary, fallback).nice == primary.nice,
        primary.uclamp_min is Some ==> filled(primary, fallback).uclamp_min == primary.uclamp_min,
        primary.uclamp_max is Some ==> filled(primary, fallback).uclamp_max == primary.uclamp_max,
        says_nothing(primary) ==> filled(primary, fallback).cpus == fallback.cpus && filled(
            primary,
            fallback,
        ).sched == fallback.sched && filled(primary, fallback).nice == fallback.nice,
{
}

/// All merged CPUs come from one source: when a match names CPUs, from one
/// that ranks at least as high, and lower sources add none.
pub proof fn law_cpus_come_from_one_source(
    ms: Seq<RuleMatch>,
    rules: Seq<CompiledView>,
    k: int,
)
    requires
        0 <= k < ms.len(),
        matched(ms[k], rules).cpus != Set::<int>::empty(),
    ensures
        exists|j: int|
            0 <= j < ms.len() && (#[trigger] ms[j]).source.rank() >= ms[k].source.rank()
                && merged_fields(ms, rules).cpus == source_cpus(ms, rules, ms[j].source),
{
    lemma_leader(ms, rules, with_cpus());
    assert(with_cpus()(matched(ms[k], rules)));
    let j = leader(ms, rules, with_cpus())->0;
    assert(with_cpus()(matched(ms[j], rules)));
    assert(ms[j].source.rank() >= ms[k].source.rank());
}

} // verus!
