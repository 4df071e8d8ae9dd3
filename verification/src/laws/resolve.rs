//! Which rules decide about a thread, and what they decide.

use vstd::prelude::*;

use crate::merge;
use crate::policy::PolicyView;
use crate::ruleset;
use crate::ruleset::{CompiledView, RuleMatch, RuleSource};
use crate::text;
use crate::topology;

verus! {

// ---------------------------------------------------------------------
// What the laws speak of
// ---------------------------------------------------------------------

/// Whether a name is to be taken as it is: it has none of the characters that
/// stand for others.
pub open spec fn literal(s: Seq<char>) -> bool {
    forall|i: int| 0 <= i < s.len() ==> #[trigger] s[i] != '*' && s[i] != '?' && s[i] != '['
}

/// Whether the package pattern of a rule matches a package.
pub open spec fn caught(
    rules: Seq<CompiledView>,
    k: int,
    pkg: Seq<char>,
    pkg_hits: Seq<Seq<char>>,
) -> bool {
    !literal(rules[k].pkg) && text::bytes(pkg) < 128 && pkg_hits.contains(rules[k].pkg)
}

/// Whether no pattern that matches goes before that of a rule: none has a
/// higher score, and one that has the same score is the same pattern or
/// appears later.
pub open spec fn unbeaten(
    rules: Seq<CompiledView>,
    k: int,
    pkg: Seq<char>,
    pkg_hits: Seq<Seq<char>>,
) -> bool {
    forall|j: int|
        0 <= j < rules.len() && #[trigger] caught(rules, j, pkg, pkg_hits) ==> {
            ||| ruleset::specificity(rules[j].pkg) < ruleset::specificity(rules[k].pkg)
            ||| rules[j].pkg == rules[k].pkg
            ||| ruleset::specificity(rules[j].pkg) == ruleset::specificity(rules[k].pkg) && exists|
                i: int,
            | 0 <= i < j && (#[trigger] rules[i]).pkg == rules[k].pkg
        }
}

/// How strongly a rule speaks about a thread of a package. Rules for the
/// thread's name go before rules for all threads, and within each rules for
/// the package's name before those of the best pattern. Zero: not at all.
pub open spec fn strength(
    rules: Seq<CompiledView>,
    k: int,
    pkg: Seq<char>,
    pkg_hits: Seq<Seq<char>>,
    thread: Seq<char>,
    thread_hits: Seq<Seq<char>>,
) -> int {
    let by_package = if rules[k].pkg == pkg && literal(pkg) {
        2int
    } else if caught(rules, k, pkg, pkg_hits) && unbeaten(rules, k, pkg, pkg_hits) {
        1
    } else {
        0
    };
    if by_package == 0 {
        0
    } else if rules[k].thread.len() == 0 {
        by_package
    } else if text::bytes(thread) < 32 && thread_hits.contains(rules[k].thread) {
        by_package + 2
    } else {
        0
    }
}

/// The policy that a thread of a package gets.
pub open spec fn outcome(
    rules: Seq<CompiledView>,
    pkg: Seq<char>,
    pkg_hits: Seq<Seq<char>>,
    thread: Seq<char>,
    thread_hits: Seq<Seq<char>>,
) -> Option<PolicyView> {
    ruleset::resolved(
        ruleset::package_matches(rules, pkg, pkg_hits),
        rules,
        thread,
        thread_hits,
    )
}

// ---------------------------------------------------------------------
// Lists of matches
// ---------------------------------------------------------------------

/// Whether matches of one source stand in the order of their rules.
spec fn in_order(ms: Seq<RuleMatch>) -> bool {
    forall|a: int, b: int|
        0 <= a < b < ms.len() && (#[trigger] ms[a]).source == (#[trigger] ms[b]).source
            ==> ms[a].index < ms[b].index
}

pub proof fn lemma_literal(s: Seq<char>)
    ensures
        literal(s) == !ruleset::is_pattern(s),
{
    if ruleset::is_pattern(s) {
        let i = choose|i: int| 0 <= i < s.len() && ruleset::is_pattern_char()(#[trigger] s[i]);
        assert(s[i] == '*' || s[i] == '?' || s[i] == '[');
    } else {
        assert forall|i: int| 0 <= i < s.len() implies #[trigger] s[i] != '*' && s[i] != '?' && s[i]
            != '[' by {
            assert(!ruleset::is_pattern_char()(s[i]));
        }
    }
}

proof fn lemma_exact(rules: Seq<CompiledView>, pkg: Seq<char>)
    requires
        rules.len() <= usize::MAX,
    ensures
        forall|m: RuleMatch| #[trigger]
            ruleset::exact_matches(rules, pkg).contains(m) <==> m.source == RuleSource::PackageExact
                && m.index < rules.len() && rules[m.index as int].pkg == pkg && literal(pkg),
        in_order(ruleset::exact_matches(rules, pkg)),
    decreases rules.len(),
{
    lemma_literal(pkg);
    let all = ruleset::exact_matches(rules, pkg);
    if rules.len() > 0 {
        let front = rules.drop_last();
        let before = ruleset::exact_matches(front, pkg);
        lemma_exact(front, pkg);
        let last = RuleMatch { index: (rules.len() - 1) as usize, source: RuleSource::PackageExact };
        assert forall|m: RuleMatch| #[trigger] all.contains(m) <==> m.source
            == RuleSource::PackageExact && m.index < rules.len() && rules[m.index as int].pkg == pkg
            && literal(pkg) by {
            lemma_push_contains(before, last, m);
            if m.index < front.len() {
                assert(front[m.index as int] == rules[m.index as int]);
            }
            assert(before.contains(m) ==> m.index < front.len());
        }
        assert forall|a: int, b: int|
            0 <= a < b < all.len() && (#[trigger] all[a]).source == (
            #[trigger] all[b]).source implies all[a].index < all[b].index by {
            if b == before.len() {
                assert(before.contains(before[a]));
            } else {
                assert(all[a] == before[a] && all[b] == before[b]);
            }
        }
    } else {
        assert(all =~= Seq::<RuleMatch>::empty());
    }
}

proof fn lemma_push_contains(s: Seq<RuleMatch>, x: RuleMatch, m: RuleMatch)
    ensures
        s.push(x).contains(m) == (s.contains(m) || m == x),
{
    if s.contains(m) {
        let i = choose|i: int| 0 <= i < s.len() && s[i] == m;
        assert(s.push(x)[i] == m);
    }
    if m == x {
        assert(s.push(x)[s.len() as int] == m);
    }
}

proof fn lemma_of_pattern(rules: Seq<CompiledView>, pattern: Seq<char>)
    requires
        rules.len() <= usize::MAX,
    ensures
        forall|m: RuleMatch| #[trigger]
            ruleset::pattern_matches(rules, pattern).contains(m) <==> m.source
                == RuleSource::PackageWildcard && m.index < rules.len() && rules[m.index as int].pkg
                == pattern,
        in_order(ruleset::pattern_matches(rules, pattern)),
    decreases rules.len(),
{
    let all = ruleset::pattern_matches(rules, pattern);
    if rules.len() > 0 {
        let front = rules.drop_last();
        let before = ruleset::pattern_matches(front, pattern);
        lemma_of_pattern(front, pattern);
        let last = RuleMatch {
            index: (rules.len() - 1) as usize,
            source: RuleSource::PackageWildcard,
        };
        assert forall|m: RuleMatch| #[trigger] all.contains(m) <==> m.source
            == RuleSource::PackageWildcard && m.index < rules.len() && rules[m.index as int].pkg
            == pattern by {
            lemma_push_contains(before, last, m);
            if m.index < front.len() {
                assert(front[m.index as int] == rules[m.index as int]);
            }
            assert(before.contains(m) ==> m.index < front.len());
        }
        assert forall|a: int, b: int|
            0 <= a < b < all.len() && (#[trigger] all[a]).source == (
            #[trigger] all[b]).source implies all[a].index < all[b].index by {
            if b == before.len() {
                assert(before.contains(before[a]));
            } else {
                assert(all[a] == before[a] && all[b] == before[b]);
            }
        }
    } else {
        assert(all =~= Seq::<RuleMatch>::empty());
    }
}

/// The pattern that is chosen is that of a rule which nothing beats, and a
/// rule which nothing beats has the pattern that is chosen.
proof fn lemma_best(rules: Seq<CompiledView>, pkg: Seq<char>, hits: Seq<Seq<char>>)
    ensures
        ruleset::best_pattern(rules, pkg, hits) matches Some(b) ==> exists|k: int|
            0 <= k < rules.len() && #[trigger] caught(rules, k, pkg, hits) && rules[k].pkg == b
                && unbeaten(rules, k, pkg, hits) && forall|i: int|
                0 <= i < k ==> (#[trigger] rules[i]).pkg != b,
        ruleset::best_pattern(rules, pkg, hits) is None ==> forall|k: int|
            0 <= k < rules.len() ==> !#[trigger] caught(rules, k, pkg, hits),
    decreases rules.len(),
{
    if rules.len() > 0 {
        let front = rules.drop_last();
        let n = rules.len() - 1;
        let c = rules.last().pkg;
        lemma_best(front, pkg, hits);
        lemma_literal(c);
        assert forall|k: int| 0 <= k < n implies #[trigger] caught(rules, k, pkg, hits) == caught(
            front,
            k,
            pkg,
            hits,
        ) by {
            assert(front[k] == rules[k]);
        }
        assert(caught(rules, n, pkg, hits) == ruleset::pattern_hits(c, pkg, hits));
        match ruleset::best_pattern(front, pkg, hits) {
            Some(b) => {
                let k = choose|k: int|
                    0 <= k < front.len() && #[trigger] caught(front, k, pkg, hits) && front[k].pkg
                        == b && unbeaten(front, k, pkg, hits) && forall|i: int|
                        0 <= i < k ==> (#[trigger] front[i]).pkg != b;
                assert(rules[k] == front[k]);
                assert(caught(rules, k, pkg, hits));
                if ruleset::pattern_hits(c, pkg, hits) && ruleset::specificity(c)
                    > ruleset::specificity(b) {
                    assert forall|j: int|
                        0 <= j < rules.len() && #[trigger] caught(rules, j, pkg, hits) implies {
                        ||| ruleset::specificity(rules[j].pkg) < ruleset::specificity(c)
                        ||| rules[j].pkg == c
                    } by {
                        if j < n {
                            assert(caught(front, j, pkg, hits));
                            assert(front[j] == rules[j]);
                        }
                    }
                    assert(unbeaten(rules, n, pkg, hits));
                    assert forall|i: int| 0 <= i < n implies (#[trigger] rules[i]).pkg != c by {
                        if rules[i].pkg == c {
                            assert(caught(rules, i, pkg, hits));
                            assert(caught(front, i, pkg, hits));
                            assert(front[i] == rules[i]);
                        }
                    }
                } else {
                    assert(unbeaten(rules, k, pkg, hits)) by {
                        assert forall|j: int|
                            0 <= j < rules.len() && #[trigger] caught(rules, j, pkg, hits) implies {
                            ||| ruleset::specificity(rules[j].pkg) < ruleset::specificity(
                                rules[k].pkg,
                            )
                            ||| rules[j].pkg == rules[k].pkg
                            ||| ruleset::specificity(rules[j].pkg) == ruleset::specificity(
                                rules[k].pkg,
                            ) && exists|i: int|
                                0 <= i < j && (#[trigger] rules[i]).pkg == rules[k].pkg
                        } by {
                            if j < n {
                                assert(caught(front, j, pkg, hits));
                                assert(front[j] == rules[j]);
                                if ruleset::specificity(rules[j].pkg) == ruleset::specificity(
                                    rules[k].pkg,
                                ) && rules[j].pkg != rules[k].pkg {
                                    let i = choose|i: int|
                                        0 <= i < j && (#[trigger] front[i]).pkg == front[k].pkg;
                                    assert(rules[i].pkg == rules[k].pkg);
                                }
                            } else {
                                assert(rules[k].pkg == b);
                            }
                        }
                    }
                    assert forall|i: int| 0 <= i < k implies (#[trigger] rules[i]).pkg != b by {
                        assert(front[i] == rules[i]);
                    }
                }
            },
            None => {
                if ruleset::pattern_hits(c, pkg, hits) {
                    assert forall|j: int|
                        0 <= j < rules.len() && #[trigger] caught(
                            rules,
                            j,
                            pkg,
                            hits,
                        ) implies rules[j].pkg == c by {
                        if j < n {
                            assert(caught(front, j, pkg, hits));
                        }
                    }
                    assert(unbeaten(rules, n, pkg, hits));
                    assert forall|i: int| 0 <= i < n implies (#[trigger] rules[i]).pkg != c by {
                        if rules[i].pkg == c {
                            assert(caught(rules, i, pkg, hits));
                            assert(caught(front, i, pkg, hits));
                        }
                    }
                } else {
                    assert forall|k: int| 0 <= k < rules.len() implies !#[trigger] caught(
                        rules,
                        k,
                        pkg,
                        hits,
                    ) by {
                        if k < n {
                            assert(!caught(front, k, pkg, hits));
                        }
                    }
                }
            },
        }
    }
}

/// Two patterns that nothing beats are one.
proof fn lemma_one_best(
    rules: Seq<CompiledView>,
    pkg: Seq<char>,
    hits: Seq<Seq<char>>,
    k: int,
    m: int,
)
    requires
        0 <= k < rules.len(),
        0 <= m < rules.len(),
        caught(rules, k, pkg, hits),
        unbeaten(rules, k, pkg, hits),
        caught(rules, m, pkg, hits),
        unbeaten(rules, m, pkg, hits),
        forall|i: int| 0 <= i < m ==> (#[trigger] rules[i]).pkg != rules[m].pkg,
    ensures
        rules[k].pkg == rules[m].pkg,
    decreases k,
{
    if rules[k].pkg != rules[m].pkg {
        assert(caught(rules, m, pkg, hits) && caught(rules, k, pkg, hits));
        let i = choose|i: int| 0 <= i < m && (#[trigger] rules[i]).pkg == rules[k].pkg;
        assert(caught(rules, i, pkg, hits));
        let h = choose|h: int| 0 <= h < i && (#[trigger] rules[h]).pkg == rules[m].pkg;
        assert(rules[h].pkg != rules[m].pkg);
    }
}

proof fn lemma_package(rules: Seq<CompiledView>, pkg: Seq<char>, hits: Seq<Seq<char>>)
    requires
        rules.len() <= usize::MAX,
    ensures
        ({
            let ms = ruleset::package_matches(rules, pkg, hits);
            &&& in_order(ms)
            &&& merge::in_range(ms, rules)
            &&& forall|m: RuleMatch| #[trigger]
                ms.contains(m) <==> m.index < rules.len() && {
                    ||| m.source == RuleSource::PackageExact && rules[m.index as int].pkg == pkg
                        && literal(pkg)
                    ||| m.source == RuleSource::PackageWildcard && caught(
                        rules,
                        m.index as int,
                        pkg,
                        hits,
                    ) && unbeaten(rules, m.index as int, pkg, hits)
                }
        }),
{
    let a = ruleset::exact_matches(rules, pkg);
    let b = match ruleset::best_pattern(rules, pkg, hits) {
        Some(p) => ruleset::pattern_matches(rules, p),
        None => Seq::empty(),
    };
    let ms = a + b;
    lemma_exact(rules, pkg);
    lemma_best(rules, pkg, hits);
    ruleset::lemma_package_matches_in_range(rules, pkg, hits);
    match ruleset::best_pattern(rules, pkg, hits) {
        Some(p) => {
            lemma_of_pattern(rules, p);
            let k = choose|k: int|
                0 <= k < rules.len() && #[trigger] caught(rules, k, pkg, hits) && rules[k].pkg == p
                    && unbeaten(rules, k, pkg, hits) && forall|i: int|
                    0 <= i < k ==> (#[trigger] rules[i]).pkg != p;
            assert forall|m: RuleMatch| #[trigger] b.contains(m) <==> m.index < rules.len()
                && m.source == RuleSource::PackageWildcard && caught(
                rules,
                m.index as int,
                pkg,
                hits,
            ) && unbeaten(rules, m.index as int, pkg, hits) by {
                let i = m.index as int;
                if m.index < rules.len() && rules[i].pkg == p {
                    assert(unbeaten(rules, i, pkg, hits));
                }
                if m.index < rules.len() && caught(rules, i, pkg, hits) && unbeaten(
                    rules,
                    i,
                    pkg,
                    hits,
                ) {
                    lemma_one_best(rules, pkg, hits, i, k);
                }
            }
        },
        None => {
            assert forall|m: RuleMatch| #[trigger] b.contains(m) <==> m.index < rules.len()
                && m.source == RuleSource::PackageWildcard && caught(
                rules,
                m.index as int,
                pkg,
                hits,
            ) && unbeaten(rules, m.index as int, pkg, hits) by {}
        },
    }
    assert forall|m: RuleMatch| #[trigger] ms.contains(m) <==> a.contains(m) || b.contains(m) by {
        if a.contains(m) {
            let i = choose|i: int| 0 <= i < a.len() && a[i] == m;
            assert(ms[i] == m);
        }
        if b.contains(m) {
            let i = choose|i: int| 0 <= i < b.len() && b[i] == m;
            assert(ms[a.len() + i] == m);
        }
    }
    assert forall|i: int, j: int|
        0 <= i < j < ms.len() && (#[trigger] ms[i]).source == (
        #[trigger] ms[j]).source implies ms[i].index < ms[j].index by {
        if j < a.len() {
            assert(ms[i] == a[i] && ms[j] == a[j]);
        } else if i >= a.len() {
            assert(ms[i] == b[i - a.len()] && ms[j] == b[j - a.len()]);
        } else {
            assert(a.contains(a[i]) && b.contains(b[j - a.len()]));
        }
    }
}

proof fn lemma_select(
    ms: Seq<RuleMatch>,
    rules: Seq<CompiledView>,
    p: spec_fn(CompiledView) -> bool,
)
    requires
        in_order(ms),
    ensures
        in_order(ruleset::select(ms, rules, p)),
        forall|m: RuleMatch| #[trigger]
            ruleset::select(ms, rules, p).contains(m) <==> ms.contains(m) && p(
                rules[m.index as int],
            ),
    decreases ms.len(),
{
    let all = ruleset::select(ms, rules, p);
    if ms.len() > 0 {
        let front = ms.drop_last();
        let before = ruleset::select(front, rules, p);
        assert(in_order(front)) by {
            assert forall|a: int, b: int|
                0 <= a < b < front.len() && (#[trigger] front[a]).source == (
                #[trigger] front[b]).source implies front[a].index < front[b].index by {
                assert(ms[a] == front[a] && ms[b] == front[b]);
            }
        }
        lemma_select(front, rules, p);
        assert(ms =~= front.push(ms.last()));
        assert forall|m: RuleMatch| #[trigger] all.contains(m) <==> ms.contains(m) && p(
            rules[m.index as int],
        ) by {
            lemma_push_contains(before, ms.last(), m);
            lemma_push_contains(front, ms.last(), m);
            assert(before.contains(m) <==> front.contains(m) && p(rules[m.index as int]));
        }
        assert forall|a: int, b: int|
            0 <= a < b < all.len() && (#[trigger] all[a]).source == (
            #[trigger] all[b]).source implies all[a].index < all[b].index by {
            if b == before.len() {
                assert(before.contains(before[a]));
                assert(front.contains(before[a]));
                let i = choose|i: int| 0 <= i < front.len() && front[i] == before[a];
                assert(ms[i] == before[a] && ms[ms.len() - 1] == ms.last());
            } else {
                assert(all[a] == before[a] && all[b] == before[b]);
            }
        }
    } else {
        assert(all =~= Seq::<RuleMatch>::empty());
    }
}

proof fn lemma_source_cpus(
    ms: Seq<RuleMatch>,
    rules: Seq<CompiledView>,
    source: RuleSource,
    c: int,
)
    ensures
        merge::source_cpus(ms, rules, source).contains(c) <==> exists|i: int|
            0 <= i < ms.len() && (#[trigger] ms[i]).source == source
                && rules[ms[i].index as int].policy.cpus.contains(c),
    decreases ms.len(),
{
    if ms.len() > 0 {
        let front = ms.drop_last();
        lemma_source_cpus(front, rules, source, c);
        if merge::source_cpus(ms, rules, source).contains(c) {
            if merge::source_cpus(front, rules, source).contains(c) {
                let i = choose|i: int|
                    0 <= i < front.len() && (#[trigger] front[i]).source == source
                        && rules[front[i].index as int].policy.cpus.contains(c);
                assert(ms[i] == front[i]);
            } else {
                assert(ms[ms.len() - 1].source == source);
            }
        }
        if exists|i: int|
            0 <= i < ms.len() && (#[trigger] ms[i]).source == source
                && rules[ms[i].index as int].policy.cpus.contains(c) {
            let i = choose|i: int|
                0 <= i < ms.len() && (#[trigger] ms[i]).source == source
                    && rules[ms[i].index as int].policy.cpus.contains(c);
            if i < front.len() {
                assert(front[i] == ms[i]);
            }
        }
    }
}


proof fn lemma_floor(ms: Seq<RuleMatch>, rules: Seq<CompiledView>)
    ensures
        match merge::highest_floor(ms, rules) {
            Some(v) => {
                &&& exists|i: int|
                    0 <= i < ms.len() && rules[(#[trigger] ms[i]).index as int].policy.uclamp_min
                        == Some(v)
                &&& forall|i: int|
                    0 <= i < ms.len() ==> (rules[(#[trigger] ms[i]).index as int].policy.uclamp_min
                        matches Some(w) ==> w <= v)
            },
            None => forall|i: int|
                0 <= i < ms.len() ==> rules[(#[trigger] ms[i]).index as int].policy.uclamp_min
                    is None,
        },
    decreases ms.len(),
{
    if ms.len() > 0 {
        let front = ms.drop_last();
        lemma_floor(front, rules);
        assert forall|i: int| 0 <= i < front.len() implies front[i] == #[trigger] ms[i] by {}
        let n = ms.len() - 1;
        assert(ms[n] == ms.last());
        if let Some(v) = merge::highest_floor(ms, rules) {
            if rules[ms[n].index as int].policy.uclamp_min != Some(v) {
                let i = choose|i: int|
                    0 <= i < front.len() && rules[(
                    #[trigger] front[i]).index as int].policy.uclamp_min == Some(v);
                assert(rules[ms[i].index as int].policy.uclamp_min == Some(v));
            }
        }
    }
}

proof fn lemma_ceiling(ms: Seq<RuleMatch>, rules: Seq<CompiledView>)
    ensures
        match merge::lowest_ceiling(ms, rules) {
            Some(v) => {
                &&& exists|i: int|
                    0 <= i < ms.len() && rules[(#[trigger] ms[i]).index as int].policy.uclamp_max
                        == Some(v)
                &&& forall|i: int|
                    0 <= i < ms.len() ==> (rules[(#[trigger] ms[i]).index as int].policy.uclamp_max
                        matches Some(w) ==> w >= v)
            },
            None => forall|i: int|
                0 <= i < ms.len() ==> rules[(#[trigger] ms[i]).index as int].policy.uclamp_max
                    is None,
        },
    decreases ms.len(),
{
    if ms.len() > 0 {
        let front = ms.drop_last();
        lemma_ceiling(front, rules);
        assert forall|i: int| 0 <= i < front.len() implies front[i] == #[trigger] ms[i] by {}
        let n = ms.len() - 1;
        assert(ms[n] == ms.last());
        if let Some(v) = merge::lowest_ceiling(ms, rules) {
            if rules[ms[n].index as int].policy.uclamp_max != Some(v) {
                let i = choose|i: int|
                    0 <= i < front.len() && rules[(
                    #[trigger] front[i]).index as int].policy.uclamp_max == Some(v);
                assert(rules[ms[i].index as int].policy.uclamp_max == Some(v));
            }
        }
    }
}

/// Whether a list holds just the rules of a level above zero: those of level
/// two by the package's name, those of level one by a pattern.
spec fn holds(ms: Seq<RuleMatch>, rules: Seq<CompiledView>, level: spec_fn(int) -> int) -> bool {
    forall|m: RuleMatch| #[trigger]
        ms.contains(m) <==> m.index < rules.len() && {
            ||| m.source == RuleSource::PackageExact && level(m.index as int) == 2
            ||| m.source == RuleSource::PackageWildcard && level(m.index as int) == 1
        }
}

/// Whether no rule goes before rule `k`: none of a higher level satisfies the
/// test, and none of its level that stands before it.
spec fn first(
    rules: Seq<CompiledView>,
    level: spec_fn(int) -> int,
    p: spec_fn(PolicyView) -> bool,
    k: int,
) -> bool {
    &&& 0 <= k < rules.len()
    &&& level(k) > 0
    &&& p(rules[k].policy)
    &&& forall|j: int|
        0 <= j < rules.len() && p((#[trigger] rules[j]).policy) && level(j) > 0 ==> level(j)
            < level(k) || (level(j) == level(k) && k <= j)
}

proof fn lemma_lead(
    ms: Seq<RuleMatch>,
    rules: Seq<CompiledView>,
    level: spec_fn(int) -> int,
    p: spec_fn(PolicyView) -> bool,
)
    requires
        rules.len() <= usize::MAX,
        in_order(ms),
        holds(ms, rules, level),
        forall|k: int| 0 <= #[trigger] level(k) <= 2,
    ensures
        match merge::leader(ms, rules, p) {
            Some(i) => 0 <= i < ms.len() && first(rules, level, p, ms[i].index as int)
                && ms[i].source == if level(ms[i].index as int) == 2 {
                RuleSource::PackageExact
            } else {
                RuleSource::PackageWildcard
            },
            None => forall|k: int|
                0 <= k < rules.len() && level(k) > 0 ==> !p((#[trigger] rules[k]).policy),
        },
{
    merge::lemma_leader(ms, rules, p);
    match merge::leader(ms, rules, p) {
        Some(i) => {
            let m = ms[i];
            assert(ms.contains(m));
            let k = m.index as int;
            assert forall|j: int|
                0 <= j < rules.len() && p((#[trigger] rules[j]).policy) && level(
                    j,
                ) > 0 implies level(j) < level(k) || (level(j) == level(k) && k <= j) by {
                let n = lemma_at(ms, rules, level, j);
                assert(p(merge::matched(ms[n], rules)));
                if level(j) == level(k) {
                    assert(ms[n].source == ms[i].source);
                    if n > i {
                        assert(ms[i].index < ms[n].index);
                    }
                }
            }
        },
        None => {
            assert forall|k: int| 0 <= k < rules.len() && level(k) > 0 implies !p(
                (#[trigger] rules[k]).policy,
            ) by {
                let n = lemma_at(ms, rules, level, k);
                assert(!p(merge::matched(ms[n], rules)));
            }
        },
    }
}

/// Where a rule of a level above zero stands in the list.
proof fn lemma_at(
    ms: Seq<RuleMatch>,
    rules: Seq<CompiledView>,
    level: spec_fn(int) -> int,
    k: int,
) -> (n: int)
    requires
        rules.len() <= usize::MAX,
        holds(ms, rules, level),
        0 <= k < rules.len(),
        0 < level(k) <= 2,
    ensures
        0 <= n < ms.len(),
        ms[n].index == k,
        ms[n].source == if level(k) == 2 {
            RuleSource::PackageExact
        } else {
            RuleSource::PackageWildcard
        },
{
    let m = RuleMatch {
        index: k as usize,
        source: if level(k) == 2 {
            RuleSource::PackageExact
        } else {
            RuleSource::PackageWildcard
        },
    };
    assert(ms.contains(m));
    choose|n: int| 0 <= n < ms.len() && ms[n] == m
}

spec fn sets_sched() -> spec_fn(PolicyView) -> bool {
    |p: PolicyView| p.sched is Some
}

spec fn sets_nice() -> spec_fn(PolicyView) -> bool {
    |p: PolicyView| p.nice is Some
}

/// What a merged policy holds, by the rules and their levels.
spec fn decided(rules: Seq<CompiledView>, level: spec_fn(int) -> int, f: PolicyView) -> bool {
    &&& forall|c: int| #[trigger]
        f.cpus.contains(c) <==> exists|k: int|
            0 <= k < rules.len() && level(k) > 0 && (#[trigger] rules[k]).policy.cpus.contains(c)
                && top(rules, level, k)
    &&& f.sched is None ==> f.sched_prio is None && forall|k: int|
        0 <= k < rules.len() && level(k) > 0 ==> (#[trigger] rules[k]).policy.sched is None
    &&& f.sched is Some ==> exists|k: int| #[trigger]
        first(rules, level, sets_sched(), k) && f.sched == rules[k].policy.sched
            && f.sched_prio == rules[k].policy.sched_prio
    &&& f.nice is None ==> forall|k: int|
        0 <= k < rules.len() && level(k) > 0 ==> (#[trigger] rules[k]).policy.nice is None
    &&& f.nice is Some ==> exists|k: int| #[trigger]
        first(rules, level, sets_nice(), k) && f.nice == rules[k].policy.nice
    &&& f.uclamp_min matches Some(v) ==> exists|k: int|
        0 <= k < rules.len() && level(k) > 0 && (#[trigger] rules[k]).policy.uclamp_min == Some(v)
    &&& forall|k: int|
        0 <= k < rules.len() && level(k) > 0 ==> ((#[trigger] rules[k]).policy.uclamp_min matches
            Some(w) ==> (f.uclamp_min matches Some(v) && w <= v))
    &&& f.uclamp_max matches Some(v) ==> exists|k: int|
        0 <= k < rules.len() && level(k) > 0 && (#[trigger] rules[k]).policy.uclamp_max == Some(v)
    &&& forall|k: int|
        0 <= k < rules.len() && level(k) > 0 ==> ((#[trigger] rules[k]).policy.uclamp_max matches
            Some(w) ==> (f.uclamp_max matches Some(v) && w >= v))
}

/// Whether no rule of a higher level has CPUs.
spec fn top(rules: Seq<CompiledView>, level: spec_fn(int) -> int, k: int) -> bool {
    forall|j: int|
        0 <= j < rules.len() && level(j) > level(k) ==> (#[trigger] rules[j]).policy.cpus == Set::<
            int,
        >::empty()
}

proof fn lemma_merged(ms: Seq<RuleMatch>, rules: Seq<CompiledView>, level: spec_fn(int) -> int)
    requires
        rules.len() <= usize::MAX,
        in_order(ms),
        holds(ms, rules, level),
        forall|k: int| 0 <= #[trigger] level(k) <= 2,
    ensures
        decided(rules, level, merge::merged_fields(ms, rules)),
{
    let f = merge::merged_fields(ms, rules);
    lemma_lead(ms, rules, level, merge::with_cpus());
    lemma_lead(ms, rules, level, merge::with_sched());
    lemma_lead(ms, rules, level, merge::with_nice());
    assert(merge::with_sched() =~= sets_sched());
    assert(merge::with_nice() =~= sets_nice());
    lemma_floor(ms, rules);
    lemma_ceiling(ms, rules);
    assert forall|k: int| 0 <= k < rules.len() && level(k) > 0 implies ((
    #[trigger] rules[k]).policy.uclamp_min matches Some(w) ==> (f.uclamp_min matches Some(v) && w
        <= v)) by {
        let n = lemma_at(ms, rules, level, k);
        assert(rules[ms[n].index as int] == rules[k]);
    }
    assert forall|k: int| 0 <= k < rules.len() && level(k) > 0 implies ((
    #[trigger] rules[k]).policy.uclamp_max matches Some(w) ==> (f.uclamp_max matches Some(v) && w
        >= v)) by {
        let n = lemma_at(ms, rules, level, k);
        assert(rules[ms[n].index as int] == rules[k]);
    }
    if let Some(v) = f.uclamp_min {
        let i = choose|i: int|
            0 <= i < ms.len() && rules[(#[trigger] ms[i]).index as int].policy.uclamp_min == Some(
                v,
            );
        assert(ms.contains(ms[i]));
        assert(rules[ms[i].index as int].policy.uclamp_min == Some(v));
    }
    if let Some(v) = f.uclamp_max {
        let i = choose|i: int|
            0 <= i < ms.len() && rules[(#[trigger] ms[i]).index as int].policy.uclamp_max == Some(
                v,
            );
        assert(ms.contains(ms[i]));
        assert(rules[ms[i].index as int].policy.uclamp_max == Some(v));
    }
    assert forall|c: int| #[trigger] f.cpus.contains(c) <==> exists|k: int|
        0 <= k < rules.len() && level(k) > 0 && (#[trigger] rules[k]).policy.cpus.contains(c)
            && top(rules, level, k) by {
        match merge::leader(ms, rules, merge::with_cpus()) {
            Some(i) => {
                let lead = ms[i].index as int;
                lemma_source_cpus(ms, rules, ms[i].source, c);
                if f.cpus.contains(c) {
                    let n = choose|n: int|
                        0 <= n < ms.len() && (#[trigger] ms[n]).source == ms[i].source
                            && rules[ms[n].index as int].policy.cpus.contains(c);
                    assert(ms.contains(ms[n]));
                    let k = ms[n].index as int;
                    assert(level(k) == level(lead));
                    assert forall|j: int| 0 <= j < rules.len() && level(j) > level(k) implies (
                    #[trigger] rules[j]).policy.cpus == Set::<int>::empty() by {
                        if rules[j].policy.cpus != Set::<int>::empty() {
                            assert(merge::with_cpus()(rules[j].policy));
                        }
                    }
                    assert(top(rules, level, k));
                }
                if exists|k: int|
                    0 <= k < rules.len() && level(k) > 0 && (
                    #[trigger] rules[k]).policy.cpus.contains(c) && top(rules, level, k) {
                    let k = choose|k: int|
                        0 <= k < rules.len() && level(k) > 0 && (
                        #[trigger] rules[k]).policy.cpus.contains(c) && top(rules, level, k);
                    assert(rules[k].policy.cpus != Set::<int>::empty());
                    assert(merge::with_cpus()(rules[k].policy));
                    assert(rules[lead].policy.cpus != Set::<int>::empty());
                    assert(level(k) == level(lead));
                    let n = lemma_at(ms, rules, level, k);
                    assert(ms[n].source == ms[i].source);
                }
            },
            None => {
                if exists|k: int|
                    0 <= k < rules.len() && level(k) > 0 && (
                    #[trigger] rules[k]).policy.cpus.contains(c) && top(rules, level, k) {
                    let k = choose|k: int|
                        0 <= k < rules.len() && level(k) > 0 && (
                        #[trigger] rules[k]).policy.cpus.contains(c) && top(rules, level, k);
                    assert(rules[k].policy.cpus != Set::<int>::empty());
                    assert(merge::with_cpus()(rules[k].policy));
                }
            },
        }
    }
}

/// The level of a rule among those for the thread's name.
spec fn own_level(
    rules: Seq<CompiledView>,
    pkg: Seq<char>,
    ph: Seq<Seq<char>>,
    thread: Seq<char>,
    th: Seq<Seq<char>>,
) -> spec_fn(int) -> int {
    |k: int|
        {
            let s = strength(rules, k, pkg, ph, thread, th);
            if s > 2 {
                s - 2
            } else {
                0
            }
        }
}

/// The level of a rule among those for all threads.
spec fn general_level(
    rules: Seq<CompiledView>,
    pkg: Seq<char>,
    ph: Seq<Seq<char>>,
    thread: Seq<char>,
    th: Seq<Seq<char>>,
) -> spec_fn(int) -> int {
    |k: int|
        {
            let s = strength(rules, k, pkg, ph, thread, th);
            if s > 2 {
                0
            } else {
                s
            }
        }
}

/// A policy whose gaps another one fills.
spec fn completed(a: PolicyView, b: PolicyView) -> PolicyView {
    let cpus = if a.cpus == Set::<int>::empty() {
        b.cpus
    } else {
        a.cpus
    };
    PolicyView {
        cpus,
        cpuset_dir: topology::range_text(cpus),
        sched: if a.sched is None {
            b.sched
        } else {
            a.sched
        },
        sched_prio: if a.sched is None {
            b.sched_prio
        } else {
            a.sched_prio
        },
        nice: if a.nice is None {
            b.nice
        } else {
            a.nice
        },
        uclamp_min: if a.uclamp_min is None {
            b.uclamp_min
        } else {
            a.uclamp_min
        },
        uclamp_max: if a.uclamp_max is None {
            b.uclamp_max
        } else {
            a.uclamp_max
        },
    }
}

proof fn lemma_outcome(
    rules: Seq<CompiledView>,
    pkg: Seq<char>,
    ph: Seq<Seq<char>>,
    thread: Seq<char>,
    th: Seq<Seq<char>>,
) -> (r: (PolicyView, PolicyView))
    requires
        rules.len() <= usize::MAX,
    ensures
        decided(rules, own_level(rules, pkg, ph, thread, th), r.0),
        decided(rules, general_level(rules, pkg, ph, thread, th), r.1),
        ({
            let p = completed(r.0, r.1);
            outcome(rules, pkg, ph, thread, th) == if p.cpus == Set::<int>::empty()
                && p.sched is None && p.nice is None {
                None
            } else {
                Some(p)
            }
        }),
        forall|k: int| #[trigger]
            own_level(rules, pkg, ph, thread, th)(k) > 0 || general_level(
                rules,
                pkg,
                ph,
                thread,
                th,
            )(k) > 0 <==> strength(rules, k, pkg, ph, thread, th) > 0,
{
    let ms = ruleset::package_matches(rules, pkg, ph);
    let mine = ruleset::for_thread(thread, th);
    let all = ruleset::for_all_threads();
    let a = ruleset::select(ms, rules, mine);
    let b = ruleset::select(ms, rules, all);
    let own = own_level(rules, pkg, ph, thread, th);
    let general = general_level(rules, pkg, ph, thread, th);
    lemma_package(rules, pkg, ph);
    lemma_select(ms, rules, mine);
    lemma_select(ms, rules, all);
    assert forall|k: int| 0 <= #[trigger] own(k) <= 2 by {}
    assert forall|k: int| 0 <= #[trigger] general(k) <= 2 by {}
    assert(holds(a, rules, own)) by {
        assert forall|m: RuleMatch| #[trigger] a.contains(m) <==> m.index < rules.len() && {
            ||| m.source == RuleSource::PackageExact && own(m.index as int) == 2
            ||| m.source == RuleSource::PackageWildcard && own(m.index as int) == 1
        } by {
            assert(ms.contains(m) ==> m.index < rules.len());
            assert(a.contains(m) <==> ms.contains(m) && mine(rules[m.index as int]));
        }
    }
    assert(holds(b, rules, general)) by {
        assert forall|m: RuleMatch| #[trigger] b.contains(m) <==> m.index < rules.len() && {
            ||| m.source == RuleSource::PackageExact && general(m.index as int) == 2
            ||| m.source == RuleSource::PackageWildcard && general(m.index as int) == 1
        } by {
            assert(ms.contains(m) ==> m.index < rules.len());
            assert(b.contains(m) <==> ms.contains(m) && all(rules[m.index as int]));
        }
    }
    lemma_merged(a, rules, own);
    lemma_merged(b, rules, general);
    let r = (merge::merged_fields(a, rules), merge::merged_fields(b, rules));
    let p = completed(r.0, r.1);
    assert(merge::merged(a, rules) is None ==> r.0.sched_prio is None);
    assert(merge::merged(b, rules) is None ==> r.1.sched_prio is None);
    r
}

// ---------------------------------------------------------------------
// Laws
// ---------------------------------------------------------------------

/// The CPUs of a thread are those of the strongest rules that have any: of
/// all rules as strong as one that has CPUs, when none that is stronger has.
pub proof fn law_strongest_rules_give_cpus(
    rules: Seq<CompiledView>,
    pkg: Seq<char>,
    pkg_hits: Seq<Seq<char>>,
    thread: Seq<char>,
    thread_hits: Seq<Seq<char>>,
    k: int,
)
    requires
        rules.len() <= usize::MAX,
        0 <= k < rules.len(),
        rules[k].policy.cpus != Set::<int>::empty(),
        strength(rules, k, pkg, pkg_hits, thread, thread_hits) > 0,
        forall|j: int|
            0 <= j < rules.len() && #[trigger] strength(
                rules,
                j,
                pkg,
                pkg_hits,
                thread,
                thread_hits,
            ) > strength(rules, k, pkg, pkg_hits, thread, thread_hits) ==> rules[j].policy.cpus
                == Set::<int>::empty(),
    ensures
        outcome(rules, pkg, pkg_hits, thread, thread_hits) matches Some(p) && {
            &&& rules[k].policy.cpus.subset_of(p.cpus)
            &&& forall|c: int| #[trigger]
                p.cpus.contains(c) <==> exists|j: int|
                    0 <= j < rules.len() && (#[trigger] rules[j]).policy.cpus.contains(c)
                        && strength(rules, j, pkg, pkg_hits, thread, thread_hits) == strength(
                        rules,
                        k,
                        pkg,
                        pkg_hits,
                        thread,
                        thread_hits,
                    )
            &&& p.cpuset_dir == topology::range_text(p.cpus)
        },
{
    let own = own_level(rules, pkg, pkg_hits, thread, thread_hits);
    let general = general_level(rules, pkg, pkg_hits, thread, thread_hits);
    let (a, b) = lemma_outcome(rules, pkg, pkg_hits, thread, thread_hits);
    let p = completed(a, b);
    let s = strength(rules, k, pkg, pkg_hits, thread, thread_hits);
    assert forall|c: int| #[trigger] p.cpus.contains(c) <==> exists|j: int|
        0 <= j < rules.len() && (#[trigger] rules[j]).policy.cpus.contains(c) && strength(
            rules,
            j,
            pkg,
            pkg_hits,
            thread,
            thread_hits,
        ) == s by {
        lemma_source(rules, pkg, pkg_hits, thread, thread_hits, k, a, b, c);
    }
    assert(exists|c: int| rules[k].policy.cpus.contains(c)) by {
        if forall|c: int| !rules[k].policy.cpus.contains(c) {
            assert(rules[k].policy.cpus =~= Set::<int>::empty());
        }
    }
    let c = choose|c: int| rules[k].policy.cpus.contains(c);
    assert(p.cpus.contains(c));
}

/// Where one CPU of the completed policy comes from.
proof fn lemma_source(
    rules: Seq<CompiledView>,
    pkg: Seq<char>,
    ph: Seq<Seq<char>>,
    thread: Seq<char>,
    th: Seq<Seq<char>>,
    k: int,
    a: PolicyView,
    b: PolicyView,
    c: int,
)
    requires
        0 <= k < rules.len(),
        rules[k].policy.cpus != Set::<int>::empty(),
        strength(rules, k, pkg, ph, thread, th) > 0,
        forall|j: int|
            0 <= j < rules.len() && #[trigger] strength(rules, j, pkg, ph, thread, th) > strength(
                rules,
                k,
                pkg,
                ph,
                thread,
                th,
            ) ==> rules[j].policy.cpus == Set::<int>::empty(),
        decided(rules, own_level(rules, pkg, ph, thread, th), a),
        decided(rules, general_level(rules, pkg, ph, thread, th), b),
    ensures
        completed(a, b).cpus.contains(c) <==> exists|j: int|
            0 <= j < rules.len() && (#[trigger] rules[j]).policy.cpus.contains(c) && strength(
                rules,
                j,
                pkg,
                ph,
                thread,
                th,
            ) == strength(rules, k, pkg, ph, thread, th),
{
    let own = own_level(rules, pkg, ph, thread, th);
    let general = general_level(rules, pkg, ph, thread, th);
    let s = strength(rules, k, pkg, ph, thread, th);
    let d = choose|d: int| rules[k].policy.cpus.contains(d);
    assert(rules[k].policy.cpus.contains(d)) by {
        if forall|d: int| !rules[k].policy.cpus.contains(d) {
            assert(rules[k].policy.cpus =~= Set::<int>::empty());
        }
    }
    if s > 2 {
        assert forall|j: int| 0 <= j < rules.len() && own(j) > own(k) implies (
        #[trigger] rules[j]).policy.cpus == Set::<int>::empty() by {
            assert(strength(rules, j, pkg, ph, thread, th) > s);
        }
        assert(top(rules, own, k));
        assert(a.cpus.contains(d));
        if a.cpus.contains(c) {
            let j = choose|j: int|
                0 <= j < rules.len() && own(j) > 0 && (#[trigger] rules[j]).policy.cpus.contains(c)
                    && top(rules, own, j);
            assert(strength(rules, j, pkg, ph, thread, th) <= s);
            assert(own(k) <= own(j));
        }
        if exists|j: int|
            0 <= j < rules.len() && (#[trigger] rules[j]).policy.cpus.contains(c) && strength(
                rules,
                j,
                pkg,
                ph,
                thread,
                th,
            ) == s {
            let j = choose|j: int|
                0 <= j < rules.len() && (#[trigger] rules[j]).policy.cpus.contains(c) && strength(
                    rules,
                    j,
                    pkg,
                    ph,
                    thread,
                    th,
                ) == s;
            assert(own(j) == own(k));
            assert(top(rules, own, j));
        }
    } else {
        assert(a.cpus =~= Set::<int>::empty()) by {
            assert forall|e: int| !a.cpus.contains(e) by {
                if a.cpus.contains(e) {
                    let j = choose|j: int|
                        0 <= j < rules.len() && own(j) > 0 && (
                        #[trigger] rules[j]).policy.cpus.contains(e) && top(rules, own, j);
                    assert(strength(rules, j, pkg, ph, thread, th) > s);
                }
            }
        }
        assert forall|j: int| 0 <= j < rules.len() && general(j) > general(k) implies (
        #[trigger] rules[j]).policy.cpus == Set::<int>::empty() by {
            assert(strength(rules, j, pkg, ph, thread, th) > s);
        }
        assert(top(rules, general, k));
        if b.cpus.contains(c) {
            let j = choose|j: int|
                0 <= j < rules.len() && general(j) > 0 && (
                #[trigger] rules[j]).policy.cpus.contains(c) && top(rules, general, j);
            assert(strength(rules, j, pkg, ph, thread, th) <= s);
            assert(general(k) <= general(j));
        }
        if exists|j: int|
            0 <= j < rules.len() && (#[trigger] rules[j]).policy.cpus.contains(c) && strength(
                rules,
                j,
                pkg,
                ph,
                thread,
                th,
            ) == s {
            let j = choose|j: int|
                0 <= j < rules.len() && (#[trigger] rules[j]).policy.cpus.contains(c) && strength(
                    rules,
                    j,
                    pkg,
                    ph,
                    thread,
                    th,
                ) == s;
            assert(general(j) == general(k));
            assert(top(rules, general, j));
        }
    }
}

/// The scheduling class of a thread, with its priority, is that of the first
/// of the strongest rules that set one.
pub proof fn law_strongest_rule_gives_class(
    rules: Seq<CompiledView>,
    pkg: Seq<char>,
    pkg_hits: Seq<Seq<char>>,
    thread: Seq<char>,
    thread_hits: Seq<Seq<char>>,
    k: int,
)
    requires
        rules.len() <= usize::MAX,
        0 <= k < rules.len(),
        rules[k].policy.sched is Some,
        strength(rules, k, pkg, pkg_hits, thread, thread_hits) > 0,
        forall|j: int|
            0 <= j < rules.len() && rules[j].policy.sched is Some ==> {
                ||| #[trigger] strength(rules, j, pkg, pkg_hits, thread, thread_hits) < strength(
                    rules,
                    k,
                    pkg,
                    pkg_hits,
                    thread,
                    thread_hits,
                )
                ||| strength(rules, j, pkg, pkg_hits, thread, thread_hits) == strength(
                    rules,
                    k,
                    pkg,
                    pkg_hits,
                    thread,
                    thread_hits,
                ) && k <= j
            },
    ensures
        outcome(rules, pkg, pkg_hits, thread, thread_hits) matches Some(p) && p.sched
            == rules[k].policy.sched && p.sched_prio == rules[k].policy.sched_prio,
{
    let own = own_level(rules, pkg, pkg_hits, thread, thread_hits);
    let general = general_level(rules, pkg, pkg_hits, thread, thread_hits);
    let (a, b) = lemma_outcome(rules, pkg, pkg_hits, thread, thread_hits);
    let s = strength(rules, k, pkg, pkg_hits, thread, thread_hits);
    if s > 2 {
        assert(own(k) > 0);
        let j = choose|j: int| #[trigger]
            first(rules, own, sets_sched(), j) && a.sched == rules[j].policy.sched && a.sched_prio
                == rules[j].policy.sched_prio;
        assert(strength(rules, j, pkg, pkg_hits, thread, thread_hits) <= s);
        assert(sets_sched()(rules[k].policy) && sets_sched()(rules[j].policy));
        assert(j == k);
    } else {
        assert(general(k) > 0);
        if a.sched is Some {
            let j = choose|j: int| #[trigger] first(rules, own, sets_sched(), j);
            assert(sets_sched()(rules[j].policy));
            assert(strength(rules, j, pkg, pkg_hits, thread, thread_hits) > s);
        }
        let j = choose|j: int| #[trigger]
            first(rules, general, sets_sched(), j) && b.sched == rules[j].policy.sched
                && b.sched_prio == rules[j].policy.sched_prio;
        assert(strength(rules, j, pkg, pkg_hits, thread, thread_hits) <= s);
        assert(sets_sched()(rules[k].policy) && sets_sched()(rules[j].policy));
        assert(j == k);
    }
}

/// The niceness of a thread is that of the first of the strongest rules that
/// set one.
pub proof fn law_strongest_rule_gives_niceness(
    rules: Seq<CompiledView>,
    pkg: Seq<char>,
    pkg_hits: Seq<Seq<char>>,
    thread: Seq<char>,
    thread_hits: Seq<Seq<char>>,
    k: int,
)
    requires
        rules.len() <= usize::MAX,
        0 <= k < rules.len(),
        rules[k].policy.nice is Some,
        strength(rules, k, pkg, pkg_hits, thread, thread_hits) > 0,
        forall|j: int|
            0 <= j < rules.len() && rules[j].policy.nice is Some ==> {
                ||| #[trigger] strength(rules, j, pkg, pkg_hits, thread, thread_hits) < strength(
                    rules,
                    k,
                    pkg,
                    pkg_hits,
                    thread,
                    thread_hits,
                )
                ||| strength(rules, j, pkg, pkg_hits, thread, thread_hits) == strength(
                    rules,
                    k,
                    pkg,
                    pkg_hits,
                    thread,
                    thread_hits,
                ) && k <= j
            },
    ensures
        outcome(rules, pkg, pkg_hits, thread, thread_hits) matches Some(p) && p.nice
            == rules[k].policy.nice,
{
    let own = own_level(rules, pkg, pkg_hits, thread, thread_hits);
    let general = general_level(rules, pkg, pkg_hits, thread, thread_hits);
    let (a, b) = lemma_outcome(rules, pkg, pkg_hits, thread, thread_hits);
    let s = strength(rules, k, pkg, pkg_hits, thread, thread_hits);
    if s > 2 {
        assert(own(k) > 0);
        let j = choose|j: int| #[trigger]
            first(rules, own, sets_nice(), j) && a.nice == rules[j].policy.nice;
        assert(strength(rules, j, pkg, pkg_hits, thread, thread_hits) <= s);
        assert(sets_nice()(rules[k].policy) && sets_nice()(rules[j].policy));
        assert(j == k);
    } else {
        assert(general(k) > 0);
        if a.nice is Some {
            let j = choose|j: int| #[trigger] first(rules, own, sets_nice(), j);
            assert(sets_nice()(rules[j].policy));
            assert(strength(rules, j, pkg, pkg_hits, thread, thread_hits) > s);
        }
        let j = choose|j: int| #[trigger]
            first(rules, general, sets_nice(), j) && b.nice == rules[j].policy.nice;
        assert(strength(rules, j, pkg, pkg_hits, thread, thread_hits) <= s);
        assert(sets_nice()(rules[k].policy) && sets_nice()(rules[j].policy));
        assert(j == k);
    }
}

/// A thread gets a policy just when a rule that speaks about it has CPUs, a
/// scheduling class or a niceness, and each of the three is set only when
/// such a rule sets it.
pub proof fn law_no_policy_without_a_rule(
    rules: Seq<CompiledView>,
    pkg: Seq<char>,
    pkg_hits: Seq<Seq<char>>,
    thread: Seq<char>,
    thread_hits: Seq<Seq<char>>,
)
    requires
        rules.len() <= usize::MAX,
    ensures
        match outcome(rules, pkg, pkg_hits, thread, thread_hits) {
            None => forall|k: int|
                0 <= k < rules.len() && #[trigger] strength(
                    rules,
                    k,
                    pkg,
                    pkg_hits,
                    thread,
                    thread_hits,
                ) > 0 ==> rules[k].policy.cpus == Set::<int>::empty() && rules[k].policy.sched
                    is None && rules[k].policy.nice is None,
            Some(p) => {
                &&& p.cpus != Set::<int>::empty() || p.sched is Some || p.nice is Some
                &&& forall|c: int| #[trigger]
                    p.cpus.contains(c) ==> exists|k: int|
                        0 <= k < rules.len() && #[trigger] strength(
                            rules,
                            k,
                            pkg,
                            pkg_hits,
                            thread,
                            thread_hits,
                        ) > 0 && rules[k].policy.cpus.contains(c)
                &&& p.sched is Some ==> exists|k: int|
                    0 <= k < rules.len() && #[trigger] strength(
                        rules,
                        k,
                        pkg,
                        pkg_hits,
                        thread,
                        thread_hits,
                    ) > 0 && rules[k].policy.sched == p.sched && rules[k].policy.sched_prio
                        == p.sched_prio
                &&& p.sched is None ==> p.sched_prio is None
                &&& p.nice is Some ==> exists|k: int|
                    0 <= k < rules.len() && #[trigger] strength(
                        rules,
                        k,
                        pkg,
                        pkg_hits,
                        thread,
                        thread_hits,
                    ) > 0 && rules[k].policy.nice == p.nice
            },
        },
{
    let own = own_level(rules, pkg, pkg_hits, thread, thread_hits);
    let general = general_level(rules, pkg, pkg_hits, thread, thread_hits);
    let (a, b) = lemma_outcome(rules, pkg, pkg_hits, thread, thread_hits);
    match outcome(rules, pkg, pkg_hits, thread, thread_hits) {
        None => {
            assert forall|k: int|
                0 <= k < rules.len() && #[trigger] strength(
                    rules,
                    k,
                    pkg,
                    pkg_hits,
                    thread,
                    thread_hits,
                ) > 0 implies rules[k].policy.cpus == Set::<int>::empty()
                && rules[k].policy.sched is None && rules[k].policy.nice is None by {
                assert(own(k) > 0 || general(k) > 0);
                if rules[k].policy.cpus != Set::<int>::empty() {
                    lemma_some_cpus(rules, pkg, pkg_hits, thread, thread_hits, k, a, b);
                }
            }
        },
        Some(p) => {
            assert forall|c: int| #[trigger] p.cpus.contains(c) implies exists|k: int|
                0 <= k < rules.len() && #[trigger] strength(
                    rules,
                    k,
                    pkg,
                    pkg_hits,
                    thread,
                    thread_hits,
                ) > 0 && rules[k].policy.cpus.contains(c) by {
                if a.cpus.contains(c) {
                    let k = choose|k: int|
                        0 <= k < rules.len() && own(k) > 0 && (
                        #[trigger] rules[k]).policy.cpus.contains(c) && top(rules, own, k);
                    assert(strength(rules, k, pkg, pkg_hits, thread, thread_hits) > 0);
                } else {
                    let k = choose|k: int|
                        0 <= k < rules.len() && general(k) > 0 && (
                        #[trigger] rules[k]).policy.cpus.contains(c) && top(rules, general, k);
                    assert(strength(rules, k, pkg, pkg_hits, thread, thread_hits) > 0);
                }
            }
            if a.sched is Some {
                let k = choose|k: int| #[trigger]
                    first(rules, own, sets_sched(), k) && a.sched == rules[k].policy.sched
                        && a.sched_prio == rules[k].policy.sched_prio;
                assert(strength(rules, k, pkg, pkg_hits, thread, thread_hits) > 0);
            } else if b.sched is Some {
                let k = choose|k: int| #[trigger]
                    first(rules, general, sets_sched(), k) && b.sched == rules[k].policy.sched
                        && b.sched_prio == rules[k].policy.sched_prio;
                assert(strength(rules, k, pkg, pkg_hits, thread, thread_hits) > 0);
            }
            if a.nice is Some {
                let k = choose|k: int| #[trigger]
                    first(rules, own, sets_nice(), k) && a.nice == rules[k].policy.nice;
                assert(strength(rules, k, pkg, pkg_hits, thread, thread_hits) > 0);
            } else if b.nice is Some {
                let k = choose|k: int| #[trigger]
                    first(rules, general, sets_nice(), k) && b.nice == rules[k].policy.nice;
                assert(strength(rules, k, pkg, pkg_hits, thread, thread_hits) > 0);
            }
        },
    }
}

/// Where a rule that speaks has CPUs, the completed policy has some.
proof fn lemma_some_cpus(
    rules: Seq<CompiledView>,
    pkg: Seq<char>,
    ph: Seq<Seq<char>>,
    thread: Seq<char>,
    th: Seq<Seq<char>>,
    k: int,
    a: PolicyView,
    b: PolicyView,
)
    requires
        0 <= k < rules.len(),
        rules[k].policy.cpus != Set::<int>::empty(),
        strength(rules, k, pkg, ph, thread, th) > 0,
        decided(rules, own_level(rules, pkg, ph, thread, th), a),
        decided(rules, general_level(rules, pkg, ph, thread, th), b),
    ensures
        completed(a, b).cpus != Set::<int>::empty(),
    decreases 4 - strength(rules, k, pkg, ph, thread, th),
{
    if exists|j: int|
        0 <= j < rules.len() && #[trigger] strength(rules, j, pkg, ph, thread, th) > strength(
            rules,
            k,
            pkg,
            ph,
            thread,
            th,
        ) && rules[j].policy.cpus != Set::<int>::empty() {
        let j = choose|j: int|
            0 <= j < rules.len() && #[trigger] strength(rules, j, pkg, ph, thread, th) > strength(
                rules,
                k,
                pkg,
                ph,
                thread,
                th,
            ) && rules[j].policy.cpus != Set::<int>::empty();
        lemma_some_cpus(rules, pkg, ph, thread, th, j, a, b);
    } else {
        if forall|c: int| !rules[k].policy.cpus.contains(c) {
            assert(rules[k].policy.cpus =~= Set::<int>::empty());
        }
        let c = choose|c: int| rules[k].policy.cpus.contains(c);
        lemma_source(rules, pkg, ph, thread, th, k, a, b, c);
        assert(completed(a, b).cpus.contains(c));
    }
}

/// Whether two rules that speak about a thread do so alike: both for its name
/// or both for all threads.
pub open spec fn alike(s: int, t: int) -> bool {
    s > 0 && t > 0 && (s > 2 <==> t > 2)
}

/// The clamps of a thread come from the rules for its name, and from those
/// for all threads where none of the former sets one: the highest floor and
/// the lowest ceiling.
pub proof fn law_clamps_are_the_tightest(
    rules: Seq<CompiledView>,
    pkg: Seq<char>,
    pkg_hits: Seq<Seq<char>>,
    thread: Seq<char>,
    thread_hits: Seq<Seq<char>>,
    k: int,
)
    requires
        rules.len() <= usize::MAX,
        0 <= k < rules.len(),
        strength(rules, k, pkg, pkg_hits, thread, thread_hits) > 0,
        outcome(rules, pkg, pkg_hits, thread, thread_hits) is Some,
    ensures
        ({
            let p = outcome(rules, pkg, pkg_hits, thread, thread_hits)->Some_0;
            let s = |j: int| strength(rules, j, pkg, pkg_hits, thread, thread_hits);
            &&& rules[k].policy.uclamp_min is Some && (s(k) <= 2 ==> forall|j: int|
                0 <= j < rules.len() && s(j) > 2 ==> (#[trigger] rules[j]).policy.uclamp_min
                    is None) ==> (p.uclamp_min matches Some(v) && v
                >= rules[k].policy.uclamp_min->Some_0 && exists|j: int|
                0 <= j < rules.len() && alike(s(j), s(k)) && (
                #[trigger] rules[j]).policy.uclamp_min == Some(v))
            &&& rules[k].policy.uclamp_max is Some && (s(k) <= 2 ==> forall|j: int|
                0 <= j < rules.len() && s(j) > 2 ==> (#[trigger] rules[j]).policy.uclamp_max
                    is None) ==> (p.uclamp_max matches Some(v) && v
                <= rules[k].policy.uclamp_max->Some_0 && exists|j: int|
                0 <= j < rules.len() && alike(s(j), s(k)) && (
                #[trigger] rules[j]).policy.uclamp_max == Some(v))
        }),
{
    let own = own_level(rules, pkg, pkg_hits, thread, thread_hits);
    let general = general_level(rules, pkg, pkg_hits, thread, thread_hits);
    let (a, b) = lemma_outcome(rules, pkg, pkg_hits, thread, thread_hits);
    assert(own(k) > 0 || general(k) > 0);
}

/// A thread has a clamp only where a rule that speaks about it sets one.
pub proof fn law_no_clamp_without_a_rule(
    rules: Seq<CompiledView>,
    pkg: Seq<char>,
    pkg_hits: Seq<Seq<char>>,
    thread: Seq<char>,
    thread_hits: Seq<Seq<char>>,
)
    requires
        rules.len() <= usize::MAX,
        outcome(rules, pkg, pkg_hits, thread, thread_hits) is Some,
    ensures
        ({
            let p = outcome(rules, pkg, pkg_hits, thread, thread_hits)->Some_0;
            let s = |j: int| strength(rules, j, pkg, pkg_hits, thread, thread_hits);
            &&& p.uclamp_min is Some ==> exists|j: int|
                0 <= j < rules.len() && s(j) > 0 && (#[trigger] rules[j]).policy.uclamp_min
                    == p.uclamp_min
            &&& p.uclamp_max is Some ==> exists|j: int|
                0 <= j < rules.len() && s(j) > 0 && (#[trigger] rules[j]).policy.uclamp_max
                    == p.uclamp_max
        }),
{
    let (a, b) = lemma_outcome(rules, pkg, pkg_hits, thread, thread_hits);
}

/// A package is of interest just when a rule names it or has a pattern that
/// matches it.
pub proof fn law_interest_needs_a_rule(
    rules: Seq<CompiledView>,
    pkg: Seq<char>,
    pkg_hits: Seq<Seq<char>>,
)
    requires
        rules.len() <= usize::MAX,
    ensures
        ruleset::package_matches(rules, pkg, pkg_hits).len() > 0 <==> exists|k: int|
            0 <= k < rules.len() && ((#[trigger] rules[k]).pkg == pkg && literal(pkg) || caught(
                rules,
                k,
                pkg,
                pkg_hits,
            )),
{
    let ms = ruleset::package_matches(rules, pkg, pkg_hits);
    lemma_package(rules, pkg, pkg_hits);
    if ms.len() > 0 {
        assert(ms.contains(ms[0]));
        let k = ms[0].index as int;
        assert(rules[k].pkg == rules[k].pkg);
    }
    if exists|k: int|
        0 <= k < rules.len() && ((#[trigger] rules[k]).pkg == pkg && literal(pkg) || caught(
            rules,
            k,
            pkg,
            pkg_hits,
        )) {
        let k = choose|k: int|
            0 <= k < rules.len() && ((#[trigger] rules[k]).pkg == pkg && literal(pkg) || caught(
                rules,
                k,
                pkg,
                pkg_hits,
            ));
        if rules[k].pkg == pkg && literal(pkg) {
            let m = RuleMatch { index: k as usize, source: RuleSource::PackageExact };
            assert(ms.contains(m));
        } else {
            lemma_best(rules, pkg, pkg_hits);
            let b = ruleset::best_pattern(rules, pkg, pkg_hits)->Some_0;
            let i = choose|i: int|
                0 <= i < rules.len() && #[trigger] caught(rules, i, pkg, pkg_hits) && rules[i].pkg
                    == b && unbeaten(rules, i, pkg, pkg_hits) && forall|h: int|
                    0 <= h < i ==> (#[trigger] rules[h]).pkg != b;
            let m = RuleMatch { index: i as usize, source: RuleSource::PackageWildcard };
            assert(ms.contains(m));
        }
    }
}

} // verus!
