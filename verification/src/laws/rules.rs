//! What rules are compiled to, and how specific their patterns are.

use vstd::prelude::*;

use crate::config;
use crate::config::RuleConfigView;
use crate::laws::resolve;
use crate::laws::words;
use crate::policy;
use crate::ruleset;
use crate::ruleset::{CompiledView, RuleMatch};
use crate::text;
use crate::topology;

verus! {

// ---------------------------------------------------------------------
// Specificity
// ---------------------------------------------------------------------

/// Number of bytes of a character.
pub open spec fn width(c: char) -> int {
    if (c as int) < 0x80 {
        1
    } else if (c as int) < 0x800 {
        2
    } else if (c as int) < 0x10000 {
        3
    } else {
        4
    }
}

/// Whether a character counts as a wildcard.
pub open spec fn wild(c: char) -> bool {
    c == '*' || c == '?' || c == '[' || c == ']'
}

/// Whether a text has a wildcard.
pub open spec fn has_wild(s: Seq<char>) -> bool {
    exists|i: int| 0 <= i < s.len() && wild(#[trigger] s[i])
}

/// The length of a text in bytes is that of its characters together.
pub proof fn law_bytes_add_up(s: Seq<char>, c: char)
    ensures
        text::bytes(Seq::empty()) == 0,
        text::bytes(s.push(c)) == text::bytes(s) + width(c),
    decreases s.len(),
{
    let t = s.push(c);
    if s.len() == 0 {
        assert(t.drop_first() =~= s);
        assert(t[0] == c);
        assert(vstd::utf8::encode_utf8(s) =~= Seq::<u8>::empty());
        assert(vstd::utf8::encode_utf8(t) == vstd::utf8::encode_scalar(c as u32)
            + vstd::utf8::encode_utf8(s));
        lemma_width(c);
    } else {
        assert(t.drop_first() =~= s.drop_first().push(c));
        assert(t[0] == s[0]);
        law_bytes_add_up(s.drop_first(), c);
        assert(vstd::utf8::encode_utf8(t) == vstd::utf8::encode_scalar(s[0] as u32)
            + vstd::utf8::encode_utf8(t.drop_first()));
        assert(vstd::utf8::encode_utf8(s) == vstd::utf8::encode_scalar(s[0] as u32)
            + vstd::utf8::encode_utf8(s.drop_first()));
    }
}

proof fn lemma_width(c: char)
    ensures
        vstd::utf8::encode_scalar(c as u32).len() == width(c),
{
}

/// A pattern gains a hundred for each byte before its first wildcard and one
/// for each literal character, and loses ten for each wildcard: so with each
/// character that is put behind it.
pub proof fn law_specificity_counts_each_character(s: Seq<char>, c: char)
    ensures
        ruleset::specificity(Seq::empty()) == 0,
        wild(c) ==> ruleset::specificity(s.push(c)) == ruleset::specificity(s) - 10,
        !wild(c) && has_wild(s) ==> ruleset::specificity(s.push(c)) == ruleset::specificity(s) + 1,
        !wild(c) && !has_wild(s) ==> ruleset::specificity(s.push(c)) == ruleset::specificity(s) + 1
            + 100 * width(c),
{
    let test = ruleset::is_wild_char();
    let t = s.push(c);
    let none = Seq::<char>::empty();
    text::lemma_scan(s, test);
    let n = text::scan(s, test);
    law_bytes_add_up(s, c);
    law_bytes_add_up(none, c);
    assert(none.take(0) =~= none);
    assert(t.drop_last() =~= s);
    assert forall|i: int| 0 <= i < n implies !test(#[trigger] t[i]) by {
        assert(t[i] == s[i]);
    }
    if n < s.len() {
        assert(wild(s[n]));
        assert(t[n] == s[n]);
        text::lemma_scan_is(t, test, n);
        assert(t.take(n) =~= s.take(n));
    } else {
        assert(!has_wild(s)) by {
            if has_wild(s) {
                let i = choose|i: int| 0 <= i < s.len() && wild(#[trigger] s[i]);
                assert(test(s[i]));
            }
        }
        assert(s.take(n) =~= s);
        if wild(c) {
            text::lemma_scan_is(t, test, n);
            assert(t.take(n) =~= s);
        } else {
            assert forall|i: int| 0 <= i < n + 1 implies !test(#[trigger] t[i]) by {
                if i == n {
                    assert(t[i] == c);
                }
            }
            text::lemma_scan_is(t, test, n + 1);
            assert(t.take(n + 1) =~= t);
        }
    }
}

/// Of two prefixes that any end may follow, the longer one is the more
/// specific.
pub proof fn law_longer_prefixes_are_more_specific(a: Seq<char>, b: Seq<char>)
    requires
        !has_wild(a + b),
        b.len() > 0,
    ensures
        ruleset::specificity((a + b).push('*')) > ruleset::specificity(a.push('*')),
{
    lemma_prefix(a, b);
    law_specificity_counts_each_character(a + b, '*');
    law_specificity_counts_each_character(a, '*');
}

proof fn lemma_prefix(a: Seq<char>, b: Seq<char>)
    requires
        !has_wild(a + b),
    ensures
        ruleset::specificity(a + b) >= ruleset::specificity(a) + b.len(),
    decreases b.len(),
{
    let t = a + b;
    if b.len() == 0 {
        assert(t =~= a);
    } else {
        let c = b.last();
        let front = b.drop_last();
        assert(t =~= (a + front).push(c));
        assert(t[t.len() - 1] == c);
        assert forall|i: int| 0 <= i < (a + front).len() implies !wild(
            #[trigger] (a + front)[i],
        ) by {
            assert((a + front)[i] == t[i]);
        }
        lemma_prefix(a, front);
        law_specificity_counts_each_character(a + front, c);
    }
}

// ---------------------------------------------------------------------
// Compiling
// ---------------------------------------------------------------------

/// A rule can be compiled just when its package is named and shorter than 128
/// bytes, its thread pattern shorter than 32, and its CPU list empty or with a
/// CPU that the machine has.
pub proof fn law_which_rules_are_compiled(rc: RuleConfigView, present: Set<int>)
    ensures
        ruleset::rejection(rc, present) is None <==> {
            &&& rc.pkg.len() > 0
            &&& text::bytes(rc.pkg) < 128
            &&& text::bytes(rc.thread) < 32
            &&& rc.cpus.len() == 0 || exists|c: int|
                present.contains(c) && topology::range_cpus(rc.cpus).contains(c)
        },
{
    let both = topology::range_cpus(rc.cpus).intersect(present);
    if exists|c: int| present.contains(c) && topology::range_cpus(rc.cpus).contains(c) {
        let c = choose|c: int| present.contains(c) && topology::range_cpus(rc.cpus).contains(c);
        assert(both.contains(c));
    } else {
        assert(both =~= Set::<int>::empty());
    }
}

/// A compiled rule says what the rule says, of the CPUs that the machine has:
/// the same package and thread pattern, niceness and clamps, and each CPU of
/// its list that is there.
pub proof fn law_compiled_rules_say_the_same(rc: RuleConfigView, present: Set<int>, c: int)
    ensures
        ({
            let r = ruleset::compiled(rc, present);
            &&& r.pkg == rc.pkg
            &&& r.thread == rc.thread
            &&& r.policy.nice == rc.nice
            &&& r.policy.uclamp_min == rc.uclamp_min
            &&& r.policy.uclamp_max == rc.uclamp_max
            &&& r.policy.cpus.contains(c) <==> present.contains(c) && topology::range_cpus(
                rc.cpus,
            ).contains(c)
            &&& r.policy.cpuset_dir == topology::range_text(r.policy.cpus)
            &&& rc.sched is None ==> r.policy.sched is None && r.policy.sched_prio is None
        }),
{
}

/// The scheduling class of a rule is the one that its text names, up to a
/// colon; a number behind the colon is its priority.
pub proof fn law_classes_come_with_their_priority(
    rc: RuleConfigView,
    present: Set<int>,
    name: Seq<char>,
    n: i32,
    rest: Seq<char>,
)
    requires
        words::free_of(name, ':'),
    ensures
        ({
            let p = ruleset::compiled(rc, present).policy;
            let class = policy::sched_named(name);
            &&& rc.sched == Some(name) ==> p.sched == class && p.sched_prio is None
            &&& rc.sched == Some(name + seq![':'] + text::signed_decimal(n as int)) ==> p.sched
                == class && p.sched_prio == if class is Some {
                Some(n)
            } else {
                None
            }
            &&& rc.sched == Some(name + seq![':'] + rest) ==> p.sched == class && (text::i32_of(
                rest,
            ) is None || class is None ==> p.sched_prio is None)
        }),
{
    words::law_where_a_character_stands(name, ':', rest);
    let d = text::signed_decimal(n as int);
    words::law_where_a_character_stands(name, ':', d);
    let full = name + seq![':'] + d;
    let other = name + seq![':'] + rest;
    assert(full.take(name.len() as int) =~= name);
    assert(full.skip(name.len() as int + 1) =~= d);
    assert(other.take(name.len() as int) =~= name);
    assert(other.skip(name.len() as int + 1) =~= rest);
    if n < 0 {
        words::law_numbers_are_read_as_written((-n) as nat, 0x7FFF_FFFF, 0x8000_0000);
    } else {
        words::law_numbers_are_read_as_written(n as nat, 0x7FFF_FFFF, 0x8000_0000);
    }
}

/// Rules are compiled one by one, in their order: those of two lists together
/// are those of the first and then those of the second, and so are the
/// reports, with the place of each rule.
pub proof fn law_rules_are_compiled_in_order(
    a: Seq<RuleConfigView>,
    b: Seq<RuleConfigView>,
    present: Set<int>,
)
    ensures
        ruleset::accepted(a + b, present) == ruleset::accepted(a, present) + ruleset::accepted(
            b,
            present,
        ),
        ({
            let x = ruleset::rejected(a, present);
            let y = ruleset::rejected(b, present);
            let z = ruleset::rejected(a + b, present);
            &&& z.len() == x.len() + y.len()
            &&& forall|i: int| 0 <= i < x.len() ==> #[trigger] z[i] == x[i]
            &&& forall|i: int|
                0 <= i < y.len() ==> #[trigger] z[x.len() + i] == (a.len() + y[i].0, y[i].1)
        }),
    decreases b.len(),
{
    if b.len() == 0 {
        assert(a + b =~= a);
        assert(ruleset::accepted(a + b, present) =~= ruleset::accepted(a, present)
            + ruleset::accepted(b, present));
    } else {
        let front = b.drop_last();
        law_rules_are_compiled_in_order(a, front, present);
        assert((a + b).drop_last() =~= a + front);
        assert((a + b).last() == b.last());
        assert(ruleset::accepted(a + b, present) =~= ruleset::accepted(a, present)
            + ruleset::accepted(b, present));
        let x = ruleset::rejected(a, present);
        let y = ruleset::rejected(b, present);
        let z = ruleset::rejected(a + b, present);
        let fy = ruleset::rejected(front, present);
        let fz = ruleset::rejected(a + front, present);
        assert forall|i: int| 0 <= i < x.len() implies #[trigger] z[i] == x[i] by {
            assert(fz[i] == x[i]);
        }
        assert forall|i: int| 0 <= i < y.len() implies #[trigger] z[x.len() + i] == (a.len()
            + y[i].0, y[i].1) by {
            if i < fy.len() {
                assert(fz[x.len() + i] == (a.len() + fy[i].0, fy[i].1));
                assert(y[i] == fy[i]);
            }
        }
    }
}

/// The packages of some rules are those that a rule has, each once.
pub proof fn law_each_package_is_listed_once(rules: Seq<CompiledView>, pkg: Seq<char>)
    ensures
        ruleset::packages(rules).contains(pkg) <==> exists|i: int|
            0 <= i < rules.len() && (#[trigger] rules[i]).pkg == pkg,
        ruleset::packages(rules).no_duplicates(),
    decreases rules.len(),
{
    let all = ruleset::packages(rules);
    if rules.len() > 0 {
        let front = rules.drop_last();
        let n = rules.len() - 1;
        let before = ruleset::packages(front);
        law_each_package_is_listed_once(front, pkg);
        assert forall|i: int| 0 <= i < n implies #[trigger] front[i] == rules[i] by {}
        assert(rules[n] == rules.last());
        if before.contains(pkg) {
            let i = choose|i: int| 0 <= i < before.len() && before[i] == pkg;
            assert(all[i] == pkg);
            let k = choose|k: int| 0 <= k < front.len() && (#[trigger] front[k]).pkg == pkg;
            assert(rules[k].pkg == pkg);
        }
        if exists|i: int| 0 <= i < rules.len() && (#[trigger] rules[i]).pkg == pkg {
            let i = choose|i: int| 0 <= i < rules.len() && (#[trigger] rules[i]).pkg == pkg;
            if i < n {
                assert(front[i].pkg == pkg);
            } else if !before.contains(pkg) {
                assert(all[before.len() as int] == pkg);
            }
        }
        if all.contains(pkg) && !before.contains(pkg) {
            let i = choose|i: int| 0 <= i < all.len() && all[i] == pkg;
            if i < before.len() {
                assert(before[i] == pkg);
            }
            assert(rules[n].pkg == pkg);
        }
        assert forall|i: int, j: int| 0 <= i < all.len() && 0 <= j < all.len() && i
            != j implies all[i] != all[j] by {
            if i < before.len() && j < before.len() {
                assert(before[i] != before[j]);
            } else if i < before.len() {
                assert(before.contains(before[i]));
            } else {
                assert(before.contains(before[j]));
            }
        }
    } else {
        assert(all =~= Seq::<Seq<char>>::empty());
    }
}

/// The patterns to be tried are the texts that have a wildcard, and of the
/// rules that apply to a package the thread patterns that are not empty.
pub proof fn law_patterns_to_be_tried(
    texts: Seq<Seq<char>>,
    ms: Seq<RuleMatch>,
    rules: Seq<CompiledView>,
    x: Seq<char>,
)
    ensures
        ruleset::patterns_of(texts).contains(x) <==> texts.contains(x) && !resolve::literal(x),
        ruleset::thread_patterns_of(ms, rules).contains(x) <==> x.len() > 0 && exists|i: int|
            0 <= i < ms.len() && rules[(#[trigger] ms[i]).index as int].thread == x,
    decreases texts.len() + ms.len(),
{
    let all = ruleset::patterns_of(texts);
    let threads = ruleset::thread_patterns_of(ms, rules);
    if texts.len() > 0 {
        let front = texts.drop_last();
        let before = ruleset::patterns_of(front);
        law_patterns_to_be_tried(front, ms, rules, x);
        resolve::lemma_literal(texts.last());
        if before.contains(x) {
            let i = choose|i: int| 0 <= i < before.len() && before[i] == x;
            assert(all[i] == x);
        }
        if front.contains(x) {
            let i = choose|i: int| 0 <= i < front.len() && front[i] == x;
            assert(texts[i] == x);
        }
        if texts.contains(x) {
            let i = choose|i: int| 0 <= i < texts.len() && texts[i] == x;
            if i < front.len() {
                assert(front[i] == x);
            } else if !resolve::literal(x) {
                assert(all[before.len() as int] == x);
            }
        }
        if all.contains(x) {
            let i = choose|i: int| 0 <= i < all.len() && all[i] == x;
            if i < before.len() {
                assert(before[i] == x);
            } else {
                assert(texts[texts.len() - 1] == x);
            }
        }
    } else {
        assert(all =~= Seq::<Seq<char>>::empty());
        if ms.len() > 0 {
            let front = ms.drop_last();
            let before = ruleset::thread_patterns_of(front, rules);
            law_patterns_to_be_tried(texts, front, rules, x);
            assert forall|i: int| 0 <= i < front.len() implies #[trigger] front[i] == ms[i] by {}
            assert(ms[ms.len() - 1] == ms.last());
            if before.contains(x) {
                let i = choose|i: int| 0 <= i < before.len() && before[i] == x;
                assert(threads[i] == x);
                let k = choose|k: int|
                    0 <= k < front.len() && rules[(#[trigger] front[k]).index as int].thread == x;
                assert(rules[ms[k].index as int].thread == x);
            }
            if x.len() > 0 && exists|i: int|
                0 <= i < ms.len() && rules[(#[trigger] ms[i]).index as int].thread == x {
                let i = choose|i: int|
                    0 <= i < ms.len() && rules[(#[trigger] ms[i]).index as int].thread == x;
                if i < front.len() {
                    assert(rules[front[i].index as int].thread == x);
                } else {
                    assert(threads[before.len() as int] == x);
                }
            }
            if threads.contains(x) {
                let i = choose|i: int| 0 <= i < threads.len() && threads[i] == x;
                if i < before.len() {
                    assert(before[i] == x);
                } else {
                    assert(rules[ms[ms.len() - 1].index as int].thread == x);
                }
            }
        } else {
            assert(threads =~= Seq::<Seq<char>>::empty());
        }
    }
}

} // verus!
