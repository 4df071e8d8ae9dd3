//! Compiled rules and which of them apply to a thread.
//!
//! Package sources coexist: the rules of the exact package name and those of
//! the most specific matching package pattern both apply, and are merged
//! field by field. Rules for a thread name go before rules for all threads of
//! a package, which fill what the former leave open.
//!
//! Whether a shell pattern matches a name is for `fnmatch` to say. The
//! functions here take its verdicts as the list of patterns that match.

use vstd::prelude::*;

use crate::config;
use crate::config::{RuleConfig, RuleConfigView};
use crate::merge;
use crate::policy::{Policy, PolicyView, SchedPolicy};
use crate::text;
use crate::topology;
use crate::topology::{CpuTopology, MAX_PKG_LEN, MAX_THREAD_LEN};

verus! {

/// Where a rule that matches comes from.
#[derive(Debug, Clone, Copy, PartialEq, Eq, Structural)]
pub enum RuleSource {
    Global,
    Profile,
    Group,
    /// The most specific package pattern.
    PackageWildcard,
    /// The exact package name.
    PackageExact,
    ThreadType,
    ThreadExact,
}

impl RuleSource {
    /// The rank of the source; the higher one wins.
    pub open spec fn rank(&self) -> int {
        match self {
            RuleSource::Global => 10,
            RuleSource::Profile => 20,
            RuleSource::Group => 30,
            RuleSource::PackageWildcard => 40,
            RuleSource::PackageExact => 50,
            RuleSource::ThreadType => 60,
            RuleSource::ThreadExact => 70,
        }
    }

    /// The rank of the source; the higher one wins.
    pub fn priority(self) -> (r: u8)
        ensures
            r == self.rank(),
    {
        match self {
            RuleSource::Global => 10,
            RuleSource::Profile => 20,
            RuleSource::Group => 30,
            RuleSource::PackageWildcard => 40,
            RuleSource::PackageExact => 50,
            RuleSource::ThreadType => 60,
            RuleSource::ThreadExact => 70,
        }
    }
}

/// A rule that matches, and why.
#[derive(Debug, Clone, Copy, PartialEq, Eq, Structural)]
pub struct RuleMatch {
    pub index: usize,
    pub source: RuleSource,
}

/// A compiled rule.
#[derive(Debug)]
pub struct CompiledRule {
    pub pkg: String,
    pub thread: String,
    pub policy: Policy,
}

/// The contents of a compiled rule.
#[verifier::ext_equal]
pub struct CompiledView {
    pub pkg: Seq<char>,
    pub thread: Seq<char>,
    pub policy: PolicyView,
}

impl View for CompiledRule {
    type V = CompiledView;

    open spec fn view(&self) -> CompiledView {
        CompiledView { pkg: self.pkg@, thread: self.thread@, policy: self.policy@ }
    }
}

impl Clone for CompiledRule {
    fn clone(&self) -> (r: CompiledRule)
        ensures
            r == *self,
    {
        CompiledRule {
            pkg: self.pkg.clone(),
            thread: self.thread.clone(),
            policy: self.policy.clone(),
        }
    }
}

/// The contents of compiled rules.
pub open spec fn compiled_views(rules: Seq<CompiledRule>) -> Seq<CompiledView> {
    Seq::new(rules.len(), |i: int| rules[i]@)
}

/// A rule that was not compiled, and why.
#[derive(Debug)]
pub struct RuleError {
    pub index: usize,
    pub reason: String,
}

impl RuleError {
    /// The error in words; rules are counted from one.
    pub fn to_text(&self) -> (r: String)
        requires
            self.index < usize::MAX,
        ensures
            r@ == "rule #"@ + text::decimal((self.index + 1) as nat) + ": "@ + self.reason@,
    {
        let mut out = "rule #".to_owned();
        text::push_decimal(&mut out, (self.index + 1) as u64);
        out.append(": ");
        out.append(self.reason.as_str());
        out
    }
}

// ---------------------------------------------------------------------
// Patterns
// ---------------------------------------------------------------------

/// The test for a character that makes a text a pattern.
pub open spec fn is_pattern_char() -> spec_fn(char) -> bool {
    |c: char| c == '*' || c == '?' || c == '['
}

/// The test for a character that counts as a wildcard.
pub open spec fn is_wild_char() -> spec_fn(char) -> bool {
    |c: char| c == '*' || c == '?' || c == '[' || c == ']'
}

/// Whether a text is a pattern.
pub open spec fn is_pattern(s: Seq<char>) -> bool {
    exists|i: int| 0 <= i < s.len() && is_pattern_char()(#[trigger] s[i])
}

/// Whether a text is a pattern.
pub fn contains_wildcard(s: &str) -> (r: bool)
    ensures
        r == is_pattern(s@),
{
    let chars = text::chars_of(s);
    let mut i: usize = 0;
    while i < chars.len()
        invariant
            0 <= i <= chars@.len(),
            chars@ == s@,
            forall|j: int| 0 <= j < i ==> !is_pattern_char()(#[trigger] s@[j]),
        decreases chars@.len() - i,
    {
        let c = chars[i];
        if c == '*' || c == '?' || c == '[' {
            proof {
                assert(is_pattern_char()(s@[i as int]));
            }
            return true;
        }
        i += 1;
    }
    false
}

/// Number of characters that count as wildcards.
pub open spec fn wild_count(s: Seq<char>) -> int
    decreases s.len(),
{
    if s.len() == 0 {
        0
    } else {
        wild_count(s.drop_last()) + if is_wild_char()(s.last()) {
            1int
        } else {
            0int
        }
    }
}

/// How specific a pattern is: a hundred for each byte before its first
/// wildcard, one for each literal character, less ten for each wildcard.
pub open spec fn specificity(s: Seq<char>) -> int {
    text::bytes(s.take(text::scan(s, is_wild_char()))) * 100 + (s.len() - wild_count(s))
        - wild_count(s) * 10
}

/// How specific a pattern is; below zero where its wildcards outweigh the
/// rest.
pub fn pattern_specificity(s: &str) -> (r: i128)
    ensures
        r == specificity(s@),
{
    let chars = text::chars_of(s);
    let mut first: usize = chars.len();
    let mut wild: usize = 0;
    let mut i: usize = 0;
    while i < chars.len()
        invariant
            0 <= i <= chars@.len(),
            chars@ == s@,
            0 <= wild <= i,
            wild == wild_count(s@.take(i as int)),
            first == s@.len() || first < i,
            first == s@.len() ==> forall|j: int|
                0 <= j < i ==> !is_wild_char()(#[trigger] s@[j]),
            first < s@.len() ==> is_wild_char()(s@[first as int]) && forall|j: int|
                0 <= j < first ==> !is_wild_char()(#[trigger] s@[j]),
        decreases chars@.len() - i,
    {
        let c = chars[i];
        proof {
            assert(s@.take(i + 1).drop_last() =~= s@.take(i as int));
            assert(s@.take(i + 1).last() == c);
        }
        if c == '*' || c == '?' || c == '[' || c == ']' {
            if first == chars.len() {
                first = i;
            }
            wild += 1;
        }
        i += 1;
    }
    proof {
        assert(s@.take(i as int) =~= s@);
        text::lemma_scan_is(s@, is_wild_char(), first as int);
        assert(chars@.subrange(0, first as int) =~= s@.take(first as int));
    }
    let prefix = text::string_of(vstd::slice::slice_subrange(chars.as_slice(), 0, first));
    let n: usize = text::byte_len(prefix.as_str());
    n as i128 * 100 + (chars.len() - wild) as i128 - wild as i128 * 10
}

// ---------------------------------------------------------------------
// Compiling
// ---------------------------------------------------------------------

/// Why a rule cannot be compiled on a machine with these CPUs.
pub open spec fn rejection(rc: RuleConfigView, present: Set<int>) -> Option<Seq<char>> {
    if rc.pkg.len() == 0 || text::bytes(rc.pkg) >= MAX_PKG_LEN {
        Some("pkg 为空或超过长度限制"@)
    } else if text::bytes(rc.thread) >= MAX_THREAD_LEN {
        Some("thread 超过长度限制"@)
    } else if rc.cpus.len() > 0 && topology::range_cpus(rc.cpus).intersect(present) == Set::<
        int,
    >::empty() {
        Some("cpus \""@ + rc.cpus + "\" parses empty or invalid"@)
    } else {
        None
    }
}

/// The compiled form of a rule.
pub open spec fn compiled(rc: RuleConfigView, present: Set<int>) -> CompiledView {
    let cpus = topology::range_cpus(rc.cpus).intersect(present);
    let sched = config::sched_spec_of(rc.sched);
    CompiledView {
        pkg: rc.pkg,
        thread: rc.thread,
        policy: PolicyView {
            cpus,
            cpuset_dir: topology::range_text(cpus),
            sched: match sched {
                Some(s) => Some(s.0),
                None => None,
            },
            sched_prio: match sched {
                Some(s) => match s.1 {
                    Some(p) => Some(p as i32),
                    None => None,
                },
                None => None,
            },
            nice: rc.nice,
            uclamp_min: rc.uclamp_min,
            uclamp_max: rc.uclamp_max,
        },
    }
}

/// The compiled forms of the rules that can be compiled, in order.
pub open spec fn accepted(configs: Seq<RuleConfigView>, present: Set<int>) -> Seq<CompiledView>
    decreases configs.len(),
{
    if configs.len() == 0 {
        Seq::empty()
    } else {
        let before = accepted(configs.drop_last(), present);
        if rejection(configs.last(), present) is None {
            before.push(compiled(configs.last(), present))
        } else {
            before
        }
    }
}

/// The rules that cannot be compiled, by index, and why, in order.
pub open spec fn rejected(
    configs: Seq<RuleConfigView>,
    present: Set<int>,
) -> Seq<(int, Seq<char>)>
    decreases configs.len(),
{
    if configs.len() == 0 {
        Seq::empty()
    } else {
        let before = rejected(configs.drop_last(), present);
        match rejection(configs.last(), present) {
            Some(reason) => before.push((configs.len() - 1, reason)),
            None => before,
        }
    }
}

/// The contents of errors.
pub open spec fn error_views(errors: Seq<RuleError>) -> Seq<(int, Seq<char>)> {
    Seq::new(errors.len(), |i: int| (errors[i].index as int, errors[i].reason@))
}

/// The packages of some rules, each once, in the order of their first rule.
pub open spec fn packages(rules: Seq<CompiledView>) -> Seq<Seq<char>>
    decreases rules.len(),
{
    if rules.len() == 0 {
        Seq::empty()
    } else {
        let before = packages(rules.drop_last());
        if before.contains(rules.last().pkg) {
            before
        } else {
            before.push(rules.last().pkg)
        }
    }
}

/// Compiled rules.
pub struct RuleSet {
    rules: Vec<CompiledRule>,
    pkgs: Vec<String>,
}

impl View for RuleSet {
    type V = Seq<CompiledView>;

    closed spec fn view(&self) -> Seq<CompiledView> {
        compiled_views(self.rules@)
    }
}

impl RuleSet {
    /// The packages of the rules are kept beside them.
    pub closed spec fn wf(&self) -> bool {
        text::strings(self.pkgs@) == packages(self@)
    }
}

impl Clone for RuleSet {
    fn clone(&self) -> (r: RuleSet)
        ensures
            r@ == self@,
            self.wf() ==> r.wf(),
    {
        let mut rules: Vec<CompiledRule> = Vec::new();
        let mut i: usize = 0;
        while i < self.rules.len()
            invariant
                0 <= i <= self.rules@.len(),
                rules@ == self.rules@.take(i as int),
            decreases self.rules@.len() - i,
        {
            rules.push(self.rules[i].clone());
            proof {
                assert(rules@ =~= self.rules@.take(i + 1));
            }
            i += 1;
        }
        let mut pkgs: Vec<String> = Vec::new();
        let mut k: usize = 0;
        while k < self.pkgs.len()
            invariant
                0 <= k <= self.pkgs@.len(),
                pkgs@ == self.pkgs@.take(k as int),
            decreases self.pkgs@.len() - k,
        {
            pkgs.push(self.pkgs[k].clone());
            proof {
                assert(pkgs@ =~= self.pkgs@.take(k + 1));
            }
            k += 1;
        }
        proof {
            assert(self.rules@.take(i as int) =~= self.rules@);
            assert(self.pkgs@.take(k as int) =~= self.pkgs@);
        }
        RuleSet { rules, pkgs }
    }
}

impl Default for RuleSet {
    /// No rule.
    fn default() -> (r: RuleSet)
        ensures
            r@ == Seq::<CompiledView>::empty(),
            r.wf(),
    {
        let r = RuleSet { rules: Vec::new(), pkgs: Vec::new() };
        proof {
            assert(r@ =~= Seq::<CompiledView>::empty());
            assert(text::strings(r.pkgs@) =~= packages(r@));
        }
        r
    }
}

/// The outcome of compiling.
pub struct CompileResult {
    pub rules: RuleSet,
    pub errors: Vec<RuleError>,
}

fn compile_rule(rc: &RuleConfig, topo: &CpuTopology) -> (r: Result<CompiledRule, String>)
    ensures
        match r {
            Ok(c) => rejection(rc@, topo.present_cpus@) is None && c@ == compiled(
                rc@,
                topo.present_cpus@,
            ),
            Err(reason) => rejection(rc@, topo.present_cpus@) == Some(reason@),
        },
{
    if rc.pkg.as_str().is_empty() || text::byte_len(rc.pkg.as_str()) >= MAX_PKG_LEN {
        return Err("pkg 为空或超过长度限制".to_owned());
    }
    if text::byte_len(rc.thread.as_str()) >= MAX_THREAD_LEN {
        return Err("thread 超过长度限制".to_owned());
    }
    let cpus = topology::parse_cpu_ranges(rc.cpus.as_str(), Some(&topo.present_cpus));
    if cpus.count() == 0 && !rc.cpus.as_str().is_empty() {
        let mut reason = "cpus \"".to_owned();
        reason.append(rc.cpus.as_str());
        reason.append("\" parses empty or invalid");
        return Err(reason);
    }
    let mut sched: Option<SchedPolicy> = None;
    let mut sched_prio: Option<i32> = None;
    match rc.sched_spec() {
        Some(s) => {
            sched = Some(s.policy);
            sched_prio = s.prio;
        },
        None => {},
    }
    Ok(
        CompiledRule {
            pkg: rc.pkg.clone(),
            thread: rc.thread.clone(),
            policy: Policy {
                cpus,
                cpuset_dir: cpus.to_range_string(),
                sched,
                sched_prio,
                nice: rc.nice,
                uclamp_min: rc.uclamp_min,
                uclamp_max: rc.uclamp_max,
            },
        },
    )
}

impl RuleSet {
    /// Compiles rules for a machine. Rules that cannot be compiled are left
    /// out and reported.
    pub fn compile(configs: &[RuleConfig], topo: &CpuTopology) -> (r: CompileResult)
        ensures
            r.rules@ == accepted(config::rule_views(configs@), topo.present_cpus@),
            r.rules.wf(),
            error_views(r.errors@) == rejected(config::rule_views(configs@), topo.present_cpus@),
    {
        let mut rules: Vec<CompiledRule> = Vec::new();
        let mut errors: Vec<RuleError> = Vec::new();
        let mut pkgs: Vec<String> = Vec::new();
        let ghost all = config::rule_views(configs@);
        let ghost present = topo.present_cpus@;
        let mut i: usize = 0;
        proof {
            assert(all.take(0) =~= Seq::<RuleConfigView>::empty());
            assert(compiled_views(rules@) =~= accepted(all.take(0), present));
            assert(error_views(errors@) =~= rejected(all.take(0), present));
            assert(text::strings(pkgs@) =~= packages(compiled_views(rules@)));
        }
        while i < configs.len()
            invariant
                0 <= i <= configs@.len(),
                all == config::rule_views(configs@),
                present == topo.present_cpus@,
                compiled_views(rules@) == accepted(all.take(i as int), present),
                error_views(errors@) == rejected(all.take(i as int), present),
                text::strings(pkgs@) == packages(compiled_views(rules@)),
            decreases configs@.len() - i,
        {
            proof {
                assert(all.take(i + 1).drop_last() =~= all.take(i as int));
                assert(all.take(i + 1).last() == configs@[i as int]@);
                assert(all.take(i + 1).len() == i + 1);
            }
            match compile_rule(&configs[i], topo) {
                Ok(c) => {
                    let ghost views0 = compiled_views(rules@);
                    let ghost pkgs0 = text::strings(pkgs@);
                    if !text::holds_text(pkgs.as_slice(), c.pkg.as_str()) {
                        pkgs.push(c.pkg.clone());
                        proof {
                            assert(text::strings(pkgs@) =~= pkgs0.push(c.pkg@));
                        }
                    }
                    rules.push(c);
                    proof {
                        let views = compiled_views(rules@);
                        assert(views =~= views0.push(c@));
                        assert(views.drop_last() =~= views0);
                    }
                },
                Err(reason) => {
                    let ghost errors0 = error_views(errors@);
                    errors.push(RuleError { index: i, reason });
                    proof {
                        assert(error_views(errors@) =~= errors0.push((i as int, reason@)));
                    }
                },
            }
            i += 1;
        }
        proof {
            assert(all.take(i as int) =~= all);
        }
        CompileResult { rules: RuleSet { rules, pkgs }, errors }
    }

    /// The compiled rules.
    pub fn rules(&self) -> (r: &Vec<CompiledRule>)
        ensures
            compiled_views(r@) == self@,
    {
        &self.rules
    }

    /// The packages that rules name.
    pub fn pkgs(&self) -> (r: &Vec<String>)
        requires
            self.wf(),
        ensures
            text::strings(r@) == packages(self@),
    {
        &self.pkgs
    }

    /// The packages that rules name.
    pub fn pkg_list(&self) -> (r: &Vec<String>)
        requires
            self.wf(),
        ensures
            text::strings(r@) == packages(self@),
    {
        &self.pkgs
    }

    /// Whether a rule asks for a real-time class.
    pub fn has_rt_sched(&self) -> (r: bool)
        ensures
            r == exists|i: int|
                0 <= i < self@.len() && ((#[trigger] self@[i]).policy.sched matches Some(s)
                    && s.real_time()),
    {
        let mut i: usize = 0;
        while i < self.rules.len()
            invariant
                0 <= i <= self.rules@.len(),
                forall|j: int|
                    0 <= j < i ==> !((#[trigger] self@[j]).policy.sched matches Some(s)
                        && s.real_time()),
            decreases self.rules@.len() - i,
        {
            proof {
                assert(self@[i as int] == self.rules@[i as int]@);
            }
            match self.rules[i].policy.sched {
                Some(s) => if s.is_rt() {
                    return true;
                },
                None => {},
            }
            i += 1;
        }
        false
    }
}

// ---------------------------------------------------------------------
// Matching
// ---------------------------------------------------------------------

/// The rules of the exact package name, in order.
pub open spec fn exact_matches(rules: Seq<CompiledView>, pkg: Seq<char>) -> Seq<RuleMatch>
    decreases rules.len(),
{
    if rules.len() == 0 {
        Seq::empty()
    } else {
        let before = exact_matches(rules.drop_last(), pkg);
        if rules.last().pkg == pkg && !is_pattern(pkg) {
            before.push(
                RuleMatch { index: (rules.len() - 1) as usize, source: RuleSource::PackageExact },
            )
        } else {
            before
        }
    }
}

/// The rules of one package pattern, in order.
pub open spec fn pattern_matches(rules: Seq<CompiledView>, pattern: Seq<char>) -> Seq<RuleMatch>
    decreases rules.len(),
{
    if rules.len() == 0 {
        Seq::empty()
    } else {
        let before = pattern_matches(rules.drop_last(), pattern);
        if rules.last().pkg == pattern {
            before.push(
                RuleMatch {
                    index: (rules.len() - 1) as usize,
                    source: RuleSource::PackageWildcard,
                },
            )
        } else {
            before
        }
    }
}

/// Whether a package pattern of a rule matches, by the patterns that do.
pub open spec fn pattern_hits(pattern: Seq<char>, pkg: Seq<char>, hits: Seq<Seq<char>>) -> bool {
    is_pattern(pattern) && text::bytes(pkg) < MAX_PKG_LEN && hits.contains(pattern)
}

/// The most specific package pattern that matches, the first one of several.
pub open spec fn best_pattern(
    rules: Seq<CompiledView>,
    pkg: Seq<char>,
    hits: Seq<Seq<char>>,
) -> Option<Seq<char>>
    decreases rules.len(),
{
    if rules.len() == 0 {
        None
    } else {
        let before = best_pattern(rules.drop_last(), pkg, hits);
        let c = rules.last().pkg;
        if pattern_hits(c, pkg, hits) && (before matches Some(b) ==> specificity(c) > specificity(
            b,
        )) {
            Some(c)
        } else {
            before
        }
    }
}

/// The rules that apply to a package: those of its exact name, and those of
/// the most specific pattern that matches.
pub open spec fn package_matches(
    rules: Seq<CompiledView>,
    pkg: Seq<char>,
    hits: Seq<Seq<char>>,
) -> Seq<RuleMatch> {
    exact_matches(rules, pkg) + match best_pattern(rules, pkg, hits) {
        Some(p) => pattern_matches(rules, p),
        None => Seq::empty(),
    }
}

/// The matches whose rules satisfy `p`.
pub open spec fn select(
    ms: Seq<RuleMatch>,
    rules: Seq<CompiledView>,
    p: spec_fn(CompiledView) -> bool,
) -> Seq<RuleMatch>
    decreases ms.len(),
{
    if ms.len() == 0 {
        Seq::empty()
    } else {
        let before = select(ms.drop_last(), rules, p);
        if p(rules[ms.last().index as int]) {
            before.push(ms.last())
        } else {
            before
        }
    }
}

/// The test for a rule for all threads.
pub open spec fn for_all_threads() -> spec_fn(CompiledView) -> bool {
    |r: CompiledView| r.thread.len() == 0
}

/// The test for a rule whose thread pattern matches, by the patterns that do.
pub open spec fn for_thread(
    thread: Seq<char>,
    hits: Seq<Seq<char>>,
) -> spec_fn(CompiledView) -> bool {
    |r: CompiledView|
        r.thread.len() > 0 && text::bytes(thread) < MAX_THREAD_LEN && hits.contains(r.thread)
}

/// The merged policy of a thread: rules for its name go before rules for all
/// threads, which fill what the former leave open.
pub open spec fn thread_policy(
    ms: Seq<RuleMatch>,
    rules: Seq<CompiledView>,
    thread: Seq<char>,
    hits: Seq<Seq<char>>,
) -> Option<PolicyView> {
    let own = merge::merged(select(ms, rules, for_thread(thread, hits)), rules);
    let general = merge::merged(select(ms, rules, for_all_threads()), rules);
    match own {
        Some(p) => match general {
            Some(f) => Some(merge::filled(p, f)),
            None => Some(p),
        },
        None => general,
    }
}

/// The policy that is applied to a thread. A policy without CPUs, scheduling
/// class and niceness is none. The cpuset directory is that of the CPUs.
pub open spec fn resolved(
    ms: Seq<RuleMatch>,
    rules: Seq<CompiledView>,
    thread: Seq<char>,
    hits: Seq<Seq<char>>,
) -> Option<PolicyView> {
    match thread_policy(ms, rules, thread, hits) {
        Some(p) => if p.cpus == Set::<int>::empty() && p.sched is None && p.nice is None {
            None
        } else {
            Some(PolicyView { cpuset_dir: topology::range_text(p.cpus), ..p })
        },
        None => None,
    }
}

proof fn lemma_matches_in_range(rules: Seq<CompiledView>, pkg: Seq<char>, pattern: Seq<char>)
    requires
        rules.len() <= usize::MAX,
    ensures
        merge::in_range(exact_matches(rules, pkg), rules),
        merge::in_range(pattern_matches(rules, pattern), rules),
    decreases rules.len(),
{
    if rules.len() > 0 {
        lemma_matches_in_range(rules.drop_last(), pkg, pattern);
    }
}

/// The matches of a package point to rules.
pub proof fn lemma_package_matches_in_range(
    rules: Seq<CompiledView>,
    pkg: Seq<char>,
    hits: Seq<Seq<char>>,
)
    requires
        rules.len() <= usize::MAX,
    ensures
        merge::in_range(package_matches(rules, pkg, hits), rules),
{
    match best_pattern(rules, pkg, hits) {
        Some(p) => lemma_matches_in_range(rules, pkg, p),
        None => lemma_matches_in_range(rules, pkg, pkg),
    }
}

proof fn lemma_select_in_range(
    ms: Seq<RuleMatch>,
    rules: Seq<CompiledView>,
    p: spec_fn(CompiledView) -> bool,
)
    requires
        merge::in_range(ms, rules),
    ensures
        merge::in_range(select(ms, rules, p), rules),
    decreases ms.len(),
{
    if ms.len() > 0 {
        assert(merge::in_range(ms.drop_last(), rules)) by {
            assert forall|i: int| 0 <= i < ms.drop_last().len() implies (
            #[trigger] ms.drop_last()[i]).index < rules.len() by {
                assert(ms[i].index < rules.len());
            }
        }
        assert(ms[ms.len() - 1].index < rules.len());
        lemma_select_in_range(ms.drop_last(), rules, p);
    }
}

impl RuleSet {
    fn exact(&self, pkg: &str) -> (r: Vec<RuleMatch>)
        ensures
            r@ == exact_matches(self@, pkg@),
    {
        let mut out: Vec<RuleMatch> = Vec::new();
        let plain = !contains_wildcard(pkg);
        let mut i: usize = 0;
        proof {
            assert(self@.take(0) =~= Seq::<CompiledView>::empty());
        }
        while i < self.rules.len()
            invariant
                0 <= i <= self.rules@.len(),
                plain == !is_pattern(pkg@),
                out@ == exact_matches(self@.take(i as int), pkg@),
            decreases self.rules@.len() - i,
        {
            proof {
                assert(self@.take(i + 1).drop_last() =~= self@.take(i as int));
                assert(self@.take(i + 1).last() == self.rules@[i as int]@);
            }
            if plain && text::same_text(self.rules[i].pkg.as_str(), pkg) {
                out.push(RuleMatch { index: i, source: RuleSource::PackageExact });
            }
            i += 1;
        }
        proof {
            assert(self@.take(i as int) =~= self@);
        }
        out
    }

    fn of_pattern(&self, pattern: &str) -> (r: Vec<RuleMatch>)
        ensures
            r@ == pattern_matches(self@, pattern@),
    {
        let mut out: Vec<RuleMatch> = Vec::new();
        let mut i: usize = 0;
        proof {
            assert(self@.take(0) =~= Seq::<CompiledView>::empty());
        }
        while i < self.rules.len()
            invariant
                0 <= i <= self.rules@.len(),
                out@ == pattern_matches(self@.take(i as int), pattern@),
            decreases self.rules@.len() - i,
        {
            proof {
                assert(self@.take(i + 1).drop_last() =~= self@.take(i as int));
                assert(self@.take(i + 1).last() == self.rules@[i as int]@);
            }
            if text::same_text(self.rules[i].pkg.as_str(), pattern) {
                out.push(RuleMatch { index: i, source: RuleSource::PackageWildcard });
            }
            i += 1;
        }
        proof {
            assert(self@.take(i as int) =~= self@);
        }
        out
    }

    fn best(&self, pkg: &str, hits: &[String]) -> (r: Option<&str>)
        ensures
            match r {
                Some(p) => best_pattern(self@, pkg@, text::strings(hits@)) == Some(p@),
                None => best_pattern(self@, pkg@, text::strings(hits@)) is None,
            },
    {
        let mut found: Option<&str> = None;
        let mut bar: i128 = 0;
        let fits = text::byte_len(pkg) < MAX_PKG_LEN;
        let ghost h = text::strings(hits@);
        let mut i: usize = 0;
        proof {
            assert(self@.take(0) =~= Seq::<CompiledView>::empty());
        }
        while i < self.rules.len()
            invariant
                0 <= i <= self.rules@.len(),
                h == text::strings(hits@),
                fits == (text::bytes(pkg@) < MAX_PKG_LEN),
                match found {
                    Some(p) => best_pattern(self@.take(i as int), pkg@, h) == Some(p@) && bar
                        == specificity(p@),
                    None => best_pattern(self@.take(i as int), pkg@, h) is None,
                },
            decreases self.rules@.len() - i,
        {
            proof {
                assert(self@.take(i + 1).drop_last() =~= self@.take(i as int));
                assert(self@.take(i + 1).last() == self.rules@[i as int]@);
            }
            let c = self.rules[i].pkg.as_str();
            if fits && contains_wildcard(c) && text::holds_text(hits, c) {
                let weight = pattern_specificity(c);
                if found.is_none() || weight > bar {
                    found = Some(c);
                    bar = weight;
                }
            }
            i += 1;
        }
        proof {
            assert(self@.take(i as int) =~= self@);
        }
        found
    }

    /// The rules that apply to a package. `hits` are the package patterns
    /// that match it.
    pub fn collect_pkg_matches(&self, pkg: &str, hits: &[String]) -> (r: Vec<RuleMatch>)
        ensures
            r@ == package_matches(self@, pkg@, text::strings(hits@)),
            merge::in_range(r@, self@),
    {
        let mut out = self.exact(pkg);
        let count: usize = self.rules.len();
        proof {
            assert(self@.len() == count);
            lemma_package_matches_in_range(self@, pkg@, text::strings(hits@));
        }
        match self.best(pkg, hits) {
            Some(p) => {
                let more = self.of_pattern(p);
                let ghost start = out@;
                let mut i: usize = 0;
                while i < more.len()
                    invariant
                        0 <= i <= more@.len(),
                        out@ == start + more@.take(i as int),
                    decreases more@.len() - i,
                {
                    out.push(more[i]);
                    proof {
                        assert(out@ =~= start + more@.take(i + 1));
                    }
                    i += 1;
                }
                proof {
                    assert(more@.take(i as int) =~= more@);
                }
            },
            None => {
                proof {
                    assert(out@ =~= package_matches(self@, pkg@, text::strings(hits@)));
                }
            },
        }
        out
    }

    /// Whether any rule applies to a package.
    pub fn is_interested(&self, pkg: &str, hits: &[String]) -> (r: bool)
        ensures
            r == (package_matches(self@, pkg@, text::strings(hits@)).len() > 0),
    {
        self.collect_pkg_matches(pkg, hits).len() > 0
    }

    /// Whether any of the matches is a rule for a thread name.
    pub fn matches_have_thread_rules(&self, matches: &[RuleMatch]) -> (r: bool)
        requires
            merge::in_range(matches@, self@),
        ensures
            r == exists|i: int|
                0 <= i < matches@.len() && self@[(
                #[trigger] matches@[i]).index as int].thread.len() > 0,
    {
        let mut i: usize = 0;
        while i < matches.len()
            invariant
                0 <= i <= matches@.len(),
                merge::in_range(matches@, self@),
                forall|j: int|
                    0 <= j < i ==> self@[(#[trigger] matches@[j]).index as int].thread.len() == 0,
            decreases matches@.len() - i,
        {
            let k: usize = matches[i].index;
            proof {
                assert(self@[k as int] == self.rules@[k as int]@);
            }
            if !self.rules[k].thread.as_str().is_empty() {
                proof {
                    assert(self@[matches@[i as int].index as int].thread.len() > 0);
                }
                return true;
            }
            i += 1;
        }
        false
    }

    /// Whether a rule for a thread name applies to a package.
    pub fn has_thread_rules(&self, pkg: &str, hits: &[String]) -> (r: bool)
        ensures
            r == exists|i: int|
                0 <= i < package_matches(self@, pkg@, text::strings(hits@)).len() && self@[(
                #[trigger] package_matches(
                    self@,
                    pkg@,
                    text::strings(hits@),
                )[i]).index as int].thread.len() > 0,
    {
        let matches = self.collect_pkg_matches(pkg, hits);
        self.matches_have_thread_rules(matches.as_slice())
    }

    fn select_for_thread(
        &self,
        matches: &[RuleMatch],
        thread: &str,
        hits: &[String],
    ) -> (r: Vec<RuleMatch>)
        requires
            merge::in_range(matches@, self@),
        ensures
            r@ == select(matches@, self@, for_thread(thread@, text::strings(hits@))),
    {
        let mut out: Vec<RuleMatch> = Vec::new();
        let fits = text::byte_len(thread) < MAX_THREAD_LEN;
        let ghost h = text::strings(hits@);
        let mut i: usize = 0;
        proof {
            assert(matches@.take(0) =~= Seq::<RuleMatch>::empty());
        }
        while i < matches.len()
            invariant
                0 <= i <= matches@.len(),
                merge::in_range(matches@, self@),
                h == text::strings(hits@),
                fits == (text::bytes(thread@) < MAX_THREAD_LEN),
                out@ == select(matches@.take(i as int), self@, for_thread(thread@, h)),
            decreases matches@.len() - i,
        {
            let m = matches[i];
            proof {
                assert(matches@.take(i + 1).drop_last() =~= matches@.take(i as int));
                assert(matches@.take(i + 1).last() == m);
                assert(self@[m.index as int] == self.rules@[m.index as int]@);
            }
            let pattern = self.rules[m.index].thread.as_str();
            if !pattern.is_empty() && fits && text::holds_text(hits, pattern) {
                out.push(m);
            }
            i += 1;
        }
        proof {
            assert(matches@.take(i as int) =~= matches@);
        }
        out
    }

    fn select_general(&self, matches: &[RuleMatch]) -> (r: Vec<RuleMatch>)
        requires
            merge::in_range(matches@, self@),
        ensures
            r@ == select(matches@, self@, for_all_threads()),
    {
        let mut out: Vec<RuleMatch> = Vec::new();
        let mut i: usize = 0;
        proof {
            assert(matches@.take(0) =~= Seq::<RuleMatch>::empty());
        }
        while i < matches.len()
            invariant
                0 <= i <= matches@.len(),
                merge::in_range(matches@, self@),
                out@ == select(matches@.take(i as int), self@, for_all_threads()),
            decreases matches@.len() - i,
        {
            let m = matches[i];
            proof {
                assert(matches@.take(i + 1).drop_last() =~= matches@.take(i as int));
                assert(matches@.take(i + 1).last() == m);
                assert(self@[m.index as int] == self.rules@[m.index as int]@);
            }
            if self.rules[m.index].thread.as_str().is_empty() {
                out.push(m);
            }
            i += 1;
        }
        proof {
            assert(matches@.take(i as int) =~= matches@);
        }
        out
    }

    /// The policy of a thread, by the rules that apply to its package.
    /// `thread_hits` are the thread patterns that match its name.
    pub fn resolve_matches(
        &self,
        matches: &[RuleMatch],
        thread: &str,
        thread_hits: &[String],
    ) -> (r: Option<Policy>)
        requires
            merge::in_range(matches@, self@),
        ensures
            match r {
                Some(p) => resolved(matches@, self@, thread@, text::strings(thread_hits@)) == Some(
                    p@,
                ),
                None => resolved(matches@, self@, thread@, text::strings(thread_hits@)) is None,
            },
    {
        let ghost h = text::strings(thread_hits@);
        proof {
            lemma_select_in_range(matches@, self@, for_thread(thread@, h));
            lemma_select_in_range(matches@, self@, for_all_threads());
        }
        let own = self.select_for_thread(matches, thread, thread_hits);
        let general = self.select_general(matches);
        let base = merge::merge_rules(general.as_slice(), self.rules.as_slice());
        let found = match merge::merge_rules(own.as_slice(), self.rules.as_slice()) {
            Some(p) => {
                let mut policy = p;
                match &base {
                    Some(f) => {
                        merge::fill_missing(&mut policy, f);
                    },
                    None => {},
                }
                Some(policy)
            },
            None => base,
        };
        match found {
            Some(p) => {
                let mut policy = p;
                if policy.cpus.count() == 0 && policy.sched.is_none() && policy.nice.is_none() {
                    return None;
                }
                policy.cpuset_dir = policy.cpus.to_range_string();
                Some(policy)
            },
            None => None,
        }
    }

    /// The policy of a thread of a package. `pkg_hits` are the package
    /// patterns that match the package, `thread_hits` the thread patterns
    /// that match the thread.
    pub fn resolve(
        &self,
        pkg: &str,
        thread: &str,
        pkg_hits: &[String],
        thread_hits: &[String],
    ) -> (r: Option<Policy>)
        ensures
            ({
                let ms = package_matches(self@, pkg@, text::strings(pkg_hits@));
                match r {
                    Some(p) => resolved(ms, self@, thread@, text::strings(thread_hits@)) == Some(
                        p@,
                    ),
                    None => resolved(ms, self@, thread@, text::strings(thread_hits@)) is None,
                }
            }),
    {
        let matches = self.collect_pkg_matches(pkg, pkg_hits);
        self.resolve_matches(matches.as_slice(), thread, thread_hits)
    }

    /// The package patterns that `fnmatch` is to be asked about.
    pub fn package_patterns(&self) -> (r: Vec<String>)
        requires
            self.wf(),
        ensures
            text::strings(r@) == patterns_of(packages(self@)),
    {
        let mut out: Vec<String> = Vec::new();
        let ghost all = packages(self@);
        let mut i: usize = 0;
        proof {
            assert(all.take(0) =~= Seq::<Seq<char>>::empty());
            assert(text::strings(out@) =~= patterns_of(all.take(0)));
        }
        while i < self.pkgs.len()
            invariant
                0 <= i <= self.pkgs@.len(),
                all == text::strings(self.pkgs@),
                text::strings(out@) == patterns_of(all.take(i as int)),
            decreases self.pkgs@.len() - i,
        {
            let ghost out0 = text::strings(out@);
            proof {
                assert(all.take(i + 1).drop_last() =~= all.take(i as int));
                assert(all.take(i + 1).last() == self.pkgs@[i as int]@);
            }
            if contains_wildcard(self.pkgs[i].as_str()) {
                out.push(self.pkgs[i].clone());
                proof {
                    assert(text::strings(out@) =~= out0.push(all[i as int]));
                }
            }
            i += 1;
        }
        proof {
            assert(all.take(i as int) =~= all);
        }
        out
    }

    /// The thread patterns of some matches, about which `fnmatch` is to be
    /// asked.
    pub fn thread_patterns(&self, matches: &[RuleMatch]) -> (r: Vec<String>)
        requires
            merge::in_range(matches@, self@),
        ensures
            text::strings(r@) == thread_patterns_of(matches@, self@),
    {
        let mut out: Vec<String> = Vec::new();
        let mut i: usize = 0;
        proof {
            assert(matches@.take(0) =~= Seq::<RuleMatch>::empty());
            assert(text::strings(out@) =~= thread_patterns_of(matches@.take(0), self@));
        }
        while i < matches.len()
            invariant
                0 <= i <= matches@.len(),
                merge::in_range(matches@, self@),
                text::strings(out@) == thread_patterns_of(matches@.take(i as int), self@),
            decreases matches@.len() - i,
        {
            let ghost out0 = text::strings(out@);
            let m = matches[i];
            proof {
                assert(matches@.take(i + 1).drop_last() =~= matches@.take(i as int));
                assert(matches@.take(i + 1).last() == m);
                assert(self@[m.index as int] == self.rules@[m.index as int]@);
            }
            if !self.rules[m.index].thread.as_str().is_empty() {
                out.push(self.rules[m.index].thread.clone());
                proof {
                    assert(text::strings(out@) =~= out0.push(self@[m.index as int].thread));
                }
            }
            i += 1;
        }
        proof {
            assert(matches@.take(i as int) =~= matches@);
        }
        out
    }
}

/// The patterns among some texts.
pub open spec fn patterns_of(s: Seq<Seq<char>>) -> Seq<Seq<char>>
    decreases s.len(),
{
    if s.len() == 0 {
        Seq::empty()
    } else if is_pattern(s.last()) {
        patterns_of(s.drop_last()).push(s.last())
    } else {
        patterns_of(s.drop_last())
    }
}

/// The thread patterns of some matches.
pub open spec fn thread_patterns_of(
    ms: Seq<RuleMatch>,
    rules: Seq<CompiledView>,
) -> Seq<Seq<char>>
    decreases ms.len(),
{
    if ms.len() == 0 {
        Seq::empty()
    } else {
        let before = thread_patterns_of(ms.drop_last(), rules);
        let t = rules[ms.last().index as int].thread;
        if t.len() > 0 {
            before.push(t)
        } else {
            before
        }
    }
}

// ---------------------------------------------------------------------
// The cache of package matches
// ---------------------------------------------------------------------

struct CachedMatches {
    pkg: String,
    matches: Vec<RuleMatch>,
}

/// The matches of the packages that were asked for, for one set of rules.
pub struct MatchCache {
    entries: Vec<CachedMatches>,
}

impl View for MatchCache {
    type V = Seq<(Seq<char>, Seq<RuleMatch>)>;

    closed spec fn view(&self) -> Seq<(Seq<char>, Seq<RuleMatch>)> {
        Seq::new(self.entries@.len(), |i: int| (self.entries@[i].pkg@, self.entries@[i].matches@))
    }
}

/// Index of the entry of a package, or the length.
pub open spec fn cache_index(
    cache: Seq<(Seq<char>, Seq<RuleMatch>)>,
    pkg: Seq<char>,
) -> int
    decreases cache.len(),
{
    if cache.len() == 0 || cache[0].0 == pkg {
        0
    } else {
        1 + cache_index(cache.skip(1), pkg)
    }
}

/// The matches that a cache gives for a package: those that it holds, else
/// those that are worked out.
pub open spec fn cached_matches(
    cache: Seq<(Seq<char>, Seq<RuleMatch>)>,
    rules: Seq<CompiledView>,
    pkg: Seq<char>,
    hits: Seq<Seq<char>>,
) -> Seq<RuleMatch> {
    let i = cache_index(cache, pkg);
    if i < cache.len() {
        cache[i].1
    } else {
        package_matches(rules, pkg, hits)
    }
}

/// The cache after a package was asked for.
pub open spec fn cache_after(
    cache: Seq<(Seq<char>, Seq<RuleMatch>)>,
    rules: Seq<CompiledView>,
    pkg: Seq<char>,
    hits: Seq<Seq<char>>,
) -> Seq<(Seq<char>, Seq<RuleMatch>)> {
    if cache_index(cache, pkg) < cache.len() {
        cache
    } else {
        cache.push((pkg, package_matches(rules, pkg, hits)))
    }
}

/// Whether a cache holds what would be worked out for its packages, by
/// verdicts that depend on the package alone.
pub open spec fn coherent(
    cache: Seq<(Seq<char>, Seq<RuleMatch>)>,
    rules: Seq<CompiledView>,
    verdicts: spec_fn(Seq<char>) -> Seq<Seq<char>>,
) -> bool {
    forall|i: int|
        0 <= i < cache.len() ==> (#[trigger] cache[i]).1 == package_matches(
            rules,
            cache[i].0,
            verdicts(cache[i].0),
        )
}

fn copy_matches(v: &Vec<RuleMatch>) -> (r: Vec<RuleMatch>)
    ensures
        r@ == v@,
{
    let mut out: Vec<RuleMatch> = Vec::new();
    let mut i: usize = 0;
    while i < v.len()
        invariant
            0 <= i <= v@.len(),
            out@ == v@.take(i as int),
        decreases v@.len() - i,
    {
        out.push(v[i]);
        proof {
            assert(out@ =~= v@.take(i + 1));
        }
        i += 1;
    }
    proof {
        assert(v@.take(i as int) =~= v@);
    }
    out
}

impl MatchCache {
    /// An empty cache.
    pub fn new() -> (r: MatchCache)
        ensures
            r@ == Seq::<(Seq<char>, Seq<RuleMatch>)>::empty(),
    {
        let r = MatchCache { entries: Vec::new() };
        proof {
            assert(r@ =~= Seq::<(Seq<char>, Seq<RuleMatch>)>::empty());
        }
        r
    }

    /// Number of packages in the cache.
    pub fn cache_len(&self) -> (r: usize)
        ensures
            r == self@.len(),
    {
        self.entries.len()
    }

    /// The matches of a package, if the cache holds them.
    pub fn lookup(&self, pkg: &str) -> (r: Option<Vec<RuleMatch>>)
        ensures
            match r {
                Some(m) => cache_index(self@, pkg@) < self@.len() && m@ == self@[cache_index(
                    self@,
                    pkg@,
                )].1,
                None => cache_index(self@, pkg@) >= self@.len(),
            },
    {
        let mut i: usize = 0;
        proof {
            assert(self@.skip(0) =~= self@);
        }
        while i < self.entries.len()
            invariant
                0 <= i <= self.entries@.len(),
                cache_index(self@, pkg@) == i + cache_index(self@.skip(i as int), pkg@),
            decreases self.entries@.len() - i,
        {
            proof {
                assert(self@.skip(i as int)[0] == self@[i as int]);
                assert(self@.skip(i as int).skip(1) =~= self@.skip(i + 1));
            }
            if text::same_text(self.entries[i].pkg.as_str(), pkg) {
                return Some(copy_matches(&self.entries[i].matches));
            }
            i += 1;
        }
        None
    }

    /// The rules that apply to a package, from the cache or worked out and
    /// kept. `hits` are the package patterns that match it.
    pub fn collect(&mut self, rules: &RuleSet, pkg: &str, hits: &[String]) -> (r: Vec<RuleMatch>)
        ensures
            r@ == cached_matches(old(self)@, rules@, pkg@, text::strings(hits@)),
            final(self)@ == cache_after(old(self)@, rules@, pkg@, text::strings(hits@)),
    {
        match self.lookup(pkg) {
            Some(m) => m,
            None => {
                let found = rules.collect_pkg_matches(pkg, hits);
                self.entries.push(
                    CachedMatches { pkg: pkg.to_owned(), matches: copy_matches(&found) },
                );
                proof {
                    assert(self@ =~= old(self)@.push((pkg@, found@)));
                }
                found
            },
        }
    }
}

proof fn lemma_cache_index(cache: Seq<(Seq<char>, Seq<RuleMatch>)>, pkg: Seq<char>)
    ensures
        0 <= cache_index(cache, pkg) <= cache.len(),
        cache_index(cache, pkg) < cache.len() ==> cache[cache_index(cache, pkg)].0 == pkg,
    decreases cache.len(),
{
    if cache.len() > 0 && cache[0].0 != pkg {
        lemma_cache_index(cache.skip(1), pkg);
    }
}

// ---------------------------------------------------------------------
// Laws
// ---------------------------------------------------------------------

/// A cache that is always asked with the verdicts on the package gives what
/// would be worked out anew, and goes on doing so; asking twice changes
/// nothing more.
pub proof fn law_cache_is_transparent(
    cache: Seq<(Seq<char>, Seq<RuleMatch>)>,
    rules: Seq<CompiledView>,
    verdicts: spec_fn(Seq<char>) -> Seq<Seq<char>>,
    pkg: Seq<char>,
)
    requires
        coherent(cache, rules, verdicts),
    ensures
        cached_matches(cache, rules, pkg, verdicts(pkg)) == package_matches(
            rules,
            pkg,
            verdicts(pkg),
        ),
        coherent(cache_after(cache, rules, pkg, verdicts(pkg)), rules, verdicts),
        cache_after(cache_after(cache, rules, pkg, verdicts(pkg)), rules, pkg, verdicts(pkg))
            == cache_after(cache, rules, pkg, verdicts(pkg)),
{
    lemma_cache_index(cache, pkg);
    let after = cache_after(cache, rules, pkg, verdicts(pkg));
    if cache_index(cache, pkg) >= cache.len() {
        lemma_cache_push(cache, pkg, package_matches(rules, pkg, verdicts(pkg)));
    }
    assert forall|i: int| 0 <= i < after.len() implies (#[trigger] after[i]).1 == package_matches(
        rules,
        after[i].0,
        verdicts(after[i].0),
    ) by {
        if i < cache.len() {
            assert(after[i] == cache[i]);
        }
    }
}

proof fn lemma_cache_push(
    cache: Seq<(Seq<char>, Seq<RuleMatch>)>,
    pkg: Seq<char>,
    ms: Seq<RuleMatch>,
)
    requires
        cache_index(cache, pkg) >= cache.len(),
    ensures
        cache_index(cache.push((pkg, ms)), pkg) == cache.len(),
    decreases cache.len(),
{
    let longer = cache.push((pkg, ms));
    if cache.len() > 0 {
        lemma_cache_index(cache.skip(1), pkg);
        lemma_cache_push(cache.skip(1), pkg, ms);
        assert(longer.skip(1) =~= cache.skip(1).push((pkg, ms)));
    }
}

/// Where a pattern of a rule matches, one applies; it is one that matches, and
/// none that matches is more specific.
pub proof fn law_most_specific_pattern_applies(
    rules: Seq<CompiledView>,
    pkg: Seq<char>,
    hits: Seq<Seq<char>>,
    k: int,
)
    requires
        0 <= k < rules.len(),
    ensures
        best_pattern(rules, pkg, hits) matches Some(b) ==> pattern_hits(b, pkg, hits),
        pattern_hits(rules[k].pkg, pkg, hits) ==> (best_pattern(rules, pkg, hits) matches Some(b)
            && specificity(b) >= specificity(rules[k].pkg)),
    decreases rules.len(),
{
    let front = rules.drop_last();
    if k < rules.len() - 1 {
        assert(front[k] == rules[k]);
        law_most_specific_pattern_applies(front, pkg, hits, k);
    } else if front.len() > 0 {
        law_most_specific_pattern_applies(front, pkg, hits, 0);
    }
}

/// Every rule of the exact package name applies to that package.
pub proof fn law_exact_rules_apply(
    rules: Seq<CompiledView>,
    pkg: Seq<char>,
    hits: Seq<Seq<char>>,
    k: int,
)
    requires
        0 <= k < rules.len(),
        rules.len() <= usize::MAX,
        rules[k].pkg == pkg,
        !is_pattern(pkg),
    ensures
        package_matches(rules, pkg, hits).contains(
            RuleMatch { index: k as usize, source: RuleSource::PackageExact },
        ),
{
    lemma_exact_holds(rules, pkg, k);
    let m = RuleMatch { index: k as usize, source: RuleSource::PackageExact };
    let a = exact_matches(rules, pkg);
    let j = choose|j: int| 0 <= j < a.len() && a[j] == m;
    assert(package_matches(rules, pkg, hits)[j] == m);
}

proof fn lemma_exact_holds(rules: Seq<CompiledView>, pkg: Seq<char>, k: int)
    requires
        0 <= k < rules.len(),
        rules.len() <= usize::MAX,
        rules[k].pkg == pkg,
        !is_pattern(pkg),
    ensures
        exact_matches(rules, pkg).contains(
            RuleMatch { index: k as usize, source: RuleSource::PackageExact },
        ),
    decreases rules.len(),
{
    let m = RuleMatch { index: k as usize, source: RuleSource::PackageExact };
    let all = exact_matches(rules, pkg);
    if k == rules.len() - 1 {
        assert(all.last() == m);
    } else {
        let front = rules.drop_last();
        assert(front[k] == rules[k]);
        lemma_exact_holds(front, pkg, k);
        let before = exact_matches(front, pkg);
        let j = choose|j: int| 0 <= j < before.len() && before[j] == m;
        assert(all[j] == m);
    }
}

/// A thread of a package without rules has no policy, and a policy that is
/// found has CPUs, a scheduling class or a niceness, and the cpuset directory
/// of its CPUs.
pub proof fn law_policies_say_something(
    rules: Seq<CompiledView>,
    ms: Seq<RuleMatch>,
    thread: Seq<char>,
    hits: Seq<Seq<char>>,
)
    ensures
        ms.len() == 0 ==> resolved(ms, rules, thread, hits) is None,
        resolved(ms, rules, thread, hits) matches Some(p) ==> {
            &&& p.cpus != Set::<int>::empty() || p.sched is Some || p.nice is Some
            &&& p.cpuset_dir == topology::range_text(p.cpus)
        },
{
    if ms.len() == 0 {
        let general = select(ms, rules, for_all_threads());
        assert(general =~= Seq::<RuleMatch>::empty());
        assert(merge::merged(general, rules) is None);
    }
}

/// What the rules for a thread's name set holds for the thread, whatever the
/// rules for all threads say.
pub proof fn law_thread_rules_override(
    rules: Seq<CompiledView>,
    ms: Seq<RuleMatch>,
    thread: Seq<char>,
    hits: Seq<Seq<char>>,
)
    ensures
        ({
            let own = merge::merged(select(ms, rules, for_thread(thread, hits)), rules);
            own matches Some(o) ==> (resolved(ms, rules, thread, hits) matches Some(p) ==> {
                &&& o.cpus != Set::<int>::empty() ==> p.cpus == o.cpus
                &&& o.sched is Some ==> p.sched == o.sched && p.sched_prio == o.sched_prio
                &&& o.nice is Some ==> p.nice == o.nice
                &&& o.uclamp_min is Some ==> p.uclamp_min == o.uclamp_min
                &&& o.uclamp_max is Some ==> p.uclamp_max == o.uclamp_max
            })
        }),
{
}

/// What the rules for a thread's name leave open is what the rules for all
/// threads of the package say, also where the former say nothing at all.
pub proof fn law_package_rules_fill(
    rules: Seq<CompiledView>,
    ms: Seq<RuleMatch>,
    thread: Seq<char>,
    hits: Seq<Seq<char>>,
)
    ensures
        ({
            let own = merge::merged(select(ms, rules, for_thread(thread, hits)), rules);
            let general = merge::merged(select(ms, rules, for_all_threads()), rules);
            general matches Some(g) ==> {
                &&& own is None ==> thread_policy(ms, rules, thread, hits) == general
                &&& own matches Some(o) ==> (resolved(ms, rules, thread, hits) matches Some(p) ==> {
                    &&& o.cpus == Set::<int>::empty() ==> p.cpus == g.cpus
                    &&& o.sched is None ==> p.sched == g.sched && p.sched_prio == g.sched_prio
                    &&& o.nice is None ==> p.nice == g.nice
                    &&& o.uclamp_min is None ==> p.uclamp_min == g.uclamp_min
                    &&& o.uclamp_max is None ==> p.uclamp_max == g.uclamp_max
                })
            }
        }),
{
}

/// No rule is lost: every rule is either compiled or reported, with its
/// place and the reason.
pub proof fn law_no_rule_is_lost(configs: Seq<RuleConfigView>, present: Set<int>, i: int)
    requires
        0 <= i < configs.len(),
    ensures
        accepted(configs, present).len() + rejected(configs, present).len() == configs.len(),
        match rejection(configs[i], present) {
            Some(reason) => rejected(configs, present).contains((i, reason)),
            None => accepted(configs, present).contains(compiled(configs[i], present)),
        },
    decreases configs.len(),
{
    let rest = configs.drop_last();
    let yes = accepted(rest, present);
    let no = rejected(rest, present);
    if rest.len() > 0 {
        let k = if i < rest.len() {
            i
        } else {
            0
        };
        law_no_rule_is_lost(rest, present, k);
    }
    if i < rest.len() {
        assert(rest[i] == configs[i]);
        match rejection(configs[i], present) {
            Some(reason) => {
                let m = choose|m: int| 0 <= m < no.len() && no[m] == (i, reason);
                assert(rejected(configs, present)[m] == (i, reason));
            },
            None => {
                let c = compiled(configs[i], present);
                let m = choose|m: int| 0 <= m < yes.len() && yes[m] == c;
                assert(accepted(configs, present)[m] == c);
            },
        }
    } else {
        match rejection(configs[i], present) {
            Some(reason) => {
                assert(rejected(configs, present).last() == (i, reason));
            },
            None => {
                assert(accepted(configs, present).last() == compiled(configs[i], present));
            },
        }
    }
}

} // verus!
