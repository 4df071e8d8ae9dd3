//! Tuning of the whole system: the frequency governor of every CPU and the
//! I/O scheduler of every block device.

use vstd::prelude::*;
use vstd::slice::slice_subrange;

use crate::text;

verus! {

/// What to tune.
#[derive(Debug)]
pub struct SystemTuning {
    pub governor: Option<String>,
    pub io_scheduler: Option<String>,
}

/// What to tune, as plain values.
#[verifier::ext_equal]
pub struct TuningView {
    pub governor: Option<Seq<char>>,
    pub io_scheduler: Option<Seq<char>>,
}

impl View for SystemTuning {
    type V = TuningView;

    open spec fn view(&self) -> TuningView {
        TuningView {
            governor: text::opt_text(self.governor),
            io_scheduler: text::opt_text(self.io_scheduler),
        }
    }
}

/// One entry of the CPU directory.
#[derive(Debug)]
pub struct CpuEntry {
    pub name: String,
    /// Whether it has a governor file.
    pub has_governor: bool,
    /// The governors it offers, where the list can be read.
    pub available: Option<String>,
}

/// One block device.
#[derive(Debug)]
pub struct BlockEntry {
    /// Whether it has a scheduler file.
    pub has_scheduler: bool,
    /// The schedulers it offers, where the list can be read.
    pub available: Option<String>,
}

/// A write that failed.
#[derive(Debug)]
pub struct WriteFailure {
    pub path: String,
    pub error: String,
}

// ---------------------------------------------------------------------
// Specifications
// ---------------------------------------------------------------------

/// Whether a directory entry is a CPU: its name is `cpu` and digits.
pub open spec fn is_cpu(name: Seq<char>) -> bool {
    text::starts_with(name, "cpu"@) && text::all_digits(name.skip(3))
}

/// Whether a list offers a value.
pub open spec fn offers(available: Seq<char>, value: Seq<char>) -> bool {
    text::words(available).contains(value)
}

/// A text that may be missing.
pub open spec fn read_text(s: Option<String>) -> Seq<char> {
    match s {
        Some(s) => s@,
        None => Seq::empty(),
    }
}

/// The reason to refuse a governor.
pub open spec fn refusal(gov: Seq<char>, available: Seq<char>) -> Seq<char> {
    text::trim("governor "@ + gov + " 不在可用列表: "@ + available)
}

/// Whether an entry is a CPU with a governor.
pub open spec fn governed(e: CpuEntry) -> bool {
    is_cpu(e.name@) && e.has_governor
}

/// Whether an entry ends the run: a CPU that does not offer the governor.
pub open spec fn refuses(e: CpuEntry, gov: Seq<char>) -> bool {
    governed(e) && !offers(read_text(e.available), gov)
}

/// The entries before the first that ends the run.
pub open spec fn reach(entries: Seq<CpuEntry>, gov: Seq<char>) -> int
    decreases entries.len(),
{
    if entries.len() == 0 || refuses(entries[0], gov) {
        0
    } else {
        1 + reach(entries.skip(1), gov)
    }
}

/// The first `n` entries that have a governor, in order.
pub open spec fn governed_in(entries: Seq<CpuEntry>, n: int) -> Seq<int>
    decreases n,
{
    if n <= 0 {
        Seq::empty()
    } else if governed(entries[n - 1]) {
        governed_in(entries, n - 1).push(n - 1)
    } else {
        governed_in(entries, n - 1)
    }
}

/// The entries whose governor is written.
pub open spec fn governor_targets(entries: Seq<CpuEntry>, gov: Seq<char>) -> Seq<int> {
    governed_in(entries, reach(entries, gov))
}

/// Whether a device gets the scheduler.
pub open spec fn schedulable(e: BlockEntry, sched: Seq<char>) -> bool {
    e.has_scheduler && offers(read_text(e.available), sched)
}

/// The first `n` devices that get the scheduler, in order.
pub open spec fn schedulable_in(entries: Seq<BlockEntry>, sched: Seq<char>, n: int) -> Seq<int>
    decreases n,
{
    if n <= 0 {
        Seq::empty()
    } else if schedulable(entries[n - 1], sched) {
        schedulable_in(entries, sched, n - 1).push(n - 1)
    } else {
        schedulable_in(entries, sched, n - 1)
    }
}

/// The devices whose scheduler is written.
pub open spec fn io_targets(entries: Seq<BlockEntry>, sched: Seq<char>) -> Seq<int> {
    schedulable_in(entries, sched, entries.len() as int)
}

/// Some places as integers.
pub open spec fn places(v: Seq<usize>) -> Seq<int> {
    Seq::new(v.len(), |i: int| v[i] as int)
}

/// The error of a write that failed.
pub open spec fn failure_text(f: WriteFailure) -> Seq<char> {
    "写入 "@ + f.path@ + " 失败: "@ + f.error@
}

/// How a run over the CPUs ends.
pub open spec fn governor_result(
    entries: Seq<CpuEntry>,
    gov: Seq<char>,
    failed: Option<WriteFailure>,
) -> Result<nat, Seq<char>> {
    let n = reach(entries, gov);
    if failed is Some {
        Err(failure_text(failed.unwrap()))
    } else if n < entries.len() {
        Err(refusal(gov, read_text(entries[n].available)))
    } else if governor_targets(entries, gov).len() == 0 {
        Err("没有可写 governor 的 CPU（无 cpufreq 或无权限）"@)
    } else {
        Ok(governor_targets(entries, gov).len())
    }
}

/// How a run over the block devices ends.
pub open spec fn io_result(
    entries: Seq<BlockEntry>,
    sched: Seq<char>,
    failed: Option<WriteFailure>,
) -> Result<nat, Seq<char>> {
    if failed is Some {
        Err(failure_text(failed.unwrap()))
    } else if io_targets(entries, sched).len() == 0 {
        Err("没有支持该调度器的块设备"@)
    } else {
        Ok(io_targets(entries, sched).len())
    }
}

/// A result with its texts as characters.
pub open spec fn outcome(r: Result<usize, String>) -> Result<nat, Seq<char>> {
    match r {
        Ok(n) => Ok(n as nat),
        Err(e) => Err(e@),
    }
}

/// Whether a word is marked as the current one.
pub open spec fn marked(w: Seq<char>) -> bool {
    w.len() >= 2 && w[0] == '[' && w.last() == ']'
}

/// What stands in the first marked word.
pub open spec fn marked_in(words: Seq<Seq<char>>) -> Seq<char>
    decreases words.len(),
{
    if words.len() == 0 {
        Seq::empty()
    } else if marked(words[0]) {
        words[0].subrange(1, words[0].len() - 1)
    } else {
        marked_in(words.skip(1))
    }
}

/// The current scheduler of a device, where one is marked.
pub open spec fn current_of(line: Seq<char>) -> Option<Seq<char>> {
    let s = marked_in(text::words(line));
    if s.len() == 0 {
        None
    } else {
        Some(s)
    }
}

/// The first of two lines that could be read.
pub open spec fn first_read(a: Option<&str>, b: Option<&str>) -> Option<Seq<char>> {
    match a {
        Some(s) => Some(s@),
        None => match b {
            Some(s) => Some(s@),
            None => None,
        },
    }
}

// ---------------------------------------------------------------------
// Executable functions
// ---------------------------------------------------------------------

/// Whether a directory entry is a CPU.
pub fn is_cpu_dir(name: &str) -> (r: bool)
    ensures
        r == is_cpu(name@),
{
    proof {
        reveal_strlit("cpu");
    }
    let chars = text::chars_of(name);
    if !text::begins(chars.as_slice(), "cpu") {
        return false;
    }
    let mut i: usize = 3;
    while i < chars.len()
        invariant
            3 <= i <= chars@.len(),
            chars@ == name@,
            forall|j: int| 3 <= j < i ==> text::is_digit(#[trigger] chars@[j]),
        decreases chars@.len() - i,
    {
        let c = chars[i];
        if !('0' <= c && c <= '9') {
            assert(!text::is_digit(name@.skip(3)[i - 3]));
            return false;
        }
        i += 1;
    }
    assert forall|j: int| 0 <= j < name@.skip(3).len() implies text::is_digit(
        #[trigger] name@.skip(3)[j],
    ) by {
        assert(name@.skip(3)[j] == chars@[j + 3]);
    }
    true
}

/// Whether a list offers a value.
pub fn has_value(available: &str, value: &str) -> (r: bool)
    ensures
        r == offers(available@, value@),
{
    let chars = text::chars_of(available);
    let words = text::words_of(chars.as_slice());
    let mut i: usize = 0;
    while i < words.len()
        invariant
            0 <= i <= words@.len(),
            text::texts(words@) == text::words(available@),
            forall|j: int| 0 <= j < i ==> (#[trigger] text::texts(words@)[j]) != value@,
        decreases words@.len() - i,
    {
        assert(text::texts(words@)[i as int] == words@[i as int]@);
        if text::spells(words[i], value) {
            return true;
        }
        i += 1;
    }
    false
}

/// Whether a list that may be missing offers a value.
fn list_has(available: &Option<String>, value: &str) -> (r: bool)
    ensures
        r == offers(read_text(*available), value@),
{
    match available {
        Some(list) => has_value(list.as_str(), value),
        None => {
            proof {
                reveal_strlit("");
                assert(""@ =~= Seq::<char>::empty());
            }
            has_value("", value)
        },
    }
}

/// The entries that a run over the CPUs reaches, and those of them whose
/// governor is written.
fn scan_governors(entries: &[CpuEntry], gov: &str) -> (r: (usize, Vec<usize>))
    ensures
        r.0 == reach(entries@, gov@),
        r.0 <= entries@.len(),
        places(r.1@) == governor_targets(entries@, gov@),
        forall|i: int| 0 <= i < r.1@.len() ==> (#[trigger] r.1@[i]) < entries@.len(),
{
    let mut out: Vec<usize> = Vec::new();
    let mut i: usize = 0;
    assert(entries@.skip(0) =~= entries@);
    assert(places(out@) =~= Seq::<int>::empty());
    while i < entries.len()
        invariant
            0 <= i <= entries@.len(),
            reach(entries@, gov@) == i + reach(entries@.skip(i as int), gov@),
            places(out@) == governed_in(entries@, i as int),
            forall|k: int| 0 <= k < out@.len() ==> (#[trigger] out@[k]) < entries@.len(),
        decreases entries@.len() - i,
    {
        let e = &entries[i];
        assert(entries@.skip(i as int)[0] == *e);
        assert(entries@.skip(i as int).skip(1) =~= entries@.skip(i + 1));
        let ghost before = out@;
        if is_cpu_dir(e.name.as_str()) && e.has_governor {
            if !list_has(&e.available, gov) {
                return (i, out);
            }
            out.push(i);
            assert(places(out@) =~= places(before).push(i as int));
        }
        i += 1;
    }
    (i, out)
}

/// The entries of the CPU directory whose governor is to be written, in
/// order; a CPU that does not offer it ends the run.
pub fn governor_writes(entries: &[CpuEntry], gov: &str) -> (r: Vec<usize>)
    ensures
        places(r@) == governor_targets(entries@, gov@),
        forall|i: int| 0 <= i < r@.len() ==> (#[trigger] r@[i]) < entries@.len(),
{
    scan_governors(entries, gov).1
}

/// The text of a failed write.
fn failure(f: &WriteFailure) -> (r: String)
    ensures
        r@ == failure_text(*f),
{
    let mut out = "写入 ".to_owned();
    out.append(f.path.as_str());
    out.append(" 失败: ");
    out.append(f.error.as_str());
    out
}

/// How the run over the CPUs ends, given the write that failed, if any: the
/// number of CPUs that have the governor, or what stopped the run.
pub fn apply_governor(entries: &[CpuEntry], gov: &str, failed: &Option<WriteFailure>) -> (r: Result<
    usize,
    String,
>)
    ensures
        outcome(r) == governor_result(entries@, gov@, *failed),
{
    if let Some(f) = failed {
        return Err(failure(f));
    }
    let (n, writes) = scan_governors(entries, gov);
    assert(places(writes@).len() == writes@.len());
    if n < entries.len() {
        let mut out = "governor ".to_owned();
        out.append(gov);
        out.append(" 不在可用列表: ");
        if let Some(list) = &entries[n].available {
            out.append(list.as_str());
        } else {
            assert(out@ + Seq::<char>::empty() =~= out@);
        }
        return Err(text::trimmed(out.as_str()));
    }
    if writes.len() == 0 {
        Err("没有可写 governor 的 CPU（无 cpufreq 或无权限）".to_owned())
    } else {
        Ok(writes.len())
    }
}

/// The block devices whose scheduler is to be written, in order; a device
/// that does not offer it is left alone.
pub fn io_writes(entries: &[BlockEntry], sched: &str) -> (r: Vec<usize>)
    ensures
        places(r@) == io_targets(entries@, sched@),
        forall|i: int| 0 <= i < r@.len() ==> (#[trigger] r@[i]) < entries@.len(),
{
    let mut out: Vec<usize> = Vec::new();
    let mut i: usize = 0;
    assert(places(out@) =~= Seq::<int>::empty());
    while i < entries.len()
        invariant
            0 <= i <= entries@.len(),
            places(out@) == schedulable_in(entries@, sched@, i as int),
            forall|k: int| 0 <= k < out@.len() ==> (#[trigger] out@[k]) < entries@.len(),
        decreases entries@.len() - i,
    {
        let e = &entries[i];
        let ghost before = out@;
        if e.has_scheduler && list_has(&e.available, sched) {
            out.push(i);
            assert(places(out@) =~= places(before).push(i as int));
        }
        i += 1;
    }
    out
}

/// How the run over the block devices ends, given the write that failed, if
/// any.
pub fn apply_io_scheduler(
    entries: &[BlockEntry],
    sched: &str,
    failed: &Option<WriteFailure>,
) -> (r: Result<usize, String>)
    ensures
        outcome(r) == io_result(entries@, sched@, *failed),
{
    if let Some(f) = failed {
        return Err(failure(f));
    }
    let writes = io_writes(entries, sched);
    assert(places(writes@).len() == writes@.len());
    if writes.len() == 0 {
        Err("没有支持该调度器的块设备".to_owned())
    } else {
        Ok(writes.len())
    }
}

/// The scheduler that a device's list marks as current.
pub fn current_scheduler(line: &str) -> (r: Option<String>)
    ensures
        text::opt_text(r) == current_of(line@),
{
    let chars = text::chars_of(line);
    let words = text::words_of(chars.as_slice());
    let ghost all = text::texts(words@);
    assert(all.skip(0) =~= all);
    let mut i: usize = 0;
    while i < words.len()
        invariant
            0 <= i <= words@.len(),
            all == text::texts(words@),
            all == text::words(line@),
            marked_in(all.skip(i as int)) == marked_in(all),
        decreases words@.len() - i,
    {
        let w = words[i];
        assert(all.skip(i as int)[0] == w@);
        assert(all.skip(i as int).skip(1) =~= all.skip(i + 1));
        let n: usize = w.len();
        if n >= 2 && w[0] == '[' && w[n - 1] == ']' {
            let inner = slice_subrange(w, 1, n - 1);
            if inner.len() == 0 {
                return None;
            }
            return Some(text::string_of(inner));
        }
        i += 1;
    }
    assert(all.skip(i as int).len() == 0);
    None
}

/// The current governor and scheduler: of the first CPU, and of the first
/// of two devices that could be read.
pub fn detect_current(governor: Option<&str>, first: Option<&str>, second: Option<&str>) -> (r: (
    Option<String>,
    Option<String>,
))
    ensures
        text::opt_text(r.0) == match governor {
            Some(s) => Some(text::trim(s@)),
            None => None,
        },
        text::opt_text(r.1) == match first_read(first, second) {
            Some(s) => current_of(s),
            None => None,
        },
{
    let gov = match governor {
        Some(s) => Some(text::trimmed(s)),
        None => None,
    };
    let io = match first {
        Some(s) => current_scheduler(s),
        None => match second {
            Some(s) => current_scheduler(s),
            None => None,
        },
    };
    (gov, io)
}

/// A run stops before the first CPU that refuses.
proof fn lemma_reach(entries: Seq<CpuEntry>, gov: Seq<char>, i: int)
    requires
        0 <= i < reach(entries, gov),
    ensures
        reach(entries, gov) <= entries.len(),
        !refuses(entries[i], gov),
    decreases entries.len(),
{
    if entries.len() > 0 && !refuses(entries[0], gov) {
        if i > 0 {
            lemma_reach(entries.skip(1), gov, i - 1);
            assert(entries.skip(1)[i - 1] == entries[i]);
        } else if reach(entries.skip(1), gov) > 0 {
            lemma_reach(entries.skip(1), gov, 0);
        }
    }
}

/// The entries with a governor are among the first `n` and have one.
proof fn lemma_governed_in(entries: Seq<CpuEntry>, n: int, k: int)
    requires
        0 <= k < governed_in(entries, n).len(),
    ensures
        0 <= governed_in(entries, n)[k] < n,
        governed(entries[governed_in(entries, n)[k]]),
    decreases n,
{
    if n > 0 {
        if k < governed_in(entries, n - 1).len() {
            lemma_governed_in(entries, n - 1, k);
        }
    }
}

/// A governor is written only to CPUs that have one and offer this one.
pub proof fn law_only_offered_governors_are_written(
    entries: Seq<CpuEntry>,
    gov: Seq<char>,
    k: int,
)
    requires
        0 <= k < governor_targets(entries, gov).len(),
    ensures
        ({
            let i = governor_targets(entries, gov)[k];
            &&& 0 <= i < entries.len()
            &&& governed(entries[i])
            &&& offers(read_text(entries[i].available), gov)
        }),
{
    let n = reach(entries, gov);
    lemma_governed_in(entries, n, k);
    let i = governor_targets(entries, gov)[k];
    lemma_reach(entries, gov, i);
}

} // verus!
