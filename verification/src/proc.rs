//! What the daemon learns from the process files of the kernel.
//!
//! Reading the files is left to the caller; these functions take what was
//! read and say what it means.

use vstd::prelude::*;
use vstd::slice::slice_subrange;

use crate::text;

verus! {

/// The error number of a signal sent to a process that does not exist.
pub const ESRCH: i32 = 3;

// ---------------------------------------------------------------------
// Specifications
// ---------------------------------------------------------------------

/// The number of bytes before the first one that ends a name: a zero byte,
/// or a line feed where `lines` is set.
pub open spec fn name_end(b: Seq<u8>, lines: bool) -> int
    decreases b.len(),
{
    if b.len() == 0 || b[0] == 0 || (lines && b[0] == 10) {
        0
    } else {
        1 + name_end(b.skip(1), lines)
    }
}

/// The text held by the bytes before the end of a name, where it is UTF-8.
pub open spec fn name_text(b: Seq<u8>, lines: bool) -> Option<Seq<char>> {
    let head = b.take(name_end(b, lines));
    if b.len() > 0 && vstd::utf8::valid_utf8(head) {
        Some(vstd::utf8::decode_utf8(head))
    } else {
        None
    }
}

/// What stands behind the last occurrence of `c`, or the whole text.
pub open spec fn after_last(s: Seq<char>, c: char) -> Seq<char> {
    s.skip(text::rfind(s, c) + 1)
}

/// The name of a process: the last segment of its first argument.
pub open spec fn process_name(b: Seq<u8>) -> Option<Seq<char>> {
    match name_text(b, false) {
        Some(s) => {
            let name = text::trim(after_last(s, '/'));
            if name.len() == 0 {
                None
            } else {
                Some(name)
            }
        },
        None => None,
    }
}

/// The name of a thread: its first line without the surrounding blanks.
pub open spec fn comm_name(b: Seq<u8>) -> Option<Seq<char>> {
    match name_text(b, true) {
        Some(s) => Some(text::trim(s)),
        None => None,
    }
}

/// The fields of a stat line that follow the name in parentheses.
pub open spec fn stat_fields(s: Seq<char>) -> Option<Seq<Seq<char>>> {
    if text::rfind(s, ')') < 0 {
        None
    } else {
        Some(text::words(after_last(s, ')')))
    }
}

/// The number in field `n` behind the name, where it is at most `max`.
pub open spec fn stat_number(s: Seq<char>, n: int, max: nat) -> Option<nat> {
    match stat_fields(s) {
        Some(f) => if n < f.len() {
            text::unsigned(f[n], max)
        } else {
            None
        },
        None => None,
    }
}

/// When a process was started, in ticks since the machine was.
pub open spec fn start_time_in(s: Seq<char>) -> Option<nat> {
    stat_number(s, 19, u64::MAX as nat)
}

/// The CPU that a thread last ran on.
pub open spec fn processor_in(s: Seq<char>) -> Option<nat> {
    stat_number(s, 36, u32::MAX as nat)
}

/// The ticks a thread has used: those in user mode and those in the kernel.
pub open spec fn ticks(s: Seq<char>) -> Option<nat> {
    match (stat_number(s, 10, u64::MAX as nat), stat_number(s, 11, u64::MAX as nat)) {
        (Some(user), Some(system)) => Some(
            if user + system <= u64::MAX {
                user + system
            } else {
                u64::MAX as nat
            },
        ),
        _ => None,
    }
}

/// The number that the first line starting with `key` and holding a number
/// gives.
pub open spec fn keyed_number(lines: Seq<Seq<char>>, key: Seq<char>) -> Option<int>
    decreases lines.len(),
{
    if lines.len() == 0 {
        None
    } else {
        let line = text::trim(lines[0]);
        let rest = text::i32_of(text::trim(line.skip(key.len() as int)));
        if text::starts_with(line, key) && rest is Some {
            rest
        } else {
            keyed_number(lines.skip(1), key)
        }
    }
}

/// The numbers among a list of names, in order.
pub open spec fn numbers(names: Seq<Seq<char>>) -> Seq<int>
    decreases names.len(),
{
    if names.len() == 0 {
        Seq::empty()
    } else {
        let before = numbers(names.drop_last());
        match text::i32_of(names.last()) {
            Some(n) => before.push(n),
            None => before,
        }
    }
}

/// A list of 32-bit numbers as integers.
pub open spec fn ints(v: Seq<i32>) -> Seq<int> {
    Seq::new(v.len(), |i: int| v[i] as int)
}

// ---------------------------------------------------------------------
// Executable functions
// ---------------------------------------------------------------------

/// `std::str::from_utf8`: the text that the bytes spell, or nothing where
/// they are not valid UTF-8.
#[verifier::external_body]
fn decode(b: &[u8]) -> (r: Option<String>)
    ensures
        match r {
            Some(s) => vstd::utf8::valid_utf8(b@) && s@ == vstd::utf8::decode_utf8(b@),
            None => !vstd::utf8::valid_utf8(b@),
        },
{
    match std::str::from_utf8(b) {
        Ok(s) => Some(s.to_owned()),
        Err(_) => None,
    }
}

/// The end of a name among the bytes of a process file.
fn find_name_end(b: &[u8], lines: bool) -> (n: usize)
    ensures
        n == name_end(b@, lines),
        n <= b@.len(),
{
    let mut i: usize = 0;
    assert(b@.skip(0) =~= b@);
    while i < b.len() && b[i] != 0 && !(lines && b[i] == 10)
        invariant
            0 <= i <= b@.len(),
            name_end(b@, lines) == i + name_end(b@.skip(i as int), lines),
        decreases b@.len() - i,
    {
        assert(b@.skip(i as int).skip(1) =~= b@.skip(i + 1));
        i += 1;
    }
    i
}

/// The text before the end of a name.
fn read_name(b: &[u8], lines: bool) -> (r: Option<String>)
    ensures
        text::opt_text(r) == name_text(b@, lines),
{
    if b.len() == 0 {
        return None;
    }
    let n: usize = find_name_end(b, lines);
    let head = slice_subrange(b, 0, n);
    assert(head@ =~= b@.take(n as int));
    decode(head)
}

/// The characters behind the last occurrence of `c`.
fn behind(s: &[char], c: char) -> (r: Option<&[char]>)
    ensures
        match r {
            Some(t) => text::rfind(s@, c) >= 0 && t@ == after_last(s@, c),
            None => text::rfind(s@, c) == -1,
        },
{
    match text::rfind_char(s, c) {
        Some(n) => {
            let end: usize = s.len();
            let t = slice_subrange(s, n + 1, end);
            assert(t@ =~= after_last(s@, c));
            Some(t)
        },
        None => None,
    }
}

/// Name of a process, from the head of its command line file: the last
/// path segment of the first argument.
pub fn read_cmdline(head: &[u8]) -> (r: Option<String>)
    ensures
        text::opt_text(r) == process_name(head@),
{
    let Some(whole) = read_name(head, false) else {
        return None;
    };
    let chars = text::chars_of(whole.as_str());
    let name: &[char] = match behind(chars.as_slice(), '/') {
        Some(t) => t,
        None => {
            assert(after_last(chars@, '/') =~= chars@);
            chars.as_slice()
        },
    };
    let short = text::trim_of(name);
    if short.len() == 0 {
        None
    } else {
        Some(text::string_of(short))
    }
}

/// Name of a thread, from the head of its name file.
pub fn read_thread_name(head: &[u8]) -> (r: Option<String>)
    ensures
        text::opt_text(r) == comm_name(head@),
{
    match read_name(head, true) {
        Some(whole) => Some(text::trimmed(whole.as_str())),
        None => None,
    }
}

/// The fields of a stat line behind the name. The name itself may hold
/// blanks and parentheses, so the last closing one counts.
pub fn parse_stat_fields(stat: &str) -> (r: Option<Vec<String>>)
    ensures
        match r {
            Some(f) => stat_fields(stat@) == Some(text::strings(f@)),
            None => stat_fields(stat@) is None,
        },
{
    let chars = text::chars_of(stat);
    let Some(rest) = behind(chars.as_slice(), ')') else {
        return None;
    };
    let parts = text::words_of(rest);
    let mut out: Vec<String> = Vec::new();
    let mut i: usize = 0;
    while i < parts.len()
        invariant
            0 <= i <= parts@.len(),
            text::strings(out@) == text::texts(parts@).take(i as int),
        decreases parts@.len() - i,
    {
        let ghost before = out@;
        out.push(text::string_of(parts[i]));
        assert(text::strings(out@) =~= text::texts(parts@).take(i + 1)) by {
            assert(text::strings(out@) =~= text::strings(before).push(parts@[i as int]@));
            assert(text::texts(parts@)[i as int] == parts@[i as int]@);
        }
        i += 1;
    }
    assert(text::texts(parts@).take(parts@.len() as int) =~= text::texts(parts@));
    Some(out)
}

/// The number in one field behind the name.
fn stat_value(stat: &str, n: usize, max: u64) -> (r: Option<u64>)
    ensures
        match r {
            Some(v) => stat_number(stat@, n as int, max as nat) == Some(v as nat) && v <= max,
            None => stat_number(stat@, n as int, max as nat) is None,
        },
{
    match parse_stat_fields(stat) {
        Some(f) => if n < f.len() {
            assert(text::strings(f@)[n as int] == f@[n as int]@);
            let chars = text::chars_of(f[n].as_str());
            text::parse_unsigned(chars.as_slice(), max)
        } else {
            None
        },
        None => None,
    }
}

/// Start time of a process, by which the reuse of its number is noticed.
pub fn read_start_time(stat: &str) -> (r: Option<u64>)
    ensures
        match r {
            Some(v) => start_time_in(stat@) == Some(v as nat),
            None => start_time_in(stat@) is None,
        },
{
    stat_value(stat, 19, u64::MAX)
}

/// The CPU that a thread last ran on.
pub fn read_processor(stat: &str) -> (r: Option<u32>)
    ensures
        match r {
            Some(v) => processor_in(stat@) == Some(v as nat),
            None => processor_in(stat@) is None,
        },
{
    match stat_value(stat, 36, u32::MAX as u64) {
        Some(v) => Some(v as u32),
        None => None,
    }
}

/// The ticks a thread has used, in user mode and in the kernel.
pub fn read_thread_cpu_secs(stat: &str) -> (r: Option<u64>)
    ensures
        match r {
            Some(v) => ticks(stat@) == Some(v as nat),
            None => ticks(stat@) is None,
        },
{
    match (stat_value(stat, 10, u64::MAX), stat_value(stat, 11, u64::MAX)) {
        (Some(user), Some(system)) => Some(user.saturating_add(system)),
        _ => None,
    }
}

/// The number in an `oom_score_adj` file, 0 where there is none.
pub open spec fn oom_in(content: Option<Seq<char>>) -> int {
    match content {
        Some(s) => match text::i32_of(text::trim(s)) {
            Some(n) => n,
            None => 0,
        },
        None => 0,
    }
}

/// The adjustment of a process's kill score, 0 where it cannot be read: a
/// process that may be in the foreground keeps its rules.
pub fn read_oom_adj(content: Option<&str>) -> (r: i32)
    ensures
        r == oom_in(
            match content {
                Some(s) => Some(s@),
                None => None,
            },
        ),
{
    match content {
        Some(s) => {
            let chars = text::chars_of(s);
            match text::parse_i32(text::trim_of(chars.as_slice())) {
                Some(n) => n,
                None => 0,
            }
        },
        None => 0,
    }
}

/// The number of the process that a task belongs to, from its status file.
pub fn read_tgid(status: &str) -> (r: Option<i32>)
    ensures
        match r {
            Some(n) => keyed_number(text::lines(status@), "Tgid:"@) == Some(n as int),
            None => keyed_number(text::lines(status@), "Tgid:"@) is None,
        },
{
    let chars = text::chars_of(status);
    let rows = text::lines_of(chars.as_slice());
    let key = text::chars_of("Tgid:");
    let ghost all = text::texts(rows@);
    let mut i: usize = 0;
    assert(all.skip(0) =~= all);
    while i < rows.len()
        invariant
            0 <= i <= rows@.len(),
            all == text::texts(rows@),
            all == text::lines(status@),
            key@ == "Tgid:"@,
            keyed_number(all.skip(i as int), key@) == keyed_number(all, key@),
        decreases rows@.len() - i,
    {
        let row = text::trim_of(rows[i]);
        assert(all.skip(i as int)[0] == rows@[i as int]@);
        assert(all.skip(i as int).skip(1) =~= all.skip(i + 1));
        if text::begins_chars(row, key.as_slice()) {
            let rest = slice_subrange(row, key.len(), row.len());
            assert(rest@ =~= row@.skip(key@.len() as int));
            if let Some(n) = text::parse_i32(text::trim_of(rest)) {
                return Some(n);
            }
        }
        i += 1;
    }
    None
}

/// Whether a process lives, by what came of a signal that does nothing.
pub open spec fn lives(sent: bool, errno: Option<i32>) -> bool {
    sent || errno != Some(ESRCH)
}

/// Whether a process lives, from the answer to an empty signal. A refused
/// signal still shows that the process is there.
pub fn is_alive(sent: bool, errno: Option<i32>) -> (r: bool)
    ensures
        r == lives(sent, errno),
{
    if sent {
        return true;
    }
    match errno {
        Some(n) => n != ESRCH,
        None => true,
    }
}

/// The task numbers among the entries of a task directory.
pub fn list_tids(names: &[String]) -> (r: Vec<i32>)
    ensures
        ints(r@) == numbers(text::strings(names@)),
{
    let mut out: Vec<i32> = Vec::new();
    let ghost all = text::strings(names@);
    let mut i: usize = 0;
    assert(ints(out@) =~= numbers(all.take(0)));
    while i < names.len()
        invariant
            0 <= i <= names@.len(),
            all == text::strings(names@),
            ints(out@) == numbers(all.take(i as int)),
        decreases names@.len() - i,
    {
        assert(all.take(i + 1).drop_last() =~= all.take(i as int));
        let chars = text::chars_of(names[i].as_str());
        let ghost before = out@;
        if let Some(n) = text::parse_i32(chars.as_slice()) {
            out.push(n);
            assert(ints(out@) =~= ints(before).push(n as int));
        }
        i += 1;
    }
    assert(all.take(names@.len() as int) =~= all);
    out
}

} // verus!
