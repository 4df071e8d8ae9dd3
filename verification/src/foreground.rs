//! The users whose processes are in the foreground.

use std::collections::HashSet;

use vstd::prelude::*;
use vstd::slice::slice_subrange;

use crate::proc;
use crate::text;

verus! {

/// The users seen in the foreground at the last refresh.
#[derive(Debug)]
pub struct ForegroundUids {
    uids: HashSet<u32>,
}

/// The lines of a task file without their surrounding blanks.
pub open spec fn trimmed_lines(content: Seq<char>) -> Seq<Seq<char>> {
    let rows = text::lines(content);
    Seq::new(rows.len(), |i: int| text::trim(rows[i]))
}

/// The user in the first of some lines that names one: a line that starts
/// with the key decides, whatever it holds.
pub open spec fn uid_in(lines: Seq<Seq<char>>) -> Option<nat>
    decreases lines.len(),
{
    if lines.len() == 0 {
        None
    } else if text::starts_with(lines[0], "Uid:"@) {
        let words = text::words(lines[0].skip("Uid:"@.len() as int));
        if words.len() > 0 {
            text::unsigned(words[0], u32::MAX as nat)
        } else {
            None
        }
    } else {
        uid_in(lines.skip(1))
    }
}

/// The user of a process, from its status file.
pub open spec fn uid_of(status: Seq<char>) -> Option<nat> {
    uid_in(text::lines(status))
}

/// The users that some status files name.
pub open spec fn uids_of(statuses: Seq<String>) -> Set<u32>
    decreases statuses.len(),
{
    if statuses.len() == 0 {
        Set::empty()
    } else {
        let before = uids_of(statuses.drop_last());
        match uid_of(statuses.last()@) {
            Some(n) => before.insert(n as u32),
            None => before,
        }
    }
}

/// The tasks that a task file lists.
pub fn task_pids(content: &str) -> (r: Vec<i32>)
    ensures
        proc::ints(r@) == proc::numbers(trimmed_lines(content@)),
{
    let chars = text::chars_of(content);
    let rows = text::lines_of(chars.as_slice());
    let mut names: Vec<String> = Vec::new();
    let mut i: usize = 0;
    while i < rows.len()
        invariant
            0 <= i <= rows@.len(),
            names@.len() == i,
            forall|j: int| 0 <= j < i ==> (#[trigger] names@[j])@ == text::trim(rows@[j]@),
        decreases rows@.len() - i,
    {
        names.push(text::string_of(text::trim_of(rows[i])));
        i += 1;
    }
    assert(text::strings(names@) =~= trimmed_lines(content@)) by {
        assert forall|j: int| 0 <= j < names@.len() implies text::strings(names@)[j]
            == trimmed_lines(content@)[j] by {
            assert(text::texts(rows@)[j] == rows@[j]@);
        }
    }
    proc::list_tids(names.as_slice())
}

/// The user of a process, from its status file.
pub fn pid_uid(status: &str) -> (r: Option<u32>)
    ensures
        match r {
            Some(n) => uid_of(status@) == Some(n as nat),
            None => uid_of(status@) is None,
        },
{
    let chars = text::chars_of(status);
    let rows = text::lines_of(chars.as_slice());
    let key = text::chars_of("Uid:");
    let ghost all = text::texts(rows@);
    let mut i: usize = 0;
    assert(all.skip(0) =~= all);
    while i < rows.len()
        invariant
            0 <= i <= rows@.len(),
            all == text::texts(rows@),
            all == text::lines(status@),
            key@ == "Uid:"@,
            uid_in(all.skip(i as int)) == uid_in(all),
        decreases rows@.len() - i,
    {
        let row = rows[i];
        assert(all.skip(i as int)[0] == row@);
        assert(all.skip(i as int).skip(1) =~= all.skip(i + 1));
        if text::begins_chars(row, key.as_slice()) {
            let rest = slice_subrange(row, key.len(), row.len());
            assert(rest@ =~= row@.skip(key@.len() as int));
            let words = text::words_of(rest);
            if words.len() == 0 {
                assert(text::texts(words@).len() == 0);
                return None;
            }
            assert(text::texts(words@)[0] == words@[0]@);
            return match text::parse_unsigned(words[0], u32::MAX as u64) {
                Some(n) => Some(n as u32),
                None => None,
            };
        }
        i += 1;
    }
    None
}

impl ForegroundUids {
    /// The users in the foreground.
    pub closed spec fn users(&self) -> Set<u32> {
        self.uids@
    }

    /// No user.
    pub fn new() -> (r: ForegroundUids)
        ensures
            r.users() == Set::<u32>::empty(),
    {
        ForegroundUids { uids: HashSet::new() }
    }
}

/// Makes the users of the foreground those that the status files of its
/// tasks name, and says how many they are.
pub fn refresh_foreground_uids(cache: &mut ForegroundUids, statuses: &[String]) -> (r: usize)
    ensures
        final(cache).users() == uids_of(statuses@),
        r == uids_of(statuses@).len(),
{
    broadcast use vstd::std_specs::hash::group_hash_axioms;

    let mut uids: HashSet<u32> = HashSet::new();
    assert(statuses@.take(0) =~= Seq::<String>::empty());
    let mut i: usize = 0;
    while i < statuses.len()
        invariant
            0 <= i <= statuses@.len(),
            uids@ == uids_of(statuses@.take(i as int)),
        decreases statuses@.len() - i,
    {
        broadcast use vstd::std_specs::hash::group_hash_axioms;

        assert(statuses@.take(i + 1).drop_last() =~= statuses@.take(i as int));
        if let Some(uid) = pid_uid(statuses[i].as_str()) {
            let _ = uids.insert(uid);
        }
        i += 1;
    }
    assert(statuses@.take(i as int) =~= statuses@);
    cache.uids = uids;
    cache.uids.len()
}

/// Whether a user is in the foreground.
pub fn is_foreground_uid(cache: &ForegroundUids, uid: u32) -> (r: bool)
    ensures
        r == cache.users().contains(uid),
{
    broadcast use vstd::std_specs::hash::group_hash_axioms;

    cache.uids.contains(&uid)
}

/// How many users are in the foreground.
pub fn foreground_uid_count(cache: &ForegroundUids) -> (r: usize)
    ensures
        r == cache.users().len(),
{
    broadcast use vstd::std_specs::hash::group_hash_axioms;

    cache.uids.len()
}

/// Exactly the users that the status files name are in the foreground.
pub proof fn law_foreground_users(statuses: Seq<String>, uid: u32)
    ensures
        uids_of(statuses).contains(uid) <==> exists|i: int|
            0 <= i < statuses.len() && uid_of((#[trigger] statuses[i])@) is Some && uid_of(
                statuses[i]@,
            ).unwrap() as u32 == uid,
    decreases statuses.len(),
{
    if statuses.len() > 0 {
        let before = statuses.drop_last();
        law_foreground_users(before, uid);
        if uids_of(before).contains(uid) {
            let k = choose|k: int|
                0 <= k < before.len() && uid_of((#[trigger] before[k])@) is Some && uid_of(
                    before[k]@,
                ).unwrap() as u32 == uid;
            assert(statuses[k] == before[k]);
        } else if uids_of(statuses).contains(uid) {
            assert(statuses[statuses.len() - 1] == statuses.last());
        }
        if exists|i: int|
            0 <= i < statuses.len() && uid_of((#[trigger] statuses[i])@) is Some && uid_of(
                statuses[i]@,
            ).unwrap() as u32 == uid {
            let k = choose|i: int|
                0 <= i < statuses.len() && uid_of((#[trigger] statuses[i])@) is Some && uid_of(
                    statuses[i]@,
                ).unwrap() as u32 == uid;
            if k < before.len() {
                assert(before[k] == statuses[k]);
            }
        }
    }
}

} // verus!
