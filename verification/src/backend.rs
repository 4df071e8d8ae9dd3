//! What is handed to the kernel interfaces, and which cpuset directories are
//! known to exist.

use vstd::prelude::*;

use crate::text;
use crate::topology;

verus! {

/// Flag of `sched_setattr` for the lower utilization clamp.
pub const SCHED_FLAG_UTIL_CLAMP_MIN: u64 = 0x20;

/// Flag of `sched_setattr` for the upper utilization clamp.
pub const SCHED_FLAG_UTIL_CLAMP_MAX: u64 = 0x40;

/// The largest utilization clamp.
pub const UCLAMP_MAX: u32 = 1024;

/// The utilization clamps to set on a thread, as `sched_setattr` takes them.
#[derive(Clone, Copy, Debug, PartialEq, Eq, Structural)]
pub struct UclampSetting {
    pub flags: u64,
    pub util_min: u32,
    pub util_max: u32,
}

/// A clamp brought into the kernel's range, or the value that clamps nothing.
pub open spec fn clamp_value(v: Option<u32>, unset: u32) -> u32 {
    match v {
        Some(n) => if n > UCLAMP_MAX {
            UCLAMP_MAX
        } else {
            n
        },
        None => unset,
    }
}

/// The clamps to set for a policy, if it has any.
pub open spec fn clamped_to(min: Option<u32>, max: Option<u32>) -> Option<UclampSetting> {
    if min is None && max is None {
        None
    } else {
        Some(
            UclampSetting {
                flags: if min is Some && max is Some {
                    0x60
                } else if min is Some {
                    SCHED_FLAG_UTIL_CLAMP_MIN
                } else {
                    SCHED_FLAG_UTIL_CLAMP_MAX
                },
                util_min: clamp_value(min, 0),
                util_max: clamp_value(max, UCLAMP_MAX),
            },
        )
    }
}

/// The clamps to set: a flag stands for each side that is given, so that the
/// other side stays as it is. Nothing is set when no side is given.
pub fn uclamp_setting(min: Option<u32>, max: Option<u32>) -> (r: Option<UclampSetting>)
    ensures
        r == clamped_to(min, max),
{
    if min.is_none() && max.is_none() {
        return None;
    }
    let low: u64 = if min.is_some() {
        SCHED_FLAG_UTIL_CLAMP_MIN
    } else {
        0
    };
    let high: u64 = if max.is_some() {
        SCHED_FLAG_UTIL_CLAMP_MAX
    } else {
        0
    };
    proof {
        assert(0x20u64 | 0x40u64 == 0x60u64) by (bit_vector);
        assert(0x20u64 | 0u64 == 0x20u64) by (bit_vector);
        assert(0u64 | 0x40u64 == 0x40u64) by (bit_vector);
    }
    let util_min: u32 = match min {
        Some(n) => if n > UCLAMP_MAX {
            UCLAMP_MAX
        } else {
            n
        },
        None => 0,
    };
    let util_max: u32 = match max {
        Some(n) => if n > UCLAMP_MAX {
            UCLAMP_MAX
        } else {
            n
        },
        None => UCLAMP_MAX,
    };
    Some(UclampSetting { flags: low | high, util_min, util_max })
}

/// Path of a cpuset directory.
pub fn cpuset_path(name: &str) -> (r: String)
    ensures
        r@ == topology::BASE_CPUSET@ + "/"@ + name@,
{
    let mut out = topology::BASE_CPUSET.to_owned();
    out.append("/");
    out.append(name);
    out
}

/// The cpuset directories that were made and not given up since.
pub struct EnsuredDirs {
    dirs: Vec<String>,
}

impl View for EnsuredDirs {
    type V = Set<Seq<char>>;

    closed spec fn view(&self) -> Set<Seq<char>> {
        text::strings(self.dirs@).to_set()
    }
}

impl EnsuredDirs {
    /// No directory.
    pub fn new() -> (r: EnsuredDirs)
        ensures
            r@ == Set::<Seq<char>>::empty(),
    {
        let r = EnsuredDirs { dirs: Vec::new() };
        proof {
            assert(r@ =~= Set::<Seq<char>>::empty());
        }
        r
    }

    /// Whether the directory has yet to be made; it counts as made from now
    /// on.
    pub fn ensure_dir(&mut self, name: &str) -> (r: bool)
        ensures
            r == !old(self)@.contains(name@),
            final(self)@ == old(self)@.insert(name@),
    {
        let mut i: usize = 0;
        while i < self.dirs.len()
            invariant
                0 <= i <= self.dirs@.len(),
                self.dirs == old(self).dirs,
                forall|j: int| 0 <= j < i ==> (#[trigger] self.dirs@[j])@ != name@,
            decreases self.dirs@.len() - i,
        {
            if text::same_text(self.dirs[i].as_str(), name) {
                proof {
                    assert(text::strings(self.dirs@)[i as int] == name@);
                    assert(self@ =~= old(self)@.insert(name@));
                }
                return false;
            }
            i += 1;
        }
        self.dirs.push(name.to_owned());
        proof {
            let a = text::strings(old(self).dirs@);
            let b = text::strings(self.dirs@);
            assert(b =~= a.push(name@));
            assert forall|x: Seq<char>| b.contains(x) == (a.contains(x) || x == name@) by {
                if a.contains(x) {
                    let j = choose|j: int| 0 <= j < a.len() && a[j] == x;
                    assert(b[j] == x);
                }
                if x == name@ {
                    assert(b[a.len() as int] == x);
                }
            }
            assert(self@ =~= old(self)@.insert(name@));
            if a.contains(name@) {
                let j = choose|j: int| 0 <= j < a.len() && a[j] == name@;
                assert(old(self).dirs@[j]@ == name@);
            }
        }
        true
    }

    /// Gives up a directory, which has been removed.
    pub fn forget_cpuset_dir(&mut self, name: &str)
        ensures
            final(self)@ == old(self)@.remove(name@),
    {
        let mut rest: Vec<String> = Vec::new();
        let mut i: usize = 0;
        while i < self.dirs.len()
            invariant
                0 <= i <= self.dirs@.len(),
                self.dirs == old(self).dirs,
                forall|x: Seq<char>|
                    #[trigger] text::strings(rest@).contains(x) <==> x != name@ && text::strings(
                        self.dirs@,
                    ).take(i as int).contains(x),
            decreases self.dirs@.len() - i,
        {
            let ghost all = text::strings(self.dirs@);
            let ghost rest0 = text::strings(rest@);
            proof {
                assert forall|x: Seq<char>|
                    #[trigger] all.take(i + 1).contains(x) <==> all.take(i as int).contains(x) || x
                        == all[i as int] by {
                    let a = all.take(i as int);
                    let b = all.take(i + 1);
                    if a.contains(x) {
                        let j = choose|j: int| 0 <= j < a.len() && a[j] == x;
                        assert(b[j] == x);
                    }
                    if b.contains(x) {
                        let j = choose|j: int| 0 <= j < b.len() && b[j] == x;
                        if j < i {
                            assert(a[j] == x);
                        }
                    }
                    if x == all[i as int] {
                        assert(b[i as int] == x);
                    }
                }
            }
            if !text::same_text(self.dirs[i].as_str(), name) {
                rest.push(self.dirs[i].clone());
                proof {
                    let b = text::strings(rest@);
                    assert(b =~= rest0.push(all[i as int]));
                    assert forall|x: Seq<char>| #[trigger] b.contains(x) <==> rest0.contains(x) || x
                        == all[i as int] by {
                        if rest0.contains(x) {
                            let j = choose|j: int| 0 <= j < rest0.len() && rest0[j] == x;
                            assert(b[j] == x);
                        }
                        if x == all[i as int] {
                            assert(b[rest0.len() as int] == x);
                        }
                    }
                }
            }
            i += 1;
        }
        proof {
            assert(text::strings(self.dirs@).take(i as int) =~= text::strings(self.dirs@));
        }
        self.dirs = rest;
        proof {
            assert(self@ =~= old(self)@.remove(name@));
        }
    }
}

/// A directory that was given up is made again when it is next needed.
pub proof fn law_forgotten_dirs_return(dirs: Set<Seq<char>>, name: Seq<char>)
    ensures
        !dirs.insert(name).remove(name).contains(name),
        dirs.remove(name).insert(name) == dirs.insert(name),
{
    assert(dirs.remove(name).insert(name) =~= dirs.insert(name));
}

/// Whether a character can stand in a CPU list.
pub open spec fn list_char(c: char) -> bool {
    text::is_digit(c) || c == '-' || c == ','
}

proof fn lemma_joined_chars(parts: Seq<Seq<char>>)
    requires
        forall|i: int, j: int|
            0 <= i < parts.len() && 0 <= j < parts[i].len() ==> list_char(#[trigger] parts[i][j]),
    ensures
        forall|j: int|
            0 <= j < text::join(parts, seq![',']).len() ==> list_char(
                #[trigger] text::join(parts, seq![','])[j],
            ),
    decreases parts.len(),
{
    if parts.len() > 1 {
        let front = parts.drop_last();
        assert forall|i: int, j: int| 0 <= i < front.len() && 0 <= j < front[i].len() implies list_char(
            #[trigger] front[i][j],
        ) by {
            assert(front[i][j] == parts[i][j]);
        }
        lemma_joined_chars(front);
        let head = text::join(front, seq![',']);
        let all = text::join(parts, seq![',']);
        assert forall|j: int| 0 <= j < all.len() implies list_char(#[trigger] all[j]) by {
            if j < head.len() {
                assert(all[j] == head[j]);
            } else if j > head.len() {
                assert(all[j] == parts[parts.len() - 1][j - head.len() - 1]);
            }
        }
    } else if parts.len() == 1 {
        let all = text::join(parts, seq![',']);
        assert forall|j: int| 0 <= j < all.len() implies list_char(#[trigger] all[j]) by {
            assert(all[j] == parts[0][j]);
        }
    }
}

/// Directories of policies lie directly below the cpuset root: their names
/// are CPU lists, in which there is nothing but digits, dashes and commas.
pub proof fn law_directories_stay_below_the_root(cpus: Set<int>)
    ensures
        forall|j: int|
            0 <= j < topology::range_text(cpus).len() ==> list_char(
                #[trigger] topology::range_text(cpus)[j],
            ),
        !topology::range_text(cpus).contains('/'),
        !topology::range_text(cpus).contains('.'),
{
    let r = topology::runs(cpus, 0);
    let parts = topology::run_texts(r);
    assert forall|i: int, j: int| 0 <= i < parts.len() && 0 <= j < parts[i].len() implies list_char(
        #[trigger] parts[i][j],
    ) by {
        let a = text::decimal(r[i].0 as nat);
        let b = text::decimal(r[i].1 as nat);
        text::lemma_decimal(r[i].0 as nat);
        text::lemma_decimal(r[i].1 as nat);
        assert(parts[i] == topology::run_text(r[i]));
        if j < a.len() {
            assert(parts[i][j] == a[j]);
        } else if j > a.len() {
            assert(parts[i][j] == b[j - a.len() - 1]);
        }
    }
    lemma_joined_chars(parts);
}

} // verus!
