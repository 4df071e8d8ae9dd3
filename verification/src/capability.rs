//! What the running kernel offers, and in which order policies use it.

use vstd::prelude::*;

use crate::text;

verus! {

/// The features found at start.
#[derive(Debug, Clone, Copy, PartialEq, Eq, Structural)]
pub struct CapabilitySet {
    /// Utilisation clamping.
    pub uclamp: bool,
    /// The boost groups of older kernels.
    pub schedtune: bool,
    /// CPU sets.
    pub cpuset: bool,
}

/// What was found of the files that show the features.
#[derive(Debug)]
pub struct CapabilityReadings {
    /// The largest clamp the kernel allows, where the file can be read.
    pub clamp_max: Option<String>,
    /// Whether the control group has a clamp file.
    pub clamp_group: bool,
    /// Whether the boost groups are there.
    pub stune: bool,
    /// Whether CPU sets are mounted in one of their two places.
    pub cpuset: bool,
    pub cgroup_cpuset: bool,
}

/// Whether clamping is available: the kernel's limit decides where it is a
/// number, the control group otherwise.
pub open spec fn clamps(clamp_max: Option<Seq<char>>, group: bool) -> bool {
    match clamp_max {
        Some(s) => match text::unsigned(text::trim(s), u32::MAX as nat) {
            Some(n) => n > 0,
            None => group,
        },
        None => group,
    }
}

/// Some names as texts.
pub open spec fn names(v: Seq<&str>) -> Seq<Seq<char>> {
    Seq::new(v.len(), |i: int| v[i]@)
}

/// The order in which policies try the mechanisms.
pub open spec fn order(c: CapabilitySet) -> Seq<Seq<char>> {
    if c.uclamp {
        seq!["uclamp"@, "cpuset"@, "affinity"@]
    } else if c.schedtune {
        seq!["schedtune"@, "cpuset"@, "affinity"@]
    } else {
        seq!["cpuset"@, "affinity"@]
    }
}

/// One name where it is available.
pub open spec fn one_if(on: bool, name: Seq<char>) -> Seq<Seq<char>> {
    if on {
        seq![name]
    } else {
        Seq::empty()
    }
}

/// The names of the features that are available.
pub open spec fn available(c: CapabilitySet) -> Seq<Seq<char>> {
    one_if(c.uclamp, "uclamp"@) + one_if(c.schedtune, "schedtune"@) + one_if(c.cpuset, "cpuset"@)
}

/// Joins some names.
fn join_names(v: &Vec<&str>, sep: &str) -> (r: String)
    ensures
        r@ == text::join(names(v@), sep@),
{
    let mut parts: Vec<String> = Vec::new();
    let mut i: usize = 0;
    while i < v.len()
        invariant
            0 <= i <= v@.len(),
            parts@.len() == i,
            forall|j: int| 0 <= j < i ==> (#[trigger] parts@[j])@ == v@[j]@,
        decreases v@.len() - i,
    {
        parts.push(v[i].to_owned());
        i += 1;
    }
    assert(text::strings(parts@) =~= names(v@));
    text::join_strings(parts.as_slice(), sep)
}

impl CapabilitySet {
    /// The features that the readings show.
    pub fn detect(readings: &CapabilityReadings) -> (r: CapabilitySet)
        ensures
            r.uclamp == clamps(text::opt_text(readings.clamp_max), readings.clamp_group),
            r.schedtune == readings.stune,
            r.cpuset == (readings.cpuset || readings.cgroup_cpuset),
    {
        CapabilitySet {
            uclamp: Self::check_uclamp(&readings.clamp_max, readings.clamp_group),
            schedtune: readings.stune,
            cpuset: readings.cpuset || readings.cgroup_cpuset,
        }
    }

    /// Whether clamping is available.
    fn check_uclamp(clamp_max: &Option<String>, group: bool) -> (r: bool)
        ensures
            r == clamps(text::opt_text(*clamp_max), group),
    {
        if let Some(s) = clamp_max {
            let chars = text::chars_of(s.as_str());
            if let Some(n) = text::parse_unsigned(
                text::trim_of(chars.as_slice()),
                u32::MAX as u64,
            ) {
                return n > 0;
            }
        }
        group
    }

    /// The mechanisms in the order in which policies try them.
    pub fn preferred_order(&self) -> (r: Vec<&'static str>)
        ensures
            names(r@) == order(*self),
    {
        let r: Vec<&'static str> = if self.uclamp {
            vec!["uclamp", "cpuset", "affinity"]
        } else if self.schedtune {
            vec!["schedtune", "cpuset", "affinity"]
        } else {
            vec!["cpuset", "affinity"]
        };
        assert(names(r@) =~= order(*self));
        r
    }

    /// One line for the log.
    pub fn summary(&self) -> (r: String)
        ensures
            r@ == "Capability: ["@ + text::join(available(*self), ", "@) + "], order: ["@
                + text::join(order(*self), " > "@) + "]"@,
    {
        let mut v: Vec<&str> = Vec::new();
        if self.uclamp {
            v.push("uclamp");
        }
        if self.schedtune {
            v.push("schedtune");
        }
        if self.cpuset {
            v.push("cpuset");
        }
        assert(names(v@) =~= available(*self));
        let mut out = "Capability: [".to_owned();
        out.append(join_names(&v, ", ").as_str());
        out.append("], order: [");
        out.append(join_names(&self.preferred_order(), " > ").as_str());
        out.append("]");
        out
    }
}

/// CPU sets and affinity are always tried, in that order, whatever else the
/// kernel offers.
pub proof fn law_order_ends_in_affinity(c: CapabilitySet)
    ensures
        order(c).len() >= 2,
        order(c).last() == "affinity"@,
        order(c)[order(c).len() - 2] == "cpuset"@,
{
}

} // verus!
