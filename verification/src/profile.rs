//! Built-in profiles: the policies of a whole app under one name.

use vstd::prelude::*;

use crate::config;
use crate::config::{NamedPolicy, PolicyModel, PolicyModelView};
use crate::text;

verus! {

/// A table of policies by name.
pub type TableView = Seq<(Seq<char>, PolicyModelView)>;

/// The policies of a profile.
#[derive(Debug)]
pub struct ProfileModel {
    pub default: PolicyModel,
    pub threads: Vec<NamedPolicy>,
    pub thread_types: Vec<NamedPolicy>,
}

/// The contents of a profile.
#[verifier::ext_equal]
pub struct ProfileView {
    pub default: PolicyModelView,
    pub threads: TableView,
    pub thread_types: TableView,
}

impl View for ProfileModel {
    type V = ProfileView;

    open spec fn view(&self) -> ProfileView {
        ProfileView {
            default: self.default@,
            threads: config::table(self.threads@),
            thread_types: config::table(self.thread_types@),
        }
    }
}

/// A built-in profile and its name.
#[derive(Debug)]
pub struct BuiltinProfile {
    pub name: &'static str,
    pub profile: ProfileModel,
}

/// The policy that only names a cluster.
pub open spec fn on_cluster(cluster: Seq<char>) -> PolicyModelView {
    PolicyModelView { cluster: Some(cluster), ..config::unset_policy() }
}

/// The policy that names a cluster and a scheduling class.
pub open spec fn on_cluster_with(cluster: Seq<char>, sched: Seq<char>) -> PolicyModelView {
    PolicyModelView { cluster: Some(cluster), sched: Some(sched), ..config::unset_policy() }
}

/// The names of the built-in profiles.
pub open spec fn builtin_names() -> Seq<Seq<char>> {
    seq![
        "game"@,
        "audio"@,
        "launcher"@,
        "balanced"@,
        "power-save"@,
        "chat"@,
        "video"@,
    ]
}

/// What a built-in profile says.
///
/// - `game`: rendering on the prime cluster with a floor under its
///   frequency, audio on the little one, the rest on the big one.
/// - `audio`: audio on the big cluster at real-time priority, the rest on the
///   little one.
/// - `launcher`: rendering on the prime cluster at real-time priority, the
///   rest on the big one.
/// - `balanced`: everything on the big cluster.
/// - `power-save`: everything on the little cluster.
/// - `chat`: rendering on the prime cluster, audio on the big one at
///   real-time priority, the rest on the big one.
/// - `video`: rendering and audio on the big cluster, the rest on the little
///   one.
pub open spec fn builtin(name: Seq<char>) -> Option<ProfileView> {
    let none: TableView = Seq::empty();
    if name == "game"@ {
        Some(
            ProfileView {
                default: on_cluster("big"@),
                threads: none,
                thread_types: seq![
                    (
                        "render"@,
                        PolicyModelView { uclamp_min: Some(700), ..on_cluster("prime"@) },
                    ),
                    ("audio"@, on_cluster("little"@)),
                ],
            },
        )
    } else if name == "audio"@ {
        Some(
            ProfileView {
                default: on_cluster("little"@),
                threads: none,
                thread_types: seq![("audio"@, on_cluster_with("big"@, "rr:30"@))],
            },
        )
    } else if name == "launcher"@ {
        Some(
            ProfileView {
                default: on_cluster("big"@),
                threads: seq![("RenderThread"@, on_cluster_with("prime"@, "fifo:60"@))],
                thread_types: none,
            },
        )
    } else if name == "balanced"@ {
        Some(ProfileView { default: on_cluster("big"@), threads: none, thread_types: none })
    } else if name == "power-save"@ {
        Some(ProfileView { default: on_cluster("little"@), threads: none, thread_types: none })
    } else if name == "chat"@ {
        Some(
            ProfileView {
                default: on_cluster("big"@),
                threads: seq![("RenderThread"@, on_cluster("prime"@))],
                thread_types: seq![("audio"@, on_cluster_with("big"@, "rr:30"@))],
            },
        )
    } else if name == "video"@ {
        Some(
            ProfileView {
                default: on_cluster("little"@),
                threads: seq![("RenderThread"@, on_cluster("big"@))],
                thread_types: seq![("audio"@, on_cluster("big"@))],
            },
        )
    } else {
        None
    }
}

fn cluster_policy(cluster: &str) -> (r: PolicyModel)
    ensures
        r@ == on_cluster(cluster@),
{
    let mut p = PolicyModel::default();
    p.cluster = Some(cluster.to_owned());
    p
}

fn cluster_sched_policy(cluster: &str, sched: &str) -> (r: PolicyModel)
    ensures
        r@ == on_cluster_with(cluster@, sched@),
{
    let mut p = PolicyModel::default();
    p.cluster = Some(cluster.to_owned());
    p.sched = Some(sched.to_owned());
    p
}

fn no_policies() -> (r: Vec<NamedPolicy>)
    ensures
        config::table(r@) == Seq::<(Seq<char>, PolicyModelView)>::empty(),
{
    let r: Vec<NamedPolicy> = Vec::new();
    proof {
        assert(config::table(r@) =~= Seq::<(Seq<char>, PolicyModelView)>::empty());
    }
    r
}

fn one_policy(name: &str, policy: PolicyModel) -> (r: Vec<NamedPolicy>)
    ensures
        config::table(r@) == seq![(name@, policy@)],
{
    let mut r: Vec<NamedPolicy> = Vec::new();
    r.push(NamedPolicy { name: name.to_owned(), policy });
    proof {
        assert(config::table(r@) =~= seq![(name@, policy@)]);
    }
    r
}

/// The built-in profile of that name.
pub fn builtin_profile(name: &str) -> (r: Option<ProfileModel>)
    ensures
        match r {
            Some(p) => builtin(name@) == Some(p@),
            None => builtin(name@) is None,
        },
{
    proof {
        lemma_names_differ();
    }
    if text::same_text(name, "game") {
        let mut render = cluster_policy("prime");
        render.uclamp_min = Some(700);
        let mut types: Vec<NamedPolicy> = Vec::new();
        let audio = cluster_policy("little");
        types.push(NamedPolicy { name: "render".to_owned(), policy: render });
        types.push(NamedPolicy { name: "audio".to_owned(), policy: audio });
        proof {
            assert(config::table(types@) =~= seq![("render"@, render@), ("audio"@, audio@)]);
        }
        Some(
            ProfileModel {
                default: cluster_policy("big"),
                threads: no_policies(),
                thread_types: types,
            },
        )
    } else if text::same_text(name, "audio") {
        Some(
            ProfileModel {
                default: cluster_policy("little"),
                threads: no_policies(),
                thread_types: one_policy("audio", cluster_sched_policy("big", "rr:30")),
            },
        )
    } else if text::same_text(name, "launcher") {
        Some(
            ProfileModel {
                default: cluster_policy("big"),
                threads: one_policy("RenderThread", cluster_sched_policy("prime", "fifo:60")),
                thread_types: no_policies(),
            },
        )
    } else if text::same_text(name, "balanced") {
        Some(
            ProfileModel {
                default: cluster_policy("big"),
                threads: no_policies(),
                thread_types: no_policies(),
            },
        )
    } else if text::same_text(name, "power-save") {
        Some(
            ProfileModel {
                default: cluster_policy("little"),
                threads: no_policies(),
                thread_types: no_policies(),
            },
        )
    } else if text::same_text(name, "chat") {
        Some(
            ProfileModel {
                default: cluster_policy("big"),
                threads: one_policy("RenderThread", cluster_policy("prime")),
                thread_types: one_policy("audio", cluster_sched_policy("big", "rr:30")),
            },
        )
    } else if text::same_text(name, "video") {
        Some(
            ProfileModel {
                default: cluster_policy("little"),
                threads: one_policy("RenderThread", cluster_policy("big")),
                thread_types: one_policy("audio", cluster_policy("big")),
            },
        )
    } else {
        None
    }
}

/// The names of the built-in profiles are pairwise different.
proof fn lemma_names_differ()
    ensures
        forall|i: int, j: int|
            0 <= i < j < 7 ==> #[trigger] builtin_names()[i] != #[trigger] builtin_names()[j],
{
    reveal_strlit("game");
    reveal_strlit("audio");
    reveal_strlit("launcher");
    reveal_strlit("balanced");
    reveal_strlit("power-save");
    reveal_strlit("chat");
    reveal_strlit("video");
    assert("game"@[0] == 'g' && "chat"@[0] == 'c');
    assert("audio"@[0] == 'a' && "video"@[0] == 'v');
    assert("launcher"@[0] == 'l' && "balanced"@[0] == 'b');
    assert("game"@.len() == 4 && "audio"@.len() == 5 && "launcher"@.len() == 8
        && "power-save"@.len() == 10);
}

/// The built-in profiles.
pub fn builtin_profiles() -> (r: Vec<BuiltinProfile>)
    ensures
        r@.len() == builtin_names().len(),
        forall|i: int|
            0 <= i < r@.len() ==> {
                &&& (#[trigger] r@[i]).name@ == builtin_names()[i]
                &&& builtin(r@[i].name@) == Some(r@[i].profile@)
            },
{
    let names = profile_names();
    let mut out: Vec<BuiltinProfile> = Vec::new();
    let mut i: usize = 0;
    while i < names.len()
        invariant
            0 <= i <= names@.len(),
            names@.len() == builtin_names().len(),
            forall|j: int| 0 <= j < names@.len() ==> (#[trigger] names@[j])@ == builtin_names()[j],
            out@.len() == i,
            forall|j: int|
                0 <= j < i ==> {
                    &&& (#[trigger] out@[j]).name@ == builtin_names()[j]
                    &&& builtin(out@[j].name@) == Some(out@[j].profile@)
                },
        decreases names@.len() - i,
    {
        let name: &'static str = names[i];
        proof {
            assert(name@ == builtin_names()[i as int]);
            assert(builtin(name@) is Some);
        }
        match builtin_profile(name) {
            Some(profile) => {
                out.push(BuiltinProfile { name, profile });
            },
            None => {},
        }
        i += 1;
    }
    out
}

/// Whether a profile of that name is built in.
pub fn is_valid_profile(name: &str) -> (r: bool)
    ensures
        r == builtin(name@) is Some,
        r == builtin_names().contains(name@),
{
    let r = builtin_profile(name).is_some();
    proof {
        let names = builtin_names();
        assert(names[0] == "game"@ && names[1] == "audio"@ && names[2] == "launcher"@ && names[3]
            == "balanced"@ && names[4] == "power-save"@ && names[5] == "chat"@ && names[6]
            == "video"@);
        if names.contains(name@) {
            let i = choose|i: int| 0 <= i < names.len() && names[i] == name@;
            assert(builtin(names[i]) is Some);
        }
    }
    r
}

/// The names of the built-in profiles.
pub fn profile_names() -> (r: Vec<&'static str>)
    ensures
        r@.len() == builtin_names().len(),
        forall|i: int| 0 <= i < r@.len() ==> (#[trigger] r@[i])@ == builtin_names()[i],
{
    vec!["game", "audio", "launcher", "balanced", "power-save", "chat", "video"]
}

} // verus!
