//! What the nodes of a configuration file mean.

use vstd::prelude::*;

use crate::config;
use crate::config::{AppView, DaemonView, EngineConfig, EngineMode, PolicyModelView};
use crate::decision::MigrateAction;
use crate::kdl_parser;
use crate::kdl_parser::{BlockView, DraftView, EntryView, ItemView, SectionView};
use crate::laws::expand;
use crate::text;
use crate::tune::TuningView;

verus! {

// ---------------------------------------------------------------------
// What the laws speak of
// ---------------------------------------------------------------------

/// The text that a node starts with, if it does.
pub open spec fn word(item: ItemView) -> Option<Seq<char>> {
    if item.entries.len() > 0 {
        item.entries[0].text
    } else {
        None
    }
}

/// The number that a node starts with, if it does.
pub open spec fn number(item: ItemView) -> Option<i128> {
    if item.entries.len() > 0 {
        item.entries[0].int
    } else {
        None
    }
}

/// The truth value that a node starts with, as such or in words.
pub open spec fn truth(item: ItemView) -> Option<bool> {
    if item.entries.len() == 0 {
        None
    } else if item.entries[0].flag is Some {
        item.entries[0].flag
    } else if item.entries[0].text == Some("true"@) {
        Some(true)
    } else if item.entries[0].text == Some("false"@) {
        Some(false)
    } else {
        None
    }
}

proof fn lemma_block_names()
    ensures
        "default"@ != "cpus"@,
        "default"@ != "profile"@,
        "default"@ != "thread"@,
        "default"@ != "thread-type"@,
        "cpus"@ != "profile"@,
        "cpus"@ != "thread"@,
        "cpus"@ != "thread-type"@,
        "profile"@ != "thread"@,
        "profile"@ != "thread-type"@,
        "thread"@ != "thread-type"@,
{
    reveal_strlit("default");
    reveal_strlit("cpus");
    reveal_strlit("profile");
    reveal_strlit("thread");
    reveal_strlit("thread-type");
    assert("default"@[0] == 'd' && "cpus"@[0] == 'c' && "profile"@[0] == 'p' && "thread"@[0] == 't'
        && "thread-type"@[0] == 't');
    assert("thread"@.len() == 6 && "thread-type"@.len() == 11);
}

// ---------------------------------------------------------------------
// Blocks of an app
// ---------------------------------------------------------------------

/// After a `thread-type` block the app has the policy of the block under its
/// name, and under every other name what it had before. Nothing else of the
/// app changes.
pub proof fn law_thread_types_are_kept(
    app: AppView,
    block: BlockView,
    w: Seq<char>,
    other: Seq<char>,
    q: PolicyModelView,
)
    requires
        expand::distinct(app.thread_types),
        block.0.name == "thread-type"@,
        word(block.0) == Some(w),
    ensures
        ({
            let a = kdl_parser::with_block(app, block);
            let p = kdl_parser::policy_of(block.0, block.1);
            &&& expand::distinct(a.thread_types)
            &&& expand::holds(a.thread_types, w, p)
            &&& other != w ==> (expand::holds(a.thread_types, other, q) <==> expand::holds(
                app.thread_types,
                other,
                q,
            ))
            &&& other != w ==> (expand::lacks(a.thread_types, other) <==> expand::lacks(
                app.thread_types,
                other,
            ))
            &&& a.pkg == app.pkg && a.profile == app.profile && a.threads == app.threads
            &&& a.default_policy == app.default_policy
        }),
{
    lemma_block_names();
    let p = kdl_parser::policy_of(block.0, block.1);
    expand::lemma_put(app.thread_types, w, p, other, q);
}

/// After a `thread` block the app has the policy of the block under its name,
/// and under every other name what it had before. Nothing else of the app
/// changes.
pub proof fn law_threads_are_kept(
    app: AppView,
    block: BlockView,
    w: Seq<char>,
    other: Seq<char>,
    q: PolicyModelView,
)
    requires
        expand::distinct(app.threads),
        block.0.name == "thread"@,
        word(block.0) == Some(w),
    ensures
        ({
            let a = kdl_parser::with_block(app, block);
            let p = kdl_parser::policy_of(block.0, block.1);
            &&& expand::distinct(a.threads)
            &&& expand::holds(a.threads, w, p)
            &&& other != w ==> (expand::holds(a.threads, other, q) <==> expand::holds(
                app.threads,
                other,
                q,
            ))
            &&& other != w ==> (expand::lacks(a.threads, other) <==> expand::lacks(
                app.threads,
                other,
            ))
            &&& a.pkg == app.pkg && a.profile == app.profile && a.thread_types == app.thread_types
            &&& a.default_policy == app.default_policy
        }),
{
    lemma_block_names();
    let p = kdl_parser::policy_of(block.0, block.1);
    expand::lemma_put(app.threads, w, p, other, q);
}

/// A `default` block states the policy of all threads, a `profile` block the
/// profile, and a `cpus` block only the CPUs of all threads, in place of a
/// cluster. Any other block, and one without the text that it needs, states
/// nothing. Nothing but what is stated changes.
pub proof fn law_blocks_state_one_thing(app: AppView, block: BlockView)
    ensures
        ({
            let a = kdl_parser::with_block(app, block);
            let name = block.0.name;
            &&& a.pkg == app.pkg
            &&& name == "default"@ ==> a.default_policy == kdl_parser::policy_of(block.0, block.1)
            &&& name == "profile"@ && word(block.0) is Some ==> a.profile == word(block.0)
            &&& name == "cpus"@ && word(block.0) is Some ==> {
                &&& a.default_policy.cpus == word(block.0)
                &&& a.default_policy.cluster is None
                &&& a.default_policy.sched == app.default_policy.sched
                &&& a.default_policy.nice == app.default_policy.nice
                &&& a.default_policy.uclamp_min == app.default_policy.uclamp_min
                &&& a.default_policy.uclamp_max == app.default_policy.uclamp_max
            }
            &&& name != "default"@ && (name != "cpus"@ || word(block.0) is None)
                ==> a.default_policy == app.default_policy
            &&& name != "profile"@ || word(block.0) is None ==> a.profile == app.profile
            &&& name != "thread"@ || word(block.0) is None ==> a.threads == app.threads
            &&& name != "thread-type"@ || word(block.0) is None ==> a.thread_types
                == app.thread_types
        }),
{
    lemma_block_names();
}

/// Whether a block states a policy for a thread type, or for a thread name.
pub open spec fn names(block: BlockView, kind: Seq<char>, w: Seq<char>) -> bool {
    block.0.name == kind && word(block.0) == Some(w)
}

/// Of the blocks of an app that state a policy for one thread type, or for one
/// thread name, the last counts; without one the app has nothing under that
/// name.
pub proof fn law_last_block_counts(pkg: Seq<char>, blocks: Seq<BlockView>, w: Seq<char>, k: int)
    ensures
        ({
            let a = kdl_parser::with_blocks(kdl_parser::fresh_app(pkg), blocks);
            &&& a.pkg == pkg
            &&& expand::distinct(a.threads) && expand::distinct(a.thread_types)
            &&& 0 <= k < blocks.len() && names(blocks[k], "thread"@, w) && (forall|j: int|
                k < j < blocks.len() ==> !names(#[trigger] blocks[j], "thread"@, w))
                ==> expand::holds(
                a.threads,
                w,
                kdl_parser::policy_of(blocks[k].0, blocks[k].1),
            )
            &&& 0 <= k < blocks.len() && names(blocks[k], "thread-type"@, w) && (forall|j: int|
                k < j < blocks.len() ==> !names(#[trigger] blocks[j], "thread-type"@, w))
                ==> expand::holds(
                a.thread_types,
                w,
                kdl_parser::policy_of(blocks[k].0, blocks[k].1),
            )
            &&& (forall|j: int|
                0 <= j < blocks.len() ==> !names(#[trigger] blocks[j], "thread"@, w))
                ==> expand::lacks(a.threads, w)
            &&& (forall|j: int|
                0 <= j < blocks.len() ==> !names(#[trigger] blocks[j], "thread-type"@, w))
                ==> expand::lacks(a.thread_types, w)
        }),
    decreases blocks.len(),
{
    if blocks.len() > 0 {
        lemma_block_names();
        let front = blocks.drop_last();
        let n = blocks.len() - 1;
        let b = blocks[n];
        let before = kdl_parser::with_blocks(kdl_parser::fresh_app(pkg), front);
        assert forall|j: int| 0 <= j < n implies #[trigger] blocks[j] == front[j] by {}
        assert forall|j: int| 0 <= j < n implies #[trigger] front[j] == blocks[j] by {}
        law_last_block_counts(pkg, front, w, k);
        law_blocks_state_one_thing(before, b);
        let q = if 0 <= k < n {
            kdl_parser::policy_of(blocks[k].0, blocks[k].1)
        } else {
            config::unset_policy()
        };
        if let Some(v) = word(b.0) {
            if b.0.name == "thread"@ {
                law_threads_are_kept(before, b, v, w, q);
            }
            if b.0.name == "thread-type"@ {
                law_thread_types_are_kept(before, b, v, w, q);
            }
        }
        if 0 <= k < n {
            assert(front[k] == blocks[k]);
            if forall|j: int| k < j < blocks.len() ==> !names(#[trigger] blocks[j], "thread"@, w) {
                assert(forall|j: int|
                    k < j < front.len() ==> !names(#[trigger] front[j], "thread"@, w));
                assert(!names(blocks[n], "thread"@, w));
            }
            if forall|j: int|
                k < j < blocks.len() ==> !names(#[trigger] blocks[j], "thread-type"@, w) {
                assert(forall|j: int|
                    k < j < front.len() ==> !names(#[trigger] front[j], "thread-type"@, w));
                assert(!names(blocks[n], "thread-type"@, w));
            }
        }
        if forall|j: int| 0 <= j < blocks.len() ==> !names(#[trigger] blocks[j], "thread"@, w) {
            assert(forall|j: int|
                0 <= j < front.len() ==> !names(#[trigger] front[j], "thread"@, w));
            assert(!names(blocks[n], "thread"@, w));
        }
        if forall|j: int|
            0 <= j < blocks.len() ==> !names(#[trigger] blocks[j], "thread-type"@, w) {
            assert(forall|j: int|
                0 <= j < front.len() ==> !names(#[trigger] front[j], "thread-type"@, w));
            assert(!names(blocks[n], "thread-type"@, w));
        }
    }
}

/// Of the `profile` blocks of an app the last counts, and of its `default`
/// blocks the last that no `cpus` block follows.
pub proof fn law_last_profile_counts(app: AppView, blocks: Seq<BlockView>, k: int)
    requires
        0 <= k < blocks.len(),
    ensures
        ({
            let a = kdl_parser::with_blocks(app, blocks);
            &&& blocks[k].0.name == "profile"@ && word(blocks[k].0) is Some && (forall|j: int|
                k < j < blocks.len() ==> (#[trigger] blocks[j]).0.name != "profile"@ || word(
                    blocks[j].0,
                ) is None) ==> a.profile == word(blocks[k].0)
            &&& blocks[k].0.name == "default"@ && (forall|j: int|
                k < j < blocks.len() ==> (#[trigger] blocks[j]).0.name != "default"@
                    && blocks[j].0.name != "cpus"@) ==> a.default_policy == kdl_parser::policy_of(
                blocks[k].0,
                blocks[k].1,
            )
            &&& blocks[k].0.name == "cpus"@ && word(blocks[k].0) is Some && (forall|j: int|
                k < j < blocks.len() ==> (#[trigger] blocks[j]).0.name != "default"@
                    && blocks[j].0.name != "cpus"@) ==> a.default_policy.cpus == word(blocks[k].0)
                && a.default_policy.cluster is None
        }),
    decreases blocks.len(),
{
    lemma_block_names();
    let front = blocks.drop_last();
    let n = blocks.len() - 1;
    let before = kdl_parser::with_blocks(app, front);
    assert forall|j: int| 0 <= j < n implies #[trigger] blocks[j] == front[j] by {}
    assert forall|j: int| 0 <= j < n implies #[trigger] front[j] == blocks[j] by {}
    law_blocks_state_one_thing(before, blocks[n]);
    if k < n {
        law_last_profile_counts(app, front, k);
        assert(blocks[n] == blocks.last());
    }
}

// ---------------------------------------------------------------------
// Apps of a document
// ---------------------------------------------------------------------

/// Whether each package has one app.
pub open spec fn one_app_each(apps: Seq<AppView>) -> bool {
    forall|i: int, j: int|
        0 <= i < j < apps.len() ==> (#[trigger] apps[i]).pkg != (#[trigger] apps[j]).pkg
}

proof fn lemma_app_index(apps: Seq<AppView>, pkg: Seq<char>)
    ensures
        ({
            let i = config::app_index(apps, pkg);
            &&& 0 <= i <= apps.len()
            &&& i < apps.len() ==> apps[i].pkg == pkg
            &&& i == apps.len() ==> forall|j: int|
                0 <= j < apps.len() ==> (#[trigger] apps[j]).pkg != pkg
        }),
    decreases apps.len(),
{
    if apps.len() > 0 && apps[0].pkg != pkg {
        let rest = apps.skip(1);
        lemma_app_index(rest, pkg);
        let i = config::app_index(rest, pkg);
        if i < rest.len() {
            assert(apps[i + 1] == rest[i]);
        } else {
            assert forall|j: int| 0 <= j < apps.len() implies (#[trigger] apps[j]).pkg != pkg by {
                if j > 0 {
                    assert(rest[j - 1] == apps[j]);
                }
            }
        }
    }
}

/// An `app` node adds to the app of its package, or makes it; the apps of
/// other packages stay as they are, in their order.
pub proof fn law_app_nodes_add_to_their_app(
    apps: Seq<AppView>,
    pkg: Seq<char>,
    section: SectionView,
)
    requires
        one_app_each(apps),
    ensures
        ({
            let next = kdl_parser::apps_with(apps, pkg, section);
            &&& one_app_each(next)
            &&& forall|i: int|
                0 <= i < apps.len() ==> (#[trigger] apps[i]).pkg == next[i].pkg && (apps[i].pkg
                    != pkg ==> next[i] == apps[i]) && (apps[i].pkg == pkg ==> next[i]
                    == kdl_parser::with_blocks(apps[i], section.1))
            &&& if exists|i: int| 0 <= i < apps.len() && (#[trigger] apps[i]).pkg == pkg {
                next.len() == apps.len()
            } else {
                next.len() == apps.len() + 1 && next.last() == kdl_parser::with_blocks(
                    kdl_parser::fresh_app(pkg),
                    section.1,
                )
            }
        }),
{
    let next = kdl_parser::apps_with(apps, pkg, section);
    let k = config::app_index(apps, pkg);
    lemma_app_index(apps, pkg);
    lemma_blocks_keep_pkg(kdl_parser::fresh_app(pkg), section.1);
    if k < apps.len() {
        lemma_blocks_keep_pkg(apps[k], section.1);
        assert(apps[k].pkg == pkg);
    }
    assert forall|i: int| 0 <= i < apps.len() implies (#[trigger] apps[i]).pkg == next[i].pkg && (
    apps[i].pkg != pkg ==> next[i] == apps[i]) && (apps[i].pkg == pkg ==> next[i]
        == kdl_parser::with_blocks(apps[i], section.1)) by {
        if apps[i].pkg == pkg {
            assert(k < apps.len());
            if i < k {
                assert(apps[i].pkg != apps[k].pkg);
            } else if k < i {
                assert(apps[k].pkg != apps[i].pkg);
            }
        }
    }
    assert forall|i: int, j: int| 0 <= i < j < next.len() implies (#[trigger] next[i]).pkg != (
    #[trigger] next[j]).pkg by {
        assert(apps[i].pkg == next[i].pkg);
        if j < apps.len() {
            assert(apps[j].pkg == next[j].pkg);
        }
    }
}

proof fn lemma_blocks_keep_pkg(app: AppView, blocks: Seq<BlockView>)
    ensures
        kdl_parser::with_blocks(app, blocks).pkg == app.pkg,
    decreases blocks.len(),
{
    if blocks.len() > 0 {
        lemma_blocks_keep_pkg(app, blocks.drop_last());
    }
}

proof fn lemma_section_names()
    ensures
        "app"@ != "daemon"@,
        "app"@ != "engine"@,
        "daemon"@ != "engine"@,
        "app"@ != "system"@,
        "daemon"@ != "system"@,
        "engine"@ != "system"@,
{
    reveal_strlit("app");
    reveal_strlit("daemon");
    reveal_strlit("engine");
    reveal_strlit("system");
    assert("app"@[0] == 'a' && "daemon"@[0] == 'd' && "engine"@[0] == 'e' && "system"@[0] == 's');
}

/// A document that can be read has one app for each package that an `app` node
/// names, and no others.
pub proof fn law_each_named_package_has_an_app(sections: Seq<SectionView>, pkg: Seq<char>)
    requires
        kdl_parser::document_state(sections) is Ok,
    ensures
        ({
            let apps = kdl_parser::document_state(sections)->Ok_0.apps;
            &&& one_app_each(apps)
            &&& (exists|i: int| 0 <= i < apps.len() && (#[trigger] apps[i]).pkg == pkg) <==> (
            exists|k: int|
                0 <= k < sections.len() && (#[trigger] sections[k]).0.name == "app"@ && word(
                    sections[k].0,
                ) == Some(pkg))
        }),
    decreases sections.len(),
{
    if sections.len() > 0 {
        lemma_section_names();
        let front = sections.drop_last();
        let n = sections.len() - 1;
        let s = sections.last();
        assert(sections[n] == s);
        law_each_named_package_has_an_app(front, pkg);
        let before = kdl_parser::document_state(front)->Ok_0.apps;
        let apps = kdl_parser::document_state(sections)->Ok_0.apps;
        assert forall|k: int| 0 <= k < n implies #[trigger] sections[k] == front[k] by {}
        if s.0.name == "app"@ {
            let named = word(s.0)->Some_0;
            law_app_nodes_add_to_their_app(before, named, s);
            lemma_blocks_keep_pkg(kdl_parser::fresh_app(named), s.1);
        }
        if exists|i: int| 0 <= i < before.len() && (#[trigger] before[i]).pkg == pkg {
            let i = choose|i: int| 0 <= i < before.len() && (#[trigger] before[i]).pkg == pkg;
            assert(apps[i].pkg == pkg);
            let k = choose|k: int|
                0 <= k < front.len() && (#[trigger] front[k]).0.name == "app"@ && word(front[k].0)
                    == Some(pkg);
            assert(sections[k].0.name == "app"@);
        }
        if exists|k: int|
            0 <= k < sections.len() && (#[trigger] sections[k]).0.name == "app"@ && word(
                sections[k].0,
            ) == Some(pkg) {
            let k = choose|k: int|
                0 <= k < sections.len() && (#[trigger] sections[k]).0.name == "app"@ && word(
                    sections[k].0,
                ) == Some(pkg);
            if k < n {
                assert(front[k].0.name == "app"@);
            } else if forall|i: int| 0 <= i < before.len() ==> (#[trigger] before[i]).pkg != pkg {
                assert(apps[apps.len() - 1].pkg == pkg);
            }
        }
        if exists|i: int| 0 <= i < apps.len() && (#[trigger] apps[i]).pkg == pkg {
            let i = choose|i: int| 0 <= i < apps.len() && (#[trigger] apps[i]).pkg == pkg;
            if i < before.len() {
                assert(before[i].pkg == pkg);
            } else {
                assert(s.0.name == "app"@ && word(s.0) == Some(pkg));
                assert(sections[n].0.name == "app"@);
            }
        }
    }
}

/// A document cannot be read just when an `app` node lacks its package, or an
/// `engine` node has a mode or an action on migration by another name.
pub proof fn law_what_cannot_be_read(sections: Seq<SectionView>)
    ensures
        kdl_parser::document_state(sections) is Err <==> exists|k: int|
            0 <= k < sections.len() && #[trigger] unreadable(sections[k]),
    decreases sections.len(),
{
    if sections.len() > 0 {
        lemma_section_names();
        let front = sections.drop_last();
        let n = sections.len() - 1;
        law_what_cannot_be_read(front);
        assert forall|k: int| 0 <= k < n implies #[trigger] sections[k] == front[k] by {}
        assert forall|k: int| 0 <= k < n implies #[trigger] front[k] == sections[k] by {}
        if let Ok(st) = kdl_parser::document_state(front) {
            lemma_engine_error(st.engine, sections[n].1);
            assert(kdl_parser::document_state(sections) is Err <==> unreadable(sections[n]));
        } else {
            let k = choose|k: int| 0 <= k < front.len() && #[trigger] unreadable(front[k]);
            assert(unreadable(sections[k]));
        }
        if exists|k: int| 0 <= k < sections.len() && #[trigger] unreadable(sections[k]) {
            let k = choose|k: int| 0 <= k < sections.len() && #[trigger] unreadable(sections[k]);
            if k < n {
                assert(unreadable(front[k]));
            }
        }
    }
}

/// Whether a top-level node cannot be read.
pub open spec fn unreadable(s: SectionView) -> bool {
    ||| s.0.name == "app"@ && word(s.0) is None
    ||| s.0.name == "engine"@ && exists|i: int| 0 <= i < s.1.len() && #[trigger] wrong(s.1[i])
}

/// Whether a block of an `engine` node has a word that means nothing.
pub open spec fn wrong(b: BlockView) -> bool {
    word(b.0) matches Some(w) && {
        ||| b.0.name == "mode"@ && w != "auto"@ && w != "ebpf"@ && w != "proc"@ && w != "hybrid"@
        ||| b.0.name == "migrate-action"@ && w != "observe"@ && w != "suggest"@ && w != "force"@
    }
}

proof fn lemma_engine_names()
    ensures
        "mode"@ != "scan-interval"@,
        "mode"@ != "lock-interval"@,
        "mode"@ != "dead-cleanup-interval"@,
        "mode"@ != "migrate-action"@,
        "mode"@ != "pressure-sensitive"@,
        "scan-interval"@ != "lock-interval"@,
        "scan-interval"@ != "dead-cleanup-interval"@,
        "scan-interval"@ != "migrate-action"@,
        "scan-interval"@ != "pressure-sensitive"@,
        "lock-interval"@ != "dead-cleanup-interval"@,
        "lock-interval"@ != "migrate-action"@,
        "lock-interval"@ != "pressure-sensitive"@,
        "dead-cleanup-interval"@ != "migrate-action"@,
        "dead-cleanup-interval"@ != "pressure-sensitive"@,
        "migrate-action"@ != "pressure-sensitive"@,
        "auto"@ != "ebpf"@,
        "auto"@ != "proc"@,
        "auto"@ != "hybrid"@,
        "ebpf"@ != "proc"@,
        "ebpf"@ != "hybrid"@,
        "proc"@ != "hybrid"@,
        "observe"@ != "suggest"@,
        "observe"@ != "force"@,
        "suggest"@ != "force"@,
        "true"@ != "false"@,
{
    reveal_strlit("mode");
    reveal_strlit("scan-interval");
    reveal_strlit("lock-interval");
    reveal_strlit("dead-cleanup-interval");
    reveal_strlit("migrate-action");
    reveal_strlit("pressure-sensitive");
    reveal_strlit("auto");
    reveal_strlit("ebpf");
    reveal_strlit("proc");
    reveal_strlit("hybrid");
    reveal_strlit("observe");
    reveal_strlit("suggest");
    reveal_strlit("force");
    reveal_strlit("true");
    reveal_strlit("false");
    assert("mode"@.len() == 4 && "migrate-action"@.len() == 14);
    assert("mode"@[0] == 'm' && "scan-interval"@[0] == 's' && "lock-interval"@[0] == 'l'
        && "dead-cleanup-interval"@[0] == 'd' && "migrate-action"@[0] == 'm'
        && "pressure-sensitive"@[0] == 'p');
    assert("auto"@[0] == 'a' && "ebpf"@[0] == 'e' && "proc"@[0] == 'p' && "hybrid"@[0] == 'h');
    assert("observe"@[0] == 'o' && "suggest"@[0] == 's' && "force"@[0] == 'f');
    assert("true"@[0] == 't' && "false"@[0] == 'f');
}

proof fn lemma_engine_error(g: EngineConfig, blocks: Seq<BlockView>)
    ensures
        kdl_parser::engine_with_all(g, blocks) is Err <==> exists|i: int|
            0 <= i < blocks.len() && #[trigger] wrong(blocks[i]),
    decreases blocks.len(),
{
    if blocks.len() > 0 {
        lemma_engine_names();
        let front = blocks.drop_last();
        let n = blocks.len() - 1;
        lemma_engine_error(g, front);
        assert forall|k: int| 0 <= k < n implies #[trigger] blocks[k] == front[k] by {}
        assert forall|k: int| 0 <= k < n implies #[trigger] front[k] == blocks[k] by {}
        if let Ok(h) = kdl_parser::engine_with_all(g, front) {
            assert(kdl_parser::engine_with(h, blocks[n]) is Err <==> wrong(blocks[n]));
        } else {
            let k = choose|k: int| 0 <= k < front.len() && #[trigger] wrong(front[k]);
            assert(wrong(blocks[k]));
        }
        if exists|k: int| 0 <= k < blocks.len() && #[trigger] wrong(blocks[k]) {
            let k = choose|k: int| 0 <= k < blocks.len() && #[trigger] wrong(blocks[k]);
            if k < n {
                assert(wrong(front[k]));
            }
        }
    }
}

/// Whether a block of an `engine` node sets the setting of that name.
pub open spec fn sets(b: BlockView, name: Seq<char>) -> bool {
    b.0.name == name && if name == "mode"@ || name == "migrate-action"@ {
        word(b.0) is Some
    } else if name == "pressure-sensitive"@ {
        truth(b.0) is Some
    } else {
        number(b.0) is Some
    }
}

/// Whether an engine setting is as a block states it.
pub open spec fn as_stated(g: EngineConfig, b: BlockView) -> bool {
    let name = b.0.name;
    &&& name == "mode"@ ==> {
        &&& word(b.0) == Some("auto"@) ==> g.mode == EngineMode::Auto
        &&& word(b.0) == Some("ebpf"@) ==> g.mode == EngineMode::Ebpf
        &&& word(b.0) == Some("proc"@) ==> g.mode == EngineMode::Proc
        &&& word(b.0) == Some("hybrid"@) ==> g.mode == EngineMode::Hybrid
    }
    &&& name == "migrate-action"@ ==> {
        &&& word(b.0) == Some("observe"@) ==> g.migrate_action == MigrateAction::Observe
        &&& word(b.0) == Some("suggest"@) ==> g.migrate_action == MigrateAction::Suggest
        &&& word(b.0) == Some("force"@) ==> g.migrate_action == MigrateAction::Force
    }
    &&& name == "pressure-sensitive"@ ==> Some(g.pressure_sensitive) == truth(b.0)
    &&& name == "scan-interval"@ ==> (number(b.0) matches Some(n) ==> g.scan_interval == n as u64)
    &&& name == "lock-interval"@ ==> (number(b.0) matches Some(n) ==> g.lock_interval == n as u64)
    &&& name == "dead-cleanup-interval"@ ==> (number(b.0) matches Some(n) ==> g.dead_cleanup_interval == n as u64)
}

/// Whether two engines have the same setting of that name.
pub open spec fn same_setting(g: EngineConfig, h: EngineConfig, name: Seq<char>) -> bool {
    &&& name == "mode"@ ==> g.mode == h.mode
    &&& name == "migrate-action"@ ==> g.migrate_action == h.migrate_action
    &&& name == "pressure-sensitive"@ ==> g.pressure_sensitive == h.pressure_sensitive
    &&& name == "scan-interval"@ ==> g.scan_interval == h.scan_interval
    &&& name == "lock-interval"@ ==> g.lock_interval == h.lock_interval
    &&& name == "dead-cleanup-interval"@ ==> g.dead_cleanup_interval == h.dead_cleanup_interval
}

/// Of the blocks of an `engine` node that set one setting the last counts; a
/// setting that no block sets stays.
pub proof fn law_last_engine_setting_counts(
    g: EngineConfig,
    blocks: Seq<BlockView>,
    name: Seq<char>,
    k: int,
)
    requires
        kdl_parser::engine_with_all(g, blocks) is Ok,
    ensures
        ({
            let h = kdl_parser::engine_with_all(g, blocks)->Ok_0;
            &&& 0 <= k < blocks.len() && sets(blocks[k], name) && (forall|j: int|
                k < j < blocks.len() ==> !sets(#[trigger] blocks[j], name)) ==> as_stated(
                h,
                blocks[k],
            )
            &&& (forall|j: int| 0 <= j < blocks.len() ==> !sets(#[trigger] blocks[j], name))
                ==> same_setting(g, h, name)
        }),
    decreases blocks.len(),
{
    if blocks.len() > 0 {
        lemma_engine_names();
        let front = blocks.drop_last();
        let n = blocks.len() - 1;
        let b = blocks[n];
        let before = kdl_parser::engine_with_all(g, front)->Ok_0;
        let h = kdl_parser::engine_with_all(g, blocks)->Ok_0;
        law_last_engine_setting_counts(g, front, name, k);
        assert forall|j: int| 0 <= j < n implies #[trigger] blocks[j] == front[j] by {}
        assert forall|j: int| 0 <= j < n implies #[trigger] front[j] == blocks[j] by {}
        assert(h == kdl_parser::engine_with(before, b)->Ok_0);
        assert(!sets(b, name) ==> same_setting(before, h, name));
        assert(sets(b, name) ==> as_stated(h, b));
        if 0 <= k < n && sets(blocks[k], name) && (forall|j: int|
            k < j < blocks.len() ==> !sets(#[trigger] blocks[j], name)) {
            assert(!sets(blocks[n], name));
            assert(front[k] == blocks[k]);
            assert(as_stated(before, blocks[k]));
        }
        if forall|j: int| 0 <= j < blocks.len() ==> !sets(#[trigger] blocks[j], name) {
            assert(!sets(blocks[n], name));
        }
    }
}

/// The daemon setting of that name.
pub open spec fn daemon_setting(d: DaemonView, name: Seq<char>) -> Seq<char> {
    if name == "pid-file"@ {
        d.pid_file
    } else if name == "ipc-socket"@ {
        d.ipc_socket
    } else {
        d.log_level
    }
}

/// Of the blocks of a `daemon` node that set one setting the last counts; a
/// setting that no block sets stays.
pub proof fn law_last_daemon_setting_counts(
    d: DaemonView,
    blocks: Seq<BlockView>,
    name: Seq<char>,
    k: int,
)
    requires
        name == "pid-file"@ || name == "ipc-socket"@ || name == "log-level"@,
    ensures
        ({
            let e = kdl_parser::daemon_with_all(d, blocks);
            &&& 0 <= k < blocks.len() && blocks[k].0.name == name && word(blocks[k].0) is Some && (
            forall|j: int|
                k < j < blocks.len() ==> (#[trigger] blocks[j]).0.name != name || word(blocks[j].0)
                    is None) ==> Some(daemon_setting(e, name)) == word(blocks[k].0)
            &&& (forall|j: int|
                0 <= j < blocks.len() ==> (#[trigger] blocks[j]).0.name != name || word(blocks[j].0)
                    is None) ==> daemon_setting(e, name) == daemon_setting(d, name)
        }),
    decreases blocks.len(),
{
    reveal_strlit("pid-file");
    reveal_strlit("ipc-socket");
    reveal_strlit("log-level");
    assert("pid-file"@[0] == 'p' && "ipc-socket"@[0] == 'i' && "log-level"@[0] == 'l');
    if blocks.len() > 0 {
        let front = blocks.drop_last();
        let n = blocks.len() - 1;
        law_last_daemon_setting_counts(d, front, name, k);
        assert forall|j: int| 0 <= j < n implies #[trigger] blocks[j] == front[j] by {}
        assert forall|j: int| 0 <= j < n implies #[trigger] front[j] == blocks[j] by {}
        assert(blocks[n] == blocks.last());
    }
}

/// A document that says nothing of them has no apps, and the daemon and the
/// engine have their defaults.
pub proof fn law_unset_settings_have_defaults(sections: Seq<SectionView>)
    requires
        forall|i: int|
            0 <= i < sections.len() ==> (#[trigger] sections[i]).0.name != "app"@
                && sections[i].0.name != "daemon"@ && sections[i].0.name != "engine"@,
    ensures
        kdl_parser::document_state(sections) matches Ok(st) && {
            &&& st.apps.len() == 0
            &&& st.daemon.pid_file == "./run/threadctl.pid"@
            &&& st.daemon.ipc_socket == "./run/threadctl.sock"@
            &&& st.daemon.log_level == "info"@
            &&& st.engine.mode == EngineMode::Auto
            &&& st.engine.scan_interval == 2
            &&& st.engine.lock_interval == 60
            &&& st.engine.dead_cleanup_interval == 15
            &&& st.engine.migrate_action == MigrateAction::Observe
            &&& st.engine.pressure_sensitive
        },
    decreases sections.len(),
{
    if sections.len() > 0 {
        let front = sections.drop_last();
        assert forall|i: int| 0 <= i < front.len() implies (#[trigger] front[i]).0.name != "app"@
            && front[i].0.name != "daemon"@ && front[i].0.name != "engine"@ by {
            assert(front[i] == sections[i]);
        }
        law_unset_settings_have_defaults(front);
        assert(sections[sections.len() - 1] == sections.last());
    }
}

/// Each top-level node changes only what it is about: an `app` node the apps,
/// a `daemon` node the daemon, an `engine` node the engine, any other nothing.
pub proof fn law_nodes_change_what_they_are_about(sections: Seq<SectionView>)
    requires
        sections.len() > 0,
        kdl_parser::document_state(sections) is Ok,
    ensures
        kdl_parser::document_state(sections.drop_last()) is Ok,
        ({
            let s = sections.last();
            let old_state = kdl_parser::document_state(sections.drop_last())->Ok_0;
            let state = kdl_parser::document_state(sections)->Ok_0;
            &&& s.0.name != "app"@ ==> state.apps == old_state.apps
            &&& s.0.name != "daemon"@ ==> state.daemon == old_state.daemon
            &&& s.0.name != "engine"@ ==> state.engine == old_state.engine
            &&& s.0.name == "app"@ ==> (word(s.0) matches Some(pkg) && state.apps
                == kdl_parser::apps_with(old_state.apps, pkg, s))
            &&& s.0.name == "daemon"@ ==> state.daemon == kdl_parser::daemon_with_all(
                old_state.daemon,
                s.1,
            )
            &&& s.0.name == "engine"@ ==> Ok::<EngineConfig, Seq<char>>(state.engine)
                == kdl_parser::engine_with_all(old_state.engine, s.1)
        }),
{
    lemma_section_names();
}

// ---------------------------------------------------------------------
// System
// ---------------------------------------------------------------------

/// The tuning of that name.
pub open spec fn tuning_of(t: TuningView, name: Seq<char>) -> Option<Seq<char>> {
    if name == "governor"@ {
        t.governor
    } else {
        t.io_scheduler
    }
}

proof fn lemma_tuning(t: TuningView, blocks: Seq<BlockView>, name: Seq<char>, k: int)
    requires
        name == "governor"@ || name == "io-scheduler"@,
    ensures
        ({
            let e = kdl_parser::tuning_with_all(t, blocks);
            &&& 0 <= k < blocks.len() && blocks[k].0.name == name && word(blocks[k].0) is Some && (
            forall|j: int|
                k < j < blocks.len() ==> (#[trigger] blocks[j]).0.name != name || word(blocks[j].0)
                    is None) ==> tuning_of(e, name) == word(blocks[k].0)
            &&& (forall|j: int|
                0 <= j < blocks.len() ==> (#[trigger] blocks[j]).0.name != name || word(blocks[j].0)
                    is None) ==> tuning_of(e, name) == tuning_of(t, name)
        }),
    decreases blocks.len(),
{
    reveal_strlit("governor");
    reveal_strlit("io-scheduler");
    assert("governor"@[0] == 'g' && "io-scheduler"@[0] == 'i');
    if blocks.len() > 0 {
        let front = blocks.drop_last();
        let n = blocks.len() - 1;
        lemma_tuning(t, front, name, k);
        assert forall|j: int| 0 <= j < n implies #[trigger] blocks[j] == front[j] by {}
        assert forall|j: int| 0 <= j < n implies #[trigger] front[j] == blocks[j] by {}
        assert(blocks[n] == blocks.last());
    }
}

/// Whether a top-level node states a tuning.
pub open spec fn tunes(s: SectionView, name: Seq<char>) -> bool {
    s.0.name == "system"@ && exists|i: int|
        0 <= i < s.1.len() && (#[trigger] s.1[i]).0.name == name && word(s.1[i].0) is Some
}

/// What a file says to tune is what the last block of a `system` node that
/// states it says, wherever in the file it stands.
pub proof fn law_last_tuning_counts(sections: Seq<SectionView>, name: Seq<char>, k: int, i: int)
    requires
        name == "governor"@ || name == "io-scheduler"@,
    ensures
        ({
            let t = tuning_of(kdl_parser::document_tuning(sections), name);
            &&& 0 <= k < sections.len() && sections[k].0.name == "system"@ && 0 <= i
                < sections[k].1.len() && sections[k].1[i].0.name == name && word(
                sections[k].1[i].0,
            ) is Some && (forall|j: int|
                i < j < sections[k].1.len() ==> (#[trigger] sections[k].1[j]).0.name != name
                    || word(sections[k].1[j].0) is None) && (forall|j: int|
                k < j < sections.len() ==> !tunes(#[trigger] sections[j], name)) ==> t == word(
                sections[k].1[i].0,
            )
            &&& (forall|j: int| 0 <= j < sections.len() ==> !tunes(#[trigger] sections[j], name))
                ==> t is None
        }),
    decreases sections.len(),
{
    if sections.len() > 0 {
        let front = sections.drop_last();
        let n = sections.len() - 1;
        let s = sections[n];
        let before = kdl_parser::document_tuning(front);
        law_last_tuning_counts(front, name, k, i);
        assert forall|j: int| 0 <= j < n implies #[trigger] sections[j] == front[j] by {}
        assert forall|j: int| 0 <= j < n implies #[trigger] front[j] == sections[j] by {}
        assert(sections[n] == sections.last());
        lemma_tuning(before, s.1, name, i);
        if !tunes(s, name) && s.0.name == "system"@ {
            assert forall|j: int| 0 <= j < s.1.len() implies (#[trigger] s.1[j]).0.name != name
                || word(s.1[j].0) is None by {}
        }
    }
}

// ---------------------------------------------------------------------
// Policies
// ---------------------------------------------------------------------

/// Whether a policy node gives an entry under a name: in the last child of
/// that name or, without one, in the last property of that name.
pub open spec fn gives(
    item: ItemView,
    children: Seq<ItemView>,
    name: Seq<char>,
    e: EntryView,
) -> bool {
    ||| exists|k: int| #[trigger] child_gives(children, name, k, e)
    ||| (forall|j: int| 0 <= j < children.len() ==> (#[trigger] children[j]).name != name)
        && exists|k: int| #[trigger] property_gives(item.entries, name, k, e)
}

/// Whether child `k` is the last of a name, and starts with this entry.
pub open spec fn child_gives(
    children: Seq<ItemView>,
    name: Seq<char>,
    k: int,
    e: EntryView,
) -> bool {
    &&& 0 <= k < children.len()
    &&& children[k].name == name
    &&& if children[k].entries.len() > 0 {
        e == children[k].entries[0]
    } else {
        e.text is None && e.int is None
    }
    &&& forall|j: int| k < j < children.len() ==> (#[trigger] children[j]).name != name
}

/// Whether property `k` is the last of a name.
pub open spec fn property_gives(
    entries: Seq<EntryView>,
    name: Seq<char>,
    k: int,
    e: EntryView,
) -> bool {
    &&& 0 <= k < entries.len()
    &&& entries[k].name == Some(name)
    &&& e == entries[k]
    &&& forall|j: int| k < j < entries.len() ==> (#[trigger] entries[j]).name != Some(name)
}

/// Whether a policy node gives nothing under a name.
pub open spec fn withholds(item: ItemView, children: Seq<ItemView>, name: Seq<char>) -> bool {
    &&& forall|j: int| 0 <= j < children.len() ==> (#[trigger] children[j]).name != name
    &&& forall|j: int|
        0 <= j < item.entries.len() ==> (#[trigger] item.entries[j]).name != Some(name)
}

/// The part of a draft that a name is about.
spec fn part(d: DraftView, name: Seq<char>) -> (Option<Seq<char>>, Option<i32>, Option<u32>) {
    if name == "cluster"@ {
        (d.policy.cluster, None, None)
    } else if name == "cpus"@ {
        (d.policy.cpus, None, None)
    } else if name == "sched"@ {
        (d.policy.sched, None, None)
    } else if name == "priority"@ {
        (None, d.priority, None)
    } else if name == "nice"@ {
        (None, d.policy.nice, None)
    } else if name == "uclamp-min"@ {
        (None, None, d.policy.uclamp_min)
    } else if name == "uclamp-max"@ {
        (None, None, d.policy.uclamp_max)
    } else {
        (None, None, None)
    }
}

/// What an entry says under a name.
spec fn said(e: EntryView, name: Seq<char>) -> (Option<Seq<char>>, Option<i32>, Option<u32>) {
    if name == "cluster"@ || name == "cpus"@ || name == "sched"@ {
        (e.text, None, None)
    } else if name == "priority"@ || name == "nice"@ {
        (
            None,
            match e.int {
                Some(v) => Some(v as i32),
                None => None,
            },
            None,
        )
    } else if name == "uclamp-min"@ || name == "uclamp-max"@ {
        (
            None,
            None,
            match e.int {
                Some(v) => Some(v as u32),
                None => None,
            },
        )
    } else {
        (None, None, None)
    }
}

proof fn lemma_field_names()
    ensures
        "cluster"@ != "cpus"@,
        "cluster"@ != "sched"@,
        "cluster"@ != "priority"@,
        "cluster"@ != "nice"@,
        "cluster"@ != "uclamp-min"@,
        "cluster"@ != "uclamp-max"@,
        "cpus"@ != "sched"@,
        "cpus"@ != "priority"@,
        "cpus"@ != "nice"@,
        "cpus"@ != "uclamp-min"@,
        "cpus"@ != "uclamp-max"@,
        "sched"@ != "priority"@,
        "sched"@ != "nice"@,
        "sched"@ != "uclamp-min"@,
        "sched"@ != "uclamp-max"@,
        "priority"@ != "nice"@,
        "priority"@ != "uclamp-min"@,
        "priority"@ != "uclamp-max"@,
        "nice"@ != "uclamp-min"@,
        "nice"@ != "uclamp-max"@,
        "uclamp-min"@ != "uclamp-max"@,
{
    reveal_strlit("cluster");
    reveal_strlit("cpus");
    reveal_strlit("sched");
    reveal_strlit("priority");
    reveal_strlit("nice");
    reveal_strlit("uclamp-min");
    reveal_strlit("uclamp-max");
    assert("cluster"@.len() == 7 && "cpus"@.len() == 4);
    assert("cluster"@[0] == 'c' && "cpus"@[0] == 'c' && "sched"@[0] == 's' && "priority"@[0] == 'p'
        && "nice"@[0] == 'n' && "uclamp-min"@[0] == 'u' && "uclamp-max"@[0] == 'u');
    assert("uclamp-min"@[8] == 'i' && "uclamp-max"@[8] == 'a');
}

proof fn lemma_field(d: DraftView, name: Seq<char>, e: EntryView, other: Seq<char>)
    ensures
        part(kdl_parser::with_field(d, name, e), name) == said(e, name),
        other != name ==> part(kdl_parser::with_field(d, name, e), other) == part(d, other),
{
    lemma_field_names();
}

proof fn lemma_properties(
    d: DraftView,
    entries: Seq<EntryView>,
    name: Seq<char>,
    k: int,
    e: EntryView,
)
    ensures
        ({
            let f = kdl_parser::with_properties(d, entries);
            &&& property_gives(entries, name, k, e) ==> part(f, name) == said(e, name)
            &&& (forall|j: int|
                0 <= j < entries.len() ==> (#[trigger] entries[j]).name != Some(name)) ==> part(
                f,
                name,
            ) == part(d, name)
        }),
    decreases entries.len(),
{
    if entries.len() > 0 {
        let front = entries.drop_last();
        let n = entries.len() - 1;
        let before = kdl_parser::with_properties(d, front);
        lemma_properties(d, front, name, k, e);
        assert forall|j: int| 0 <= j < n implies #[trigger] front[j] == entries[j] by {}
        assert forall|j: int| 0 <= j < n implies #[trigger] entries[j] == front[j] by {}
        assert(entries[n] == entries.last());
        if let Some(m) = entries[n].name {
            lemma_field(before, m, entries[n], name);
        }
    }
}

proof fn lemma_children(
    d: DraftView,
    children: Seq<ItemView>,
    name: Seq<char>,
    k: int,
    e: EntryView,
)
    ensures
        ({
            let f = kdl_parser::with_children(d, children);
            &&& child_gives(children, name, k, e) ==> part(f, name) == said(e, name)
            &&& (forall|j: int|
                0 <= j < children.len() ==> (#[trigger] children[j]).name != name) ==> part(f, name)
                == part(d, name)
        }),
    decreases children.len(),
{
    if children.len() > 0 {
        let front = children.drop_last();
        let n = children.len() - 1;
        let before = kdl_parser::with_children(d, front);
        lemma_children(d, front, name, k, e);
        assert forall|j: int| 0 <= j < n implies #[trigger] front[j] == children[j] by {}
        assert forall|j: int| 0 <= j < n implies #[trigger] children[j] == front[j] by {}
        assert(children[n] == children.last());
        let first = kdl_parser::first_entry(children[n]);
        lemma_field(before, children[n].name, first, name);
    }
}

proof fn lemma_part(item: ItemView, children: Seq<ItemView>, name: Seq<char>, e: EntryView)
    ensures
        ({
            let start = DraftView { policy: config::unset_policy(), priority: None };
            let d = kdl_parser::with_children(
                kdl_parser::with_properties(start, item.entries),
                children,
            );
            &&& gives(item, children, name, e) ==> part(d, name) == said(e, name)
            &&& withholds(item, children, name) ==> part(d, name) == (
                None::<Seq<char>>,
                None::<i32>,
                None::<u32>,
            )
        }),
{
    let start = DraftView { policy: config::unset_policy(), priority: None };
    let p = kdl_parser::with_properties(start, item.entries);
    lemma_properties(start, item.entries, name, 0, e);
    lemma_children(p, children, name, 0, e);
    if exists|k: int| #[trigger] child_gives(children, name, k, e) {
        let k = choose|k: int| #[trigger] child_gives(children, name, k, e);
        lemma_children(p, children, name, k, e);
    } else if gives(item, children, name, e) {
        let k = choose|k: int| #[trigger] property_gives(item.entries, name, k, e);
        lemma_properties(start, item.entries, name, k, e);
    }
}

/// Each field of a policy is what the node gives under its name, and unset
/// where it gives nothing. Numbers keep their low 32 bits.
pub proof fn law_policy_fields_are_read(item: ItemView, children: Seq<ItemView>, e: EntryView)
    ensures
        ({
            let p = kdl_parser::policy_of(item, children);
            &&& gives(item, children, "cluster"@, e) ==> p.cluster == e.text
            &&& gives(item, children, "cpus"@, e) ==> p.cpus == e.text
            &&& gives(item, children, "nice"@, e) ==> (e.int is None <==> p.nice is None) && (
            e.int matches Some(v) ==> p.nice == Some(v as i32))
            &&& gives(item, children, "uclamp-min"@, e) ==> (e.int is None <==> p.uclamp_min
                is None) && (e.int matches Some(v) ==> p.uclamp_min == Some(v as u32))
            &&& gives(item, children, "uclamp-max"@, e) ==> (e.int is None <==> p.uclamp_max
                is None) && (e.int matches Some(v) ==> p.uclamp_max == Some(v as u32))
            &&& withholds(item, children, "cluster"@) ==> p.cluster is None
            &&& withholds(item, children, "cpus"@) ==> p.cpus is None
            &&& withholds(item, children, "nice"@) ==> p.nice is None
            &&& withholds(item, children, "uclamp-min"@) ==> p.uclamp_min is None
            &&& withholds(item, children, "uclamp-max"@) ==> p.uclamp_max is None
        }),
{
    lemma_field_names();
    lemma_part(item, children, "cluster"@, e);
    lemma_part(item, children, "cpus"@, e);
    lemma_part(item, children, "nice"@, e);
    lemma_part(item, children, "uclamp-min"@, e);
    lemma_part(item, children, "uclamp-max"@, e);
}

/// Whether a text has a colon.
pub open spec fn has_colon(s: Seq<char>) -> bool {
    exists|i: int| 0 <= i < s.len() && #[trigger] s[i] == ':'
}

/// The scheduling class of a policy is what the node gives for it. A priority
/// is joined to it after a colon, unless it has one, and makes the class
/// `fifo` where none is given.
pub proof fn law_priorities_join_their_class(
    item: ItemView,
    children: Seq<ItemView>,
    class: EntryView,
    prio: EntryView,
)
    ensures
        ({
            let p = kdl_parser::policy_of(item, children);
            let no_prio = withholds(item, children, "priority"@) || (gives(
                item,
                children,
                "priority"@,
                prio,
            ) && prio.int is None);
            &&& gives(item, children, "sched"@, class) && no_prio ==> p.sched == class.text
            &&& withholds(item, children, "sched"@) && no_prio ==> p.sched is None
            &&& gives(item, children, "priority"@, prio) ==> (prio.int matches Some(n) ==> {
                &&& gives(item, children, "sched"@, class) ==> (class.text matches Some(s) ==> {
                    &&& has_colon(s) ==> p.sched == Some(s)
                    &&& !has_colon(s) ==> p.sched == Some(
                        s + seq![':'] + text::signed_decimal((n as i32) as int),
                    )
                })
                &&& withholds(item, children, "sched"@) ==> p.sched
                    == Some("fifo"@ + seq![':'] + text::signed_decimal((n as i32) as int))
            })
        }),
{
    lemma_field_names();
    lemma_part(item, children, "sched"@, class);
    lemma_part(item, children, "priority"@, prio);
    reveal_strlit(":");
    assert(":"@ =~= seq![':']);
    if let Some(s) = class.text {
        text::lemma_scan(s, text::is_char(':'));
        assert(has_colon(s) <==> text::find(s, ':') < s.len());
    }
}

} // verus!
