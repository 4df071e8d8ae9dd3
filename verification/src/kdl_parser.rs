//! Reads configuration files, which are KDL documents.
//!
//! The `kdl` crate reads the syntax; what the nodes mean is decided here.

use kdl::{KdlDocument, KdlNode};
use vstd::prelude::*;

use crate::config;
use crate::config::{AppModel, ConfigModel, DaemonConfig, EngineConfig, EngineMode, PolicyModel};
use crate::decision::MigrateAction;
use crate::text;
use crate::tune::{SystemTuning, TuningView};

verus! {

// ---------------------------------------------------------------------
// Documents
// ---------------------------------------------------------------------

/// An argument or property of a node: its name, if it is a property, and its
/// value as text, as a whole number or as a truth value, as far as it is one.
#[derive(Debug)]
pub struct Entry {
    pub name: Option<String>,
    pub text: Option<String>,
    pub int: Option<i128>,
    pub flag: Option<bool>,
}

/// A node without its children.
#[derive(Debug)]
pub struct Item {
    pub name: String,
    pub entries: Vec<Entry>,
}

/// A node with its children, which count without theirs.
pub type Block = (Item, Vec<Item>);

/// A top-level node with its children.
pub type Section = (Item, Vec<Block>);

/// The contents of an entry.
#[verifier::ext_equal]
pub struct EntryView {
    pub name: Option<Seq<char>>,
    pub text: Option<Seq<char>>,
    pub int: Option<i128>,
    pub flag: Option<bool>,
}

/// The contents of an item.
#[verifier::ext_equal]
pub struct ItemView {
    pub name: Seq<char>,
    pub entries: Seq<EntryView>,
}

/// The contents of a block.
pub type BlockView = (ItemView, Seq<ItemView>);

/// The contents of a section.
pub type SectionView = (ItemView, Seq<BlockView>);

impl View for Entry {
    type V = EntryView;

    open spec fn view(&self) -> EntryView {
        EntryView {
            name: text::opt_text(self.name),
            text: text::opt_text(self.text),
            int: self.int,
            flag: self.flag,
        }
    }
}

impl View for Item {
    type V = ItemView;

    open spec fn view(&self) -> ItemView {
        ItemView { name: self.name@, entries: entry_views(self.entries@) }
    }
}

/// The contents of entries.
pub open spec fn entry_views(v: Seq<Entry>) -> Seq<EntryView> {
    Seq::new(v.len(), |i: int| v[i]@)
}

/// The contents of items.
pub open spec fn item_views(v: Seq<Item>) -> Seq<ItemView> {
    Seq::new(v.len(), |i: int| v[i]@)
}

/// The contents of blocks.
pub open spec fn block_views(v: Seq<Block>) -> Seq<BlockView> {
    Seq::new(v.len(), |i: int| (v[i].0@, item_views(v[i].1@)))
}

/// The contents of sections.
pub open spec fn section_views(v: Seq<Section>) -> Seq<SectionView> {
    Seq::new(v.len(), |i: int| (v[i].0@, block_views(v[i].1@)))
}

/// The error of the `kdl` crate.
#[verifier::external_type_specification]
#[verifier::external_body]
pub struct ExKdlError(kdl::KdlError);

/// The upper three levels of the KDL document that a text is, if it is one.
pub uninterp spec fn document_of(text: Seq<char>) -> Option<Seq<SectionView>>;

/// Calls `kdl::KdlDocument`'s `FromStr` and hands out the nodes of the upper
/// three levels, with their names, arguments and properties in order. The
/// outcome is a function of the text alone; nothing is said of which texts
/// are documents and what they hold.
#[verifier::external_body]
fn read_document(input: &str) -> (r: Result<Vec<Section>, kdl::KdlError>)
    ensures
        match r {
            Ok(sections) => document_of(input@) == Some(section_views(sections@)),
            Err(_) => document_of(input@) is None,
        },
{
    let item = |n: &KdlNode| Item {
        name: n.name().value().into(),
        entries: n.entries().iter().map(|e| Entry {
            name: e.name().map(|i| i.value().into()),
            text: e.value().as_string().map(Into::into),
            int: e.value().as_integer(),
            flag: e.value().as_bool(),
        }).collect(),
    };
    Ok(input.parse::<KdlDocument>()?.into_iter().map(|a| (item(&a), a.iter_children()
        .map(|b| (item(b), b.iter_children().map(item).collect())).collect())).collect())
}

/// Calls `Display` of `kdl::KdlError`, which prints the same words for every
/// error.
#[verifier::external_body]
fn error_text(e: &kdl::KdlError) -> (r: String)
    ensures
        r@ == "Failed to parse KDL document"@,
{
    e.to_string()
}

// ---------------------------------------------------------------------
// Policies
// ---------------------------------------------------------------------

/// The entry that holds nothing.
pub open spec fn blank_entry() -> EntryView {
    EntryView { name: None, text: None, int: None, flag: None }
}

/// The first entry of a node; without one, the entry that holds nothing.
pub open spec fn first_entry(item: ItemView) -> EntryView {
    if item.entries.len() > 0 {
        item.entries[0]
    } else {
        blank_entry()
    }
}

/// A policy that is being read, with a priority that stands apart.
#[verifier::ext_equal]
pub struct DraftView {
    pub policy: config::PolicyModelView,
    pub priority: Option<i32>,
}

/// The draft with one field set from a value. A value of the wrong kind
/// clears the field; an unknown name changes nothing. Numbers keep their low
/// 32 bits.
pub open spec fn with_field(d: DraftView, name: Seq<char>, e: EntryView) -> DraftView {
    let p = d.policy;
    let number = match e.int {
        Some(v) => Some(v as i32),
        None => None,
    };
    let clamp = match e.int {
        Some(v) => Some(v as u32),
        None => None,
    };
    if name == "cluster"@ {
        DraftView { policy: config::PolicyModelView { cluster: e.text, ..p }, ..d }
    } else if name == "cpus"@ {
        DraftView { policy: config::PolicyModelView { cpus: e.text, ..p }, ..d }
    } else if name == "sched"@ {
        DraftView { policy: config::PolicyModelView { sched: e.text, ..p }, ..d }
    } else if name == "priority"@ {
        DraftView { priority: number, ..d }
    } else if name == "nice"@ {
        DraftView { policy: config::PolicyModelView { nice: number, ..p }, ..d }
    } else if name == "uclamp-min"@ {
        DraftView { policy: config::PolicyModelView { uclamp_min: clamp, ..p }, ..d }
    } else if name == "uclamp-max"@ {
        DraftView { policy: config::PolicyModelView { uclamp_max: clamp, ..p }, ..d }
    } else {
        d
    }
}

/// The draft with the fields that properties set.
pub open spec fn with_properties(d: DraftView, entries: Seq<EntryView>) -> DraftView
    decreases entries.len(),
{
    if entries.len() == 0 {
        d
    } else {
        let before = with_properties(d, entries.drop_last());
        match entries.last().name {
            Some(name) => with_field(before, name, entries.last()),
            None => before,
        }
    }
}

/// The draft with the fields that child nodes set.
pub open spec fn with_children(d: DraftView, children: Seq<ItemView>) -> DraftView
    decreases children.len(),
{
    if children.len() == 0 {
        d
    } else {
        with_field(
            with_children(d, children.drop_last()),
            children.last().name,
            first_entry(children.last()),
        )
    }
}

/// The policy of a draft: a priority is joined to a scheduling class that has
/// none, and to `fifo` when there is no class.
pub open spec fn finished(d: DraftView) -> config::PolicyModelView {
    match d.priority {
        Some(n) => {
            let class = match d.policy.sched {
                Some(s) => s,
                None => "fifo"@,
            };
            if d.policy.sched matches Some(s) && text::find(s, ':') < s.len() {
                d.policy
            } else {
                config::PolicyModelView {
                    sched: Some(class + ":"@ + text::signed_decimal(n as int)),
                    ..d.policy
                }
            }
        },
        None => d.policy,
    }
}

/// The policy that a node states, in properties and in child nodes; a child
/// goes before a property.
pub open spec fn policy_of(item: ItemView, children: Seq<ItemView>) -> config::PolicyModelView {
    let start = DraftView { policy: config::unset_policy(), priority: None };
    finished(with_children(with_properties(start, item.entries), children))
}

struct Draft {
    policy: PolicyModel,
    priority: Option<i32>,
}

impl View for Draft {
    type V = DraftView;

    closed spec fn view(&self) -> DraftView {
        DraftView { policy: self.policy@, priority: self.priority }
    }
}

fn set_field(d: &mut Draft, name: &str, value: Option<&Entry>)
    ensures
        final(d)@ == with_field(
            old(d)@,
            name@,
            match value {
                Some(e) => e@,
                None => blank_entry(),
            },
        ),
{
    let word = match value {
        Some(e) => text::copy_opt(&e.text),
        None => None,
    };
    let whole: Option<i128> = match value {
        Some(e) => e.int,
        None => None,
    };
    let number: Option<i32> = match whole {
        Some(v) => Some(
            #[verifier::truncate]
            (v as i32),
        ),
        None => None,
    };
    let clamp: Option<u32> = match whole {
        Some(v) => Some(
            #[verifier::truncate]
            (v as u32),
        ),
        None => None,
    };
    if text::same_text(name, "cluster") {
        d.policy.cluster = word;
    } else if text::same_text(name, "cpus") {
        d.policy.cpus = word;
    } else if text::same_text(name, "sched") {
        d.policy.sched = word;
    } else if text::same_text(name, "priority") {
        d.priority = number;
    } else if text::same_text(name, "nice") {
        d.policy.nice = number;
    } else if text::same_text(name, "uclamp-min") {
        d.policy.uclamp_min = clamp;
    } else if text::same_text(name, "uclamp-max") {
        d.policy.uclamp_max = clamp;
    }
}

fn read_properties(d: &mut Draft, entries: &Vec<Entry>)
    ensures
        final(d)@ == with_properties(old(d)@, entry_views(entries@)),
{
    let ghost all = entry_views(entries@);
    let mut i: usize = 0;
    proof {
        assert(all.take(0) =~= Seq::<EntryView>::empty());
    }
    while i < entries.len()
        invariant
            0 <= i <= entries@.len(),
            all == entry_views(entries@),
            d@ == with_properties(old(d)@, all.take(i as int)),
        decreases entries@.len() - i,
    {
        proof {
            assert(all.take(i + 1).drop_last() =~= all.take(i as int));
            assert(all.take(i + 1).last() == entries@[i as int]@);
        }
        match &entries[i].name {
            Some(name) => {
                set_field(d, name.as_str(), Some(&entries[i]));
            },
            None => {},
        }
        i += 1;
    }
    proof {
        assert(all.take(i as int) =~= all);
    }
}

fn head(item: &Item) -> (r: Option<&Entry>)
    ensures
        first_entry(item@) == match r {
            Some(e) => e@,
            None => blank_entry(),
        },
{
    if item.entries.len() > 0 {
        Some(&item.entries[0])
    } else {
        None
    }
}

fn head_text(item: &Item) -> (r: Option<String>)
    ensures
        text::opt_text(r) == first_entry(item@).text,
{
    match head(item) {
        Some(e) => text::copy_opt(&e.text),
        None => None,
    }
}

fn has_colon(s: &str) -> (r: bool)
    ensures
        r == (text::find(s@, ':') < s@.len()),
{
    let chars = text::chars_of(s);
    text::find_char(chars.as_slice(), ':') < chars.len()
}

fn finish(d: Draft) -> (r: PolicyModel)
    ensures
        r@ == finished(d@),
{
    let mut policy = d.policy;
    match d.priority {
        Some(n) => {
            let complete = match &policy.sched {
                Some(s) => has_colon(s.as_str()),
                None => false,
            };
            if !complete {
                let mut class = match &policy.sched {
                    Some(s) => s.clone(),
                    None => "fifo".to_owned(),
                };
                class.append(":");
                text::push_signed(&mut class, n as i64);
                policy.sched = Some(class);
            }
        },
        None => {},
    }
    policy
}

/// Reads the policy that a node states.
fn parse(item: &Item, children: &Vec<Item>) -> (r: PolicyModel)
    ensures
        r@ == policy_of(item@, item_views(children@)),
{
    let mut d = Draft { policy: PolicyModel::default(), priority: None };
    read_properties(&mut d, &item.entries);
    let ghost start = d@;
    let ghost all = item_views(children@);
    let mut i: usize = 0;
    proof {
        assert(all.take(0) =~= Seq::<ItemView>::empty());
    }
    while i < children.len()
        invariant
            0 <= i <= children@.len(),
            all == item_views(children@),
            d@ == with_children(start, all.take(i as int)),
        decreases children@.len() - i,
    {
        proof {
            assert(all.take(i + 1).drop_last() =~= all.take(i as int));
            assert(all.take(i + 1).last() == children@[i as int]@);
        }
        set_field(&mut d, children[i].name.as_str(), head(&children[i]));
        i += 1;
    }
    proof {
        assert(all.take(i as int) =~= all);
    }
    finish(d)
}

// ---------------------------------------------------------------------
// Apps
// ---------------------------------------------------------------------

/// The app that a package starts as.
pub open spec fn fresh_app(pkg: Seq<char>) -> config::AppView {
    config::AppView {
        pkg,
        profile: None,
        default_policy: config::unset_policy(),
        threads: Seq::empty(),
        thread_types: Seq::empty(),
    }
}

/// The policy that says only on which CPUs to run.
pub open spec fn cpus_alone(cpus: Seq<char>) -> config::PolicyModelView {
    config::PolicyModelView { cpus: Some(cpus), ..config::unset_policy() }
}

/// The app with what one block of it states. A later `default`, or a later
/// policy of the same thread or type, takes the place of an earlier one; CPUs
/// that stand directly in the app are those of its default policy.
pub open spec fn with_block(app: config::AppView, block: BlockView) -> config::AppView {
    let word = first_entry(block.0).text;
    let pol = policy_of(block.0, block.1);
    if block.0.name == "default"@ {
        config::AppView { default_policy: pol, ..app }
    } else if block.0.name == "cpus"@ {
        match word {
            Some(w) => config::AppView {
                default_policy: config::overridden(app.default_policy, cpus_alone(w)),
                ..app
            },
            None => app,
        }
    } else if block.0.name == "profile"@ {
        match word {
            Some(w) => config::AppView { profile: Some(w), ..app },
            None => app,
        }
    } else if block.0.name == "thread"@ {
        match word {
            Some(w) => config::AppView { threads: config::table_put(app.threads, w, pol), ..app },
            None => app,
        }
    } else if block.0.name == "thread-type"@ {
        match word {
            Some(w) => config::AppView {
                thread_types: config::table_put(app.thread_types, w, pol),
                ..app
            },
            None => app,
        }
    } else {
        app
    }
}

/// The app with what several blocks state.
pub open spec fn with_blocks(app: config::AppView, blocks: Seq<BlockView>) -> config::AppView
    decreases blocks.len(),
{
    if blocks.len() == 0 {
        app
    } else {
        with_block(with_blocks(app, blocks.drop_last()), blocks.last())
    }
}

/// The apps with what one `app` node states of the app of that package.
pub open spec fn apps_with(
    apps: Seq<config::AppView>,
    pkg: Seq<char>,
    section: SectionView,
) -> Seq<config::AppView> {
    let i = config::app_index(apps, pkg);
    if i < apps.len() {
        apps.update(i, with_blocks(apps[i], section.1))
    } else {
        apps.push(with_blocks(fresh_app(pkg), section.1))
    }
}

fn read_block(app: &mut AppModel, block: &Block)
    ensures
        final(app)@ == with_block(old(app)@, (block.0@, item_views(block.1@))),
{
    let name = block.0.name.as_str();
    if text::same_text(name, "default") {
        app.default_policy = parse(&block.0, &block.1);
    } else if text::same_text(name, "cpus") {
        match head_text(&block.0) {
            Some(w) => {
                let mut direct = PolicyModel::default();
                direct.cpus = Some(w);
                config::override_policy(&mut app.default_policy, &direct);
            },
            None => {},
        }
    } else if text::same_text(name, "profile") {
        match head_text(&block.0) {
            Some(w) => {
                app.profile = Some(w);
            },
            None => {},
        }
    } else if text::same_text(name, "thread") {
        match head_text(&block.0) {
            Some(w) => {
                config::put_policy(&mut app.threads, w.as_str(), parse(&block.0, &block.1));
            },
            None => {},
        }
    } else if text::same_text(name, "thread-type") {
        match head_text(&block.0) {
            Some(w) => {
                config::put_policy(&mut app.thread_types, w.as_str(), parse(&block.0, &block.1));
            },
            None => {},
        }
    }
}

fn read_app(app: &mut AppModel, blocks: &Vec<Block>)
    ensures
        final(app)@ == with_blocks(old(app)@, block_views(blocks@)),
{
    let ghost all = block_views(blocks@);
    let mut i: usize = 0;
    proof {
        assert(all.take(0) =~= Seq::<BlockView>::empty());
    }
    while i < blocks.len()
        invariant
            0 <= i <= blocks@.len(),
            all == block_views(blocks@),
            app@ == with_blocks(old(app)@, all.take(i as int)),
        decreases blocks@.len() - i,
    {
        proof {
            assert(all.take(i + 1).drop_last() =~= all.take(i as int));
            assert(all.take(i + 1).last() == all[i as int]);
        }
        read_block(app, &blocks[i]);
        i += 1;
    }
    proof {
        assert(all.take(i as int) =~= all);
    }
}

fn put_app(model: &mut ConfigModel, pkg: &str, section: &Section)
    ensures
        config::app_views(final(model).apps@) == apps_with(
            config::app_views(old(model).apps@),
            pkg@,
            (section.0@, block_views(section.1@)),
        ),
{
    let i = model.find_app(pkg);
    let ghost before = config::app_views(model.apps@);
    if i < model.apps.len() {
        let mut app = model.apps.remove(i);
        read_app(&mut app, &section.1);
        model.apps.insert(i, app);
        proof {
            assert(config::app_views(model.apps@) =~= before.update(i as int, app@));
        }
    } else {
        let mut app = AppModel {
            pkg: pkg.to_owned(),
            profile: None,
            default_policy: PolicyModel::default(),
            threads: Vec::new(),
            thread_types: Vec::new(),
        };
        proof {
            assert(app@.threads =~= Seq::empty());
            assert(app@.thread_types =~= Seq::empty());
        }
        read_app(&mut app, &section.1);
        model.apps.push(app);
        proof {
            assert(config::app_views(model.apps@) =~= before.push(app@));
        }
    }
}

// ---------------------------------------------------------------------
// Daemon and engine
// ---------------------------------------------------------------------

/// The daemon settings with what one block states.
pub open spec fn daemon_with(d: config::DaemonView, block: BlockView) -> config::DaemonView {
    match first_entry(block.0).text {
        Some(w) => if block.0.name == "pid-file"@ {
            config::DaemonView { pid_file: w, ..d }
        } else if block.0.name == "ipc-socket"@ {
            config::DaemonView { ipc_socket: w, ..d }
        } else if block.0.name == "log-level"@ {
            config::DaemonView { log_level: w, ..d }
        } else {
            d
        },
        None => d,
    }
}

/// The daemon settings with what several blocks state.
pub open spec fn daemon_with_all(
    d: config::DaemonView,
    blocks: Seq<BlockView>,
) -> config::DaemonView
    decreases blocks.len(),
{
    if blocks.len() == 0 {
        d
    } else {
        daemon_with(daemon_with_all(d, blocks.drop_last()), blocks.last())
    }
}

/// Reads the blocks of a `daemon` node.
fn parse_daemon(blocks: &Vec<Block>, daemon: &mut DaemonConfig)
    ensures
        final(daemon)@ == daemon_with_all(old(daemon)@, block_views(blocks@)),
{
    let ghost all = block_views(blocks@);
    let mut i: usize = 0;
    proof {
        assert(all.take(0) =~= Seq::<BlockView>::empty());
    }
    while i < blocks.len()
        invariant
            0 <= i <= blocks@.len(),
            all == block_views(blocks@),
            daemon@ == daemon_with_all(old(daemon)@, all.take(i as int)),
        decreases blocks@.len() - i,
    {
        proof {
            assert(all.take(i + 1).drop_last() =~= all.take(i as int));
            assert(all.take(i + 1).last() == all[i as int]);
        }
        let name = blocks[i].0.name.as_str();
        match head_text(&blocks[i].0) {
            Some(w) => {
                if text::same_text(name, "pid-file") {
                    daemon.pid_file = w;
                } else if text::same_text(name, "ipc-socket") {
                    daemon.ipc_socket = w;
                } else if text::same_text(name, "log-level") {
                    daemon.log_level = w;
                }
            },
            None => {},
        }
        i += 1;
    }
    proof {
        assert(all.take(i as int) =~= all);
    }
}

/// The engine mode of that name.
pub open spec fn mode_named(s: Seq<char>) -> Option<EngineMode> {
    if s == "auto"@ {
        Some(EngineMode::Auto)
    } else if s == "ebpf"@ {
        Some(EngineMode::Ebpf)
    } else if s == "proc"@ {
        Some(EngineMode::Proc)
    } else if s == "hybrid"@ {
        Some(EngineMode::Hybrid)
    } else {
        None
    }
}

/// The action on migration of that name.
pub open spec fn migrate_named(s: Seq<char>) -> Option<MigrateAction> {
    if s == "observe"@ {
        Some(MigrateAction::Observe)
    } else if s == "suggest"@ {
        Some(MigrateAction::Suggest)
    } else if s == "force"@ {
        Some(MigrateAction::Force)
    } else {
        None
    }
}

/// The truth value of an entry, given as such or in words.
pub open spec fn truth_of(e: EntryView) -> Option<bool> {
    match e.flag {
        Some(b) => Some(b),
        None => match e.text {
            Some(w) => if w == "true"@ {
                Some(true)
            } else if w == "false"@ {
                Some(false)
            } else {
                None
            },
            None => None,
        },
    }
}

/// The engine settings with what one block states, or what is wrong with it.
/// A value of the wrong kind changes nothing, but a word that is no mode or
/// no action is an error. Intervals keep the low 64 bits of their number.
pub open spec fn engine_with(
    g: EngineConfig,
    block: BlockView,
) -> Result<EngineConfig, Seq<char>> {
    let e = first_entry(block.0);
    let name = block.0.name;
    if name == "mode"@ {
        match e.text {
            Some(w) => match mode_named(w) {
                Some(mode) => Ok(EngineConfig { mode, ..g }),
                None => Err("engine mode 无效: "@ + w),
            },
            None => Ok(g),
        }
    } else if name == "scan-interval"@ {
        match e.int {
            Some(v) => Ok(EngineConfig { scan_interval: v as u64, ..g }),
            None => Ok(g),
        }
    } else if name == "lock-interval"@ {
        match e.int {
            Some(v) => Ok(EngineConfig { lock_interval: v as u64, ..g }),
            None => Ok(g),
        }
    } else if name == "dead-cleanup-interval"@ {
        match e.int {
            Some(v) => Ok(EngineConfig { dead_cleanup_interval: v as u64, ..g }),
            None => Ok(g),
        }
    } else if name == "migrate-action"@ {
        match e.text {
            Some(w) => match migrate_named(w) {
                Some(migrate_action) => Ok(EngineConfig { migrate_action, ..g }),
                None => Err("migrate-action 无效: "@ + w),
            },
            None => Ok(g),
        }
    } else if name == "pressure-sensitive"@ {
        match truth_of(e) {
            Some(b) => Ok(EngineConfig { pressure_sensitive: b, ..g }),
            None => Ok(g),
        }
    } else {
        Ok(g)
    }
}

/// The engine settings with what several blocks state; the first error
/// counts.
pub open spec fn engine_with_all(
    g: EngineConfig,
    blocks: Seq<BlockView>,
) -> Result<EngineConfig, Seq<char>>
    decreases blocks.len(),
{
    if blocks.len() == 0 {
        Ok(g)
    } else {
        match engine_with_all(g, blocks.drop_last()) {
            Ok(h) => engine_with(h, blocks.last()),
            Err(m) => Err(m),
        }
    }
}

fn message(prefix: &str, word: &str) -> (r: String)
    ensures
        r@ == prefix@ + word@,
{
    let mut out = prefix.to_owned();
    out.append(word);
    out
}

fn read_mode(s: &str) -> (r: Option<EngineMode>)
    ensures
        r == mode_named(s@),
{
    if text::same_text(s, "auto") {
        Some(EngineMode::Auto)
    } else if text::same_text(s, "ebpf") {
        Some(EngineMode::Ebpf)
    } else if text::same_text(s, "proc") {
        Some(EngineMode::Proc)
    } else if text::same_text(s, "hybrid") {
        Some(EngineMode::Hybrid)
    } else {
        None
    }
}

fn read_migrate(s: &str) -> (r: Option<MigrateAction>)
    ensures
        r == migrate_named(s@),
{
    if text::same_text(s, "observe") {
        Some(MigrateAction::Observe)
    } else if text::same_text(s, "suggest") {
        Some(MigrateAction::Suggest)
    } else if text::same_text(s, "force") {
        Some(MigrateAction::Force)
    } else {
        None
    }
}

fn read_truth(item: &Item) -> (r: Option<bool>)
    ensures
        r == truth_of(first_entry(item@)),
{
    match head(item) {
        Some(e) => match e.flag {
            Some(b) => Some(b),
            None => match &e.text {
                Some(w) => if text::same_text(w.as_str(), "true") {
                    Some(true)
                } else if text::same_text(w.as_str(), "false") {
                    Some(false)
                } else {
                    None
                },
                None => None,
            },
        },
        None => None,
    }
}

fn read_engine_block(engine: EngineConfig, block: &Block) -> (r: Result<EngineConfig, String>)
    ensures
        match r {
            Ok(g) => engine_with(engine, (block.0@, item_views(block.1@))) == Ok::<
                EngineConfig,
                Seq<char>,
            >(g),
            Err(m) => engine_with(engine, (block.0@, item_views(block.1@))) == Err::<
                EngineConfig,
                Seq<char>,
            >(m@),
        },
{
    let mut g = engine;
    let name = block.0.name.as_str();
    let word = head_text(&block.0);
    let whole: Option<i128> = match head(&block.0) {
        Some(e) => e.int,
        None => None,
    };
    if text::same_text(name, "mode") {
        match word {
            Some(w) => match read_mode(w.as_str()) {
                Some(mode) => {
                    g.mode = mode;
                },
                None => {
                    return Err(message("engine mode 无效: ", w.as_str()));
                },
            },
            None => {},
        }
    } else if text::same_text(name, "scan-interval") {
        match whole {
            Some(v) => {
                g.scan_interval = #[verifier::truncate] (v as u64);
            },
            None => {},
        }
    } else if text::same_text(name, "lock-interval") {
        match whole {
            Some(v) => {
                g.lock_interval = #[verifier::truncate] (v as u64);
            },
            None => {},
        }
    } else if text::same_text(name, "dead-cleanup-interval") {
        match whole {
            Some(v) => {
                g.dead_cleanup_interval = #[verifier::truncate] (v as u64);
            },
            None => {},
        }
    } else if text::same_text(name, "migrate-action") {
        match word {
            Some(w) => match read_migrate(w.as_str()) {
                Some(action) => {
                    g.migrate_action = action;
                },
                None => {
                    return Err(message("migrate-action 无效: ", w.as_str()));
                },
            },
            None => {},
        }
    } else if text::same_text(name, "pressure-sensitive") {
        match read_truth(&block.0) {
            Some(b) => {
                g.pressure_sensitive = b;
            },
            None => {},
        }
    }
    Ok(g)
}

/// Reads the blocks of an `engine` node.
fn parse_engine(blocks: &Vec<Block>, engine: EngineConfig) -> (r: Result<EngineConfig, String>)
    ensures
        match r {
            Ok(g) => engine_with_all(engine, block_views(blocks@)) == Ok::<EngineConfig, Seq<char>>(
                g,
            ),
            Err(m) => engine_with_all(engine, block_views(blocks@)) == Err::<
                EngineConfig,
                Seq<char>,
            >(m@),
        },
{
    let ghost all = block_views(blocks@);
    let mut g = engine;
    let mut i: usize = 0;
    proof {
        assert(all.take(0) =~= Seq::<BlockView>::empty());
    }
    while i < blocks.len()
        invariant
            0 <= i <= blocks@.len(),
            all == block_views(blocks@),
            engine_with_all(engine, all.take(i as int)) == Ok::<EngineConfig, Seq<char>>(g),
        decreases blocks@.len() - i,
    {
        proof {
            assert(all.take(i + 1).drop_last() =~= all.take(i as int));
            assert(all.take(i + 1).last() == all[i as int]);
        }
        match read_engine_block(g, &blocks[i]) {
            Ok(h) => {
                g = h;
            },
            Err(m) => {
                proof {
                    lemma_engine_error(engine, all, i + 1);
                }
                return Err(m);
            },
        }
        i += 1;
    }
    proof {
        assert(all.take(i as int) =~= all);
    }
    Ok(g)
}

/// An error among the first blocks is the error of all blocks.
proof fn lemma_engine_error(g: EngineConfig, blocks: Seq<BlockView>, n: int)
    requires
        0 <= n <= blocks.len(),
        engine_with_all(g, blocks.take(n)) is Err,
    ensures
        engine_with_all(g, blocks) == engine_with_all(g, blocks.take(n)),
    decreases blocks.len(),
{
    if n == blocks.len() {
        assert(blocks.take(n) =~= blocks);
    } else {
        let front = blocks.drop_last();
        assert(front.take(n) =~= blocks.take(n));
        lemma_engine_error(g, front, n);
    }
}

// ---------------------------------------------------------------------
// Whole documents
// ---------------------------------------------------------------------

/// What a document states so far.
#[verifier::ext_equal]
pub struct StateView {
    pub apps: Seq<config::AppView>,
    pub daemon: config::DaemonView,
    pub engine: EngineConfig,
}

/// What an empty document states.
pub open spec fn initial_state() -> StateView {
    StateView {
        apps: Seq::empty(),
        daemon: config::default_daemon(),
        engine: config::default_engine(),
    }
}

/// The state with what one top-level node states, or what is wrong with it:
/// an `app` needs a package. Nodes of other names state nothing.
pub open spec fn state_with(st: StateView, section: SectionView) -> Result<StateView, Seq<char>> {
    if section.0.name == "app"@ {
        match first_entry(section.0).text {
            Some(pkg) => Ok(StateView { apps: apps_with(st.apps, pkg, section), ..st }),
            None => Err("app 节点需要包名字符串"@),
        }
    } else if section.0.name == "daemon"@ {
        Ok(StateView { daemon: daemon_with_all(st.daemon, section.1), ..st })
    } else if section.0.name == "engine"@ {
        match engine_with_all(st.engine, section.1) {
            Ok(engine) => Ok(StateView { engine, ..st }),
            Err(m) => Err(m),
        }
    } else {
        Ok(st)
    }
}

/// What a document states; the first error counts.
pub open spec fn document_state(sections: Seq<SectionView>) -> Result<StateView, Seq<char>>
    decreases sections.len(),
{
    if sections.len() == 0 {
        Ok(initial_state())
    } else {
        match document_state(sections.drop_last()) {
            Ok(st) => state_with(st, sections.last()),
            Err(m) => Err(m),
        }
    }
}

/// The message on a text that is no KDL document.
pub open spec fn syntax_error() -> Seq<char> {
    "KDL 语法错误: "@ + "Failed to parse KDL document"@
}

/// What the text of a configuration file states.
pub open spec fn text_state(input: Seq<char>) -> Result<StateView, Seq<char>> {
    match document_of(input) {
        Some(sections) => document_state(sections),
        None => Err(syntax_error()),
    }
}

/// Whether `r` is what `want` states.
pub open spec fn parsed_as(
    r: Result<(ConfigModel, DaemonConfig, EngineConfig), String>,
    want: Result<StateView, Seq<char>>,
) -> bool {
    match r {
        Ok((model, daemon, engine)) => want == Ok::<StateView, Seq<char>>(
            StateView { apps: config::app_views(model.apps@), daemon: daemon@, engine },
        ),
        Err(m) => want == Err::<StateView, Seq<char>>(m@),
    }
}

/// Reads the nodes of a document.
pub fn parse_document(
    sections: &Vec<Section>,
) -> (r: Result<(ConfigModel, DaemonConfig, EngineConfig), String>)
    ensures
        parsed_as(r, document_state(section_views(sections@))),
{
    let ghost all = section_views(sections@);
    let mut model = ConfigModel { apps: Vec::new() };
    let mut daemon = DaemonConfig::default();
    let mut engine = EngineConfig::default();
    let mut i: usize = 0;
    proof {
        assert(all.take(0) =~= Seq::<SectionView>::empty());
        assert(config::app_views(model.apps@) =~= Seq::<config::AppView>::empty());
    }
    while i < sections.len()
        invariant
            0 <= i <= sections@.len(),
            all == section_views(sections@),
            document_state(all.take(i as int)) == Ok::<StateView, Seq<char>>(
                StateView { apps: config::app_views(model.apps@), daemon: daemon@, engine },
            ),
        decreases sections@.len() - i,
    {
        let section = &sections[i];
        let ghost st = document_state(all.take(i as int));
        proof {
            assert(all.take(i + 1).drop_last() =~= all.take(i as int));
            assert(all.take(i + 1).last() == all[i as int]);
            assert(all[i as int] == (section.0@, block_views(section.1@)));
        }
        let name = section.0.name.as_str();
        if text::same_text(name, "app") {
            match head_text(&section.0) {
                Some(pkg) => {
                    put_app(&mut model, pkg.as_str(), section);
                },
                None => {
                    proof {
                        lemma_document_error(all, i + 1);
                    }
                    return Err("app 节点需要包名字符串".to_owned());
                },
            }
        } else if text::same_text(name, "daemon") {
            parse_daemon(&section.1, &mut daemon);
        } else if text::same_text(name, "engine") {
            match parse_engine(&section.1, engine) {
                Ok(g) => {
                    engine = g;
                },
                Err(m) => {
                    proof {
                        lemma_document_error(all, i + 1);
                    }
                    return Err(m);
                },
            }
        }
        i += 1;
    }
    proof {
        assert(all.take(i as int) =~= all);
    }
    Ok((model, daemon, engine))
}

/// An error among the first nodes is the error of the document.
proof fn lemma_document_error(sections: Seq<SectionView>, n: int)
    requires
        0 <= n <= sections.len(),
        document_state(sections.take(n)) is Err,
    ensures
        document_state(sections) == document_state(sections.take(n)),
    decreases sections.len(),
{
    if n == sections.len() {
        assert(sections.take(n) =~= sections);
    } else {
        let front = sections.drop_last();
        assert(front.take(n) =~= sections.take(n));
        lemma_document_error(front, n);
    }
}

/// Reads a configuration file.
pub fn parse_kdl(input: &str) -> (r: Result<(ConfigModel, DaemonConfig, EngineConfig), String>)
    ensures
        parsed_as(r, text_state(input@)),
{
    match read_document(input) {
        Ok(sections) => parse_document(&sections),
        Err(e) => {
            let words = error_text(&e);
            Err(message("KDL 语法错误: ", words.as_str()))
        },
    }
}

// ---------------------------------------------------------------------
// System
// ---------------------------------------------------------------------

/// What to tune, with what one block of a `system` node states. A value that
/// is no text changes nothing.
pub open spec fn tuning_with(t: TuningView, block: BlockView) -> TuningView {
    match first_entry(block.0).text {
        Some(w) => if block.0.name == "governor"@ {
            TuningView { governor: Some(w), ..t }
        } else if block.0.name == "io-scheduler"@ {
            TuningView { io_scheduler: Some(w), ..t }
        } else {
            t
        },
        None => t,
    }
}

/// What to tune, with what several blocks state; the last value counts.
pub open spec fn tuning_with_all(t: TuningView, blocks: Seq<BlockView>) -> TuningView
    decreases blocks.len(),
{
    if blocks.len() == 0 {
        t
    } else {
        tuning_with(tuning_with_all(t, blocks.drop_last()), blocks.last())
    }
}

/// What the `system` nodes of a document say to tune; other nodes say
/// nothing.
pub open spec fn document_tuning(sections: Seq<SectionView>) -> TuningView
    decreases sections.len(),
{
    if sections.len() == 0 {
        TuningView { governor: None, io_scheduler: None }
    } else {
        let before = document_tuning(sections.drop_last());
        if sections.last().0.name == "system"@ {
            tuning_with_all(before, sections.last().1)
        } else {
            before
        }
    }
}

fn read_tuning(tuning: &mut SystemTuning, blocks: &Vec<Block>)
    ensures
        final(tuning)@ == tuning_with_all(old(tuning)@, block_views(blocks@)),
{
    let ghost all = block_views(blocks@);
    let mut i: usize = 0;
    proof {
        assert(all.take(0) =~= Seq::<BlockView>::empty());
    }
    while i < blocks.len()
        invariant
            0 <= i <= blocks@.len(),
            all == block_views(blocks@),
            tuning@ == tuning_with_all(old(tuning)@, all.take(i as int)),
        decreases blocks@.len() - i,
    {
        proof {
            assert(all.take(i + 1).drop_last() =~= all.take(i as int));
            assert(all.take(i + 1).last() == all[i as int]);
        }
        let name = blocks[i].0.name.as_str();
        match head_text(&blocks[i].0) {
            Some(w) => {
                if text::same_text(name, "governor") {
                    tuning.governor = Some(w);
                } else if text::same_text(name, "io-scheduler") {
                    tuning.io_scheduler = Some(w);
                }
            },
            None => {},
        }
        i += 1;
    }
    proof {
        assert(all.take(i as int) =~= all);
    }
}

/// Reads what the nodes of a document say to tune.
pub fn system_of_document(sections: &Vec<Section>) -> (r: SystemTuning)
    ensures
        r@ == document_tuning(section_views(sections@)),
{
    let ghost all = section_views(sections@);
    let mut tuning = SystemTuning { governor: None, io_scheduler: None };
    let mut i: usize = 0;
    proof {
        assert(all.take(0) =~= Seq::<SectionView>::empty());
    }
    while i < sections.len()
        invariant
            0 <= i <= sections@.len(),
            all == section_views(sections@),
            tuning@ == document_tuning(all.take(i as int)),
        decreases sections@.len() - i,
    {
        proof {
            assert(all.take(i + 1).drop_last() =~= all.take(i as int));
            assert(all.take(i + 1).last() == all[i as int]);
        }
        if text::same_text(sections[i].0.name.as_str(), "system") {
            read_tuning(&mut tuning, &sections[i].1);
        }
        i += 1;
    }
    proof {
        assert(all.take(i as int) =~= all);
    }
    tuning
}

/// Reads what a configuration file says to tune.
pub fn parse_system(text: &str) -> (r: Result<SystemTuning, String>)
    ensures
        match r {
            Ok(t) => document_of(text@) matches Some(sections) && t@ == document_tuning(sections),
            Err(m) => document_of(text@) is None && m@ == syntax_error(),
        },
{
    match read_document(text) {
        Ok(sections) => Ok(system_of_document(&sections)),
        Err(e) => {
            let words = error_text(&e);
            Err(message("KDL 语法错误: ", words.as_str()))
        },
    }
}

} // verus!
