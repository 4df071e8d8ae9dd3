//! The control socket: requests, and the answers to them.
//!
//! A request is one line of text. Only the commands listed here are known;
//! every other line asks for the status.

use vstd::prelude::*;

use crate::audit::AuditSummary;
use crate::engine;
use crate::engine::RelockStats;
use crate::i18n;
use crate::observe;
use crate::observe::{SnapshotWindow, ThreadStats};
use crate::ruleset;
use crate::store::ConfigSnapshot;
use crate::text;
use crate::topology;
use crate::topology::CpuSet;
use crate::tracker;
use crate::tracker::StateTracker;

verus! {

/// Processes listed in a status.
pub const STATUS_ROWS: usize = 20;

/// What a client may ask for.
#[derive(Debug)]
pub enum IpcRequest {
    Status,
    /// What is known of a process.
    Dump(i32),
    /// Loads the configuration again.
    Reload,
    /// Applies all policies again.
    Apply(i32),
    /// The statistics of all threads, or of those of one process.
    Snapshot(Option<i32>),
    /// Writes a scene into the configuration.
    ApplyScene(String),
    /// Tunes the system: what, and to which value.
    Tune(String, String),
}

/// A request as plain values.
pub enum RequestView {
    Status,
    Dump(int),
    Reload,
    Apply(int),
    Snapshot(Option<int>),
    ApplyScene(Seq<char>),
    Tune(Seq<char>, Seq<char>),
}

impl View for IpcRequest {
    type V = RequestView;

    open spec fn view(&self) -> RequestView {
        match *self {
            IpcRequest::Status => RequestView::Status,
            IpcRequest::Dump(pid) => RequestView::Dump(pid as int),
            IpcRequest::Reload => RequestView::Reload,
            IpcRequest::Apply(pid) => RequestView::Apply(pid as int),
            IpcRequest::Snapshot(Some(pid)) => RequestView::Snapshot(Some(pid as int)),
            IpcRequest::Snapshot(None) => RequestView::Snapshot(None),
            IpcRequest::ApplyScene(name) => RequestView::ApplyScene(name@),
            IpcRequest::Tune(kind, value) => RequestView::Tune(kind@, value@),
        }
    }
}

// ---------------------------------------------------------------------
// Requests
// ---------------------------------------------------------------------

/// A word of a line, empty where there are fewer.
pub open spec fn word(words: Seq<Seq<char>>, n: int) -> Seq<char> {
    if n < words.len() {
        words[n]
    } else {
        Seq::empty()
    }
}

/// The request in a line.
pub open spec fn request(line: Seq<char>) -> RequestView {
    let words = text::words(line);
    let number = text::i32_of(word(words, 1));
    if words.len() == 0 {
        RequestView::Status
    } else if words[0] == "dump"@ {
        match number {
            Some(pid) => RequestView::Dump(pid),
            None => RequestView::Status,
        }
    } else if words[0] == "reload"@ {
        RequestView::Reload
    } else if words[0] == "apply"@ {
        match number {
            Some(pid) => RequestView::Apply(pid),
            None => RequestView::Status,
        }
    } else if words[0] == "snapshot"@ {
        RequestView::Snapshot(number)
    } else if words[0] == "apply-scene"@ {
        if words.len() > 1 {
            RequestView::ApplyScene(words[1])
        } else {
            RequestView::Status
        }
    } else if words[0] == "tune"@ {
        RequestView::Tune(word(words, 1), word(words, 2))
    } else {
        RequestView::Status
    }
}

/// A word of a line as a string.
fn word_string(words: &Vec<&[char]>, n: usize) -> (r: String)
    ensures
        r@ == word(text::texts(words@), n as int),
{
    if n < words.len() {
        assert(text::texts(words@)[n as int] == words@[n as int]@);
        text::string_of(words[n])
    } else {
        String::new()
    }
}

/// The number in a word of a line.
fn word_number(words: &Vec<&[char]>, n: usize) -> (r: Option<i32>)
    ensures
        match r {
            Some(v) => text::i32_of(word(text::texts(words@), n as int)) == Some(v as int),
            None => text::i32_of(word(text::texts(words@), n as int)) is None,
        },
{
    let s = word_string(words, n);
    let chars = text::chars_of(s.as_str());
    text::parse_i32(chars.as_slice())
}

/// The request in a line; a line that is no known command asks for the
/// status.
pub fn parse_request(line: &str) -> (r: IpcRequest)
    ensures
        r@ == request(line@),
{
    let chars = text::chars_of(line);
    let words = text::words_of(chars.as_slice());
    assert(text::texts(words@).len() == words@.len());
    if words.len() == 0 {
        return IpcRequest::Status;
    }
    assert(text::texts(words@)[0] == words@[0]@);
    let head = words[0];
    let number = word_number(&words, 1);
    if text::spells(head, "dump") {
        match number {
            Some(pid) => IpcRequest::Dump(pid),
            None => IpcRequest::Status,
        }
    } else if text::spells(head, "reload") {
        IpcRequest::Reload
    } else if text::spells(head, "apply") {
        match number {
            Some(pid) => IpcRequest::Apply(pid),
            None => IpcRequest::Status,
        }
    } else if text::spells(head, "snapshot") {
        IpcRequest::Snapshot(number)
    } else if text::spells(head, "apply-scene") {
        if words.len() > 1 {
            IpcRequest::ApplyScene(word_string(&words, 1))
        } else {
            IpcRequest::Status
        }
    } else if text::spells(head, "tune") {
        let kind = word_string(&words, 1);
        let value = word_string(&words, 2);
        IpcRequest::Tune(kind, value)
    } else {
        IpcRequest::Status
    }
}

/// Whether the first word of a line is a known command.
pub open spec fn known_command(w: Seq<char>) -> bool {
    ||| w == "status"@
    ||| w == "dump"@
    ||| w == "reload"@
    ||| w == "apply"@
    ||| w == "snapshot"@
    ||| w == "apply-scene"@
    ||| w == "tune"@
}

/// Whether a word is a command that a client may send.
pub fn is_command(w: &str) -> (r: bool)
    ensures
        r == known_command(w@),
{
    text::same_text(w, "status") || text::same_text(w, "dump") || text::same_text(w, "reload")
        || text::same_text(w, "apply") || text::same_text(w, "snapshot") || text::same_text(
        w,
        "apply-scene",
    ) || text::same_text(w, "tune")
}

/// A line that starts with no known command does nothing but ask for the
/// status.
pub proof fn law_unknown_lines_change_nothing(line: Seq<char>)
    requires
        text::words(line).len() == 0 || !known_command(text::words(line)[0]),
    ensures
        request(line) == RequestView::Status,
{
}

// ---------------------------------------------------------------------
// Status
// ---------------------------------------------------------------------

/// A line of an answer.
pub open spec fn line_of(s: Seq<char>) -> Seq<char> {
    s + "\n"@
}

/// All threads of the processes.
pub open spec fn thread_total(procs: Seq<tracker::ProcView>) -> nat
    decreases procs.len(),
{
    if procs.len() == 0 {
        0
    } else {
        thread_total(procs.drop_last()) + procs.last().tids.len()
    }
}

/// The row of a process in a status.
pub open spec fn process_row(pid: int, pkg: Seq<char>, threads: nat) -> Seq<char> {
    line_of(
        "  "@ + text::right_aligned(text::signed_decimal(pid), 7) + "  "@ + text::left_aligned(
            pkg,
            24,
        ) + " "@ + text::decimal(threads) + " threads"@,
    )
}

/// The rows of the first `n` processes.
pub open spec fn process_rows(procs: Seq<tracker::ProcView>, n: int) -> Seq<char>
    decreases n,
{
    if n <= 0 {
        Seq::empty()
    } else {
        process_rows(procs, n - 1) + process_row(
            procs[n - 1].pid as int,
            procs[n - 1].pkg,
            procs[n - 1].tids.len(),
        )
    }
}

/// The line of a status on the configuration.
pub open spec fn config_line(version: nat, pkgs: nat) -> Seq<char> {
    line_of("config       : v"@ + text::decimal(version) + " ("@ + text::decimal(pkgs) + " pkgs)"@)
}

/// The line of a status on what is tracked.
pub open spec fn tracked_line(procs: Seq<tracker::ProcView>) -> Seq<char> {
    line_of(
        "tracked      : "@ + text::decimal(procs.len()) + " processes / "@ + text::decimal(
            thread_total(procs),
        ) + " threads"@,
    )
}

/// The line of a status on what the kernel allowed.
pub open spec fn audit_line(a: AuditSummary) -> Seq<char> {
    line_of(
        "audit(60s)   : total="@ + text::decimal(a.total_attempts as nat) + " success="@
            + text::decimal(a.success as nat) + " cgroup_blocked="@ + text::decimal(
            a.blocked_by_cgroup as nat,
        ) + " downgraded="@ + text::decimal(a.downgraded as nat),
    )
}

/// The line of a status on repeated applications.
pub open spec fn relock_line(r: RelockStats) -> Seq<char> {
    line_of(
        "relock       : allow="@ + text::decimal(r.allow as nat) + " skip="@ + text::decimal(
            r.skip as nat,
        ) + " degrade="@ + text::decimal(r.degrade as nat),
    )
}

/// How many rows a status has.
pub open spec fn shown(procs: Seq<tracker::ProcView>) -> int {
    if procs.len() < STATUS_ROWS {
        procs.len() as int
    } else {
        STATUS_ROWS as int
    }
}

/// The status.
pub open spec fn status_text(
    version: Seq<char>,
    config: nat,
    pkgs: nat,
    procs: Seq<tracker::ProcView>,
    a: AuditSummary,
    r: RelockStats,
) -> Seq<char> {
    line_of("== threadctl status =="@) + line_of("version      : "@ + version) + config_line(
        config,
        pkgs,
    ) + tracked_line(procs) + process_rows(procs, shown(procs)) + audit_line(a) + relock_line(r)
}

/// Appends the row of a process.
fn push_process_row(out: &mut String, p: &engine::TrackedProcess)
    ensures
        final(out)@ == old(out)@ + process_row(p.pid as int, p.pkg@, p.threads as nat),
{
    let mut row = "  ".to_owned();
    text::push_right_aligned(&mut row, text::signed_string(p.pid as i64).as_str(), 7);
    row.append("  ");
    text::push_left_aligned(&mut row, p.pkg.as_str(), 24);
    row.append(" ");
    text::push_decimal(&mut row, p.threads as u64);
    row.append(" threads");
    row.append("\n");
    out.append(row.as_str());
}

/// The answer to a request for the status.
pub fn status_response(
    version: &str,
    cfg: &ConfigSnapshot,
    t: &StateTracker,
    a: &AuditSummary,
    r: &RelockStats,
) -> (out: String)
    requires
        cfg.rules.wf(),
        t.wf(),
    ensures
        out@ == status_text(
            version@,
            cfg.version as nat,
            ruleset::packages(cfg.rules@).len(),
            t@,
            *a,
            *r,
        ),
{
    let procs = engine::tracked_summary(t);
    let mut total: u128 = 0;
    let mut i: usize = 0;
    assert(t@.take(0) =~= Seq::<tracker::ProcView>::empty());
    while i < procs.len()
        invariant
            0 <= i <= procs@.len(),
            procs@.len() == t@.len(),
            forall|k: int|
                0 <= k < procs@.len() ==> (#[trigger] procs@[k]).threads == t@[k].tids.len(),
            total == thread_total(t@.take(i as int)),
            total <= i * 0xffff_ffff_ffff_ffff,
        decreases procs@.len() - i,
    {
        assert(t@.take(i + 1).drop_last() =~= t@.take(i as int));
        let n: usize = procs[i].threads;
        assert(i * 0xffff_ffff_ffff_ffff + 0xffff_ffff_ffff_ffff == (i + 1)
            * 0xffff_ffff_ffff_ffff);
        assert((i + 1) * 0xffff_ffff_ffff_ffff <= 0xffff_ffff_ffff_ffff * 0xffff_ffff_ffff_ffff)
            by (nonlinear_arith)
            requires
                i + 1 <= 0xffff_ffff_ffff_ffff,
        ;
        total = total + n as u128;
        i += 1;
    }
    assert(t@.take(i as int) =~= t@);
    let mut out = "== threadctl status ==".to_owned();
    out.append("\n");
    let mut line = "version      : ".to_owned();
    line.append(version);
    line.append("\n");
    out.append(line.as_str());
    let mut line = "config       : v".to_owned();
    text::push_decimal(&mut line, cfg.version);
    line.append(" (");
    let pkgs = cfg.rules.pkgs();
    assert(text::strings(pkgs@).len() == pkgs@.len());
    text::push_decimal(&mut line, pkgs.len() as u64);
    line.append(" pkgs)");
    line.append("\n");
    out.append(line.as_str());
    let mut line = "tracked      : ".to_owned();
    text::push_decimal(&mut line, procs.len() as u64);
    line.append(" processes / ");
    text::push_wide(&mut line, total);
    line.append(" threads");
    line.append("\n");
    out.append(line.as_str());
    let ghost head = out@;
    assert(head =~= line_of("== threadctl status =="@) + line_of("version      : "@ + version@)
        + config_line(cfg.version as nat, ruleset::packages(cfg.rules@).len()) + tracked_line(t@));
    assert(head + process_rows(t@, 0) =~= head);
    let mut k: usize = 0;
    while k < procs.len() && k < STATUS_ROWS
        invariant
            0 <= k <= procs@.len(),
            k <= STATUS_ROWS,
            procs@.len() == t@.len(),
            forall|j: int|
                0 <= j < procs@.len() ==> (#[trigger] procs@[j]).pid == t@[j].pid
                    && procs@[j].pkg@ == t@[j].pkg && procs@[j].threads == t@[j].tids.len(),
            out@ == head + process_rows(t@, k as int),
        decreases procs@.len() - k,
    {
        let ghost before = out@;
        push_process_row(&mut out, &procs[k]);
        assert(procs@[k as int].threads == t@[k as int].tids.len());
        assert(out@ =~= head + process_rows(t@, k + 1));
        k += 1;
    }
    let ghost body = out@;
    let mut line = "audit(60s)   : total=".to_owned();
    text::push_decimal(&mut line, a.total_attempts as u64);
    line.append(" success=");
    text::push_decimal(&mut line, a.success as u64);
    line.append(" cgroup_blocked=");
    text::push_decimal(&mut line, a.blocked_by_cgroup as u64);
    line.append(" downgraded=");
    text::push_decimal(&mut line, a.downgraded as u64);
    line.append("\n");
    out.append(line.as_str());
    let mut line = "relock       : allow=".to_owned();
    text::push_decimal(&mut line, r.allow);
    line.append(" skip=");
    text::push_decimal(&mut line, r.skip);
    line.append(" degrade=");
    text::push_decimal(&mut line, r.degrade);
    line.append("\n");
    out.append(line.as_str());
    assert(out@ =~= body + audit_line(*a) + relock_line(*r));
    out
}

// ---------------------------------------------------------------------
// Dump
// ---------------------------------------------------------------------

/// A word for a truth value.
pub open spec fn truth(b: bool) -> Seq<char> {
    if b {
        "true"@
    } else {
        "false"@
    }
}

/// What is known of a process.
pub open spec fn dump_text(
    pid: int,
    p: tracker::ProcView,
    allowed: Option<CpuSet>,
    cpuset: Option<Seq<char>>,
    alive: bool,
) -> Seq<char> {
    line_of("== pid "@ + text::signed_decimal(pid) + " ("@ + p.pkg + ") =="@) + line_of(
        "  applied_tids : "@ + text::decimal(p.tids.len()),
    ) + line_of(
        "  allowed_mask : "@ + match allowed {
            Some(m) => topology::range_text(m@),
            None => "<read failed>"@,
        },
    ) + line_of(
        "  cpuset       : "@ + match cpuset {
            Some(c) => c,
            None => "<none>"@,
        },
    ) + line_of("  alive        : "@ + truth(alive))
}

/// The answer on a process that is not followed.
pub open spec fn unknown_process(pid: int) -> Seq<char> {
    line_of("pid "@ + text::signed_decimal(pid) + " 不在跟踪列表（未配置或已退出）"@)
}

/// The answer to a request about a process.
pub open spec fn dump_answer(
    procs: Seq<tracker::ProcView>,
    pid: i32,
    allowed: Option<CpuSet>,
    cpuset: Option<Seq<char>>,
    alive: bool,
) -> Seq<char> {
    if tracker::tracks(procs, pid) {
        dump_text(
            pid as int,
            procs[tracker::proc_index(procs, pid)],
            allowed,
            cpuset,
            alive,
        )
    } else {
        unknown_process(pid as int)
    }
}

/// The answer to a request for what is known of a process, with what was
/// read of it.
pub fn dump_response(
    t: &StateTracker,
    pid: i32,
    allowed: &Option<CpuSet>,
    cpuset: &Option<String>,
    alive: bool,
) -> (out: String)
    ensures
        out@ == dump_answer(t@, pid, *allowed, text::opt_text(*cpuset), alive),
{
    broadcast use vstd::std_specs::hash::group_hash_axioms;

    let Some(p) = t.get(pid) else {
        let mut out = "pid ".to_owned();
        text::push_signed(&mut out, pid as i64);
        out.append(" 不在跟踪列表（未配置或已退出）");
        out.append("\n");
        return out;
    };
    let mut out = "== pid ".to_owned();
    text::push_signed(&mut out, pid as i64);
    out.append(" (");
    out.append(p.pkg.as_str());
    out.append(") ==");
    out.append("\n");
    let mut line = "  applied_tids : ".to_owned();
    text::push_decimal(&mut line, p.applied_tids.len() as u64);
    line.append("\n");
    out.append(line.as_str());
    let mut line = "  allowed_mask : ".to_owned();
    match allowed {
        Some(m) => {
            line.append(m.to_range_string().as_str());
        },
        None => {
            line.append("<read failed>");
        },
    }
    line.append("\n");
    out.append(line.as_str());
    let mut line = "  cpuset       : ".to_owned();
    match cpuset {
        Some(c) => {
            line.append(c.as_str());
        },
        None => {
            line.append("<none>");
        },
    }
    line.append("\n");
    out.append(line.as_str());
    let mut line = "  alive        : ".to_owned();
    line.append(
        if alive {
            "true"
        } else {
            "false"
        },
    );
    line.append("\n");
    out.append(line.as_str());
    out
}

// ---------------------------------------------------------------------
// Reload and apply
// ---------------------------------------------------------------------

/// A configuration that was loaded again.
#[derive(Debug, Clone, Copy, PartialEq, Eq, Structural)]
pub struct ReloadDone {
    pub version: u64,
    /// Threads that policies were applied to.
    pub threads: usize,
}

/// The answer to a request to load the configuration again.
pub open spec fn reload_text(r: Result<ReloadDone, Seq<char>>) -> Seq<char> {
    match r {
        Ok(d) => line_of("reload: 配置已重载 (version "@ + text::decimal(d.version as nat) + ")"@)
            + line_of("reload: applied "@ + text::decimal(d.threads as nat) + " threads"@),
        Err(e) => line_of("reload 失败: "@ + e),
    }
}

/// The answer to a request to load the configuration again.
pub fn reload_response(r: &Result<ReloadDone, String>) -> (out: String)
    ensures
        out@ == reload_text(
            match *r {
                Ok(d) => Ok(d),
                Err(e) => Err(e@),
            },
        ),
{
    match r {
        Ok(d) => {
            let mut out = "reload: 配置已重载 (version ".to_owned();
            text::push_decimal(&mut out, d.version);
            out.append(")");
            out.append("\n");
            let mut line = "reload: applied ".to_owned();
            text::push_decimal(&mut line, d.threads as u64);
            line.append(" threads");
            line.append("\n");
            out.append(line.as_str());
            out
        },
        Err(e) => {
            let mut out = "reload 失败: ".to_owned();
            out.append(e.as_str());
            out.append("\n");
            out
        },
    }
}

/// The answer to a request to apply the policies again.
pub open spec fn apply_text(pid: int, threads: nat) -> Seq<char> {
    line_of(
        "apply "@ + text::signed_decimal(pid) + ": 全量重应用完成 (applied "@ + text::decimal(
            threads,
        ) + " threads)（当前为全量，P8 支持单 pid）"@,
    )
}

/// The answer to a request to apply all policies again.
pub fn apply_response(pid: i32, threads: usize) -> (out: String)
    ensures
        out@ == apply_text(pid as int, threads as nat),
{
    let mut out = "apply ".to_owned();
    text::push_signed(&mut out, pid as i64);
    out.append(": 全量重应用完成 (applied ");
    text::push_decimal(&mut out, threads as u64);
    out.append(" threads)（当前为全量，P8 支持单 pid）");
    out.append("\n");
    out
}

// ---------------------------------------------------------------------
// Scenes
// ---------------------------------------------------------------------

/// How far the application of a scene got.
#[derive(Debug)]
pub enum SceneOutcome {
    /// The configuration cannot be read.
    ReadFailed { error: String },
    /// There is no such scene.
    Rejected { error: String },
    /// The configuration cannot be written.
    WriteFailed { error: String },
    /// The configuration was written but cannot be loaded.
    ReloadFailed { error: String },
    Applied { done: ReloadDone },
}

/// The answer to a request for a scene, in Chinese.
pub open spec fn scene_zh(name: Seq<char>, o: SceneOutcome) -> Seq<char> {
    match o {
        SceneOutcome::ReadFailed { error } => "场景失败: 读取配置失败 "@ + error@,
        SceneOutcome::Rejected { error } => "场景失败: "@ + error@,
        SceneOutcome::WriteFailed { error } => "场景失败: 写回配置失败 "@ + error@,
        SceneOutcome::ReloadFailed { error } => "场景写回成功但重载失败: "@ + error@,
        SceneOutcome::Applied { done } => "场景已应用: "@ + name + "（配置版本 "@ + text::decimal(
            done.version as nat,
        ) + "，重应用 "@ + text::decimal(done.threads as nat) + " 线程）"@,
    }
}

/// The answer to a request for a scene, in English.
pub open spec fn scene_en(name: Seq<char>, o: SceneOutcome) -> Seq<char> {
    match o {
        SceneOutcome::ReadFailed { error } => "apply-scene failed: cannot read config "@ + error@,
        SceneOutcome::Rejected { error } => "apply-scene failed: "@ + error@,
        SceneOutcome::WriteFailed { error } => "apply-scene failed: cannot write config "@ + error@,
        SceneOutcome::ReloadFailed { error } => "scene written but reload failed: "@ + error@,
        SceneOutcome::Applied { done } => "scene applied: "@ + name + " (config v"@ + text::decimal(
            done.version as nat,
        ) + ", re-applied "@ + text::decimal(done.threads as nat) + " threads)"@,
    }
}

/// A text with another behind it.
fn joined(a: &str, b: &str) -> (r: String)
    ensures
        r@ == a@ + b@,
{
    let mut out = a.to_owned();
    out.append(b);
    out
}

/// The answer to a request for a scene.
pub fn scene_response(is_zh: bool, name: &str, o: &SceneOutcome) -> (out: String)
    ensures
        out@ == line_of(
            if is_zh {
                scene_zh(name@, *o)
            } else {
                scene_en(name@, *o)
            },
        ),
{
    let mut out = match o {
        SceneOutcome::ReadFailed { error } => joined(
            i18n::t(
                is_zh,
                "场景失败: 读取配置失败 ",
                "apply-scene failed: cannot read config ",
            ),
            error.as_str(),
        ),
        SceneOutcome::Rejected { error } => joined(
            i18n::t(is_zh, "场景失败: ", "apply-scene failed: "),
            error.as_str(),
        ),
        SceneOutcome::WriteFailed { error } => joined(
            i18n::t(
                is_zh,
                "场景失败: 写回配置失败 ",
                "apply-scene failed: cannot write config ",
            ),
            error.as_str(),
        ),
        SceneOutcome::ReloadFailed { error } => joined(
            i18n::t(
                is_zh,
                "场景写回成功但重载失败: ",
                "scene written but reload failed: ",
            ),
            error.as_str(),
        ),
        SceneOutcome::Applied { done } => {
            let mut line = joined(i18n::t(is_zh, "场景已应用: ", "scene applied: "), name);
            line.append(i18n::t(is_zh, "（配置版本 ", " (config v"));
            text::push_decimal(&mut line, done.version);
            line.append(i18n::t(is_zh, "，重应用 ", ", re-applied "));
            text::push_decimal(&mut line, done.threads as u64);
            line.append(i18n::t(is_zh, " 线程）", " threads)"));
            line
        },
    };
    out.append("\n");
    out
}

// ---------------------------------------------------------------------
// Tuning
// ---------------------------------------------------------------------

/// What a tuning request is about.
#[derive(Debug, Clone, Copy, PartialEq, Eq, Structural)]
pub enum TuneTarget {
    Governor,
    IoScheduler,
}

/// What a tuning request is about, if it makes sense.
pub open spec fn target_of(kind: Seq<char>, value: Seq<char>) -> Option<TuneTarget> {
    if value.len() == 0 {
        None
    } else if kind == "governor"@ {
        Some(TuneTarget::Governor)
    } else if kind == "iosched"@ {
        Some(TuneTarget::IoScheduler)
    } else {
        None
    }
}

/// What a tuning request is about, if it makes sense.
pub fn tune_target(kind: &str, value: &str) -> (r: Option<TuneTarget>)
    ensures
        r == target_of(kind@, value@),
{
    if text::chars_of(value).len() == 0 {
        None
    } else if text::same_text(kind, "governor") {
        Some(TuneTarget::Governor)
    } else if text::same_text(kind, "iosched") {
        Some(TuneTarget::IoScheduler)
    } else {
        None
    }
}

/// What a tuned target is counted in.
pub open spec fn unit_of(target: TuneTarget) -> Seq<char> {
    match target {
        TuneTarget::Governor => " CPUs"@,
        TuneTarget::IoScheduler => " devices"@,
    }
}

/// How tuning ended: how much was tuned, or why nothing was.
pub open spec fn tune_detail(
    target: Option<TuneTarget>,
    result: Result<usize, String>,
) -> Result<Seq<char>, Seq<char>> {
    match target {
        Some(t) => match result {
            Ok(n) => Ok(text::decimal(n as nat) + unit_of(t)),
            Err(e) => Err(e@),
        },
        None => Err("tune 用法: tune governor <name> | tune iosched <name>"@),
    }
}

/// The answer to a tuning request.
pub open spec fn tune_text(
    is_zh: bool,
    kind: Seq<char>,
    value: Seq<char>,
    detail: Result<Seq<char>, Seq<char>>,
) -> Seq<char> {
    match detail {
        Ok(d) => if is_zh {
            "tune "@ + kind + " "@ + value + ": 已应用（"@ + d + "）"@
        } else {
            "tune "@ + kind + " "@ + value + ": applied ("@ + d + ")"@
        },
        Err(e) => if is_zh {
            "tune 失败: "@ + e
        } else {
            "tune failed: "@ + e
        },
    }
}

/// The answer to a tuning request, given how the tuning ended; a request
/// that makes no sense is answered with the usage.
pub fn tune_response(is_zh: bool, kind: &str, value: &str, result: &Result<usize, String>) -> (out:
    String)
    ensures
        out@ == line_of(
            tune_text(is_zh, kind@, value@, tune_detail(target_of(kind@, value@), *result)),
        ),
{
    let detail: Result<String, String> = match tune_target(kind, value) {
        Some(t) => match result {
            Ok(n) => {
                let mut d = text::decimal_string(*n as u64);
                d.append(
                    match t {
                        TuneTarget::Governor => " CPUs",
                        TuneTarget::IoScheduler => " devices",
                    },
                );
                Ok(d)
            },
            Err(e) => Err(e.clone()),
        },
        None => Err("tune 用法: tune governor <name> | tune iosched <name>".to_owned()),
    };
    let mut out = match &detail {
        Ok(d) => {
            let mut line = joined("tune ", kind);
            line.append(" ");
            line.append(value);
            line.append(i18n::t(is_zh, ": 已应用（", ": applied ("));
            line.append(d.as_str());
            line.append(i18n::t(is_zh, "）", ")"));
            line
        },
        Err(e) => joined(i18n::t(is_zh, "tune 失败: ", "tune failed: "), e.as_str()),
    };
    out.append("\n");
    out
}

// ---------------------------------------------------------------------
// Snapshots
// ---------------------------------------------------------------------

/// The columns of a row.
pub struct Columns {
    pub tid: Seq<char>,
    pub name: Seq<char>,
    pub affinity: Seq<char>,
    pub current: Seq<char>,
    pub average: Seq<char>,
    pub peak: Seq<char>,
    pub moves: Seq<char>,
    pub changes: Seq<char>,
    pub primary: Seq<char>,
}

/// A row of the statistics.
pub open spec fn stats_row(c: Columns) -> Seq<char> {
    line_of(
        text::right_aligned(c.tid, 8) + "  "@ + text::left_aligned(c.name, 20) + " "@
            + text::right_aligned(c.affinity, 8) + " "@ + text::right_aligned(c.current, 4) + " "@
            + text::right_aligned(c.average, 5) + " "@ + text::right_aligned(c.peak, 4) + " "@
            + text::right_aligned(c.moves, 6) + " "@ + text::right_aligned(c.changes, 6) + "  "@
            + c.primary,
    )
}

/// The headings of the columns.
pub open spec fn headings() -> Columns {
    Columns {
        tid: "tid"@,
        name: "name"@,
        affinity: "affinity"@,
        current: "cur"@,
        average: "avg%"@,
        peak: "max%"@,
        moves: "migr"@,
        changes: "affChg"@,
        primary: "primary"@,
    }
}

/// A CPU, or a dash.
pub open spec fn cpu_or_dash(cpu: Option<u32>) -> Seq<char> {
    match cpu {
        Some(c) => text::decimal(c as nat),
        None => "-"@,
    }
}

/// The first characters of a name.
pub open spec fn short_name(name: Seq<char>) -> Seq<char> {
    if name.len() <= 20 {
        name
    } else {
        name.take(20)
    }
}

/// The columns of a thread.
pub open spec fn columns(r: observe::RecordView) -> Columns {
    Columns {
        tid: text::signed_decimal(r.stats.tid as int),
        name: short_name(r.stats.name),
        affinity: r.recent.last().affinity,
        current: cpu_or_dash(r.recent.last().cpu),
        average: text::decimal(r.stats.avg as nat),
        peak: text::decimal(r.stats.max as nat),
        moves: text::decimal(r.stats.migrations as nat),
        changes: text::decimal(r.stats.affinity_changes as nat),
        primary: cpu_or_dash(r.stats.primary),
    }
}

/// Whether a thread is asked for: it belongs to the process, if one is named.
pub open spec fn asked(procs: Seq<tracker::ProcView>, filter: Option<i32>, tid: i32) -> bool {
    match filter {
        Some(pid) => tracker::tracks(procs, pid) && procs[tracker::proc_index(
            procs,
            pid,
        )].tids.contains(tid),
        None => true,
    }
}

/// Whether a list holds the threads of the records, by ascending number.
pub open spec fn in_order(tids: Seq<i32>, rs: Seq<observe::RecordView>) -> bool {
    &&& forall|i: int, j: int| 0 <= i < j < tids.len() ==> (#[trigger] tids[i]) < (#[trigger] tids[j])
    &&& forall|tid: i32| #[trigger] tids.contains(tid) <==> observe::index_of(rs, tid) < rs.len()
}

/// The rows of the first `n` threads that are asked for.
pub open spec fn stats_rows(
    rs: Seq<observe::RecordView>,
    procs: Seq<tracker::ProcView>,
    filter: Option<i32>,
    tids: Seq<i32>,
    n: int,
) -> Seq<char>
    decreases n,
{
    if n <= 0 {
        Seq::empty()
    } else {
        let before = stats_rows(rs, procs, filter, tids, n - 1);
        if asked(procs, filter, tids[n - 1]) {
            before + stats_row(columns(rs[observe::index_of(rs, tids[n - 1])]))
        } else {
            before
        }
    }
}

/// The statistics of the threads that are asked for.
pub open spec fn snapshot_text(
    rs: Seq<observe::RecordView>,
    procs: Seq<tracker::ProcView>,
    filter: Option<i32>,
    tids: Seq<i32>,
) -> Seq<char> {
    line_of("== threadctl snapshot (窗口统计) =="@) + stats_row(headings()) + stats_rows(
        rs,
        procs,
        filter,
        tids,
        tids.len() as int,
    )
}

/// The texts of a row's columns.
struct ColumnTexts {
    tid: String,
    name: String,
    affinity: String,
    current: String,
    average: String,
    peak: String,
    moves: String,
    changes: String,
    primary: String,
}

impl ColumnTexts {
    spec fn view(&self) -> Columns {
        Columns {
            tid: self.tid@,
            name: self.name@,
            affinity: self.affinity@,
            current: self.current@,
            average: self.average@,
            peak: self.peak@,
            moves: self.moves@,
            changes: self.changes@,
            primary: self.primary@,
        }
    }

    /// The row with these columns.
    fn row(&self) -> (r: String)
        ensures
            r@ == stats_row(self@),
    {
        let mut out = String::new();
        text::push_right_aligned(&mut out, self.tid.as_str(), 8);
        out.append("  ");
        text::push_left_aligned(&mut out, self.name.as_str(), 20);
        out.append(" ");
        text::push_right_aligned(&mut out, self.affinity.as_str(), 8);
        out.append(" ");
        text::push_right_aligned(&mut out, self.current.as_str(), 4);
        out.append(" ");
        text::push_right_aligned(&mut out, self.average.as_str(), 5);
        out.append(" ");
        text::push_right_aligned(&mut out, self.peak.as_str(), 4);
        out.append(" ");
        text::push_right_aligned(&mut out, self.moves.as_str(), 6);
        out.append(" ");
        text::push_right_aligned(&mut out, self.changes.as_str(), 6);
        out.append("  ");
        out.append(self.primary.as_str());
        out.append("\n");
        assert(out@ =~= stats_row(self@));
        out
    }
}

/// A CPU, or a dash.
fn cpu_text(cpu: Option<u32>) -> (r: String)
    ensures
        r@ == cpu_or_dash(cpu),
{
    match cpu {
        Some(c) => text::decimal_string(c as u64),
        None => "-".to_owned(),
    }
}

/// Whether a thread is asked for.
fn is_asked(t: &StateTracker, filter: Option<i32>, tid: i32) -> (r: bool)
    ensures
        r == asked(t@, filter, tid),
{
    broadcast use vstd::std_specs::hash::group_hash_axioms;

    match filter {
        Some(pid) => match t.get(pid) {
            Some(p) => p.applied_tids.contains(&tid),
            None => false,
        },
        None => true,
    }
}

/// The row of a thread.
fn thread_row(window: &SnapshotWindow, st: &ThreadStats) -> (r: String)
    requires
        window.wf(),
        observe::index_of(window.records(), st.tid) < window.records().len(),
        st@ == window.records()[observe::index_of(window.records(), st.tid)].stats,
    ensures
        r@ == stats_row(
            columns(window.records()[observe::index_of(window.records(), st.tid)]),
        ),
{
    let ghost record = window.records()[observe::index_of(window.records(), st.tid)];
    let (affinity, cpu): (String, Option<u32>) = match window.recent_sample(st.tid) {
        Some(s) => (s.affinity.clone(), s.cpu),
        None => (String::new(), None),
    };
    let cells = ColumnTexts {
        tid: text::signed_string(st.tid as i64),
        name: text::first_chars(st.name.as_str(), 20),
        affinity,
        current: cpu_text(cpu),
        average: text::decimal_string(st.avg_load_pct),
        peak: text::decimal_string(st.max_load_pct as u64),
        moves: text::decimal_string(st.migrations),
        changes: text::decimal_string(st.affinity_changes),
        primary: cpu_text(st.primary_cpu),
    };
    assert(cells@ == columns(record));
    cells.row()
}

/// The answer to a request for the statistics of all threads, or of those
/// of one process.
pub fn snapshot_response(window: &SnapshotWindow, t: &StateTracker, filter: Option<i32>) -> (out:
    String)
    requires
        window.wf(),
    ensures
        exists|tids: Seq<i32>|
            #[trigger] in_order(tids, window.records()) && out@ == snapshot_text(
                window.records(),
                t@,
                filter,
                tids,
            ),
{
    let mut out = "== threadctl snapshot (窗口统计) ==".to_owned();
    out.append("\n");
    let head = ColumnTexts {
        tid: "tid".to_owned(),
        name: "name".to_owned(),
        affinity: "affinity".to_owned(),
        current: "cur".to_owned(),
        average: "avg%".to_owned(),
        peak: "max%".to_owned(),
        moves: "migr".to_owned(),
        changes: "affChg".to_owned(),
        primary: "primary".to_owned(),
    };
    assert(head@ == headings());
    out.append(head.row().as_str());
    let ghost start = out@;
    let stats = window.stats();
    let ghost rs = window.records();
    let ghost tids = Seq::new(stats@.len(), |i: int| stats@[i].tid);
    proof {
        observe::law_listing_is_complete(rs, stats@);
    }
    assert(in_order(tids, rs)) by {
        assert forall|tid: i32| #[trigger] tids.contains(tid) <==> observe::index_of(rs, tid)
            < rs.len() by {
            if tids.contains(tid) {
                let k = choose|k: int| 0 <= k < tids.len() && tids[k] == tid;
                assert(stats@[k].tid == tid);
            }
            if observe::index_of(rs, tid) < rs.len() {
                let k = choose|k: int| 0 <= k < stats@.len() && (#[trigger] stats@[k]).tid == tid;
                assert(tids[k] == tid);
            }
        }
    }
    assert(start + stats_rows(rs, t@, filter, tids, 0) =~= start);
    let mut i: usize = 0;
    while i < stats.len()
        invariant
            0 <= i <= stats@.len(),
            window.wf(),
            rs == window.records(),
            tids == Seq::new(stats@.len(), |k: int| stats@[k].tid),
            forall|k: int|
                0 <= k < stats@.len() ==> observe::index_of(rs, (#[trigger] stats@[k]).tid)
                    < rs.len() && stats@[k]@ == rs[observe::index_of(rs, stats@[k].tid)].stats,
            out@ == start + stats_rows(rs, t@, filter, tids, i as int),
        decreases stats@.len() - i,
    {
        let st = stats[i];
        assert(tids[i as int] == st.tid);
        let ghost before = out@;
        if is_asked(t, filter, st.tid) {
            let row = thread_row(window, st);
            out.append(row.as_str());
            assert(out@ =~= start + stats_rows(rs, t@, filter, tids, i + 1));
        }
        i += 1;
    }
    assert(out@ =~= snapshot_text(rs, t@, filter, tids));
    out
}

} // verus!
