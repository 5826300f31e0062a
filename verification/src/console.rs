//! What the commands print, with what code they end, and what they start.
use crate::deletion::IndexSource;
use crate::git_audit::GitAudit;
use crate::model;
use crate::model::Snapshot;
use crate::plan;
use crate::plan::{Alert, Level, Plan, Target};
use crate::platform;
use crate::platform::VolumeInfo;
use crate::report;
use crate::text;
use crate::tree;
use vstd::prelude::*;
use vstd::string::*;

verus! {

/// One volume in the overview.
pub open spec fn volume_line(v: VolumeInfo) -> Seq<char> {
    v.root@ + "  "@ + text::left_aligned(v.filesystem@, 6) + "  total="@ + report::human_text(
        v.total_bytes as int,
    ) + " free="@ + report::human_text(v.free_bytes as int) + " cluster="@ + text::decimal_of(
        v.cluster_bytes as nat,
    ) + "  raw="@ + v.device@ + "\n"@
}

pub open spec fn volume_lines(v: Seq<VolumeInfo>, n: nat) -> Seq<char>
    decreases n,
{
    if n == 0 {
        Seq::empty()
    } else {
        volume_lines(v, (n - 1) as nat) + volume_line(v[n - 1])
    }
}

/// The overview of the machine.
pub open spec fn doctor_of(
    version: Seq<char>,
    administrator: bool,
    cwd: Seq<char>,
    volumes: Seq<VolumeInfo>,
) -> Seq<char> {
    "disk-cleaner "@ + version + " | administrator="@ + text::yes_no(administrator) + " | cwd="@
        + cwd + "\n"@ + volume_lines(volumes, volumes.len())
        + "elevation: raw NTFS/ReFS scans need administrator rights; pass --elevate for one UAC prompt. fs enumeration stays unprivileged.\n"@
        + "rm is STAGE ONLY. No headless/--yes/force-delete command exists.\n"@
}

fn add_volume(out: &mut String, v: &VolumeInfo)
    ensures
        final(out)@ == old(out)@ + volume_line(*v),
{
    let mut line: String = v.root.clone();
    line.append("  ");
    line.append(&text::align_left(&v.filesystem, 6));
    line.append("  total=");
    line.append(&report::human(v.total_bytes));
    line.append(" free=");
    line.append(&report::human(v.free_bytes));
    line.append(" cluster=");
    line.append(&text::decimal(v.cluster_bytes as u64));
    line.append("  raw=");
    line.append(&v.device);
    line.append("\n");
    out.append(&line);
}

/// The overview of the machine.
pub fn doctor_text(version: &str, administrator: bool, cwd: &str, volumes: &Vec<VolumeInfo>) -> (r:
    String)
    ensures
        r@ == doctor_of(version@, administrator, cwd@, volumes@),
{
    let mut out: String = "disk-cleaner ".to_owned();
    out.append(version);
    out.append(" | administrator=");
    out.append(text::word(administrator));
    out.append(" | cwd=");
    out.append(cwd);
    out.append("\n");
    let ghost head = out@;
    let mut i: usize = 0;
    assert(head + Seq::<char>::empty() =~= head);
    while i < volumes.len()
        invariant
            i <= volumes@.len(),
            out@ == head + volume_lines(volumes@, i as nat),
        decreases volumes@.len() - i,
    {
        add_volume(&mut out, &volumes[i]);
        i += 1;
        assert(out@ =~= head + volume_lines(volumes@, i as nat));
    }
    out.append(
        "elevation: raw NTFS/ReFS scans need administrator rights; pass --elevate for one UAC prompt. fs enumeration stays unprivileged.\n",
    );
    out.append("rm is STAGE ONLY. No headless/--yes/force-delete command exists.\n");
    out
}

/// The first `n` texts, each on a line of its own behind a word.
pub open spec fn marked_lines(mark: Seq<char>, v: Seq<Seq<char>>, n: nat) -> Seq<char>
    decreases n,
{
    if n == 0 {
        Seq::empty()
    } else {
        marked_lines(mark, v, (n - 1) as nat) + mark + report::safe_of(v[n - 1]) + "\n"@
    }
}

fn add_marked(out: &mut String, mark: &str, v: &Vec<String>)
    ensures
        final(out)@ == old(out)@ + marked_lines(mark@, text::views(v@), v@.len()),
{
    let ghost had = out@;
    let ghost all = text::views(v@);
    let mut i: usize = 0;
    assert(had + Seq::<char>::empty() =~= had);
    while i < v.len()
        invariant
            i <= v@.len(),
            all == text::views(v@),
            out@ == had + marked_lines(mark@, all, i as nat),
        decreases v@.len() - i,
    {
        assert(all[i as int] == v@[i as int]@);
        out.append(mark);
        out.append(&report::safe_text(&v[i]));
        out.append("\n");
        i += 1;
        assert(out@ =~= had + marked_lines(mark@, all, i as nat));
    }
}

/// What is known of a repository, or that there is none.
pub open spec fn git_of(audit: Option<GitAudit>) -> Seq<char> {
    match audit {
        None => "not a Git repository\n"@,
        Some(a) => a.root@ + "\n"@ + a.line() + "\ntracked_history_covered="@ + text::yes_no(
            a.tracked_history_covered,
        ) + "  all_content_synced="@ + text::yes_no(a.all_content_synced) + "\n"@ + marked_lines(
            "RISK: "@,
            text::views(a.risks@),
            a.risks@.len(),
        ) + marked_lines("LOCAL REF: "@, text::views(a.local_only_refs@), a.local_only_refs@.len()),
    }
}

/// What is known of a repository, or that there is none.
pub fn git_text(audit: &Option<GitAudit>) -> (r: String)
    ensures
        r@ == git_of(*audit),
{
    match audit {
        None => "not a Git repository\n".to_owned(),
        Some(a) => {
            let mut out: String = a.root.clone();
            out.append("\n");
            out.append(&a.concise());
            out.append("\ntracked_history_covered=");
            out.append(text::word(a.tracked_history_covered));
            out.append("  all_content_synced=");
            out.append(text::word(a.all_content_synced));
            out.append("\n");
            add_marked(&mut out, "RISK: ", &a.risks);
            add_marked(&mut out, "LOCAL REF: ", &a.local_only_refs);
            out
        },
    }
}

/// The notes of a target in their own order.
pub open spec fn note_lines(alerts: Seq<Alert>, n: nat) -> Seq<char>
    decreases n,
{
    if n == 0 {
        Seq::empty()
    } else {
        note_lines(alerts, (n - 1) as nat) + "  "@ + alerts[n - 1].level.word() + ": "@
            + report::safe_of(alerts[n - 1].text@) + "\n"@
    }
}

fn add_notes(out: &mut String, alerts: &Vec<Alert>)
    ensures
        final(out)@ == old(out)@ + note_lines(alerts@, alerts@.len()),
{
    let ghost had = out@;
    let mut i: usize = 0;
    assert(had + Seq::<char>::empty() =~= had);
    while i < alerts.len()
        invariant
            i <= alerts@.len(),
            out@ == had + note_lines(alerts@, i as nat),
        decreases alerts@.len() - i,
    {
        out.append("  ");
        out.append(alerts[i].level.label());
        out.append(": ");
        out.append(&report::safe_text(&alerts[i].text));
        out.append("\n");
        i += 1;
        assert(out@ =~= had + note_lines(alerts@, i as nat));
    }
}

/// The line of a target's repository, if it lies in one.
pub open spec fn repository_line(git: Option<GitAudit>) -> Seq<char> {
    match git {
        Some(g) => "  "@ + g.line() + "\n"@,
        None => Seq::empty(),
    }
}

fn add_repository(out: &mut String, git: &Option<GitAudit>)
    ensures
        final(out)@ == old(out)@ + repository_line(*git),
{
    let ghost had = out@;
    match git {
        Some(g) => {
            out.append("  ");
            out.append(&g.concise());
            out.append("\n");
        },
        None => {},
    }
    assert(out@ =~= had + repository_line(*git));
}

/// A target that was just marked.
pub open spec fn staged_lines(t: Target) -> Seq<char> {
    "STAGED (NOT DELETED): "@ + report::safe_of(platform::shown(t.path.words())) + " | "@
        + report::human_text(t.summary.allocated_bytes as int) + " | reason="@ + report::safe_of(
        t.reason@,
    ) + "\n"@ + note_lines(t.alerts@, t.alerts@.len()) + repository_line(t.git)
}

pub open spec fn staged_all(targets: Seq<Target>, n: nat) -> Seq<char>
    decreases n,
{
    if n == 0 {
        Seq::empty()
    } else {
        staged_all(targets, (n - 1) as nat) + staged_lines(targets[n - 1])
    }
}

/// What marking tells: every target, where they are marked, and how many notes they got.
pub open spec fn staged_of(targets: Seq<Target>, plan: Seq<char>, notes: nat) -> Seq<char> {
    staged_all(targets, targets.len()) + text::decimal_of(targets.len()) + " target(s) marked in "@
        + plan + ". No files were deleted. Use show-rm for human review.\n"@ + (if notes > 0 {
        text::decimal_of(notes)
            + " note(s) attached to this batch; show-rm highlights them in the tree and in --text/--json.\n"@
    } else {
        Seq::empty()
    })
}

fn add_staged(out: &mut String, t: &Target)
    ensures
        final(out)@ == old(out)@ + staged_lines(*t),
{
    let mut line: String = "STAGED (NOT DELETED): ".to_owned();
    line.append(&report::safe_text(&platform::display_path(&t.path.to_text())));
    line.append(" | ");
    line.append(&report::human(t.summary.allocated_bytes));
    line.append(" | reason=");
    line.append(&report::safe_text(&t.reason));
    line.append("\n");
    add_notes(&mut line, &t.alerts);
    add_repository(&mut line, &t.git);
    out.append(&line);
}

/// What marking tells.
pub fn staged_text(targets: &Vec<Target>, plan: &str, notes: usize) -> (r: String)
    ensures
        r@ == staged_of(targets@, plan@, notes as nat),
{
    let mut out: String = String::new();
    let mut i: usize = 0;
    while i < targets.len()
        invariant
            i <= targets@.len(),
            out@ == staged_all(targets@, i as nat),
        decreases targets@.len() - i,
    {
        add_staged(&mut out, &targets[i]);
        i += 1;
    }
    out.append(&text::decimal(targets.len() as u64));
    out.append(" target(s) marked in ");
    out.append(plan);
    out.append(". No files were deleted. Use show-rm for human review.\n");
    if notes > 0 {
        out.append(&text::decimal(notes as u64));
        out.append(
            " note(s) attached to this batch; show-rm highlights them in the tree and in --text/--json.\n",
        );
    }
    assert(out@ =~= staged_of(targets@, plan@, notes as nat));
    out
}

/// What cancelling marks tells.
pub fn cancelled_text(n: usize) -> (r: String)
    ensures
        r@ == "Cancelled "@ + text::decimal_of(n as nat)
            + " mark(s). No content was deleted or restored.\n"@,
{
    let mut out: String = "Cancelled ".to_owned();
    out.append(&text::decimal(n as u64));
    out.append(" mark(s). No content was deleted or restored.\n");
    out
}

/// How many of the first `n` targets have this greatest weight.
pub open spec fn of_weight(targets: Seq<Target>, level: Level, n: nat) -> nat
    decreases n,
{
    if n == 0 {
        0
    } else {
        of_weight(targets, level, (n - 1) as nat) + (if plan::worst(targets[n - 1].alerts@) == Some(
            level,
        ) {
            1nat
        } else {
            0nat
        })
    }
}

/// The notes of one weight.
pub open spec fn level_lines(alerts: Seq<Alert>, level: Level, n: nat) -> Seq<char>
    decreases n,
{
    if n == 0 {
        Seq::empty()
    } else if alerts[n - 1].level == level {
        level_lines(alerts, level, (n - 1) as nat) + "    "@ + level.word() + ": "@
            + report::safe_of(alerts[n - 1].text@) + "\n"@
    } else {
        level_lines(alerts, level, (n - 1) as nat)
    }
}

/// What draws attention to a target.
pub open spec fn weight_mark(level: Option<Level>) -> Seq<char> {
    match level {
        Some(Level::Critical) => "!! "@,
        Some(Level::Warn) => "!  "@,
        None => "   "@,
    }
}

/// A pending target; the heaviest notes come first.
pub open spec fn pending_lines(t: Target) -> Seq<char> {
    weight_mark(plan::worst(t.alerts@)) + report::human_text(t.summary.allocated_bytes as int)
        + "  "@ + report::safe_of(platform::shown(t.path.words())) + "  files="@ + text::decimal_of(
        t.summary.files as nat,
    ) + "  reason="@ + report::safe_of(t.reason@) + "\n"@ + level_lines(
        t.alerts@,
        Level::Critical,
        t.alerts@.len(),
    ) + level_lines(t.alerts@, Level::Warn, t.alerts@.len()) + repository_line(t.git)
}

pub open spec fn pending_all(targets: Seq<Target>, n: nat) -> Seq<char>
    decreases n,
{
    if n == 0 {
        Seq::empty()
    } else {
        pending_all(targets, (n - 1) as nat) + pending_lines(targets[n - 1])
    }
}

/// Everything that is marked, as text.
pub open spec fn pending_of(path: Seq<char>, revision: u128, targets: Seq<Target>) -> Seq<char> {
    let critical = of_weight(targets, Level::Critical, targets.len());
    let warned = of_weight(targets, Level::Warn, targets.len());
    "PENDING ONLY | "@ + path + " | revision="@ + plan::hyphenated(revision)
        + " | notes: "@ + text::decimal_of(critical) + " critical, "@ + text::decimal_of(warned) + " warn\n"@ + pending_all(targets, targets.len())
        + text::decimal_of(targets.len()) + " targets. This text view cannot delete anything.\n"@
        + (if critical + warned > 0 {
        "Notes are the agent's own words: they prove nothing and never replace the marked reason. Resolve them with the user before deleting.\n"@
    } else {
        Seq::empty()
    })
}

fn add_level(out: &mut String, alerts: &Vec<Alert>, level: Level)
    ensures
        final(out)@ == old(out)@ + level_lines(alerts@, level, alerts@.len()),
{
    let ghost had = out@;
    let mut i: usize = 0;
    assert(had + Seq::<char>::empty() =~= had);
    while i < alerts.len()
        invariant
            i <= alerts@.len(),
            out@ == had + level_lines(alerts@, level, i as nat),
        decreases alerts@.len() - i,
    {
        if alerts[i].level == level {
            out.append("    ");
            out.append(level.label());
            out.append(": ");
            out.append(&report::safe_text(&alerts[i].text));
            out.append("\n");
        }
        i += 1;
        assert(out@ =~= had + level_lines(alerts@, level, i as nat));
    }
}

fn add_pending(out: &mut String, t: &Target)
    ensures
        final(out)@ == old(out)@ + pending_lines(*t),
{
    let mut line: String = match t.severity() {
        Some(Level::Critical) => "!! ".to_owned(),
        Some(Level::Warn) => "!  ".to_owned(),
        None => "   ".to_owned(),
    };
    line.append(&report::human(t.summary.allocated_bytes));
    line.append("  ");
    line.append(&report::safe_text(&platform::display_path(&t.path.to_text())));
    line.append("  files=");
    line.append(&text::decimal(t.summary.files));
    line.append("  reason=");
    line.append(&report::safe_text(&t.reason));
    line.append("\n");
    add_level(&mut line, &t.alerts, Level::Critical);
    add_level(&mut line, &t.alerts, Level::Warn);
    add_repository(&mut line, &t.git);
    out.append(&line);
}

proof fn lemma_weights_fit(targets: Seq<Target>, n: nat)
    requires
        n <= targets.len(),
    ensures
        of_weight(targets, Level::Critical, n) + of_weight(targets, Level::Warn, n) <= n,
    decreases n,
{
    if n > 0 {
        lemma_weights_fit(targets, (n - 1) as nat);
    }
}

fn weights(targets: &Vec<Target>) -> (r: (usize, usize))
    ensures
        r.0 == of_weight(targets@, Level::Critical, targets@.len()),
        r.1 == of_weight(targets@, Level::Warn, targets@.len()),
        r.0 + r.1 <= targets@.len(),
{
    let total: usize = targets.len();
    let mut critical: usize = 0;
    let mut warned: usize = 0;
    let mut i: usize = 0;
    while i < total
        invariant
            i <= total == targets@.len(),
            critical == of_weight(targets@, Level::Critical, i as nat),
            warned == of_weight(targets@, Level::Warn, i as nat),
            critical + warned <= i,
        decreases total - i,
    {
        match targets[i].severity() {
            Some(Level::Critical) => {
                critical = critical + 1;
            },
            Some(Level::Warn) => {
                warned = warned + 1;
            },
            None => {},
        }
        i += 1;
        proof {
            lemma_weights_fit(targets@, i as nat);
        }
    }
    (critical, warned)
}

/// Everything that is marked, as text.
pub fn pending_text(path: &str, plan: &Plan) -> (r: String)
    ensures
        r@ == pending_of(path@, plan.revision, plan.targets@),
{
    let targets: &Vec<Target> = &plan.targets;
    let (critical, warned): (usize, usize) = weights(targets);
    let mut out: String = "PENDING ONLY | ".to_owned();
    out.append(path);
    out.append(" | revision=");
    out.append(&plan.revision_text());
    out.append(" | notes: ");
    out.append(&text::decimal(critical as u64));
    out.append(" critical, ");
    out.append(&text::decimal(warned as u64));
    out.append(" warn\n");
    let ghost head = out@;
    let mut i: usize = 0;
    assert(head + Seq::<char>::empty() =~= head);
    while i < targets.len()
        invariant
            i <= targets@.len(),
            out@ == head + pending_all(targets@, i as nat),
        decreases targets@.len() - i,
    {
        add_pending(&mut out, &targets[i]);
        i += 1;
        assert(out@ =~= head + pending_all(targets@, i as nat));
    }
    out.append(&text::decimal(targets.len() as u64));
    out.append(" targets. This text view cannot delete anything.\n");
    let ghost had = out@;
    assert(had + Seq::<char>::empty() =~= had);
    if critical + warned > 0 {
        out.append(
            "Notes are the agent's own words: they prove nothing and never replace the marked reason. Resolve them with the user before deleting.\n",
        );
    }
    out
}

/// What a detail report ends with.
pub fn captured_text(s: &Snapshot) -> (r: String)
    ensures
        r@ == "Snapshot captured at Unix "@ + text::decimal_of(s.stats.started_unix as nat)
            + ". Run scan again when freshness matters.\n"@,
{
    let mut out: String = "Snapshot captured at Unix ".to_owned();
    out.append(&text::decimal(s.stats.started_unix));
    out.append(". Run scan again when freshness matters.\n");
    out
}

/// The exit code of a scan: one that is not complete is no success.
pub fn scan_code(s: &Snapshot) -> (r: i32)
    ensures
        r == (if s.stats.complete {
            0int
        } else {
            2
        }),
        r == 0 <==> s.stats.complete,
{
    if s.stats.complete {
        0
    } else {
        2
    }
}

/// The exit code of a comparison.
pub fn compare_code(equal: bool) -> (r: i32)
    ensures
        r == (if equal {
            0int
        } else {
            3
        }),
        r == 0 <==> equal,
{
    if equal {
        0
    } else {
        3
    }
}

/// Whether the command starts itself anew with more rights: only when asked to, once, and
/// only where they are missing.
pub fn relaunches(elevate: bool, child: bool, elevated: bool) -> (r: bool)
    ensures
        r == (elevate && !child && !elevated),
{
    elevate && !child && !elevated
}

/// Whether a saved scan can stand for a new one in a review: it is complete and holds
/// everything that is marked.
pub open spec fn reusable(targets: Seq<Target>, saved: Snapshot) -> bool {
    &&& targets.len() > 0
    &&& saved.stats.complete
    &&& forall|i: int| 0 <= i < targets.len() ==> model::found(saved, (#[trigger] targets[i]).path.words()) is Ok
}

/// Whether a review takes the saved scan without being told to.
pub fn reuses_scan(index: IndexSource, targets: &Vec<Target>, saved: &Snapshot) -> (r: bool)
    requires
        tree::linked(saved.nodes@),
        model::names_inside(saved.nodes@, saved.names@.len()),
    ensures
        r == (index == IndexSource::Volume && reusable(targets@, *saved)),
{
    if index != IndexSource::Volume || targets.len() == 0 || !saved.stats.complete {
        return false;
    }
    let mut i: usize = 0;
    while i < targets.len()
        invariant
            i <= targets@.len(),
            tree::linked(saved.nodes@),
            model::names_inside(saved.nodes@, saved.names@.len()),
            forall|k: int|
                0 <= k < i ==> model::found(*saved, (#[trigger] targets@[k]).path.words()) is Ok,
        decreases targets@.len() - i,
    {
        if saved.find(&targets[i].path.to_text()).is_err() {
            assert(model::found(*saved, targets@[i as int].path.words()) is Err);
            return false;
        }
        i += 1;
    }
    true
}

/// Whether a review has to start anew with more rights: it would read a volume.
pub fn review_relaunches(saved: bool, index: IndexSource, elevated: bool) -> (r: bool)
    ensures
        r == (!saved && index == IndexSource::Volume && !elevated),
{
    !saved && index == IndexSource::Volume && !elevated
}

/// A review that takes a scan finds every marked target in it.
pub proof fn law_reused_scans_hold_every_target(targets: Seq<Target>, saved: Snapshot, i: int)
    requires
        reusable(targets, saved),
        0 <= i < targets.len(),
    ensures
        model::found(saved, targets[i].path.words()) is Ok,
        saved.stats.complete,
{
    assert(model::found(saved, targets[i].path.words()) is Ok);
}

/// Targets count by their gravest alert: each one once, as critical or as a warning.
pub proof fn law_targets_count_by_their_gravest_alert(targets: Seq<Target>, n: nat)
    requires
        n < targets.len(),
    ensures
        of_weight(targets, Level::Critical, 0) == 0,
        of_weight(targets, Level::Critical, n + 1) == of_weight(targets, Level::Critical, n) + (
        if exists|i: int|
            0 <= i < targets[n as int].alerts@.len() && (
            #[trigger] targets[n as int].alerts@[i]).level is Critical {
            1int
        } else {
            0
        }),
        of_weight(targets, Level::Warn, n + 1) == of_weight(targets, Level::Warn, n) + (
        if targets[n as int].alerts@.len() > 0 && !(exists|i: int|
            0 <= i < targets[n as int].alerts@.len() && (
            #[trigger] targets[n as int].alerts@[i]).level is Critical) {
            1int
        } else {
            0
        }),
{
    let alerts = targets[n as int].alerts@;
    if alerts.len() > 0 {
        plan::law_the_worst_alert_counts(alerts, 0);
    }
    if exists|i: int| 0 <= i < alerts.len() && (#[trigger] alerts[i]).level is Critical {
        let i = choose|i: int| 0 <= i < alerts.len() && (#[trigger] alerts[i]).level is Critical;
        plan::law_the_worst_alert_counts(alerts, i);
    } else if alerts.len() > 0 {
        assert(plan::worst(alerts) != Some(Level::Critical));
    }
}

/// A saved scan serves again only if it is complete and holds every target that is marked.
pub proof fn law_only_complete_scans_serve_again(targets: Seq<Target>, saved: Snapshot)
    ensures
        reusable(targets, saved) ==> saved.stats.complete && targets.len() > 0,
        targets.len() == 0 || !saved.stats.complete ==> !reusable(targets, saved),
{
}

proof fn lemma_level_lines(alerts: Seq<Alert>, level: Level, n: nat, i: int)
    requires
        0 <= i < n <= alerts.len(),
        alerts[i].level == level,
    ensures
        text::holds(level_lines(alerts, level, n), report::safe_of(alerts[i].text@)),
    decreases n,
{
    let before = level_lines(alerts, level, (n - 1) as nat);
    let part = report::safe_of(alerts[i].text@);
    if i < n - 1 {
        lemma_level_lines(alerts, level, (n - 1) as nat, i);
        let own = report::safe_of(alerts[n - 1].text@);
        let tail = "    "@ + level.word() + ": "@ + own + "\n"@;
        text::lemma_holds(Seq::empty(), before, tail, part);
        if alerts[n - 1].level == level {
            assert(level_lines(alerts, level, n) =~= before + tail);
        }
    } else {
        text::lemma_holds_self(before + "    "@ + level.word() + ": "@, part, "\n"@);
    }
}

#[verifier::spinoff_prover]
#[verifier::rlimit(100)]
proof fn lemma_pending_lines(t: Target, i: int)
    ensures
        text::holds(pending_lines(t), report::safe_of(platform::shown(t.path.words()))),
        text::holds(pending_lines(t), report::human_text(t.summary.allocated_bytes as int)),
        text::holds(pending_lines(t), report::safe_of(t.reason@)),
        0 <= i < t.alerts@.len() ==> text::holds(
            pending_lines(t),
            report::safe_of(t.alerts@[i].text@),
        ),
{
    let mark = weight_mark(plan::worst(t.alerts@));
    let size = report::human_text(t.summary.allocated_bytes as int);
    let path = report::safe_of(platform::shown(t.path.words()));
    let files = text::decimal_of(t.summary.files as nat);
    let reason = report::safe_of(t.reason@);
    let critical = level_lines(t.alerts@, Level::Critical, t.alerts@.len());
    let warn = level_lines(t.alerts@, Level::Warn, t.alerts@.len());
    let repo = repository_line(t.git);
    let all = pending_lines(t);
    text::lemma_holds_self(
        mark,
        size,
        "  "@ + path + "  files="@ + files + "  reason="@ + reason + "\n"@ + critical + warn + repo,
    );
    assert(all =~= mark + size + ("  "@ + path + "  files="@ + files + "  reason="@ + reason + "\n"@
        + critical + warn + repo));
    text::lemma_holds_self(
        mark + size + "  "@,
        path,
        "  files="@ + files + "  reason="@ + reason + "\n"@ + critical + warn + repo,
    );
    assert(all =~= (mark + size + "  "@) + path + ("  files="@ + files + "  reason="@ + reason
        + "\n"@ + critical + warn + repo));
    text::lemma_holds_self(
        mark + size + "  "@ + path + "  files="@ + files + "  reason="@,
        reason,
        "\n"@ + critical + warn + repo,
    );
    assert(all =~= (mark + size + "  "@ + path + "  files="@ + files + "  reason="@) + reason + (
    "\n"@ + critical + warn + repo));
    if 0 <= i < t.alerts@.len() {
        let head = mark + size + "  "@ + path + "  files="@ + files + "  reason="@ + reason + "\n"@;
        let part = report::safe_of(t.alerts@[i].text@);
        match t.alerts@[i].level {
            Level::Critical => {
                lemma_level_lines(t.alerts@, Level::Critical, t.alerts@.len(), i);
                text::lemma_holds(head, critical, warn + repo, part);
                assert(all =~= head + critical + (warn + repo));
            },
            Level::Warn => {
                lemma_level_lines(t.alerts@, Level::Warn, t.alerts@.len(), i);
                text::lemma_holds(head + critical, warn, repo, part);
                assert(all =~= (head + critical) + warn + repo);
            },
        }
    }
}

proof fn lemma_pending_all(targets: Seq<Target>, n: nat, i: int, part: Seq<char>)
    requires
        0 <= i < n <= targets.len(),
        text::holds(pending_lines(targets[i]), part),
    ensures
        text::holds(pending_all(targets, n), part),
    decreases n,
{
    let before = pending_all(targets, (n - 1) as nat);
    if i < n - 1 {
        lemma_pending_all(targets, (n - 1) as nat, i, part);
        text::lemma_holds(Seq::empty(), before, pending_lines(targets[n - 1]), part);
    } else {
        text::lemma_holds(before, pending_lines(targets[i]), Seq::empty(), part);
    }
}

/// The list of what is marked tells every target: its path, the space it takes, the reason
/// that was given, and all of its alerts.
pub proof fn law_every_mark_is_listed(
    path: Seq<char>,
    revision: u128,
    targets: Seq<Target>,
    i: int,
    a: int,
)
    requires
        0 <= i < targets.len(),
    ensures
        ({
            let s = pending_of(path, revision, targets);
            let t = targets[i];
            &&& text::holds(s, report::safe_of(platform::shown(t.path.words())))
            &&& text::holds(s, report::human_text(t.summary.allocated_bytes as int))
            &&& text::holds(s, report::safe_of(t.reason@))
            &&& 0 <= a < t.alerts@.len() ==> text::holds(s, report::safe_of(t.alerts@[a].text@))
        }),
{
    let s = pending_of(path, revision, targets);
    let t = targets[i];
    let critical = of_weight(targets, Level::Critical, targets.len());
    let warned = of_weight(targets, Level::Warn, targets.len());
    let head = "PENDING ONLY | "@ + path + " | revision="@ + plan::hyphenated(revision)
        + " | notes: "@ + text::decimal_of(critical) + " critical, "@ + text::decimal_of(warned)
        + " warn\n"@;
    let all = pending_all(targets, targets.len());
    let tail = text::decimal_of(targets.len())
        + " targets. This text view cannot delete anything.\n"@ + (if critical + warned > 0 {
        "Notes are the agent's own words: they prove nothing and never replace the marked reason. Resolve them with the user before deleting.\n"@
    } else {
        Seq::empty()
    });
    assert(s =~= head + all + tail);
    lemma_pending_lines(t, a);
    let shown = report::safe_of(platform::shown(t.path.words()));
    let size = report::human_text(t.summary.allocated_bytes as int);
    let reason = report::safe_of(t.reason@);
    lemma_pending_all(targets, targets.len(), i, shown);
    lemma_pending_all(targets, targets.len(), i, size);
    lemma_pending_all(targets, targets.len(), i, reason);
    text::lemma_holds(head, all, tail, shown);
    text::lemma_holds(head, all, tail, size);
    text::lemma_holds(head, all, tail, reason);
    if 0 <= a < t.alerts@.len() {
        let part = report::safe_of(t.alerts@[a].text@);
        lemma_pending_all(targets, targets.len(), i, part);
        text::lemma_holds(head, all, tail, part);
    }
}

proof fn lemma_marked_lines(mark: Seq<char>, v: Seq<Seq<char>>, n: nat, i: int)
    requires
        0 <= i < n <= v.len(),
    ensures
        text::holds(marked_lines(mark, v, n), mark + report::safe_of(v[i])),
    decreases n,
{
    let before = marked_lines(mark, v, (n - 1) as nat);
    let part = mark + report::safe_of(v[i]);
    if i < n - 1 {
        lemma_marked_lines(mark, v, (n - 1) as nat, i);
        let tail = mark + report::safe_of(v[n - 1]) + "\n"@;
        text::lemma_holds(Seq::empty(), before, tail, part);
        assert(marked_lines(mark, v, n) =~= Seq::<char>::empty() + before + tail);
    } else {
        text::lemma_holds_self(before, part, "\n"@);
        assert(marked_lines(mark, v, n) =~= before + part + "\n"@);
    }
}

/// The report on a repository tells every risk, and every ref that no remote is known to
/// hold.
pub proof fn law_every_risk_is_reported(a: GitAudit, i: int, k: int)
    ensures
        0 <= i < a.risks@.len() ==> text::holds(
            git_of(Some(a)),
            "RISK: "@ + report::safe_of(a.risks@[i]@),
        ),
        0 <= k < a.local_only_refs@.len() ==> text::holds(
            git_of(Some(a)),
            "LOCAL REF: "@ + report::safe_of(a.local_only_refs@[k]@),
        ),
{
    let head = a.root@ + "\n"@ + a.line() + "\ntracked_history_covered="@ + text::yes_no(
        a.tracked_history_covered,
    ) + "  all_content_synced="@ + text::yes_no(a.all_content_synced) + "\n"@;
    let risks = marked_lines("RISK: "@, text::views(a.risks@), a.risks@.len());
    let refs = marked_lines(
        "LOCAL REF: "@,
        text::views(a.local_only_refs@),
        a.local_only_refs@.len(),
    );
    assert(git_of(Some(a)) =~= head + risks + refs);
    if 0 <= i < a.risks@.len() {
        lemma_marked_lines("RISK: "@, text::views(a.risks@), a.risks@.len(), i);
        text::lemma_holds(head, risks, refs, "RISK: "@ + report::safe_of(a.risks@[i]@));
    }
    if 0 <= k < a.local_only_refs@.len() {
        lemma_marked_lines(
            "LOCAL REF: "@,
            text::views(a.local_only_refs@),
            a.local_only_refs@.len(),
            k,
        );
        text::lemma_holds(
            head + risks,
            refs,
            Seq::empty(),
            "LOCAL REF: "@ + report::safe_of(a.local_only_refs@[k]@),
        );
    }
}

proof fn lemma_staged_all(targets: Seq<Target>, n: nat, i: int, part: Seq<char>)
    requires
        0 <= i < n <= targets.len(),
        text::holds(staged_lines(targets[i]), part),
    ensures
        text::holds(staged_all(targets, n), part),
    decreases n,
{
    let before = staged_all(targets, (n - 1) as nat);
    if i < n - 1 {
        lemma_staged_all(targets, (n - 1) as nat, i, part);
        text::lemma_holds(Seq::empty(), before, staged_lines(targets[n - 1]), part);
    } else {
        text::lemma_holds(before, staged_lines(targets[i]), Seq::empty(), part);
    }
}

/// What a mark is answered with tells every target by its path and says that nothing was
/// deleted.
pub proof fn law_marking_tells_every_target(
    targets: Seq<Target>,
    plan: Seq<char>,
    notes: nat,
    i: int,
)
    requires
        0 <= i < targets.len(),
    ensures
        text::holds(
            staged_of(targets, plan, notes),
            "STAGED (NOT DELETED): "@ + report::safe_of(platform::shown(targets[i].path.words())),
        ),
        text::holds(
            staged_of(targets, plan, notes),
            ". No files were deleted. Use show-rm for human review.\n"@,
        ),
{
    let t = targets[i];
    let part = "STAGED (NOT DELETED): "@ + report::safe_of(platform::shown(t.path.words()));
    let rest = " | "@ + report::human_text(t.summary.allocated_bytes as int) + " | reason="@
        + report::safe_of(t.reason@) + "\n"@ + note_lines(t.alerts@, t.alerts@.len())
        + repository_line(t.git);
    text::lemma_holds_self(Seq::empty(), part, rest);
    assert(staged_lines(t) =~= part + rest);
    lemma_staged_all(targets, targets.len(), i, part);
    let all = staged_all(targets, targets.len());
    let end = ". No files were deleted. Use show-rm for human review.\n"@;
    let more = if notes > 0 {
        text::decimal_of(notes)
            + " note(s) attached to this batch; show-rm highlights them in the tree and in --text/--json.\n"@
    } else {
        Seq::empty()
    };
    let tail = text::decimal_of(targets.len()) + " target(s) marked in "@ + plan + end + more;
    assert(staged_of(targets, plan, notes) =~= all + tail);
    text::lemma_holds(Seq::empty(), all, tail, part);
    text::lemma_holds_self(
        all + text::decimal_of(targets.len()) + " target(s) marked in "@ + plan,
        end,
        more,
    );
    assert(staged_of(targets, plan, notes) =~= (all + text::decimal_of(targets.len())
        + " target(s) marked in "@ + plan) + end + more);
}

proof fn lemma_volume_lines(v: Seq<VolumeInfo>, n: nat, i: int)
    requires
        0 <= i < n <= v.len(),
    ensures
        text::holds(volume_lines(v, n), v[i].root@),
        text::holds(volume_lines(v, n), " free="@ + report::human_text(v[i].free_bytes as int)),
        text::holds(volume_lines(v, n), "  total="@ + report::human_text(v[i].total_bytes as int)),
    decreases n,
{
    let before = volume_lines(v, (n - 1) as nat);
    let own = volume_line(v[n - 1]);
    let root = v[i].root@;
    let free = " free="@ + report::human_text(v[i].free_bytes as int);
    let total = "  total="@ + report::human_text(v[i].total_bytes as int);
    if i < n - 1 {
        lemma_volume_lines(v, (n - 1) as nat, i);
        text::lemma_holds(Seq::empty(), before, own, root);
        text::lemma_holds(Seq::empty(), before, own, free);
        text::lemma_holds(Seq::empty(), before, own, total);
    } else {
        lemma_volume_line(v[i]);
        text::lemma_holds(before, own, Seq::empty(), root);
        text::lemma_holds(before, own, Seq::empty(), free);
        text::lemma_holds(before, own, Seq::empty(), total);
    }
}

proof fn lemma_volume_line(v: VolumeInfo)
    ensures
        text::holds(volume_line(v), v.root@),
        text::holds(volume_line(v), " free="@ + report::human_text(v.free_bytes as int)),
        text::holds(volume_line(v), "  total="@ + report::human_text(v.total_bytes as int)),
{
    let gap = "  "@;
    let kind = text::left_aligned(v.filesystem@, 6);
    let total = report::human_text(v.total_bytes as int);
    let free = report::human_text(v.free_bytes as int);
    let size = text::decimal_of(v.cluster_bytes as nat);
    lemma_volume_parts(
        v.root@,
        gap,
        kind,
        "  total="@,
        total,
        " free="@,
        free,
        " cluster="@ + size + "  raw="@ + v.device@ + "\n"@,
    );
    assert(volume_line(v) =~= v.root@ + gap + kind + "  total="@ + total + " free="@ + free + (
    " cluster="@ + size + "  raw="@ + v.device@ + "\n"@));
}

proof fn lemma_volume_parts(
    a: Seq<char>,
    b: Seq<char>,
    c: Seq<char>,
    d: Seq<char>,
    e: Seq<char>,
    f: Seq<char>,
    g: Seq<char>,
    h: Seq<char>,
)
    ensures
        text::holds(a + b + c + d + e + f + g + h, a),
        text::holds(a + b + c + d + e + f + g + h, d + e),
        text::holds(a + b + c + d + e + f + g + h, f + g),
{
    let none = Seq::<char>::empty();
    let x = a + b + c;
    let y = x + d + e;
    let z = y + f + g;
    text::lemma_holds_self(none, a, b);
    text::lemma_holds(none, a + b, c, a);
    text::lemma_holds(none, x, d, a);
    text::lemma_holds(none, x + d, e, a);
    text::lemma_holds(none, y, f, a);
    text::lemma_holds(none, y + f, g, a);
    text::lemma_holds(none, z, h, a);
    text::lemma_holds_self(x, d + e, none);
    assert(y =~= x + (d + e));
    text::lemma_holds(none, y, f, d + e);
    text::lemma_holds(none, y + f, g, d + e);
    text::lemma_holds(none, z, h, d + e);
    text::lemma_holds_self(y, f + g, none);
    assert(z =~= y + (f + g));
    text::lemma_holds(none, z, h, f + g);
}

/// The report on the machine tells every volume with its size and what is free of it.
pub proof fn law_every_volume_is_reported(
    version: Seq<char>,
    administrator: bool,
    cwd: Seq<char>,
    volumes: Seq<VolumeInfo>,
    i: int,
)
    requires
        0 <= i < volumes.len(),
    ensures
        ({
            let s = doctor_of(version, administrator, cwd, volumes);
            &&& text::holds(s, volumes[i].root@)
            &&& text::holds(s, " free="@ + report::human_text(volumes[i].free_bytes as int))
            &&& text::holds(s, "  total="@ + report::human_text(volumes[i].total_bytes as int))
        }),
{
    let head = "disk-cleaner "@ + version + " | administrator="@ + text::yes_no(administrator)
        + " | cwd="@ + cwd + "\n"@;
    let all = volume_lines(volumes, volumes.len());
    let tail =
        "elevation: raw NTFS/ReFS scans need administrator rights; pass --elevate for one UAC prompt. fs enumeration stays unprivileged.\n"@
        + "rm is STAGE ONLY. No headless/--yes/force-delete command exists.\n"@;
    assert(doctor_of(version, administrator, cwd, volumes) =~= head + all + tail);
    lemma_volume_lines(volumes, volumes.len(), i);
    text::lemma_holds(head, all, tail, volumes[i].root@);
    text::lemma_holds(head, all, tail, " free="@ + report::human_text(volumes[i].free_bytes as int));
    text::lemma_holds(
        head,
        all,
        tail,
        "  total="@ + report::human_text(volumes[i].total_bytes as int),
    );
}

} // verus!
