//! What the review window asks and tells: facts in short rows, and the raw diagnostics
//! behind them apart.
use crate::executor::Outcome;
use crate::git_audit::GitAudit;
use crate::locks::Owner;
use crate::platform;
use crate::report;
use crate::report::safe_text;
use crate::text;
use crate::text::{decimal, glue};
use vstd::prelude::*;
use vstd::string::*;

verus! {

/// One row of a dialog.
#[derive(Debug)]
pub struct DialogRow {
    pub kind: &'static str,
    pub label: String,
    pub value: String,
    pub path: String,
    pub severity: i32,
}

#[verifier::ext_equal]
pub struct RowV {
    pub kind: Seq<char>,
    pub label: Seq<char>,
    pub value: Seq<char>,
    pub path: Seq<char>,
    pub severity: i32,
}

impl View for DialogRow {
    type V = RowV;

    open spec fn view(&self) -> RowV {
        RowV {
            kind: self.kind@,
            label: self.label@,
            value: self.value@,
            path: self.path@,
            severity: self.severity,
        }
    }
}

pub open spec fn row_views(v: Seq<DialogRow>) -> Seq<RowV> {
    v.map_values(|r: DialogRow| r@)
}

/// A row whose texts are made safe to show.
pub open spec fn row_of(
    kind: Seq<char>,
    label: Seq<char>,
    value: Seq<char>,
    path: Seq<char>,
    severity: i32,
) -> RowV {
    RowV {
        kind,
        label: report::safe_of(label),
        value: report::safe_of(value),
        path: report::safe_of(path),
        severity,
    }
}

/// A row that stands on a condition.
pub open spec fn row_when(cond: bool, row: RowV) -> Seq<RowV> {
    if cond {
        seq![row]
    } else {
        Seq::empty()
    }
}

pub fn entry(kind: &'static str, label: &str, value: &str, path: &str, severity: i32) -> (r: DialogRow)
    ensures
        r@ == row_of(kind@, label@, value@, path@, severity),
{
    DialogRow {
        kind,
        label: safe_text(label),
        value: safe_text(value),
        path: safe_text(path),
        severity,
    }
}

fn put(
    rows: &mut Vec<DialogRow>,
    cond: bool,
    kind: &'static str,
    label: &str,
    value: &str,
    path: &str,
    severity: i32,
)
    ensures
        row_views(final(rows)@) == row_views(old(rows)@) + row_when(
            cond,
            row_of(kind@, label@, value@, path@, severity),
        ),
{
    let ghost had = rows@;
    if cond {
        let row: DialogRow = entry(kind, label, value, path, severity);
        rows.push(row);
        assert(row_views(rows@) =~= row_views(had).push(row@));
    }
    assert(row_views(rows@) =~= row_views(had) + row_when(
        cond,
        row_of(kind@, label@, value@, path@, severity),
    ));
}

/// A dialog.
#[derive(Debug)]
pub struct Dialog {
    pub kind: &'static str,
    pub title: String,
    pub summary: String,
    pub path: String,
    pub notice: String,
    pub rows: Vec<DialogRow>,
    pub technical: String,
    pub can_close_owners: bool,
}

#[verifier::ext_equal]
pub struct DialogV {
    pub kind: Seq<char>,
    pub title: Seq<char>,
    pub summary: Seq<char>,
    pub path: Seq<char>,
    pub notice: Seq<char>,
    pub rows: Seq<RowV>,
    pub technical: Seq<char>,
    pub can_close_owners: bool,
}

impl View for Dialog {
    type V = DialogV;

    open spec fn view(&self) -> DialogV {
        DialogV {
            kind: self.kind@,
            title: self.title@,
            summary: self.summary@,
            path: self.path@,
            notice: self.notice@,
            rows: row_views(self.rows@),
            technical: self.technical@,
            can_close_owners: self.can_close_owners,
        }
    }
}

/// The repository's branch, as it is called.
pub open spec fn branch_name(a: GitAudit) -> Seq<char> {
    match a.branch {
        Some(b) => b@,
        None => if a.detached {
            "分离的 HEAD"@
        } else {
            "分支未知"@
        },
    }
}

/// Whether nothing was found that explains why to ask.
pub open spec fn unexplained(a: GitAudit) -> bool {
    a.risks@.len() == 0 && a.modified == 0 && a.staged == 0 && a.untracked == 0 && a.ignored == 0
        && a.stashes == 0 && a.local_only_refs@.len() == 0
}

/// The rows for the first `n` risks that no other row tells.
pub open spec fn risk_rows(risks: Seq<String>, n: nat) -> Seq<RowV>
    decreases n,
{
    if n == 0 {
        Seq::empty()
    } else {
        let before = risk_rows(risks, (n - 1) as nat);
        match risk_row(risks[n - 1]@) {
            None => before,
            Some(row) => before.push(row),
        }
    }
}

/// The repository itself.
pub open spec fn repo_rows(index: nat, a: GitAudit) -> Seq<RowV> {
    seq![
        row_of(
            "repo"@,
            "仓库 "@ + text::decimal_of(index + 1) + " · "@ + branch_name(a),
            if a.remote_verified {
                "远端已核实"@
            } else {
                "远端未核实"@
            },
            platform::shown(a.root@),
            0,
        ),
    ]
}

/// What changed.
pub open spec fn work_rows(a: GitAudit) -> Seq<RowV> {
    row_when(
        a.modified > 0 || a.staged > 0 || a.conflicts > 0,
        row_of(
            "fact"@,
            "工作区"@,
            text::decimal_of(a.modified as nat) + " 项改动 · "@ + text::decimal_of(a.staged as nat)
                + " 项暂存 · "@ + text::decimal_of(a.conflicts as nat) + " 项冲突"@,
            ""@,
            1,
        ),
    )
}

/// What is not in the repository.
pub open spec fn file_rows(a: GitAudit) -> Seq<RowV> {
    row_when(
        a.untracked > 0 || a.ignored > 0,
        row_of(
            "fact"@,
            "本地文件"@,
            text::decimal_of(a.untracked as nat) + " 项未跟踪 · "@ + text::decimal_of(
                a.ignored as nat,
            ) + " 项被忽略"@,
            ""@,
            1,
        ),
    )
}

/// What is in this repository alone.
pub open spec fn local_rows(a: GitAudit) -> Seq<RowV> {
    row_when(
        a.stashes > 0 || a.local_only_refs@.len() > 0,
        row_of(
            "fact"@,
            "本地记录"@,
            text::decimal_of(a.stashes as nat) + " 个 stash · "@ + text::decimal_of(
                a.local_only_refs@.len(),
            ) + " 个分支或标签未证实已在远端"@,
            ""@,
            1,
        ),
    )
}

/// What is known of other repositories.
pub open spec fn remote_rows(a: GitAudit) -> Seq<RowV> {
    row_when(
        !a.remote_verified,
        row_of(
            "fact"@,
            "远端状态"@,
            if a.remotes@.len() == 0 {
                "没有配置远端"@
            } else {
                "尚未在线核实，缓存不能证明远端已有备份"@
            },
            ""@,
            1,
        ),
    )
}

/// What to say when there is nothing else to say.
pub open spec fn result_rows(a: GitAudit) -> Seq<RowV> {
    row_when(
        unexplained(a),
        row_of("fact"@, "检查结果"@, "不能证明这些本地内容可从远端恢复"@, ""@, 1),
    )
}

/// The rows of one repository.
pub open spec fn audit_rows(index: nat, a: GitAudit) -> Seq<RowV> {
    repo_rows(index, a) + work_rows(a) + file_rows(a) + local_rows(a) + remote_rows(a) + risk_rows(
        a.risks@,
        a.risks@.len(),
    ) + result_rows(a)
}

/// The rows of the first `n` repositories.
pub open spec fn git_rows(audits: Seq<&GitAudit>, n: nat) -> Seq<RowV>
    decreases n,
{
    if n == 0 {
        Seq::empty()
    } else {
        git_rows(audits, (n - 1) as nat) + audit_rows((n - 1) as nat, *audits[n - 1])
    }
}

/// The raw diagnostics of one repository.
pub open spec fn audit_notes(a: GitAudit) -> Seq<Seq<char>> {
    seq![
        platform::shown(a.root@) + "\n"@ + text::joined_by(text::views(a.risks@), "\n"@),
    ] + text::when(
        a.local_only_refs@.len() > 0,
        "本地引用："@ + text::joined_by(text::views(a.local_only_refs@), "、"@),
    )
}

/// The raw diagnostics of the first `n` repositories.
pub open spec fn git_notes(audits: Seq<&GitAudit>, n: nat) -> Seq<Seq<char>>
    decreases n,
{
    if n == 0 {
        Seq::empty()
    } else {
        git_notes(audits, (n - 1) as nat) + audit_notes(*audits[n - 1])
    }
}

/// Whether some other row already tells of this risk.
pub open spec fn told_elsewhere(risk: Seq<char>) -> bool {
    ||| "remote refs are CACHED"@.is_prefix_of(risk)
    ||| risk == "no remote configured"@
    ||| risk == "tracked changes/conflicts exist only locally"@
    ||| risk == "untracked worktree entries are not in Git"@
    ||| "ignored entries are LOCAL-ONLY"@.is_prefix_of(risk)
    ||| risk == "local stashes are not protected by ordinary push"@
    ||| "local refs/commits/tags are not proven"@.is_prefix_of(risk)
}

/// How a risk is called and put.
pub open spec fn risk_words(risk: Seq<char>) -> (Seq<char>, Seq<char>) {
    if "repository operation in progress:"@.is_prefix_of(risk) {
        ("仓库操作"@, "合并或变基等操作尚未结束"@)
    } else if text::occurs(risk, "linked worktree(s)"@) {
        ("关联工作树"@, "另有工作树的本地状态尚未核实"@)
    } else if text::occurs(risk, "submodule(s):"@) {
        ("子模块"@, "嵌套仓库需要单独检查"@)
    } else if "Git metadata is outside this worktree"@.is_prefix_of(risk) {
        ("Git 元数据"@, "位于此工作树之外"@)
    } else if "remote "@.is_prefix_of(risk) {
        let rest = risk.skip("remote "@.len() as int);
        match text::first_at(rest, " unavailable/unverified:"@, 0) {
            Some(i) => ("远端连接"@, rest.subrange(0, i as int) + " 无法核实"@),
            None => ("远端检查"@, "状态未知，请查看技术详情"@),
        }
    } else if "worktree status unknown:"@.is_prefix_of(risk) {
        ("工作区"@, "无法判断本地改动状态"@)
    } else if "stash status unknown:"@.is_prefix_of(risk) {
        ("stash"@, "无法读取本地记录"@)
    } else if "unborn or unreadable HEAD"@.is_prefix_of(risk) {
        ("当前分支"@, "HEAD 不可读或仓库尚无提交"@)
    } else if "Git safety unknown:"@.is_prefix_of(risk) || "Git check failed:"@.is_prefix_of(risk) {
        ("Git 检查"@, "未完成，不能确认远端备份"@)
    } else {
        ("其他风险"@, "状态未知，请查看技术详情"@)
    }
}

/// The row of a risk that no other row tells.
pub open spec fn risk_row(risk: Seq<char>) -> Option<RowV> {
    if told_elsewhere(risk) {
        None
    } else {
        let (label, value) = risk_words(risk);
        Some(row_of("fact"@, label, value, ""@, 1))
    }
}

fn describe_remote(risk: &str) -> (r: (&'static str, String))
    requires
        "remote "@.is_prefix_of(risk@),
    ensures
        ({
            let rest = risk@.skip("remote "@.len() as int);
            match text::first_at(rest, " unavailable/unverified:"@, 0) {
                Some(i) => r.0@ == "远端连接"@ && r.1@ == rest.subrange(0, i as int)
                    + " 无法核实"@,
                None => r.0@ == "远端检查"@ && r.1@ == "状态未知，请查看技术详情"@,
            }
        }),
{
    let all: Vec<char> = text::chars_of(risk);
    let head: Vec<char> = text::chars_of("remote ");
    let rest: Vec<char> = text::part(&all, head.len(), all.len());
    assert(rest@ =~= risk@.skip("remote "@.len() as int));
    match text::find(&rest, &text::chars_of(" unavailable/unverified:")) {
        Some(i) => (
            "远端连接",
            glue(&text::text_of(&text::part(&rest, 0, i)), " 无法核实"),
        ),
        None => ("远端检查", "状态未知，请查看技术详情".to_owned()),
    }
}

/// The row of a risk that no other row tells.
pub fn additional_git_risk(risk: &str) -> (r: Option<DialogRow>)
    ensures
        match (r, risk_row(risk@)) {
            (Some(row), Some(v)) => row@ == v,
            (None, None) => true,
            _ => false,
        },
{
    if text::starts(risk, "remote refs are CACHED") || text::same(risk, "no remote configured")
        || text::same(risk, "tracked changes/conflicts exist only locally") || text::same(
        risk,
        "untracked worktree entries are not in Git",
    ) || text::starts(risk, "ignored entries are LOCAL-ONLY") || text::same(
        risk,
        "local stashes are not protected by ordinary push",
    ) || text::starts(risk, "local refs/commits/tags are not proven") {
        return None;
    }
    if text::starts(risk, "repository operation in progress:") {
        return Some(entry("fact", "仓库操作", "合并或变基等操作尚未结束", "", 1));
    }
    if text::has(risk, "linked worktree(s)") {
        return Some(entry("fact", "关联工作树", "另有工作树的本地状态尚未核实", "", 1));
    }
    if text::has(risk, "submodule(s):") {
        return Some(entry("fact", "子模块", "嵌套仓库需要单独检查", "", 1));
    }
    if text::starts(risk, "Git metadata is outside this worktree") {
        return Some(entry("fact", "Git 元数据", "位于此工作树之外", "", 1));
    }
    if text::starts(risk, "remote ") {
        let (label, value): (&'static str, String) = describe_remote(risk);
        return Some(entry("fact", label, &value, "", 1));
    }
    let (label, value): (&str, &str) = if text::starts(risk, "worktree status unknown:") {
        ("工作区", "无法判断本地改动状态")
    } else if text::starts(risk, "stash status unknown:") {
        ("stash", "无法读取本地记录")
    } else if text::starts(risk, "unborn or unreadable HEAD") {
        ("当前分支", "HEAD 不可读或仓库尚无提交")
    } else if text::starts(risk, "Git safety unknown:") || text::starts(risk, "Git check failed:") {
        ("Git 检查", "未完成，不能确认远端备份")
    } else {
        ("其他风险", "状态未知，请查看技术详情")
    };
    Some(entry("fact", label, value, "", 1))
}

fn add_risks(rows: &mut Vec<DialogRow>, risks: &Vec<String>)
    ensures
        row_views(final(rows)@) == row_views(old(rows)@) + risk_rows(risks@, risks@.len()),
{
    let ghost had = row_views(rows@);
    let mut i: usize = 0;
    assert(had + risk_rows(risks@, 0) =~= had);
    while i < risks.len()
        invariant
            i <= risks@.len(),
            row_views(rows@) == had + risk_rows(risks@, i as nat),
        decreases risks@.len() - i,
    {
        let ghost before = rows@;
        match additional_git_risk(&risks[i]) {
            None => {},
            Some(row) => {
                rows.push(row);
                assert(row_views(rows@) =~= row_views(before).push(row@));
                assert(row_views(rows@) =~= had + risk_rows(risks@, i as nat).push(row@));
            },
        }
        i += 1;
    }
}

fn repo_label(index: usize, a: &GitAudit) -> (r: String)
    requires
        index < usize::MAX,
    ensures
        r@ == "仓库 "@ + text::decimal_of((index + 1) as nat) + " · "@ + branch_name(*a),
{
    let unknown: &str = if a.detached {
        "分离的 HEAD"
    } else {
        "分支未知"
    };
    let branch: &str = match &a.branch {
        Some(b) => b.as_str(),
        None => unknown,
    };
    let number: String = decimal(index as u64 + 1);
    let head: String = glue(&glue("仓库 ", &number), " · ");
    glue(&head, branch)
}

fn add_repo(rows: &mut Vec<DialogRow>, index: usize, a: &GitAudit)
    requires
        index < usize::MAX,
    ensures
        row_views(final(rows)@) == row_views(old(rows)@) + repo_rows(index as nat, *a),
{
    let remote: &str = if a.remote_verified {
        "远端已核实"
    } else {
        "远端未核实"
    };
    put(rows, true, "repo", &repo_label(index, a), remote, &platform::display_path(&a.root), 0);
}

fn add_work(rows: &mut Vec<DialogRow>, a: &GitAudit)
    ensures
        row_views(final(rows)@) == row_views(old(rows)@) + work_rows(*a),
{
    let head: String = glue(&glue(&decimal(a.modified), " 项改动 · "), &decimal(a.staged));
    let work: String = glue(
        &glue(&glue(&head, " 项暂存 · "), &decimal(a.conflicts)),
        " 项冲突",
    );
    put(
        rows,
        a.modified > 0 || a.staged > 0 || a.conflicts > 0,
        "fact",
        "工作区",
        &work,
        "",
        1,
    );
}

fn add_files(rows: &mut Vec<DialogRow>, a: &GitAudit)
    ensures
        row_views(final(rows)@) == row_views(old(rows)@) + file_rows(*a),
{
    let files: String = glue(
        &glue(&glue(&decimal(a.untracked), " 项未跟踪 · "), &decimal(a.ignored)),
        " 项被忽略",
    );
    put(rows, a.untracked > 0 || a.ignored > 0, "fact", "本地文件", &files, "", 1);
}

fn add_local(rows: &mut Vec<DialogRow>, a: &GitAudit)
    ensures
        row_views(final(rows)@) == row_views(old(rows)@) + local_rows(*a),
{
    let local: String = glue(
        &glue(
            &glue(&decimal(a.stashes), " 个 stash · "),
            &decimal(a.local_only_refs.len() as u64),
        ),
        " 个分支或标签未证实已在远端",
    );
    put(
        rows,
        a.stashes > 0 || a.local_only_refs.len() > 0,
        "fact",
        "本地记录",
        &local,
        "",
        1,
    );
}

fn add_remote(rows: &mut Vec<DialogRow>, a: &GitAudit)
    ensures
        row_views(final(rows)@) == row_views(old(rows)@) + remote_rows(*a),
{
    let state: &str = if a.remotes.len() == 0 {
        "没有配置远端"
    } else {
        "尚未在线核实，缓存不能证明远端已有备份"
    };
    put(rows, !a.remote_verified, "fact", "远端状态", state, "", 1);
}

fn add_result(rows: &mut Vec<DialogRow>, a: &GitAudit)
    ensures
        row_views(final(rows)@) == row_views(old(rows)@) + result_rows(*a),
{
    put(
        rows,
        a.risks.len() == 0 && a.modified == 0 && a.staged == 0 && a.untracked == 0 && a.ignored
            == 0 && a.stashes == 0 && a.local_only_refs.len() == 0,
        "fact",
        "检查结果",
        "不能证明这些本地内容可从远端恢复",
        "",
        1,
    );
}

fn add_audit(rows: &mut Vec<DialogRow>, index: usize, a: &GitAudit)
    requires
        index < usize::MAX,
    ensures
        row_views(final(rows)@) == row_views(old(rows)@) + audit_rows(index as nat, *a),
{
    let ghost had = row_views(rows@);
    add_repo(rows, index, a);
    add_work(rows, a);
    add_files(rows, a);
    add_local(rows, a);
    add_remote(rows, a);
    add_risks(rows, &a.risks);
    add_result(rows, a);
    proof {
        lemma_seven(
            had,
            repo_rows(index as nat, *a),
            work_rows(*a),
            file_rows(*a),
            local_rows(*a),
            remote_rows(*a),
            risk_rows(a.risks@, a.risks@.len()),
            result_rows(*a),
        );
    }
}

proof fn lemma_seven(
    h: Seq<RowV>,
    a: Seq<RowV>,
    b: Seq<RowV>,
    c: Seq<RowV>,
    d: Seq<RowV>,
    e: Seq<RowV>,
    f: Seq<RowV>,
    g: Seq<RowV>,
)
    ensures
        h + a + b + c + d + e + f + g == h + (a + b + c + d + e + f + g),
{
    assert(h + a + b + c + d + e + f + g =~= h + (a + b + c + d + e + f + g));
}

fn add_notes(list: &mut Vec<String>, a: &GitAudit)
    ensures
        text::views(final(list)@) == text::views(old(list)@) + audit_notes(*a),
{
    let ghost had = list@;
    let first: String = glue(
        &glue(&platform::display_path(&a.root), "\n"),
        &text::join_by(&a.risks, "\n"),
    );
    list.push(first);
    assert(text::views(list@) =~= text::views(had).push(first@));
    let refs: String = glue("本地引用：", &text::join_by(&a.local_only_refs, "、"));
    text::note(list, a.local_only_refs.len() > 0, &refs);
    assert(text::views(list@) =~= text::views(had) + audit_notes(*a));
}

/// The rows for the first `n` processes that hold a file open.
pub open spec fn owner_rows(owners: Seq<Owner>, n: nat) -> Seq<RowV>
    decreases n,
{
    if n == 0 {
        Seq::empty()
    } else {
        let o = owners[n - 1];
        owner_rows(owners, (n - 1) as nat).push(
            row_of(
                "owner"@,
                if o.name@.len() == 0 {
                    "未知程序"@
                } else {
                    o.name@
                },
                if o.critical {
                    "系统进程 · PID "@ + text::decimal_of(o.pid as nat)
                } else {
                    "PID "@ + text::decimal_of(o.pid as nat)
                },
                ""@,
                if o.critical {
                    1
                } else {
                    0
                },
            ),
        )
    }
}

/// Whether every process that holds a file open may be asked to close: there is one, and
/// none is critical.
pub open spec fn closable(owners: Seq<Owner>) -> bool {
    owners.len() > 0 && forall|i: int| 0 <= i < owners.len() ==> !(#[trigger] owners[i]).critical
}

pub open spec fn lock_rows(owners: Seq<Owner>) -> Seq<RowV> {
    if owners.len() == 0 {
        seq![
            row_of(
                "note"@,
                "未识别占用程序"@,
                "请手动关闭可能正在使用此文件的应用，再重试或跳过。"@,
                ""@,
                1,
            ),
        ]
    } else {
        seq![
            row_of(
                "caption"@,
                "占用程序"@,
                text::decimal_of(owners.len()) + " 个"@,
                ""@,
                0,
            ),
        ] + owner_rows(owners, owners.len()) + row_when(
            !closable(owners),
            row_of(
                "note"@,
                "不能自动关闭"@,
                "列表中包含系统进程或服务。请手动处理，或跳过此项。"@,
                ""@,
                1,
            ),
        )
    }
}

/// A number of at least two digits.
pub open spec fn two_digits(n: nat) -> Seq<char> {
    if n < 10 {
        "0"@ + text::decimal_of(n)
    } else {
        text::decimal_of(n)
    }
}

/// Whether a text looks like a path.
pub open spec fn pathlike(s: Seq<char>) -> bool {
    s.contains('\\') || s.contains('/')
}

/// An error in two parts: a path before the first colon and blank, if there is one, and what
/// is said of it.
pub open spec fn error_parts(e: Seq<char>) -> (Seq<char>, Seq<char>) {
    match text::first_at(e, ": "@, 0) {
        Some(i) => if pathlike(e.subrange(0, i as int)) {
            (e.subrange(0, i as int), e.skip(i as int + 2))
        } else {
            (""@, e)
        },
        None => (""@, e),
    }
}

/// The rows of the first `n` errors, numbered.
pub open spec fn issue_rows(errors: Seq<String>, n: nat) -> Seq<RowV>
    decreases n,
{
    if n == 0 {
        Seq::empty()
    } else {
        let (path, detail) = error_parts(errors[n - 1]@);
        issue_rows(errors, (n - 1) as nat).push(
            row_of("issue"@, two_digits(n), detail, path, 1),
        )
    }
}

fn is_pathlike(s: &Vec<char>) -> (r: bool)
    ensures
        r == pathlike(s@),
{
    let mut i: usize = 0;
    while i < s.len()
        invariant
            i <= s@.len(),
            forall|k: int| 0 <= k < i ==> #[trigger] s@[k] != '\\' && s@[k] != '/',
        decreases s@.len() - i,
    {
        let c: char = s[i];
        if c == '\\' || c == '/' {
            assert(s@[i as int] == c);
            return true;
        }
        i += 1;
    }
    false
}

fn split_error(e: &str) -> (r: (String, String))
    ensures
        (r.0@, r.1@) == error_parts(e@),
{
    let chars: Vec<char> = text::chars_of(e);
    proof {
        reveal_strlit(": ");
        reveal_strlit("");
    }
    match text::find(&chars, &text::chars_of(": ")) {
        None => ("".to_owned(), e.to_owned()),
        Some(i) => {
            let path: Vec<char> = text::part(&chars, 0, i);
            if is_pathlike(&path) {
                let total: usize = chars.len();
                assert(i + 2 <= total);
                let rest: Vec<char> = text::part(&chars, i + 2, total);
                assert(rest@ =~= e@.skip(i as int + 2));
                (text::text_of(&path), text::text_of(&rest))
            } else {
                ("".to_owned(), e.to_owned())
            }
        },
    }
}

impl Dialog {
    /// The raw diagnostics as they are shown: line by line, made safe.
    pub open spec fn technical_lines(&self) -> Seq<Seq<char>> {
        text::lines_of(self.technical@).map_values(|s: Seq<char>| report::safe_of(s))
    }

    pub fn shown_technical(&self) -> (r: String)
        ensures
            r@ == text::joined_by(self.technical_lines(), "\n"@),
    {
        let lines: Vec<String> = text::lines(&self.technical);
        let mut out: Vec<String> = Vec::new();
        let mut i: usize = 0;
        let ghost want = self.technical_lines();
        assert(text::views(out@) =~= want.subrange(0, 0));
        while i < lines.len()
            invariant
                i <= lines@.len(),
                text::views(lines@) == text::lines_of(self.technical@),
                want == self.technical_lines(),
                text::views(out@) == want.subrange(0, i as int),
            decreases lines@.len() - i,
        {
            let ghost had = out@;
            let one: String = safe_text(&lines[i]);
            out.push(one);
            assert(text::views(lines@)[i as int] == lines@[i as int]@);
            assert(text::views(out@) =~= text::views(had).push(one@));
            i += 1;
            assert(text::views(out@) =~= want.subrange(0, i as int));
        }
        assert(text::views(out@) =~= want);
        text::join_by(&out, "\n")
    }

    /// What this program is.
    pub fn about(version: &str) -> (r: Self)
        ensures
            r@ == (DialogV {
                kind: "about"@,
                title: "Disk Cleaner"@,
                summary: "Windows 磁盘分析与人工确认清理"@,
                path: ""@,
                notice: ""@,
                rows: seq![
                    row_of("fact"@, "版本"@, version@, ""@, 0),
                    row_of(
                        "fact"@,
                        "扫描后端"@,
                        "NTFS / ReFS 卷原始索引；fs 为普通目录枚举"@,
                        ""@,
                        0,
                    ),
                    row_of(
                        "fact"@,
                        "删除方式"@,
                        "先标记、再审阅；命令行不会删除文件。"@,
                        ""@,
                        0,
                    ),
                ],
                technical: ""@,
                can_close_owners: false,
            }),
    {
        let mut rows: Vec<DialogRow> = Vec::new();
        put(&mut rows, true, "fact", "版本", version, "", 0);
        put(
            &mut rows,
            true,
            "fact",
            "扫描后端",
            "NTFS / ReFS 卷原始索引；fs 为普通目录枚举",
            "",
            0,
        );
        put(
            &mut rows,
            true,
            "fact",
            "删除方式",
            "先标记、再审阅；命令行不会删除文件。",
            "",
            0,
        );
        let r = Dialog {
            kind: "about",
            title: "Disk Cleaner".to_owned(),
            summary: "Windows 磁盘分析与人工确认清理".to_owned(),
            path: "".to_owned(),
            notice: "".to_owned(),
            rows,
            technical: "".to_owned(),
            can_close_owners: false,
        };
        assert(r@.rows =~= seq![
            row_of("fact"@, "版本"@, version@, ""@, 0),
            row_of(
                "fact"@,
                "扫描后端"@,
                "NTFS / ReFS 卷原始索引；fs 为普通目录枚举"@,
                ""@,
                0,
            ),
            row_of(
                "fact"@,
                "删除方式"@,
                "先标记、再审阅；命令行不会删除文件。"@,
                ""@,
                0,
            ),
        ]);
        r
    }

    /// Asks whether to mark a whole directory in place of `count` targets below it.
    pub fn promotion(path: &str, count: usize) -> (r: Self)
        ensures
            r@ == (DialogV {
                kind: "promote"@,
                title: "标记整个目录？"@,
                summary: "只更改标记，不会立即删除文件。"@,
                path: platform::shown(path@),
                notice: "更改后会重新读取清单，并要求你再次勾选确认。"@,
                rows: seq![
                    row_of(
                        "fact"@,
                        "当前"@,
                        text::decimal_of(count as nat) + " 个已标记目标"@,
                        ""@,
                        0,
                    ),
                    row_of("fact"@, "更改后"@, "整个目录，包括尚未标记的内容"@, ""@, 1),
                ],
                technical: ""@,
                can_close_owners: false,
            }),
    {
        let mut rows: Vec<DialogRow> = Vec::new();
        put(
            &mut rows,
            true,
            "fact",
            "当前",
            &glue(&decimal(count as u64), " 个已标记目标"),
            "",
            0,
        );
        put(&mut rows, true, "fact", "更改后", "整个目录，包括尚未标记的内容", "", 1);
        let r = Dialog {
            kind: "promote",
            title: "标记整个目录？".to_owned(),
            summary: "只更改标记，不会立即删除文件。".to_owned(),
            path: platform::display_path(path),
            notice: "更改后会重新读取清单，并要求你再次勾选确认。".to_owned(),
            rows,
            technical: "".to_owned(),
            can_close_owners: false,
        };
        assert(r@.rows =~= seq![
            row_of(
                "fact"@,
                "当前"@,
                text::decimal_of(count as nat) + " 个已标记目标"@,
                ""@,
                0,
            ),
            row_of("fact"@, "更改后"@, "整个目录，包括尚未标记的内容"@, ""@, 1),
        ]);
        r
    }

    /// Tells what may exist in repositories on this machine alone.
    pub fn git(audits: &[&GitAudit]) -> (r: Self)
        ensures
            r@ == (DialogV {
                kind: "git"@,
                title: "Git 数据可能只在本机"@,
                summary: text::decimal_of(audits@.len())
                    + " 个相关仓库需要确认。继续将永久删除已勾选的内容。"@,
                path: ""@,
                notice: "以上是仓库整体状态；实际删除范围以树中勾选的项目为准。"@,
                rows: git_rows(audits@, audits@.len()),
                technical: text::joined_by(git_notes(audits@, audits@.len()), "\n\n"@),
                can_close_owners: false,
            }),
    {
        let mut rows: Vec<DialogRow> = Vec::new();
        let mut technical: Vec<String> = Vec::new();
        let mut i: usize = 0;
        assert(row_views(rows@) =~= git_rows(audits@, 0));
        assert(text::views(technical@) =~= git_notes(audits@, 0));
        while i < audits.len()
            invariant
                i <= audits@.len(),
                row_views(rows@) == git_rows(audits@, i as nat),
                text::views(technical@) == git_notes(audits@, i as nat),
            decreases audits@.len() - i,
        {
            add_audit(&mut rows, i, audits[i]);
            add_notes(&mut technical, audits[i]);
            i += 1;
        }
        Dialog {
            kind: "git",
            title: "Git 数据可能只在本机".to_owned(),
            summary: glue(
                &decimal(audits.len() as u64),
                " 个相关仓库需要确认。继续将永久删除已勾选的内容。",
            ),
            path: "".to_owned(),
            notice: "以上是仓库整体状态；实际删除范围以树中勾选的项目为准。".to_owned(),
            rows,
            technical: text::join_by(&technical, "\n\n"),
            can_close_owners: false,
        }
    }

    /// Tells who holds a file open.
    pub fn locked(path: &str, owners: &[Owner], detail: &str) -> (r: Self)
        ensures
            r@ == (DialogV {
                kind: "lock"@,
                title: "文件无法访问"@,
                summary: "删除已暂停。请先保存相关应用中的工作。"@,
                path: path@,
                notice: if closable(owners@) {
                    "请求关闭应用可能影响其打开的其他文件。"@
                } else {
                    ""@
                },
                rows: lock_rows(owners@),
                technical: detail@,
                can_close_owners: closable(owners@),
            }),
    {
        let mut rows: Vec<DialogRow> = Vec::new();
        let mut calm: bool = true;
        let none: bool = owners.len() == 0;
        put(
            &mut rows,
            none,
            "note",
            "未识别占用程序",
            "请手动关闭可能正在使用此文件的应用，再重试或跳过。",
            "",
            1,
        );
        put(
            &mut rows,
            !none,
            "caption",
            "占用程序",
            &glue(&decimal(owners.len() as u64), " 个"),
            "",
            0,
        );
        let ghost head = row_views(rows@);
        let mut i: usize = 0;
        assert(head + owner_rows(owners@, 0) =~= head);
        while i < owners.len()
            invariant
                i <= owners@.len(),
                calm == (forall|k: int| 0 <= k < i ==> !(#[trigger] owners@[k]).critical),
                row_views(rows@) == head + owner_rows(owners@, i as nat),
            decreases owners@.len() - i,
        {
            let o: &Owner = &owners[i];
            let unnamed: bool = text::same(&o.name, "");
            proof {
                reveal_strlit("");
                if unnamed {
                    assert(o.name@.len() == 0);
                } else if o.name@.len() == 0 {
                    assert(o.name@ =~= ""@);
                }
            }
            let name: &str = if unnamed {
                "未知程序"
            } else {
                o.name.as_str()
            };
            let value: String = if o.critical {
                glue("系统进程 · PID ", &decimal(o.pid as u64))
            } else {
                glue("PID ", &decimal(o.pid as u64))
            };
            let severity: i32 = if o.critical {
                1
            } else {
                0
            };
            put(&mut rows, true, "owner", name, &value, "", severity);
            if o.critical {
                assert(owners@[i as int].critical);
                calm = false;
            }
            i += 1;
            assert(row_views(rows@) =~= head + owner_rows(owners@, i as nat));
        }
        let can_close: bool = !none && calm;
        put(
            &mut rows,
            !none && !can_close,
            "note",
            "不能自动关闭",
            "列表中包含系统进程或服务。请手动处理，或跳过此项。",
            "",
            1,
        );
        assert(can_close == closable(owners@));
        assert(row_views(rows@) =~= lock_rows(owners@));
        let notice: &str = if can_close {
            "请求关闭应用可能影响其打开的其他文件。"
        } else {
            ""
        };
        Dialog {
            kind: "lock",
            title: "文件无法访问".to_owned(),
            summary: "删除已暂停。请先保存相关应用中的工作。".to_owned(),
            path: path.to_owned(),
            notice: notice.to_owned(),
            rows,
            technical: detail.to_owned(),
            can_close_owners: can_close,
        }
    }

    /// Tells what went wrong.
    pub fn error(title: &str, summary: &str, errors: &[String], warning: &str) -> (r: Self)
        ensures
            r@ == (DialogV {
                kind: "error"@,
                title: title@,
                summary: summary@,
                path: ""@,
                notice: warning@,
                rows: issue_rows(errors@, errors@.len()),
                technical: ""@,
                can_close_owners: false,
            }),
    {
        let mut rows: Vec<DialogRow> = Vec::new();
        let mut i: usize = 0;
        assert(row_views(rows@) =~= issue_rows(errors@, 0));
        while i < errors.len()
            invariant
                i <= errors@.len(),
                row_views(rows@) == issue_rows(errors@, i as nat),
            decreases errors@.len() - i,
        {
            let (path, detail): (String, String) = split_error(&errors[i]);
            i += 1;
            let number: String = decimal(i as u64);
            let label: String = if i < 10 {
                glue("0", &number)
            } else {
                number
            };
            put(&mut rows, true, "issue", &label, &detail, &path, 1);
            assert(row_views(rows@) =~= issue_rows(errors@, i as nat));
        }
        Dialog {
            kind: "error",
            title: title.to_owned(),
            summary: summary.to_owned(),
            path: "".to_owned(),
            notice: warning.to_owned(),
            rows,
            technical: "".to_owned(),
            can_close_owners: false,
        }
    }

    /// Tells why deleting cannot begin.
    pub fn approval_error(error: &str) -> (r: Self)
        ensures
            r@ == (DialogV {
                kind: "error"@,
                title: "不能开始删除"@,
                summary: "安全校验未通过。请检查标记和 Git 风险。"@,
                path: ""@,
                notice: "没有开始删除。"@,
                rows: seq![
                    row_of("issue"@, "01"@, error_parts(error@).1, error_parts(error@).0, 1),
                ],
                technical: ""@,
                can_close_owners: false,
            }),
    {
        let mut one: Vec<String> = Vec::new();
        one.push(error.to_owned());
        let r = Dialog::error(
            "不能开始删除",
            "安全校验未通过。请检查标记和 Git 风险。",
            &one,
            "没有开始删除。",
        );
        proof {
            reveal_strlit("0");
            reveal_strlit("01");
            reveal_with_fuel(issue_rows, 2);
            assert(one@[0]@ == error@);
            assert(text::decimal_of(1) == seq!['1']);
            assert(two_digits(1) =~= "01"@);
            assert(r@.rows =~= seq![
                row_of("issue"@, "01"@, error_parts(error@).1, error_parts(error@).0, 1),
            ]);
        }
        r
    }

    /// Tells what was not deleted.
    pub fn partial_outcome(outcome: &Outcome) -> (r: Self)
        ensures
            r@ == (DialogV {
                kind: "error"@,
                title: "部分项目未删除"@,
                summary: "已删除 "@ + text::decimal_of(outcome.removed as nat) + " 项，失败 "@
                    + text::decimal_of(outcome.failed as nat) + " 项。失败项目仍保留在标记中。"@,
                path: ""@,
                notice: "已完成的删除无法撤销。"@,
                rows: issue_rows(outcome.errors@, outcome.errors@.len()),
                technical: ""@,
                can_close_owners: false,
            }),
    {
        let head: String = glue(&glue("已删除 ", &decimal(outcome.removed)), " 项，失败 ");
        let summary: String = glue(
            &glue(&head, &decimal(outcome.failed)),
            " 项。失败项目仍保留在标记中。",
        );
        Dialog::error("部分项目未删除", &summary, &outcome.errors, "已完成的删除无法撤销。")
    }
}

/// A file whose owners are unknown, or one of whose owners is critical, never offers to
/// close anything.
pub proof fn law_only_known_owners_are_closable(owners: Seq<Owner>, i: int)
    requires
        closable(owners),
        0 <= i < owners.len(),
    ensures
        owners.len() > 0,
        !owners[i].critical,
{
}

/// What a repository holds of its own is told: changes, files that are not tracked, stashes
/// and refs, and an unverified remote, each in a row if there is any; and where none of that
/// explains the risk, that nothing could be proved.
pub proof fn law_every_local_fact_is_told(index: nat, a: GitAudit)
    ensures
        work_rows(a).len() == (if a.modified > 0 || a.staged > 0 || a.conflicts > 0 {
            1int
        } else {
            0
        }),
        file_rows(a).len() == (if a.untracked > 0 || a.ignored > 0 {
            1int
        } else {
            0
        }),
        local_rows(a).len() == (if a.stashes > 0 || a.local_only_refs@.len() > 0 {
            1int
        } else {
            0
        }),
        remote_rows(a).len() == (if a.remote_verified {
            0int
        } else {
            1
        }),
        a.risks@.len() == 0 && a.modified == 0 && a.staged == 0 && a.untracked == 0 && a.ignored
            == 0 && a.stashes == 0 && a.local_only_refs@.len() == 0 ==> result_rows(a).len() == 1,
        audit_rows(index, a).len() == 1 + work_rows(a).len() + file_rows(a).len() + local_rows(
            a,
        ).len() + remote_rows(a).len() + risk_rows(a.risks@, a.risks@.len()).len() + result_rows(
            a,
        ).len(),
        audit_rows(index, a)[0].path == report::safe_of(platform::shown(a.root@)),
{
}

/// Owners may be closed from the dialog exactly if some are known and none is critical.
pub proof fn law_closing_is_offered_only_for_harmless_owners(owners: Seq<Owner>)
    ensures
        closable(owners) <==> owners.len() > 0 && !(exists|i: int|
            0 <= i < owners.len() && (#[trigger] owners[i]).critical),
{
}

proof fn lemma_owner_rows(owners: Seq<Owner>, n: nat)
    requires
        n <= owners.len(),
    ensures
        owner_rows(owners, n).len() == n,
    decreases n,
{
    if n > 0 {
        lemma_owner_rows(owners, (n - 1) as nat);
    }
}

/// Every owner of an occupied file is listed, and where they cannot be closed that is said.
pub proof fn law_every_owner_is_listed(owners: Seq<Owner>)
    ensures
        owners.len() == 0 ==> lock_rows(owners).len() == 1,
        owners.len() > 0 ==> lock_rows(owners).len() == 1 + owners.len() + (if closable(owners) {
            0int
        } else {
            1
        }),
{
    lemma_owner_rows(owners, owners.len());
}

/// An error that begins with a path is told under that path, and nothing of it is lost.
pub proof fn law_errors_are_told_under_their_path(e: Seq<char>)
    ensures
        ({
            let (path, detail) = error_parts(e);
            &&& path.len() == 0 ==> detail == e || e == ": "@ + detail
            &&& path.len() > 0 ==> e == path + ": "@ + detail && (path.contains('\\')
                || path.contains('/'))
        }),
{
    text::law_texts_are_found_at_their_first_place(e, ": "@, 0);
    reveal_strlit(": ");
    reveal_strlit("");
    match text::first_at(e, ": "@, 0) {
        Some(i) => {
            let k = i as int;
            assert(e.subrange(k, k + 2) == ": "@);
            assert(e.subrange(0, k) + e.subrange(k, k + 2) + e.skip(k + 2) =~= e);
        },
        None => {},
    }
}

} // verus!
