//! What the review window lets happen, and in which words.
use crate::deletion;
use crate::deletion::{selected_git, Prepared};
use crate::executor::Outcome;
use crate::git_audit::GitAudit;
use crate::locks::Owner;
use crate::platform;
use crate::platform::Identity;
use crate::review;
use crate::review_tree::PAGE_SIZE;
use crate::selection::TreeSelection;
use crate::text;
use crate::text::{decimal, glue};
use crate::window_state::Window;
use vstd::prelude::*;
use vstd::string::*;

verus! {

/// The keys that are expanded, without this one.
pub open spec fn without(expanded: Seq<(i32, usize)>, key: i32) -> Seq<(i32, usize)>
    decreases expanded.len(),
{
    if expanded.len() == 0 {
        expanded
    } else if expanded[0].0 == key {
        without(expanded.skip(1), key)
    } else {
        seq![expanded[0]] + without(expanded.skip(1), key)
    }
}

proof fn lemma_without(e: Seq<(i32, usize)>, key: i32, k: i32)
    ensures
        review::limit_of(without(e, key), k) == (if k == key {
            None
        } else {
            review::limit_of(e, k)
        }),
    decreases e.len(),
{
    if e.len() > 0 {
        lemma_without(e.skip(1), key, k);
        if e[0].0 != key {
            let w = without(e, key);
            assert(w[0] == e[0]);
            assert(w.skip(1) =~= without(e.skip(1), key));
        }
    }
}

proof fn lemma_pushed(e: Seq<(i32, usize)>, key: i32, n: usize, k: i32)
    ensures
        review::limit_of(e.push((key, n)), k) == (match review::limit_of(e, k) {
            Some(m) => Some(m),
            None => if k == key {
                Some(n)
            } else {
                None
            },
        }),
    decreases e.len(),
{
    let p = e.push((key, n));
    if e.len() == 0 {
        assert(p[0] == (key, n));
        assert(p.skip(1) =~= Seq::<(i32, usize)>::empty());
        assert(review::limit_of(p.skip(1), k) is None);
    } else {
        assert(p[0] == e[0]);
        assert(p.skip(1) =~= e.skip(1).push((key, n)));
        lemma_pushed(e.skip(1), key, n, k);
    }
}

/// How many children are shown after a click: more of them, or all of a page or none.
pub open spec fn after_click(limit: Option<usize>, more: bool) -> Option<usize> {
    if more {
        let now = match limit {
            Some(n) => n,
            None => PAGE_SIZE,
        };
        Some(
            if now + PAGE_SIZE <= usize::MAX {
                (now + PAGE_SIZE) as usize
            } else {
                usize::MAX
            },
        )
    } else if limit is Some {
        None
    } else {
        Some(PAGE_SIZE)
    }
}

/// Expands or collapses a row, or shows more of it; other rows stay as they are.
pub fn toggle(expanded: &mut Vec<(i32, usize)>, key: i32, more: bool)
    ensures
        forall|k: i32| #[trigger]
            review::limit_of(final(expanded)@, k) == (if k == key {
                after_click(review::limit_of(old(expanded)@, key), more)
            } else {
                review::limit_of(old(expanded)@, k)
            }),
{
    let ghost before = expanded@;
    let limit: Option<usize> = review::shown_limit(expanded, key);
    let mut out: Vec<(i32, usize)> = Vec::new();
    let mut i: usize = 0;
    assert(before.skip(0) =~= before);
    assert(out@ + without(before.skip(0), key) =~= without(before, key));
    while i < expanded.len()
        invariant
            i <= expanded@.len(),
            expanded@ == before,
            out@ + without(before.skip(i as int), key) == without(before, key),
        decreases expanded@.len() - i,
    {
        let one: (i32, usize) = expanded[i];
        let ghost rest = before.skip(i as int);
        let ghost had = out@;
        assert(rest[0] == one);
        assert(rest.skip(1) =~= before.skip(i + 1));
        if one.0 != key {
            out.push(one);
            assert(out@ + without(before.skip(i + 1), key) =~= had + without(rest, key));
        }
        i += 1;
    }
    assert(out@ =~= without(before, key));
    let ghost left = out@;
    if more {
        let now: usize = match limit {
            Some(n) => n,
            None => PAGE_SIZE,
        };
        out.push((key, now.saturating_add(PAGE_SIZE)));
    } else if limit.is_none() {
        out.push((key, PAGE_SIZE));
    }
    proof {
        assert forall|k: i32| #[trigger] review::limit_of(out@, k) == (if k == key {
            after_click(review::limit_of(before, key), more)
        } else {
            review::limit_of(before, k)
        }) by {
            lemma_without(before, key, k);
            if out@.len() > left.len() {
                lemma_pushed(left, key, out@.last().1, k);
                assert(out@ =~= left.push((key, out@.last().1)));
            }
        }
    }
    *expanded = out;
}

/// What follows the wish to delete.
#[derive(Clone, Copy, Debug, PartialEq, Eq, Structural)]
pub enum DeleteStep {
    Ignore,
    AskGit,
    Begin,
}

/// Repositories that need to be confirmed are asked for first.
pub open spec fn step_after(window: Window, prepared: Prepared, chosen: Seq<TreeSelection>) -> DeleteStep {
    if window.busy || !window.reviewed {
        DeleteStep::Ignore
    } else if deletion::chosen_risk(prepared, chosen) {
        DeleteStep::AskGit
    } else {
        DeleteStep::Begin
    }
}

pub fn delete_step(window: &Window, prepared: &Prepared, chosen: &[TreeSelection]) -> (r: DeleteStep)
    requires
        prepared.sound(),
        deletion::covers(*prepared, chosen@),
        deletion::paired(*prepared, chosen@),
    ensures
        r == step_after(*window, *prepared, chosen@),
{
    if window.busy || !window.reviewed {
        DeleteStep::Ignore
    } else if deletion::selected_git_risk(prepared, chosen) {
        DeleteStep::AskGit
    } else {
        DeleteStep::Begin
    }
}

/// What is said of one repository.
pub open spec fn repo_text(a: GitAudit) -> Seq<char> {
    platform::shown(a.root@) + "\n"@ + a.line() + "\n"@ + text::joined_by(
        text::views(a.risks@),
        "\n"@,
    ) + "\n\n"@
}

/// What is said of the first `n` repositories of a list that need to be confirmed.
pub open spec fn repo_texts(git: Seq<GitAudit>, picks: Seq<usize>, n: nat) -> Seq<char>
    decreases n,
{
    if n == 0 {
        Seq::empty()
    } else {
        let before = repo_texts(git, picks, (n - 1) as nat);
        let a = git[picks[n - 1] as int];
        if a.risky() {
            before + repo_text(a)
        } else {
            before
        }
    }
}

/// The second question before repositories are touched.
pub open spec fn git_question_text(prepared: Prepared, chosen: Seq<TreeSelection>) -> Seq<char> {
    let picks = deletion::concerned(prepared, chosen);
    "以下仓库存在未同步、本地独有或无法核实的数据。忽略项也可能包含重要文件；它们不会因为被 gitignore 就变得安全。\n\n"@
        + repo_texts(prepared.git@, picks, picks.len())
        + "继续后，这些标记路径中的本地内容将被永久删除。"@
}

fn say_repo(a: &GitAudit) -> (r: String)
    ensures
        r@ == repo_text(*a),
{
    let head: String = glue(&glue(&platform::display_path(&a.root), "\n"), &a.concise());
    let tail: String = glue(&glue(&head, "\n"), &text::join_by(&a.risks, "\n"));
    glue(&tail, "\n\n")
}

pub fn git_question(prepared: &Prepared, chosen: &[TreeSelection]) -> (r: String)
    requires
        prepared.sound(),
        deletion::covers(*prepared, chosen@),
        deletion::paired(*prepared, chosen@),
    ensures
        r@ == git_question_text(*prepared, chosen@),
{
    let picks: Vec<usize> = selected_git(prepared, chosen);
    let mut body: String = String::new();
    let mut i: usize = 0;
    while i < picks.len()
        invariant
            i <= picks@.len(),
            forall|k: int| 0 <= k < picks@.len() ==> (#[trigger] picks@[k]) < prepared.git@.len(),
            body@ == repo_texts(prepared.git@, picks@, i as nat),
        decreases picks@.len() - i,
    {
        let a: &GitAudit = &prepared.git[picks[i]];
        if a.needs_confirmation() {
            body.append(&say_repo(a));
        }
        i += 1;
    }
    let head: String = glue(
        "以下仓库存在未同步、本地独有或无法核实的数据。忽略项也可能包含重要文件；它们不会因为被 gitignore 就变得安全。\n\n",
        &body,
    );
    glue(&head, "继续后，这些标记路径中的本地内容将被永久删除。")
}

/// What is said of the first `n` processes that hold a file open.
pub open spec fn owner_texts(owners: Seq<Owner>, n: nat) -> Seq<char>
    decreases n,
{
    if n == 0 {
        Seq::empty()
    } else {
        let o = owners[n - 1];
        owner_texts(owners, (n - 1) as nat) + ("• "@ + o.name@ + "  (PID "@ + text::decimal_of(
            o.pid as nat,
        ) + ")"@ + (if o.critical {
            " [关键进程 / 服务：不会关闭]"@
        } else {
            ""@
        }) + "\n"@)
    }
}

/// The question what to do about an occupied file.
pub open spec fn lock_question_text(path: Seq<char>, owners: Seq<Owner>, detail: Seq<char>) -> Seq<
    char,
> {
    "目标："@ + path + "\n\n"@ + detail + "\n\nWindows Restart Manager 检测到：\n"@ + (if owners.len()
        == 0 {
        "无法安全识别占用者。请手动关闭相关程序，再点重试；不会盲目关闭进程。"@
    } else {
        owner_texts(owners, owners.len())
    }) + "\n关闭应用可能影响其他已打开的文件，请先保存工作。"@
}

fn say_owner(o: &Owner) -> (r: String)
    ensures
        r@ == "• "@ + o.name@ + "  (PID "@ + text::decimal_of(o.pid as nat) + ")"@ + (
        if o.critical {
            " [关键进程 / 服务：不会关闭]"@
        } else {
            ""@
        }) + "\n"@,
{
    let head: String = glue(&glue("• ", &o.name), "  (PID ");
    let middle: String = glue(&glue(&head, &decimal(o.pid as u64)), ")");
    let note: &str = if o.critical {
        " [关键进程 / 服务：不会关闭]"
    } else {
        ""
    };
    glue(&glue(&middle, note), "\n")
}

pub fn lock_question(path: &str, owners: &[Owner], detail: &str) -> (r: String)
    ensures
        r@ == lock_question_text(path@, owners@, detail@),
{
    let mut list: String = String::new();
    let mut i: usize = 0;
    while i < owners.len()
        invariant
            i <= owners@.len(),
            list@ == owner_texts(owners@, i as nat),
        decreases owners@.len() - i,
    {
        list.append(&say_owner(&owners[i]));
        i += 1;
    }
    let who: String = if owners.len() == 0 {
        "无法安全识别占用者。请手动关闭相关程序，再点重试；不会盲目关闭进程。".to_owned()
    } else {
        list
    };
    let head: String = glue(&glue(&glue("目标：", path), "\n\n"), detail);
    let middle: String = glue(&glue(&head, "\n\nWindows Restart Manager 检测到：\n"), &who);
    glue(&middle, "\n关闭应用可能影响其他已打开的文件，请先保存工作。")
}

/// The question whether to mark a whole directory.
pub open spec fn promotion_text(path: Seq<char>, count: nat) -> Seq<char> {
    "当前分组："@ + platform::shown(path) + "\n\n目前的复选框只控制下方 "@ + text::decimal_of(count)
        + " 个已标记目标；分组目录本身不会被删除。\n\n升级后将撤销这些子目标标记，改为标记整个目录，包括当前未标记的文件和子目录。窗口会重新读取清单，所有勾选与永久删除确认均需重新进行。\n\n仅在你确认整个目录都不再需要时继续。"@
}

pub fn promotion_question(path: &str, count: usize) -> (r: String)
    ensures
        r@ == promotion_text(path@, count as nat),
{
    let head: String = glue(
        &glue("当前分组：", &platform::display_path(path)),
        "\n\n目前的复选框只控制下方 ",
    );
    glue(
        &glue(&head, &decimal(count as u64)),
        " 个已标记目标；分组目录本身不会被删除。\n\n升级后将撤销这些子目标标记，改为标记整个目录，包括当前未标记的文件和子目录。窗口会重新读取清单，所有勾选与永久删除确认均需重新进行。\n\n仅在你确认整个目录都不再需要时继续。",
    )
}

/// How far deleting has come.
pub fn progress_label(done: u64, total: u64, removed: u64, failed: u64) -> (r: String)
    ensures
        r@ == text::decimal_of(done as nat) + "/"@ + text::decimal_of(total as nat) + " · 已删 "@
            + text::decimal_of(removed as nat) + " · 失败 "@ + text::decimal_of(failed as nat),
{
    let head: String = glue(&glue(&decimal(done), "/"), &decimal(total));
    let middle: String = glue(&glue(&head, " · 已删 "), &decimal(removed));
    glue(&glue(&middle, " · 失败 "), &decimal(failed))
}

/// How it ended.
pub fn finished_label(outcome: &Outcome, note: Option<&str>) -> (r: String)
    ensures
        r@ == "已删除 "@ + text::decimal_of(outcome.removed as nat) + " · 失败 "@ + text::decimal_of(
            outcome.failed as nat,
        ) + (match note {
            Some(n) => " · "@ + n@,
            None => ""@,
        }),
{
    let head: String = glue(&glue("已删除 ", &decimal(outcome.removed)), " · 失败 ");
    let middle: String = glue(&head, &decimal(outcome.failed));
    let tail: String = match note {
        Some(n) => glue(" · ", n),
        None => "".to_owned(),
    };
    glue(&middle, &tail)
}

pub fn finished_status(cancelled: bool) -> (r: &'static str)
    ensures
        r@ == (if cancelled {
            "已按要求停止。未处理的标记保留，已删除内容不能恢复。"@
        } else {
            "操作结束。未成功删除的目标仍保留在标记列表中。"@
        }),
{
    if cancelled {
        "已按要求停止。未处理的标记保留，已删除内容不能恢复。"
    } else {
        "操作结束。未成功删除的目标仍保留在标记列表中。"
    }
}

/// How many repositories need to be confirmed.
pub open spec fn risk_count(git: Seq<GitAudit>, n: nat) -> nat
    decreases n,
{
    if n == 0 {
        0
    } else {
        risk_count(git, (n - 1) as nat) + (if git[n - 1].risky() {
            1nat
        } else {
            0
        })
    }
}

/// What is said once a review is ready.
#[derive(Debug)]
pub struct ReadyTexts {
    pub git_risk: bool,
    pub git_title: String,
    pub git_detail: &'static str,
    pub status: String,
}

pub fn ready_texts(prepared: &Prepared) -> (r: ReadyTexts)
    ensures
        ({
            let risks = risk_count(prepared.git@, prepared.git@.len());
            &&& r.git_risk == (risks > 0)
            &&& r.git_title@ == (if risks > 0 {
                text::decimal_of(risks) + " 处待确认"@
            } else {
                "检查完成"@
            })
            &&& r.git_detail@ == (if prepared.git@.len() == 0 {
                "未发现相关 Git 仓库"@
            } else if risks > 0 {
                "包含本地数据或尚未核实远端"@
            } else {
                "本次检查未发现未同步内容"@
            })
            &&& r.status@ == (if prepared.problems@.len() == 0 {
                "请展开检查目标，然后勾选确认。"@
            } else {
                text::decimal_of(prepared.problems@.len()) + " 项安全校验未通过，禁止执行。"@
            })
        }),
{
    let mut risks: usize = 0;
    let mut i: usize = 0;
    while i < prepared.git.len()
        invariant
            i <= prepared.git@.len(),
            risks <= i,
            risks == risk_count(prepared.git@, i as nat),
        decreases prepared.git@.len() - i,
    {
        if prepared.git[i].needs_confirmation() {
            risks += 1;
        }
        i += 1;
    }
    ReadyTexts {
        git_risk: risks > 0,
        git_title: if risks > 0 {
            glue(&decimal(risks as u64), " 处待确认")
        } else {
            "检查完成".to_owned()
        },
        git_detail: if prepared.git.len() == 0 {
            "未发现相关 Git 仓库"
        } else if risks > 0 {
            "包含本地数据或尚未核实远端"
        } else {
            "本次检查未发现未同步内容"
        },
        status: if prepared.problems.len() == 0 {
            "请展开检查目标，然后勾选确认。".to_owned()
        } else {
            glue(&decimal(prepared.problems.len() as u64), " 项安全校验未通过，禁止执行。")
        },
    }
}

/// What is known of the saved scan of a task when the task is done.
#[derive(Clone, Copy, Debug)]
pub struct SavedScan {
    /// Its name ends as those of scans do.
    pub scan_name: bool,
    /// It lies with the plan or below it.
    pub with_plan: bool,
    /// So many targets are still marked.
    pub still_marked: usize,
    /// What it was when the review began.
    pub original: Identity,
    /// What it is now.
    pub current: Identity,
}

/// Whether the saved scan of a task is to be removed: everything was handled without a
/// fault, nothing is marked any more, and the very file that was reviewed is still there
/// unchanged.
pub open spec fn retired(outcome: Outcome, scan: SavedScan) -> bool {
    &&& !outcome.cancelled
    &&& outcome.failed == 0
    &&& outcome.errors@.len() == 0
    &&& scan.scan_name
    &&& scan.with_plan
    &&& scan.still_marked == 0
    &&& !scan.current.reparse()
    &&& scan.current.same(scan.original)
    &&& scan.current.length == scan.original.length
    &&& scan.current.modified == scan.original.modified
}

pub fn retires_scan(outcome: &Outcome, scan: &SavedScan) -> (r: bool)
    ensures
        r == retired(*outcome, *scan),
{
    !outcome.cancelled && outcome.failed == 0 && outcome.errors.len() == 0 && scan.scan_name
        && scan.with_plan && scan.still_marked == 0 && !scan.current.is_reparse()
        && scan.current.same_file(&scan.original) && scan.current.length == scan.original.length
        && scan.current.modified == scan.original.modified
}

/// Nothing begins to be deleted at once while something runs, unreviewed, or where a
/// repository needs to be confirmed.
pub proof fn law_only_reviewed_deletions_begin(
    window: Window,
    prepared: Prepared,
    chosen: Seq<TreeSelection>,
)
    ensures
        step_after(window, prepared, chosen) == DeleteStep::Begin ==> window.reviewed
            && !window.busy && !deletion::chosen_risk(prepared, chosen),
{
}

/// The scan that a review was made from goes only after a run without any failure, once
/// nothing is marked any more, and only if it is still the same file, unchanged and no link.
pub proof fn law_only_a_used_up_scan_goes(outcome: Outcome, scan: SavedScan)
    ensures
        retired(outcome, scan) <==> {
            &&& !outcome.cancelled && outcome.failed == 0 && outcome.errors@.len() == 0
            &&& scan.scan_name && scan.with_plan && scan.still_marked == 0
            &&& scan.current.attributes & 0x400 == 0
            &&& scan.current.volume == scan.original.volume
            &&& scan.current.id@ == scan.original.id@
            &&& scan.current.length == scan.original.length
            &&& scan.current.modified == scan.original.modified
        },
{
}

/// Nothing is deleted before the selection was ticked as reviewed, nor while something is
/// going on, nor without asking where a repository at risk is touched.
pub proof fn law_deleting_begins_only_after_review(
    window: Window,
    prepared: Prepared,
    chosen: Seq<TreeSelection>,
)
    ensures
        step_after(window, prepared, chosen) == DeleteStep::Begin ==> window.reviewed
            && !window.busy && !deletion::chosen_risk(prepared, chosen),
        step_after(window, prepared, chosen) == DeleteStep::AskGit <==> window.reviewed
            && !window.busy && deletion::chosen_risk(prepared, chosen),
        window.busy || !window.reviewed ==> step_after(window, prepared, chosen)
            == DeleteStep::Ignore,
{
}

/// A click opens a closed row with a page of entries and closes an open one; asking for more
/// adds a page.
pub proof fn law_clicks_open_and_close(limit: Option<usize>)
    ensures
        limit is None ==> after_click(limit, false) == Some(PAGE_SIZE),
        limit is Some ==> after_click(limit, false) is None,
        limit matches Some(n) && n + PAGE_SIZE <= usize::MAX ==> after_click(limit, true) == Some(
            (limit->0 + PAGE_SIZE) as usize,
        ),
        after_click(after_click(None, false), false) is None,
{
}

/// Closing a row leaves the others open as they were.
pub proof fn law_closing_a_row_leaves_the_others(
    expanded: Seq<(i32, usize)>,
    key: i32,
    e: (i32, usize),
)
    ensures
        without(expanded, key).contains(e) <==> expanded.contains(e) && e.0 != key,
    decreases expanded.len(),
{
    if expanded.len() > 0 {
        let rest = expanded.skip(1);
        law_closing_a_row_leaves_the_others(rest, key, e);
        assert(expanded.contains(e) <==> expanded[0] == e || rest.contains(e)) by {
            if expanded.contains(e) {
                let i = expanded.index_of(e);
                if i > 0 {
                    assert(rest[i - 1] == e);
                }
            }
            if rest.contains(e) {
                let i = rest.index_of(e);
                assert(expanded[i + 1] == e);
            }
        }
        if expanded[0].0 != key {
            let left = without(rest, key);
            let now = without(expanded, key);
            assert(now.contains(e) <==> expanded[0] == e || left.contains(e)) by {
                if now.contains(e) {
                    let i = now.index_of(e);
                    if i > 0 {
                        assert(left[i - 1] == e);
                    }
                }
                if left.contains(e) {
                    let i = left.index_of(e);
                    assert(now[i + 1] == e);
                }
                if expanded[0] == e {
                    assert(now[0] == e);
                }
            }
        }
    }
}

/// The repositories at risk are all counted, and no other.
pub proof fn law_risks_are_counted(git: Seq<GitAudit>, n: nat)
    requires
        n < git.len(),
    ensures
        risk_count(git, 0) == 0,
        risk_count(git, n + 1) == risk_count(git, n) + (if !git[n as int].all_content_synced
            || git[n as int].risks@.len() > 0 {
            1int
        } else {
            0
        }),
{
}

proof fn lemma_repo_text(a: GitAudit, k: int)
    ensures
        text::holds(repo_text(a), platform::shown(a.root@)),
        text::holds(repo_text(a), a.line()),
        0 <= k < a.risks@.len() ==> text::holds(repo_text(a), a.risks@[k]@),
{
    let root = platform::shown(a.root@);
    let risks = text::joined_by(text::views(a.risks@), "\n"@);
    let all = repo_text(a);
    text::lemma_holds_self(Seq::empty(), root, "\n"@ + a.line() + "\n"@ + risks + "\n\n"@);
    assert(all =~= root + ("\n"@ + a.line() + "\n"@ + risks + "\n\n"@));
    text::lemma_holds_self(root + "\n"@, a.line(), "\n"@ + risks + "\n\n"@);
    assert(all =~= root + "\n"@ + a.line() + ("\n"@ + risks + "\n\n"@));
    if 0 <= k < a.risks@.len() {
        text::lemma_joined_holds(text::views(a.risks@), "\n"@, k);
        text::lemma_holds(root + "\n"@ + a.line() + "\n"@, risks, "\n\n"@, a.risks@[k]@);
    }
}

proof fn lemma_repo_texts(
    git: Seq<GitAudit>,
    picks: Seq<usize>,
    n: nat,
    i: int,
    part: Seq<char>,
)
    requires
        0 <= i < n <= picks.len(),
        git[picks[i] as int].risky(),
        text::holds(repo_text(git[picks[i] as int]), part),
    ensures
        text::holds(repo_texts(git, picks, n), part),
    decreases n,
{
    let before = repo_texts(git, picks, (n - 1) as nat);
    let own = repo_text(git[picks[n - 1] as int]);
    if i < n - 1 {
        lemma_repo_texts(git, picks, (n - 1) as nat, i, part);
        text::lemma_holds(Seq::empty(), before, own, part);
    } else {
        text::lemma_holds(before, own, Seq::empty(), part);
    }
}

/// The question before repositories are deleted tells every one of them that is at risk: its
/// root, its state, and all of its risks.
pub proof fn law_the_question_tells_every_risk(
    prepared: Prepared,
    chosen: Seq<TreeSelection>,
    i: int,
    k: int,
)
    requires
        0 <= i < deletion::concerned(prepared, chosen).len(),
        prepared.git@[deletion::concerned(prepared, chosen)[i] as int].risky(),
    ensures
        ({
            let a = prepared.git@[deletion::concerned(prepared, chosen)[i] as int];
            let s = git_question_text(prepared, chosen);
            &&& text::holds(s, platform::shown(a.root@))
            &&& text::holds(s, a.line())
            &&& 0 <= k < a.risks@.len() ==> text::holds(s, a.risks@[k]@)
        }),
{
    let picks = deletion::concerned(prepared, chosen);
    let a = prepared.git@[picks[i] as int];
    let head =
        "以下仓库存在未同步、本地独有或无法核实的数据。忽略项也可能包含重要文件；它们不会因为被 gitignore 就变得安全。\n\n"@;
    let tail = "继续后，这些标记路径中的本地内容将被永久删除。"@;
    let all = repo_texts(prepared.git@, picks, picks.len());
    lemma_repo_text(a, k);
    lemma_repo_texts(prepared.git@, picks, picks.len(), i, platform::shown(a.root@));
    text::lemma_holds(head, all, tail, platform::shown(a.root@));
    lemma_repo_texts(prepared.git@, picks, picks.len(), i, a.line());
    text::lemma_holds(head, all, tail, a.line());
    if 0 <= k < a.risks@.len() {
        lemma_repo_texts(prepared.git@, picks, picks.len(), i, a.risks@[k]@);
        text::lemma_holds(head, all, tail, a.risks@[k]@);
    }
}

proof fn lemma_line_parts(
    before: Seq<char>,
    point: Seq<char>,
    name: Seq<char>,
    open: Seq<char>,
    number: Seq<char>,
    close: Seq<char>,
    mark: Seq<char>,
    end: Seq<char>,
)
    ensures
        before + (point + name + open + number + close + mark + end) == before + point + (name
            + open + number + close) + (mark + end),
        before + (point + name + open + number + close + mark + end) == before + point + (name
            + open + number + close + mark) + end,
{
    assert(before + (point + name + open + number + close + mark + end) =~= before + point + (name
        + open + number + close) + (mark + end));
    assert(before + (point + name + open + number + close + mark + end) =~= before + point + (name
        + open + number + close + mark) + end);
}

proof fn lemma_owner_texts(owners: Seq<Owner>, n: nat, i: int)
    requires
        0 <= i < n <= owners.len(),
    ensures
        text::holds(
            owner_texts(owners, n),
            owners[i].name@ + "  (PID "@ + text::decimal_of(owners[i].pid as nat) + ")"@,
        ),
        owners[i].critical ==> text::holds(
            owner_texts(owners, n),
            owners[i].name@ + "  (PID "@ + text::decimal_of(owners[i].pid as nat) + ")"@
                + " [关键进程 / 服务：不会关闭]"@,
        ),
    decreases n,
{
    let o = owners[n - 1];
    let before = owner_texts(owners, (n - 1) as nat);
    let named = o.name@ + "  (PID "@ + text::decimal_of(o.pid as nat) + ")"@;
    let mark = if o.critical {
        " [关键进程 / 服务：不会关闭]"@
    } else {
        ""@
    };
    let own = "• "@ + o.name@ + "  (PID "@ + text::decimal_of(o.pid as nat) + ")"@ + mark + "\n"@;
    assert(owner_texts(owners, n) == before + own);
    if i < n - 1 {
        let w = owners[i];
        let part = w.name@ + "  (PID "@ + text::decimal_of(w.pid as nat) + ")"@;
        lemma_owner_texts(owners, (n - 1) as nat, i);
        text::lemma_holds(Seq::empty(), before, own, part);
        if w.critical {
            text::lemma_holds(Seq::empty(), before, own, part + " [关键进程 / 服务：不会关闭]"@);
        }
    } else {
        lemma_line_parts(
            before,
            "• "@,
            o.name@,
            "  (PID "@,
            text::decimal_of(o.pid as nat),
            ")"@,
            mark,
            "\n"@,
        );
        text::lemma_holds_self(before + "• "@, named, mark + "\n"@);
        text::lemma_holds_self(before + "• "@, named + mark, "\n"@);
    }
}

/// The question about an occupied object tells the object, what the system said, and every
/// owner by name and number; critical owners are marked as such.
pub proof fn law_the_question_tells_every_owner(
    path: Seq<char>,
    owners: Seq<Owner>,
    detail: Seq<char>,
    i: int,
)
    ensures
        text::holds(lock_question_text(path, owners, detail), path),
        text::holds(lock_question_text(path, owners, detail), detail),
        0 <= i < owners.len() ==> text::holds(
            lock_question_text(path, owners, detail),
            owners[i].name@ + "  (PID "@ + text::decimal_of(owners[i].pid as nat) + ")"@,
        ),
        0 <= i < owners.len() && owners[i].critical ==> text::holds(
            lock_question_text(path, owners, detail),
            owners[i].name@ + "  (PID "@ + text::decimal_of(owners[i].pid as nat) + ")"@
                + " [关键进程 / 服务：不会关闭]"@,
        ),
{
    let s = lock_question_text(path, owners, detail);
    let told = if owners.len() == 0 {
        "无法安全识别占用者。请手动关闭相关程序，再点重试；不会盲目关闭进程。"@
    } else {
        owner_texts(owners, owners.len())
    };
    let found = "\n\nWindows Restart Manager 检测到：\n"@;
    let end = "\n关闭应用可能影响其他已打开的文件，请先保存工作。"@;
    text::lemma_holds_self("目标："@, path, "\n\n"@ + detail + found + told + end);
    assert(s =~= "目标："@ + path + ("\n\n"@ + detail + found + told + end));
    text::lemma_holds_self("目标："@ + path + "\n\n"@, detail, found + told + end);
    assert(s =~= "目标："@ + path + "\n\n"@ + detail + (found + told + end));
    if 0 <= i < owners.len() {
        let o = owners[i];
        let part = o.name@ + "  (PID "@ + text::decimal_of(o.pid as nat) + ")"@;
        lemma_owner_texts(owners, owners.len(), i);
        let head = "目标："@ + path + "\n\n"@ + detail + found;
        text::lemma_holds(head, told, end, part);
        if o.critical {
            text::lemma_holds(head, told, end, part + " [关键进程 / 服务：不会关闭]"@);
        }
    }
}

} // verus!
