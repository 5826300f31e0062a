use disk_cleaner::dialogs::{additional_git_risk, Dialog};
use disk_cleaner::executor::Outcome;
use disk_cleaner::git_audit::GitAudit;
use disk_cleaner::locks::Owner;

#[test]
fn git_dialog_is_structured_and_keeps_raw_diagnostics_separate() {
    let audit = GitAudit {
        root: r"D:\repo".into(),
        branch: Some("master".into()),
        modified: 38,
        untracked: 7,
        ignored: 30,
        stashes: 1,
        local_only_refs: vec!["branch:local".into()],
        risks: vec!["remote refs are CACHED, not proof of current remote contents; run git --fetch to verify".into()],
        ..Default::default()
    };
    let data = Dialog::git(&[&audit]);
    let labels: Vec<_> = data.rows.iter().map(|r| r.label.to_string()).collect();
    assert!(labels.iter().any(|s| s == "工作区"));
    assert!(labels.iter().any(|s| s == "本地文件"));
    assert!(labels.iter().any(|s| s == "本地记录"));
    assert!(data.technical.contains("remote refs are CACHED"));
    assert!(!data.rows.iter().any(|r| r.value.contains("remote=")));
    assert_eq!(data.rows[0].label, "仓库 1 · master");
    assert_eq!(data.rows[1].value, "38 项改动 · 0 项暂存 · 0 项冲突");
    assert!(data.technical.ends_with("本地引用：branch:local"));
}

#[test]
fn locked_without_owner_never_offers_shutdown() {
    let data = Dialog::locked(r"C:\long\file", &[], "sharing violation");
    assert!(!data.can_close_owners);
    assert_eq!(data.rows.len(), 1);
    assert_eq!(data.technical, "sharing violation");
}

#[test]
fn remote_failure_has_human_label() {
    let entry =
        additional_git_risk("remote origin unavailable/unverified: connection timed out").unwrap();
    assert_eq!(entry.label.as_str(), "远端连接");
    assert_eq!(entry.value.as_str(), "origin 无法核实");
}

#[test]
fn risks_told_elsewhere_get_no_row() {
    for told in [
        "remote refs are CACHED, not proof",
        "no remote configured",
        "tracked changes/conflicts exist only locally",
        "untracked worktree entries are not in Git",
        "ignored entries are LOCAL-ONLY data",
        "local stashes are not protected by ordinary push",
        "local refs/commits/tags are not proven on a remote",
    ] {
        assert!(additional_git_risk(told).is_none());
    }
    for (risk, label) in [
        ("repository operation in progress: Merge", "仓库操作"),
        ("2 linked worktree(s) have their own state", "关联工作树"),
        ("3 submodule(s): nested repositories", "子模块"),
        ("Git metadata is outside this worktree; x", "Git 元数据"),
        ("remote something else", "远端检查"),
        ("worktree status unknown: x", "工作区"),
        ("stash status unknown: x", "stash"),
        ("unborn or unreadable HEAD", "当前分支"),
        ("Git safety unknown: x", "Git 检查"),
        ("Git check failed: x", "Git 检查"),
        ("anything else", "其他风险"),
    ] {
        assert_eq!(additional_git_risk(risk).unwrap().label, label);
    }
}

fn owner(pid: u32, critical: bool) -> Owner {
    Owner {
        pid,
        name: if critical { String::new() } else { "App".to_string() },
        service: String::new(),
        critical,
        restartable: true,
        started: 0,
    }
}

#[test]
fn only_ordinary_owners_are_offered_to_close() {
    let calm = Dialog::locked("D:/f", &[owner(1, false)], "");
    assert!(calm.can_close_owners);
    assert_eq!(calm.rows[1].value, "PID 1");
    assert_eq!(calm.notice, "请求关闭应用可能影响其打开的其他文件。");
    let mixed = Dialog::locked("D:/f", &[owner(1, false), owner(4, true)], "");
    assert!(!mixed.can_close_owners);
    assert_eq!(mixed.rows.len(), 4);
    assert_eq!(mixed.rows[2].label, "未知程序");
    assert_eq!(mixed.rows[2].value, "系统进程 · PID 4");
    assert_eq!(mixed.rows[3].label, "不能自动关闭");
}

#[test]
fn errors_are_split_at_the_first_colon_and_blank_after_a_path() {
    let errors = vec![
        r"C:\a\b: access denied: 5".to_string(),
        "no path: here".to_string(),
        "plain".to_string(),
    ];
    let d = Dialog::error("t", "s", &errors, "w");
    assert_eq!(d.rows[0].label, "01");
    assert_eq!(d.rows[0].path, r"C:\a\b");
    assert_eq!(d.rows[0].value, "access denied: 5");
    assert_eq!(d.rows[1].path, "");
    assert_eq!(d.rows[1].value, "no path: here");
    assert_eq!(d.rows[2].value, "plain");
    let a = Dialog::approval_error("review has unresolved problems");
    assert_eq!(a.rows.len(), 1);
    assert_eq!(a.notice, "没有开始删除。");
    let o = Outcome {
        removed: 2,
        failed: 1,
        errors,
        ..Outcome::default()
    };
    assert_eq!(
        Dialog::partial_outcome(&o).summary,
        "已删除 2 项，失败 1 项。失败项目仍保留在标记中。"
    );
}

#[test]
fn fixed_dialogs_and_safe_diagnostics() {
    let about = Dialog::about("1.2.3");
    assert_eq!(about.rows[0].value, "1.2.3");
    assert_eq!(about.kind, "about");
    let p = Dialog::promotion(r"\\?\D:\x", 3);
    assert_eq!(p.path, r"D:\x");
    assert_eq!(p.rows[0].value, "3 个已标记目标");
    let l = Dialog::locked("D:/f", &[], "a\tb\r\nc\u{202e}\n");
    assert_eq!(l.shown_technical(), "a\\tb\nc\\u{202e}");
}
