use disk_cleaner::deletion::{Prepared, PreparedTarget};
use disk_cleaner::git_audit::GitAudit;
use disk_cleaner::model::{Snapshot, DIR, REPARSE};
use disk_cleaner::plan::{Alert, Level, Plan, Summary, Target};
use disk_cleaner::platform::{same_path, Identity, VolumeInfo};
use disk_cleaner::review::{alert_text, file_icon, git_near, make_rows, severity_of};
use disk_cleaner::review_facts::{details, space_rows, totals};
use disk_cleaner::review_tree::{Forest, ForestError, Location, PAGE_SIZE};
use disk_cleaner::review_window::{
    delete_step, finished_label, finished_status, git_question, lock_question, progress_label,
    promotion_question, ready_texts, retires_scan, toggle, DeleteStep, SavedScan,
};
use disk_cleaner::deletion::LockDecision;
use disk_cleaner::executor::Outcome;
use disk_cleaner::locks::Owner;
use disk_cleaner::example::example_prepared;
use disk_cleaner::selection::{can_select, TreeSelection};
use disk_cleaner::wide::Wide;
use disk_cleaner::window_state::{lock_choice, Modal, Window, WindowAction, WindowEvent};

fn units(s: &str) -> Vec<u16> {
    s.encode_utf16().collect()
}

fn tree(root: &str, volume: &str, bytes: u64) -> Snapshot {
    let mut s = Snapshot::new(
        Wide::of(root),
        VolumeInfo {
            root: volume.to_string(),
            ..VolumeInfo::default()
        },
        "test",
        1,
        0,
    );
    s.push(0, &units("one.bin"), bytes, bytes, 0).unwrap();
    s.push(0, &units("empty"), 0, 0, DIR).unwrap();
    s.finish().unwrap();
    s
}

#[test]
fn merges_same_drive_and_shared_ancestors() {
    let a = tree("D:/Projects/app/target", "D:/", 10);
    let b = tree("D:/Projects/app/cache", "D:/", 20);
    let c = tree("C:/Downloads/archive", "C:/", 30);
    let trees = [&a, &b, &c];
    let forest = Forest::new(&trees).unwrap();
    assert_eq!(forest.roots.len(), 2);
    let d = forest
        .groups
        .iter()
        .position(|g| same_path(&g.path, "D:/"))
        .unwrap();
    let app = forest
        .groups
        .iter()
        .find(|g| same_path(&g.path, "D:/Projects/app"))
        .unwrap();
    assert_eq!(app.children.len(), 2);
    assert_eq!(forest.groups[d].targets, vec![0, 1]);
    assert!(forest.locate(forest.group_key(d).unwrap()).is_some());
    assert!(forest.locate(-1).is_none());
}

#[test]
fn checking_drive_affects_only_its_marked_targets_not_ancestors_or_other_drives() {
    let a = tree("D:/xxxx", "D:/", 10);
    let b = tree("D:/yyyy", "D:/", 20);
    let c = tree("C:/xxxx", "C:/", 30);
    let trees = [&a, &b, &c];
    let f = Forest::new(&trees).unwrap();
    let mut choices: Vec<TreeSelection> = trees.iter().map(|t| TreeSelection::all(t)).collect();
    let group = f
        .groups
        .iter()
        .position(|g| same_path(&g.path, "D:/"))
        .unwrap();
    let key = f.group_key(group).unwrap();
    let (selected, total) = f.tally(&trees, &choices, key);
    assert_eq!(total.files, 2);
    assert_eq!(total.dirs, 4); // Two target roots + their empty dirs, NOT D:\
    assert_eq!(selected.allocated, 30);
    assert_eq!(f.check_state(&trees, &choices, key), 2);
    f.check(&trees, &mut choices, key, false);
    assert_eq!(choices[0].totals(0).items(), 0);
    assert_eq!(choices[1].totals(0).items(), 0);
    assert_eq!(choices[2].totals(0).files, 1);
    f.check(&trees, &mut choices, f.entry_key(0, 0).unwrap(), true);
    assert_eq!(f.check_state(&trees, &choices, key), 1);
    assert_eq!(f.tally(&trees, &choices, key).0.allocated, 10);
    f.check(&trees, &mut choices, key, true);
    assert_eq!(f.check_state(&trees, &choices, key), 2);
}

#[test]
fn collapsing_or_paging_never_changes_group_totals() {
    let a = tree("D:/deep/path/one", "D:/", 42);
    let trees = [&a];
    let f = Forest::new(&trees).unwrap();
    let choices = [TreeSelection::all(&a)];
    let key = f.roots[0];
    let expected = f.tally(&trees, &choices, key);
    let mut expanded = f.initial_expansion();
    expanded.clear();
    assert_eq!(f.tally(&trees, &choices, key), expected);
    assert_eq!(f.children(&trees, key).len(), 1);
}

#[test]
fn group_never_becomes_an_entry_key() {
    let a = tree("D:/one", "D:/", 42);
    let trees = [&a];
    let f = Forest::new(&trees).unwrap();
    assert!(matches!(f.locate(f.roots[0]), Some(Location::Group(_))));
    assert_eq!(f.target_indices(f.roots[0]), vec![0]);
    assert_eq!(f.target_indices(f.entry_key(0, 1).unwrap()), vec![0]);
    assert!(f.target_indices(i32::MAX).is_empty());
    for n in 0..a.nodes.len() as u32 {
        assert_eq!(
            f.locate(f.entry_key(0, n).unwrap()),
            Some(Location::Entry { target: 0, node: n })
        );
    }
}

#[test]
fn targets_outside_their_volume_and_volumes_are_refused() {
    let a = tree("D:/one", "C:/", 1);
    assert_eq!(
        Forest::new(&[&a]).unwrap_err(),
        ForestError::OutsideVolume(0)
    );
    let b = tree("D:/", "D:/", 1);
    assert_eq!(Forest::new(&[&b]).unwrap_err(), ForestError::VolumeRoot(0));
}

#[test]
fn selection_follows_the_subtree_and_its_roots() {
    let a = tree("D:/one", "D:/", 42);
    let mut c = TreeSelection::all(&a);
    assert_eq!(c.selected_roots(&a), vec![0]);
    c.set_subtree(&a, 1, false);
    assert_eq!(c.state(&a, 0), 1);
    assert_eq!(c.selected_roots(&a), vec![2]);
    assert!(!c.selected(0));
    assert_eq!(c.totals(0).items(), 1);
    c.set_subtree(&a, 1, true);
    assert_eq!(c.state(&a, 1), 2);
}

#[test]
fn selected_roots_part_the_selection() {
    let mut s = Snapshot::new(Wide::of("C:/t"), VolumeInfo::default(), "test", 1, 0);
    let d = s.push(0, &[100], 0, 0, DIR).unwrap();
    let e = s.push(d, &[101], 0, 0, DIR).unwrap();
    for parent in [0, d, e] {
        s.push(parent, &[97], 1, 1, 0).unwrap();
        s.push(parent, &[98], 2, 2, 0).unwrap();
    }
    s.finish().unwrap();
    let below = |top: u32, n: u32| {
        let mut at = n;
        while at != top && at != 0 {
            at = s.nodes[at as usize].parent;
        }
        at == top
    };
    for kept in 0..s.nodes.len() as u32 {
        let mut c = TreeSelection::all(&s);
        c.set_subtree(&s, kept, false);
        let roots = c.selected_roots(&s);
        for n in 0..s.nodes.len() as u32 {
            let over = roots.iter().filter(|&&r| below(r, n)).count();
            assert_eq!(over, usize::from(c.selected(n)));
        }
        for &r in &roots {
            assert!(r == 0 || !c.selected(s.nodes[r as usize].parent));
        }
        let items: u64 = roots
            .iter()
            .map(|&r| s.nodes[r as usize].files as u64 + s.nodes[r as usize].dirs as u64)
            .sum();
        assert_eq!(items, c.totals(0).items());
    }
}

fn alert(level: Level, text: &str) -> Alert {
    Alert {
        level,
        text: text.to_string(),
    }
}

fn target(path: &str, reason: &str, alerts: Vec<Alert>) -> Target {
    Target {
        id: 1,
        path: Wide::of(path),
        reason: reason.to_string(),
        marked_unix: 0,
        identity: Identity::default(),
        summary: Summary::default(),
        git: None,
        alerts,
    }
}

fn prepared(git: Vec<GitAudit>) -> Prepared {
    let a = tree("D:/one", "D:/", 2048);
    let b = tree("C:/two", "C:/", 1024);
    let targets = vec![
        PreparedTarget {
            target: target(
                "D:/one",
                "old build",
                vec![
                    alert(Level::Warn, "look\tagain"),
                    alert(Level::Critical, "unique?"),
                ],
            ),
            tree: a,
        },
        PreparedTarget {
            target: target("C:/two", "", Vec::new()),
            tree: b,
        },
    ];
    Prepared::new("D:/plan.json".to_string(), Plan::new(5, 0), targets, git, Vec::new()).unwrap()
}

#[test]
fn notes_show_the_weightiest_first() {
    let p = prepared(Vec::new());
    assert_eq!(severity_of(&p.targets[0].target), 2);
    assert_eq!(severity_of(&p.targets[1].target), 0);
    assert_eq!(alert_text(&p.targets[0].target), "unique? (+1)");
    assert_eq!(alert_text(&p.targets[1].target), "");
    let warn = target("D:/x", "", vec![alert(Level::Warn, "a\tb")]);
    assert_eq!(alert_text(&warn), r"a\tb");
    assert_eq!(severity_of(&warn), 1);
}

#[test]
fn icons_go_by_the_extension() {
    assert_eq!(file_icon("a.ZIP", false, false), "archive");
    assert_eq!(file_icon("main.rs", false, false), "code");
    assert_eq!(file_icon("Cargo.LOCK", false, false), "settings");
    assert_eq!(file_icon("x.md", false, false), "text");
    assert_eq!(file_icon("x.jpeg", false, false), "image");
    assert_eq!(file_icon("x.mkv", false, false), "video");
    assert_eq!(file_icon("x.ogg", false, false), "audio");
    assert_eq!(file_icon("zip", false, false), "archive");
    assert_eq!(file_icon("plain", false, false), "file");
    assert_eq!(file_icon("dir.zip", true, false), "folder");
    assert_eq!(file_icon("dir.zip", true, true), "link");
}

#[test]
fn rows_list_drives_targets_and_children() {
    let repo = GitAudit {
        root: "D:/".to_string(),
        ..GitAudit::default()
    };
    let p = prepared(vec![repo]);
    let trees: Vec<&Snapshot> = p.targets.iter().map(|t| &t.tree).collect();
    let f = Forest::new(&trees).unwrap();
    let choices: Vec<TreeSelection> = trees.iter().map(|t| TreeSelection::all(t)).collect();
    let mut expanded = f.initial_expansion();
    expanded.push((f.entry_key(0, 0).unwrap(), 1));
    let rows = make_rows(&p, &f, &trees, &choices, &expanded);
    let names: Vec<&str> = rows.iter().map(|r| r.name.as_str()).collect();
    assert_eq!(
        names,
        vec![
            "C:/",
            "two",
            "D:/",
            "one",
            "empty",
            "再显示 200 项 · 还有 1 项"
        ]
    );
    assert_eq!(
        rows.iter().map(|r| r.depth).collect::<Vec<_>>(),
        vec![0, 1, 0, 1, 2, 2]
    );
    assert_eq!(rows[0].icon, "drive");
    assert_eq!(rows[0].reason, "1 个已标记目标");
    assert_eq!(rows[1].icon, "folder");
    assert!(!rows[1].expanded && rows[1].expandable);
    assert_eq!(rows[2].severity, 2);
    assert!(rows[2].warning && rows[2].group);
    assert_eq!(rows[3].reason, "old build");
    assert_eq!(rows[3].alert, "unique? (+1)");
    assert!(rows[3].git && rows[3].warning);
    assert_eq!(rows[3].size, "2.00 KiB / 2.00 KiB");
    assert_eq!(rows[3].files, "1 / 1");
    assert_eq!(rows[3].check_state, 2);
    assert!(rows[5].more);
    let near = git_near(&p.git, "D:/one");
    assert_eq!(near, (true, true));
    assert_eq!(git_near(&p.git, "C:/two"), (false, false));
    assert_eq!(PAGE_SIZE, 200);
}

#[test]
fn links_are_rows_that_are_not_followed() {
    let mut s = Snapshot::new(
        Wide::of("D:/t"),
        VolumeInfo {
            root: "D:/".to_string(),
            ..VolumeInfo::default()
        },
        "test",
        1,
        0,
    );
    s.push(0, &units("junction"), 0, 0, DIR | REPARSE).unwrap();
    s.finish().unwrap();
    let p = Prepared::new(
        "D:/plan.json".to_string(),
        Plan::new(5, 0),
        vec![PreparedTarget {
            target: target("D:/t", "", Vec::new()),
            tree: s,
        }],
        Vec::new(),
        Vec::new(),
    )
    .unwrap();
    let trees: Vec<&Snapshot> = p.targets.iter().map(|t| &t.tree).collect();
    let f = Forest::new(&trees).unwrap();
    let choices = vec![TreeSelection::all(trees[0])];
    let mut expanded = f.initial_expansion();
    toggle(&mut expanded, f.entry_key(0, 0).unwrap(), false);
    let rows = make_rows(&p, &f, &trees, &choices, &expanded);
    assert_eq!(rows[2].reason, "重解析点 · 不跟随");
    assert_eq!(rows[2].icon, "link");
}

#[test]
fn details_tell_targets_and_groups() {
    let p = prepared(Vec::new());
    let trees: Vec<&Snapshot> = p.targets.iter().map(|t| &t.tree).collect();
    let f = Forest::new(&trees).unwrap();
    let d = details(&p, &f, &trees, f.entry_key(0, 0).unwrap()).unwrap();
    assert_eq!(d.path, "D:/one");
    assert_eq!(d.reason, "原因：old build");
    assert_eq!(d.preview, "unique?");
    assert_eq!(d.alerts, "WARN\nlook\\tagain\n\nCRITICAL\nunique?");
    assert_eq!(d.note_count, 2);
    assert_eq!(d.severity, 2);
    let below = details(&p, &f, &trees, f.entry_key(0, 1).unwrap()).unwrap();
    assert_eq!(below.path, r"D:/one\one.bin");
    assert_eq!(below.note_count, 0);
    let drive = f
        .groups
        .iter()
        .position(|g| same_path(&g.path, "D:/"))
        .unwrap();
    let g = details(&p, &f, &trees, f.group_key(drive).unwrap()).unwrap();
    assert_eq!(
        g.alerts,
        "CRITICAL  ·  D:/one\nunique?\n\nWARN  ·  D:/one\nlook\\tagain"
    );
    assert_eq!(g.preview, "unique?");
    assert_eq!(g.note_count, 2);
    assert!(g.can_unmark);
    assert!(details(&p, &f, &trees, -3).is_none());
}

#[test]
fn many_notes_of_a_group_are_cut_and_counted() {
    let a = tree("D:/one", "D:/", 1);
    let many: Vec<Alert> = (0..40).map(|i| alert(Level::Warn, &format!("n{i}"))).collect();
    let p = Prepared::new(
        "D:/plan.json".to_string(),
        Plan::new(5, 0),
        vec![PreparedTarget {
            target: target("D:/one", "", many),
            tree: a,
        }],
        Vec::new(),
        Vec::new(),
    )
    .unwrap();
    let trees: Vec<&Snapshot> = p.targets.iter().map(|t| &t.tree).collect();
    let f = Forest::new(&trees).unwrap();
    let g = details(&p, &f, &trees, f.roots[0]).unwrap();
    assert_eq!(g.note_count, 40);
    assert!(g.alerts.ends_with("另有 8 条提示；选择具体对象查看。"));
    assert!(g.alerts.contains("n31") && !g.alerts.contains("n32"));
}

#[test]
fn drives_show_expected_and_measured_space() {
    let mut p = prepared(Vec::new());
    p.volumes = vec![VolumeInfo {
        root: "D:/".to_string(),
        serial: 0,
        total_bytes: 10000,
        free_bytes: 100,
        ..VolumeInfo::default()
    }];
    let choices: Vec<TreeSelection> = p
        .targets
        .iter()
        .map(|t| TreeSelection::all(&t.tree))
        .collect();
    let rows = space_rows(&p, &choices, None);
    assert_eq!(rows[0].free_after, 100 + 2048 + 1024);
    assert!(!rows[0].measured);
    assert_eq!(rows[0].before, "100 B");
    let outcome = Outcome {
        before: vec![VolumeInfo {
            serial: 0,
            total_bytes: 10000,
            free_bytes: 200,
            ..VolumeInfo::default()
        }],
        after: vec![VolumeInfo {
            serial: 0,
            total_bytes: 10000,
            free_bytes: 300,
            ..VolumeInfo::default()
        }],
        ..Outcome::default()
    };
    let measured = space_rows(&p, &choices, Some(&outcome));
    assert_eq!((measured[0].free_before, measured[0].free_after), (200, 300));
    assert!(measured[0].measured);
    p.volumes[0].total_bytes = 150;
    assert_eq!(space_rows(&p, &choices, None)[0].free_after, 150);
}

#[test]
fn totals_add_up_what_is_selected() {
    let p = prepared(Vec::new());
    let mut choices: Vec<TreeSelection> = p
        .targets
        .iter()
        .map(|t| TreeSelection::all(&t.tree))
        .collect();
    let t = totals(&p, &choices);
    assert_eq!(t.size, "3.00 KiB / 3.00 KiB");
    assert_eq!(t.items, "已选 2 / 2 文件、4 / 4 文件夹");
    assert!(t.can_delete);
    for (c, x) in choices.iter_mut().zip(&p.targets) {
        c.set_subtree(&x.tree, 0, false);
    }
    assert!(!totals(&p, &choices).can_delete);
}

#[test]
fn clicks_expand_collapse_and_page() {
    let mut e: Vec<(i32, usize)> = vec![(4, 200)];
    toggle(&mut e, 7, false);
    assert_eq!(e, vec![(4, 200), (7, 200)]);
    toggle(&mut e, 4, true);
    assert!(e.contains(&(4, 400)));
    toggle(&mut e, 7, false);
    assert_eq!(e, vec![(4, 400)]);
    toggle(&mut e, 9, true);
    assert!(e.contains(&(9, 400)));
}

#[test]
fn the_window_guards_what_happens() {
    let idle = Window {
        prepared: true,
        can_delete: true,
        reviewed: true,
        ..Window::new()
    };
    let p = prepared(Vec::new());
    let trees: Vec<&Snapshot> = p.targets.iter().map(|t| &t.tree).collect();
    let f = Forest::new(&trees).unwrap();
    let choices: Vec<TreeSelection> = trees.iter().map(|t| TreeSelection::all(t)).collect();
    assert!(idle.may_begin() && idle.may_select() && idle.may_close());
    assert!(!Window { reviewed: false, ..idle }.may_begin());
    assert!(!Window { preview: true, ..idle }.may_begin());
    assert!(!Window { busy: true, ..idle }.may_close());
    assert!(!Window { modal: Modal::Git, ..idle }.may_select());
    assert!(!idle.may_promote(Some(&f.groups[0])));
    assert!(!idle.may_promote(None));
    assert_eq!(delete_step(&idle, &p, &choices), DeleteStep::Begin);
    assert_eq!(
        delete_step(&Window { busy: true, ..idle }, &p, &choices),
        DeleteStep::Ignore
    );
    let repo = GitAudit {
        root: "D:/one".to_string(),
        risks: vec!["no remote configured".to_string()],
        ..GitAudit::default()
    };
    let q = prepared(vec![repo]);
    assert_eq!(delete_step(&idle, &q, &choices), DeleteStep::AskGit);
    let body = git_question(&q, &choices);
    assert!(body.contains("D:/one\ngit:LOCAL-DATA branch=unborn"));
    assert!(body.contains("no remote configured"));
    assert!(body.ends_with("永久删除。"));
    assert_eq!(lock_choice(1), LockDecision::Retry);
    assert_eq!(lock_choice(2), LockDecision::CloseGracefully);
    assert_eq!(lock_choice(3), LockDecision::ForceClose);
    assert_eq!(lock_choice(0), LockDecision::Skip);
}

#[test]
fn the_window_speaks_plainly() {
    let owner = Owner {
        pid: 7,
        name: "Editor".to_string(),
        service: String::new(),
        critical: true,
        restartable: false,
        started: 0,
    };
    let text = lock_question("D:/f", &[owner], "busy");
    assert!(text.starts_with("目标：D:/f\n\nbusy\n\nWindows Restart Manager 检测到：\n"));
    assert!(text.contains("• Editor  (PID 7) [关键进程 / 服务：不会关闭]\n"));
    assert!(lock_question("D:/f", &[], "busy").contains("无法安全识别占用者"));
    assert!(promotion_question("D:/x", 3).starts_with("当前分组：D:/x\n\n目前的复选框只控制下方 3 个"));
    assert_eq!(progress_label(1, 9, 1, 0), "1/9 · 已删 1 · 失败 0");
    let outcome = Outcome {
        removed: 4,
        failed: 1,
        ..Outcome::default()
    };
    assert_eq!(finished_label(&outcome, None), "已删除 4 · 失败 1");
    assert_eq!(finished_label(&outcome, Some("ok")), "已删除 4 · 失败 1 · ok");
    assert!(finished_status(true).starts_with("已按要求停止"));
    assert!(finished_status(false).starts_with("操作结束"));
    let mut p = prepared(Vec::new());
    assert_eq!(ready_texts(&p).git_detail, "未发现相关 Git 仓库");
    p.git.push(GitAudit::default());
    p.problems.push("x".to_string());
    let r = ready_texts(&p);
    assert_eq!(r.git_title, "1 处待确认");
    assert_eq!(r.status, "1 项安全校验未通过，禁止执行。");
    assert!(r.git_risk);
}

#[test]
fn a_saved_scan_is_retired_only_when_all_is_done_and_it_is_the_same() {
    let id = Identity {
        volume: 1,
        id: [3; 16],
        length: 10,
        allocated: 10,
        modified: 5,
        attributes: 0x20,
        links: 1,
    };
    let scan = SavedScan {
        scan_name: true,
        with_plan: true,
        still_marked: 0,
        original: id,
        current: id,
    };
    assert!(retires_scan(&Outcome::default(), &scan));
    let failed = Outcome {
        failed: 1,
        ..Outcome::default()
    };
    assert!(!retires_scan(&failed, &scan));
    assert!(!retires_scan(
        &Outcome::default(),
        &SavedScan { still_marked: 1, ..scan }
    ));
    assert!(!retires_scan(
        &Outcome::default(),
        &SavedScan {
            current: Identity { length: 11, ..id },
            ..scan
        }
    ));
    assert!(!retires_scan(
        &Outcome::default(),
        &SavedScan { with_plan: false, ..scan }
    ));
}

#[test]
fn the_made_up_review_adds_up() {
    let p = example_prepared(9, 5, [1, 2, 3]);
    assert_eq!(p.targets.len(), 3);
    assert_eq!((p.plan.revision, p.plan.created_unix), (9, 5));
    assert!(p.targets.iter().all(|t| t.tree.stats.started_unix == 5));
    assert_eq!(p.total_items, 11);
    assert_eq!(p.allocated_upper_bound, (9 << 30) + (26 << 20));
    assert_eq!(p.targets[0].tree.nodes[0].allocated, (4 << 30) + (24 << 20));
    assert_eq!(
        p.targets[0].tree.path(5).to_text(),
        r"D:\Projects\target\release\sample-app.exe"
    );
    assert_eq!(p.targets[2].tree.nodes.len(), 1);
    assert!(!p.targets[2].tree.nodes[0].is_dir());
    assert_eq!(p.plan.targets[1].alerts[0].level, Level::Critical);
    assert_eq!(p.volumes[1].free_bytes, 1 << 40);
    assert!(p.git_risk() && p.can_delete());
    let mut roots = Vec::new();
    for t in &p.targets {
        assert!(t.tree.validate().is_ok());
        assert!(can_select(&t.tree));
        assert!(t.tree.stats.complete);
        roots.push(t.tree.volume.root.as_str());
    }
    let drives = (p.volumes[0].root.as_str(), p.volumes[1].root.as_str());
    assert_eq!(roots, vec![drives.0, drives.0, drives.1]);
    let trees: Vec<&Snapshot> = p.targets.iter().map(|t| &t.tree).collect();
    let f = Forest::new(&trees).unwrap();
    assert_eq!(f.roots.len(), 2);
}

fn ready() -> Window {
    Window::new().after(WindowEvent::Refresh).after(WindowEvent::Ready {
        built: true,
        deletable: true,
        chosen: true,
        problems: false,
    })
}

#[test]
fn the_tick_is_taken_back_by_every_change() {
    let w = ready();
    assert!(w.prepared && w.can_delete && !w.busy && !w.reviewed);
    let ticked = w.after(WindowEvent::Ticked(true));
    assert!(ticked.reviewed && ticked.may_begin());
    let changed = ticked.after(WindowEvent::Selected {
        known: true,
        deletable: true,
        chosen: false,
    });
    assert!(!changed.reviewed && !changed.can_delete);
    let unknown = WindowEvent::Selected {
        known: false,
        deletable: true,
        chosen: true,
    };
    assert_eq!(ticked.after(unknown), ticked);
    let again = ticked.after(WindowEvent::Refresh);
    assert!(again.busy && !again.reviewed && !again.prepared);
    assert_eq!(ticked.action(WindowEvent::Refresh), WindowAction::Prepare);
    let wished = ticked.after(WindowEvent::PromotionWished { key: 4, group: true });
    assert_eq!((wished.modal, wished.promotion), (Modal::Promote, Some(4)));
    assert!(wished.reviewed);
    let confirm = WindowEvent::PromotionConfirmed { group: true };
    assert_eq!(wished.action(confirm), WindowAction::Promote(4));
    let marking = wished.after(confirm);
    assert!(marking.busy && !marking.reviewed && marking.promotion.is_none());
    assert_eq!(
        marking.action(WindowEvent::PromotionEnded { done: true }),
        WindowAction::Prepare
    );
    let failed = marking.after(WindowEvent::PromotionEnded { done: false });
    assert_eq!((failed.busy, failed.modal), (false, Modal::Error));
    assert_eq!(ticked.after(confirm), ticked);
    assert_eq!(ticked.action(confirm), WindowAction::Nothing);
}

#[test]
fn runs_begin_with_the_tick_and_with_consent() {
    let w = ready();
    let plain = WindowEvent::DeleteWished {
        risk: false,
        approved: true,
    };
    assert_eq!(w.action(plain), WindowAction::Nothing);
    assert_eq!(w.after(plain), w);
    let ticked = w.after(WindowEvent::Ticked(true));
    assert_eq!(
        ticked.action(plain),
        WindowAction::Run { git_acknowledged: false }
    );
    let running = ticked.after(plain);
    assert!(running.busy && running.deleting && !running.can_delete);
    let done = running.after(WindowEvent::Finished { errors: true });
    assert!(done.finished && !done.reviewed && !done.busy && !done.deleting);
    assert_eq!(done.modal, Modal::Error);
    let risky = WindowEvent::DeleteWished {
        risk: true,
        approved: true,
    };
    assert_eq!(ticked.action(risky), WindowAction::Nothing);
    let asked = ticked.after(risky);
    assert_eq!((asked.modal, asked.deleting), (Modal::Git, false));
    let consent = WindowEvent::GitConfirmed { approved: true };
    assert_eq!(ticked.after(consent), ticked);
    assert_eq!(
        asked.action(consent),
        WindowAction::Run { git_acknowledged: true }
    );
    assert!(asked.after(consent).deleting);
    let closed = asked.after(WindowEvent::Dismissed);
    assert_eq!((closed.modal, closed.reviewed), (Modal::Nothing, true));
    assert_eq!(closed.action(consent), WindowAction::Nothing);
    let refused = asked.after(WindowEvent::GitConfirmed { approved: false });
    assert_eq!((refused.modal, refused.deleting), (Modal::Error, false));
    let shown = Window { preview: true, ..ticked };
    assert_eq!(shown.action(plain), WindowAction::Nothing);
}

#[test]
fn stopping_answers_an_open_question() {
    let ticked = ready().after(WindowEvent::Ticked(true));
    let running = ticked.after(WindowEvent::DeleteWished {
        risk: false,
        approved: true,
    });
    let waiting = running.after(WindowEvent::Locked { closable: true });
    assert_eq!((waiting.waiting, waiting.modal), (true, Modal::Lock));
    assert_eq!(waiting.after(WindowEvent::Dismissed), waiting);
    assert!(waiting.can_close_owners && !waiting.force_close);
    assert_eq!(
        waiting.action(WindowEvent::LockChosen(2)),
        WindowAction::Answer(LockDecision::CloseGracefully)
    );
    let answered = waiting.after(WindowEvent::LockChosen(2));
    assert_eq!((answered.waiting, answered.modal), (false, Modal::Nothing));
    assert_eq!(answered.action(WindowEvent::LockChosen(2)), WindowAction::Nothing);
    assert_eq!(
        waiting.action(WindowEvent::Stop),
        WindowAction::Answer(LockDecision::Skip)
    );
    let stopped = waiting.after(WindowEvent::Stop);
    assert!(stopped.cancelled && !stopped.waiting && stopped.busy);
    assert_eq!(running.action(WindowEvent::Stop), WindowAction::Nothing);
    assert_eq!(ticked.action(WindowEvent::Stop), WindowAction::Hide);
    let lost = running.after(WindowEvent::Fatal);
    assert_eq!((lost.busy, lost.modal), (false, Modal::Error));
    assert_eq!(ticked.after(WindowEvent::UnmarkFailed).modal, Modal::Error);
}

#[test]
fn the_case_of_a_drive_does_not_part_targets() {
    let trees = [
        tree(r"D:\one", r"D:\", 1),
        tree(r"d:\two", r"d:\", 2),
        tree(r"d:\ONE\x", r"d:\", 3),
    ];
    let refs: Vec<&Snapshot> = trees.iter().collect();
    let f = Forest::new(&refs).unwrap();
    let drives: Vec<&str> = f.groups.iter().filter(|g| g.drive).map(|g| g.path.as_str()).collect();
    assert_eq!(drives, vec![r"D:\"]);
    assert_eq!(f.roots.len(), 1);
    assert_eq!(f.groups.len(), 2);
    assert_eq!(f.groups[0].targets, vec![0, 1, 2]);
    assert!(same_path("d:/a", r"D:\a"));
    assert!(!same_path(r"D:\A", r"D:\a"));
}

#[test]
fn shares_come_before_drives() {
    let trees = [
        tree(r"C:\one", r"C:\", 1),
        tree(r"\\srv\data\two", r"\\srv\data", 2),
        tree(r"b:\three", r"b:\", 3),
    ];
    let refs: Vec<&Snapshot> = trees.iter().collect();
    let f = Forest::new(&refs).unwrap();
    let paths: Vec<&str> = f
        .roots
        .iter()
        .map(|k| f.groups[*k as usize - f.entry_count as usize].path.as_str())
        .collect();
    assert_eq!(paths, vec![r"\\srv\data", r"b:\", r"C:\"]);
}

#[test]
fn faults_of_a_forest_are_told() {
    let outside = [tree(r"D:\one", r"E:\", 1)];
    let refs: Vec<&Snapshot> = outside.iter().collect();
    let e = Forest::new(&refs).unwrap_err();
    assert_eq!(e, ForestError::OutsideVolume(0));
    assert_eq!(
        e.message(r"D:\one"),
        r"target is not under its recorded local volume: D:\one"
    );
    assert_eq!(
        ForestError::VolumeRoot(0).message(""),
        "a volume root is not a deletion target"
    );
}
