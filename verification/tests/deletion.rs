use disk_cleaner::deletion::{
    check_target, collect_audits, lock_step, progress_due, repo_candidates, selected_git,
    selected_git_risk, selected_paths, tree_accepted, Approval, ApprovalFault, Examined, Found,
    LockDecision, LockStep, Prepared, PreparedTarget, RunFault, TargetFault,
};
use disk_cleaner::executor::{Action, Executor, Report, ReviewFault, ReviewedNode};
use disk_cleaner::git_audit::GitAudit;
use disk_cleaner::model::{Snapshot, DIR, REPARSE};
use disk_cleaner::plan::{Plan, Summary, Target};
use disk_cleaner::platform::{Identity, VolumeInfo};
use disk_cleaner::selection::TreeSelection;
use disk_cleaner::wide::Wide;

fn units(s: &str) -> Vec<u16> {
    s.encode_utf16().collect()
}

fn tree(root: &str, serial: u32) -> Snapshot {
    let volume = VolumeInfo {
        root: root[..3].to_string(),
        serial,
        ..VolumeInfo::default()
    };
    let mut s = Snapshot::new(Wide::of(root), volume, "test", 1, 0);
    let dir = s.push(0, &units("dir"), 0, 0, DIR).unwrap();
    s.push(dir, &units("inner.bin"), 5, 8, 0).unwrap();
    s.push(0, &units("top.bin"), 7, 16, 0).unwrap();
    s.finish().unwrap();
    s
}

fn target(id: u128, path: &str) -> Target {
    Target {
        id,
        path: Wide::of(path),
        reason: format!("why {id}"),
        marked_unix: 0,
        identity: Identity::default(),
        summary: Summary::default(),
        git: None,
        alerts: Vec::new(),
    }
}

fn prepared() -> Prepared {
    let mut plan = Plan::new(77, 0);
    plan.add_all(vec![target(1, r"D:\one"), target(2, r"E:\two")]);
    Prepared::new(
        r"D:\plan.json".to_string(),
        plan,
        vec![
            PreparedTarget {
                target: target(1, r"D:\one"),
                tree: tree(r"D:\one", 1),
            },
            PreparedTarget {
                target: target(2, r"E:\two"),
                tree: tree(r"E:\two", 2),
            },
        ],
        Vec::new(),
        Vec::new(),
    )
    .unwrap()
}

fn all(p: &Prepared) -> Vec<TreeSelection> {
    p.targets.iter().map(|t| TreeSelection::all(&t.tree)).collect()
}

fn identity(s: &Snapshot, id: u32) -> Identity {
    let n = &s.nodes[id as usize];
    Identity {
        length: n.logical,
        allocated: n.allocated,
        modified: 0,
        attributes: if n.is_dir() { 0x10 } else { 0x20 },
        ..Identity::default()
    }
}

/// Runs to the end, doing what is asked for; returns what was unlinked.
fn run(s: &Snapshot, sel: &TreeSelection, broken: Option<u32>) -> (Vec<u32>, bool, Executor) {
    let mut e = Executor::new();
    let mut gone = Vec::new();
    e.begin();
    let mut action = e.step(s, sel, Report::Begin, false);
    loop {
        match action {
            Action::Open { id, .. } if Some(id) == broken => {
                action = e.step(s, sel, Report::Failed("denied"), false);
            }
            Action::Open { id, .. } => {
                let actual = identity(s, id);
                action = e.step(s, sel, Report::Opened(&actual), false);
            }
            Action::Unlink { id } => {
                gone.push(id);
                action = e.step(s, sel, Report::Unlinked, false);
            }
            Action::Ask { .. } => {
                action = e.step(s, sel, Report::Skip, false);
            }
            Action::Finish { all_gone } => return (gone, all_gone, e),
        }
    }
}

#[test]
fn everything_selected_goes_children_first() {
    let s = tree(r"D:\one", 1);
    let sel = TreeSelection::all(&s);
    let (gone, all_gone, e) = run(&s, &sel, None);
    assert!(all_gone);
    assert_eq!(gone.len(), 4);
    let place = |id: u32| gone.iter().position(|g| *g == id).unwrap();
    assert!(place(2) < place(1) && place(1) < place(0) && place(3) < place(0));
    let o = e.outcome();
    assert_eq!((o.processed, o.removed, o.failed), (4, 4, 0));
    assert_eq!(o.removed_bytes, 24);
}

#[test]
fn unselected_children_keep_their_parents() {
    let s = tree(r"D:\one", 1);
    let mut sel = TreeSelection::all(&s);
    sel.set_subtree(&s, 3, false);
    let (gone, _, e) = run(&s, &sel, None);
    assert_eq!(gone, vec![2, 1]);
    assert_eq!(e.outcome().failed, 0);
}

#[test]
fn a_failure_keeps_what_is_above() {
    let s = tree(r"D:\one", 1);
    let sel = TreeSelection::all(&s);
    let (gone, all_gone, e) = run(&s, &sel, Some(2));
    assert!(!all_gone);
    assert_eq!(gone, vec![3]);
    let o = e.into_outcome();
    assert_eq!(o.failed, 3);
    assert!(o.errors.contains(&r"D:\one\dir\inner.bin: denied".to_string()));
    assert!(o
        .errors
        .contains(&r"D:\one\dir: kept directory because a reviewed child was not removed".to_string()));
}

#[test]
fn the_figures_of_a_run_agree() {
    let mut s = Snapshot::new(Wide::of(r"D:\m"), VolumeInfo::default(), "test", 1, 0);
    for i in 0..150 {
        s.push(0, &units(&format!("f{i}")), 1, 1, 0).unwrap();
    }
    s.finish().unwrap();
    let sel = TreeSelection::all(&s);
    let mut e = Executor::new();
    e.begin();
    let mut action = e.step(&s, &sel, Report::Begin, false);
    loop {
        let o = e.outcome();
        assert!(o.removed <= o.processed);
        assert_eq!(o.errors.len() as u64, o.failed.min(100));
        action = match action {
            Action::Open { id, .. } if id == 0 || id > 140 => {
                let actual = identity(&s, id);
                e.step(&s, &sel, Report::Opened(&actual), false)
            }
            Action::Open { .. } => e.step(&s, &sel, Report::Failed("denied"), false),
            Action::Unlink { .. } => e.step(&s, &sel, Report::Unlinked, false),
            Action::Ask { .. } => e.step(&s, &sel, Report::Skip, false),
            Action::Finish { all_gone } => {
                assert!(!all_gone);
                break;
            }
        };
    }
    let o = e.into_outcome();
    assert_eq!((o.removed, o.failed, o.errors.len()), (10, 141, 100));
}

#[test]
fn changed_objects_are_left_alone() {
    let s = tree(r"D:\one", 1);
    let reviewed = ReviewedNode::of(&s, 3);
    let mut actual = identity(&s, 3);
    assert_eq!(reviewed.check(&actual), None);
    actual.length = 8;
    assert_eq!(reviewed.check(&actual), Some(ReviewFault::SizeChanged));
    actual.attributes = 0x10;
    assert_eq!(reviewed.check(&actual), Some(ReviewFault::TypeChanged));
    let mut t = tree(r"D:\one", 1);
    t.set_file_mtime(3, Some(1000));
    let dated = ReviewedNode::of(&t, 3);
    let now = Identity {
        modified: 116444736000000000 + 20_000_000,
        ..identity(&t, 3)
    };
    assert_eq!(dated.check(&now), Some(ReviewFault::TimeChanged));
    assert!(ReviewFault::TimeChanged.message().contains("modification time"));
}

#[test]
fn occupied_objects_are_tried_three_times() {
    let s = tree(r"D:\one", 1);
    let sel = TreeSelection::all(&s);
    let mut e = Executor::new();
    e.begin();
    let root = identity(&s, 0);
    let mut action = e.step(&s, &sel, Report::Begin, false);
    assert_eq!(action, Action::Open { id: 0, delete_this: true });
    action = e.step(&s, &sel, Report::Opened(&root), false);
    let Action::Open { id, .. } = action else {
        panic!("a child is opened next");
    };
    for _ in 0..2 {
        action = e.step(&s, &sel, Report::Occupied, false);
        assert_eq!(action, Action::Ask { id });
        action = e.step(&s, &sel, Report::Retry, false);
        assert!(matches!(action, Action::Open { .. }));
    }
    e.step(&s, &sel, Report::Occupied, false);
    e.step(&s, &sel, Report::Retry, false);
    assert!(e.outcome().errors[0].ends_with("still occupied after three user-directed attempts"));
}

#[test]
fn stopping_opens_nothing_more() {
    let s = tree(r"D:\one", 1);
    let sel = TreeSelection::all(&s);
    let mut e = Executor::new();
    e.begin();
    assert_eq!(
        e.step(&s, &sel, Report::Begin, true),
        Action::Finish { all_gone: false }
    );
    assert_eq!(e.open_count(), 0);
    assert_eq!(e.outcome().removed, 0);
}

#[test]
fn links_are_unlinked_and_never_entered() {
    let mut s = Snapshot::new(Wide::of(r"D:\l"), VolumeInfo::default(), "test", 1, 0);
    s.push(0, &units("junction"), 0, 0, DIR | REPARSE).unwrap();
    s.finish().unwrap();
    let sel = TreeSelection::all(&s);
    let mut e = Executor::new();
    e.begin();
    e.step(&s, &sel, Report::Begin, false);
    let root = identity(&s, 0);
    let action = e.step(&s, &sel, Report::Opened(&root), false);
    assert_eq!(action, Action::Open { id: 1, delete_this: true });
    let link = Identity {
        attributes: 0x410,
        ..Identity::default()
    };
    assert_eq!(
        e.step(&s, &sel, Report::Opened(&link), false),
        Action::Unlink { id: 1 }
    );
}

#[test]
fn a_review_adds_up_its_targets() {
    let p = prepared();
    assert_eq!((p.total_items, p.allocated_upper_bound), (8, 48));
    assert_eq!(p.volumes.len(), 2);
    assert!(p.can_delete() && !p.git_risk());
    let mut same = prepared();
    same.problems.push("x".to_string());
    assert!(!same.can_delete());
}

#[test]
fn approval_is_refused_for_each_reason() {
    let p = prepared();
    let chosen = all(&p);
    assert!(Approval::from_gui(&p, &chosen, false, None).is_ok());
    let mut troubled = prepared();
    troubled.problems.push("x".to_string());
    assert!(matches!(
        Approval::from_gui(&troubled, &chosen, false, None),
        Err(ApprovalFault::Unresolved)
    ));
    assert!(matches!(
        Approval::from_gui(&p, &chosen[..1], false, None),
        Err(ApprovalFault::WrongSelection)
    ));
    let mut none = all(&p);
    for (c, t) in none.iter_mut().zip(&p.targets) {
        c.set_subtree(&t.tree, 0, false);
    }
    assert!(matches!(
        Approval::from_gui(&p, &none, false, None),
        Err(ApprovalFault::NothingChecked)
    ));
    let mut risky = prepared();
    risky.git.push(GitAudit {
        root: r"D:\one".to_string(),
        ..GitAudit::default()
    });
    assert!(matches!(
        Approval::from_gui(&risky, &chosen, false, None),
        Err(ApprovalFault::GitUnconfirmed)
    ));
    assert!(Approval::from_gui(&risky, &chosen, true, None).unwrap().git_confirmed());
    let refused = Approval::from_gui(&p, &chosen, false, Some("protected".to_string()));
    assert_eq!(refused.unwrap_err().message(), "protected");
}

#[test]
fn repositories_count_where_they_meet_the_selection() {
    let mut p = prepared();
    p.git.push(GitAudit {
        root: r"D:\one\dir".to_string(),
        ..GitAudit::default()
    });
    p.git.push(GitAudit {
        root: r"F:\far".to_string(),
        ..GitAudit::default()
    });
    let mut chosen = all(&p);
    assert_eq!(selected_git(&p, &chosen), vec![0]);
    assert!(selected_git_risk(&p, &chosen));
    chosen[0].set_subtree(&p.targets[0].tree, 0, false);
    assert!(selected_git(&p, &chosen).is_empty());
    chosen[0].set_subtree(&p.targets[0].tree, 3, true);
    assert_eq!(
        selected_paths(&p, &chosen),
        vec![Wide::of(r"D:\one\top.bin"), Wide::of(r"E:\two")]
    );
}

#[test]
fn targets_are_checked_again_before_review() {
    let mut plan = Plan::new(1, 0);
    plan.add_all(vec![target(1, r"D:\one"), target(2, r"E:\two")]);
    let same = Identity::default();
    assert_eq!(check_target(&plan, 0, r"d:/ONE", &same), Ok(()));
    let other = Identity {
        id: [1; 16],
        ..same
    };
    assert_eq!(
        check_target(&plan, 0, r"D:\one", &other),
        Err(TargetFault::Replaced)
    );
    assert_eq!(
        check_target(&plan, 0, r"D:\elsewhere", &same),
        Err(TargetFault::Moved)
    );
    plan.targets[1].path = Wide::of(r"D:\one\inside");
    assert_eq!(
        check_target(&plan, 0, r"D:\one", &same),
        Err(TargetFault::Overlap)
    );
    let mut s = tree(r"D:\one", 1);
    assert_eq!(tree_accepted(&s, true), Ok(()));
    s.warn("unreadable".to_string());
    assert_eq!(tree_accepted(&s, true), Err(TargetFault::Incomplete));
    assert_eq!(tree_accepted(&s, false), Ok(()));
}

#[test]
fn repositories_are_looked_for_once() {
    let mut s = Snapshot::new(Wide::of(r"D:\p"), VolumeInfo::default(), "test", 1, 0);
    let app = s.push(0, &units("app"), 0, 0, DIR).unwrap();
    s.push(app, &units(".git"), 0, 0, DIR).unwrap();
    s.push(0, &units(".git"), 0, 0, DIR).unwrap();
    s.finish().unwrap();
    let places = repo_candidates(&vec![PreparedTarget {
        target: target(1, r"D:\p"),
        tree: s,
    }]);
    assert_eq!(places, vec![Wide::of(r"D:\p"), Wide::of(r"D:\p\app")]);
    let audit = |root: &str| {
        Examined::Audit(GitAudit {
            root: root.to_string(),
            ..GitAudit::default()
        })
    };
    let found = collect_audits(&places, &vec![audit(r"D:\p"), audit("d:/P")]);
    assert_eq!(found.len(), 1);
    let failed = collect_audits(
        &places,
        &vec![Examined::NoRepository, Examined::Failed("odd".to_string())],
    );
    assert_eq!(failed[0].root, r"D:\p\app");
    assert_eq!(failed[0].risks, vec!["Git safety unknown: odd"]);
}

#[test]
fn a_run_needs_the_plan_that_was_approved() {
    let p = prepared();
    let a = Approval::from_gui(&p, &all(&p), false, None).unwrap();
    assert_eq!(a.check_run(&p, 77), Ok(()));
    assert_eq!(a.check_run(&p, 78), Err(RunFault::PlanChanged));
    assert_eq!(a.total(&p), Some(8));
    let mut other = prepared();
    other.plan.touch(5, 0);
    assert_eq!(a.check_run(&other, 5), Err(RunFault::Mismatch));
    assert_eq!(RunFault::PlanChanged.message().is_empty(), false);
}

#[test]
fn finished_targets_leave_the_plan_and_parts_are_marked_anew() {
    let p = prepared();
    let mut chosen = all(&p);
    chosen[1].set_subtree(&p.targets[1].tree, 3, false);
    let a = Approval::from_gui(&p, &chosen, false, None).unwrap();
    let left = a.remaining(&p);
    assert_eq!(left, vec![(1, 1)]);
    let mut stored = Plan::new(77, 0);
    stored.add_all(vec![target(1, r"D:\one"), target(2, r"E:\two"), target(3, r"F:\x")]);
    let found = vec![Some(Found {
        id: 9,
        identity: Identity::default(),
        now: 5,
    })];
    assert!(a.settle(&mut stored, &p, &[true, false], &left, &found));
    let marks: Vec<(u128, String)> = stored
        .targets
        .iter()
        .map(|t| (t.id, t.path.to_text()))
        .collect();
    assert_eq!(
        marks,
        vec![(3, r"F:\x".to_string()), (9, r"E:\two\dir".to_string())]
    );
    let whole = Approval::from_gui(&p, &all(&p), false, None).unwrap();
    let mut kept = Plan::new(77, 0);
    kept.add_all(vec![target(1, r"D:\one"), target(2, r"E:\two")]);
    let rest = whole.remaining(&p);
    assert!(rest.is_empty());
    assert!(!whole.settle(&mut kept, &p, &[false, false], &rest, &Vec::new()));
    assert_eq!(kept.targets.len(), 2);
}

#[test]
fn progress_is_told_now_and_then_and_at_the_end() {
    assert!(progress_due(5, 5, 0));
    assert!(progress_due(1, 5, 50));
    assert!(!progress_due(1, 5, 49));
}

#[test]
fn lock_decisions_become_steps() {
    assert_eq!(lock_step(Some(LockDecision::Retry), false, false), LockStep::TryAgain);
    assert_eq!(lock_step(Some(LockDecision::Skip), true, false), LockStep::GiveUp);
    assert_eq!(
        lock_step(Some(LockDecision::ForceClose), true, false),
        LockStep::Close(true)
    );
    assert_eq!(
        lock_step(Some(LockDecision::CloseGracefully), true, false),
        LockStep::Close(false)
    );
    assert_eq!(
        lock_step(Some(LockDecision::CloseGracefully), false, false),
        LockStep::UnknownOwner
    );
    assert_eq!(lock_step(None, true, true), LockStep::GiveUp);
}

#[test]
fn new_marks_keep_every_unit_of_a_name() {
    let mut s = Snapshot::new(Wide::of(r"D:\odd"), VolumeInfo::default(), "test", 1, 0);
    let d = s.push(0, &[0xd800, 97], 0, 0, DIR).unwrap();
    s.push(d, &units("x"), 1, 1, 0).unwrap();
    let y = s.push(0, &units("y"), 1, 1, 0).unwrap();
    s.finish().unwrap();
    let mut plan = Plan::new(77, 0);
    plan.add_all(vec![target(1, r"D:\odd")]);
    let p = Prepared::new(
        r"D:\plan.json".to_string(),
        plan,
        vec![PreparedTarget {
            target: target(1, r"D:\odd"),
            tree: s,
        }],
        Vec::new(),
        Vec::new(),
    )
    .unwrap();
    let mut chosen = all(&p);
    chosen[0].set_subtree(&p.targets[0].tree, y, false);
    let a = Approval::from_gui(&p, &chosen, false, None).unwrap();
    let left = a.remaining(&p);
    assert_eq!(left, vec![(0, d)]);
    let mut stored = Plan::new(77, 0);
    stored.add_all(vec![target(1, r"D:\odd")]);
    let found = vec![Some(Found {
        id: 9,
        identity: Identity::default(),
        now: 5,
    })];
    a.settle(&mut stored, &p, &[false], &left, &found);
    let mut expected = units(r"D:\odd\");
    expected.extend([0xd800, 97]);
    let mark = stored.targets.iter().find(|t| t.id == 9).unwrap();
    assert_eq!(mark.path.units, expected);
}

#[test]
fn places_are_told_apart_by_their_units() {
    let mut s = Snapshot::new(Wide::of(r"D:\p"), VolumeInfo::default(), "test", 1, 0);
    for name in [[0xd801u16], [0xd800]] {
        let d = s.push(0, &name, 0, 0, DIR).unwrap();
        s.push(d, &units(".git"), 0, 0, DIR).unwrap();
    }
    s.push(0, &units(".git"), 0, 0, DIR).unwrap();
    s.finish().unwrap();
    let places = repo_candidates(&vec![PreparedTarget {
        target: target(1, r"d:\P"),
        tree: s,
    }]);
    let below = |name: u16| {
        let mut u = units(r"D:\p\");
        u.push(name);
        Wide::new(u)
    };
    assert_eq!(
        places,
        vec![Wide::of(r"d:\P"), Wide::of(r"D:\p"), below(0xd800), below(0xd801)]
    );
    let mut t = Snapshot::new(Wide::of(r"d:\p"), VolumeInfo::default(), "test", 1, 0);
    t.push(0, &units(".git"), 0, 0, DIR).unwrap();
    t.finish().unwrap();
    let once = repo_candidates(&vec![PreparedTarget {
        target: target(1, "D:/p/"),
        tree: t,
    }]);
    assert_eq!(once, vec![Wide::of("D:/p/")]);
}
