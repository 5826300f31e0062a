use disk_cleaner::cleanup_path::{
    ancestors, literal_absolute, protection, reject_reparse_ancestors, AncestorFault, PathFault,
    Protection, Surroundings,
};
use disk_cleaner::model::{Snapshot, DIR};
use disk_cleaner::plan::{
    notes, reason_fits, undo, Level, Plan, PlanFault, StageFault, Summary, Target,
};
use disk_cleaner::platform::{Identity, VolumeInfo};
use disk_cleaner::wide::Wide;

fn target(id: u128, path: &str) -> Target {
    Target {
        id,
        path: Wide::of(path),
        reason: "test".to_string(),
        marked_unix: 0,
        identity: Identity::default(),
        summary: Summary::default(),
        git: None,
        alerts: Vec::new(),
    }
}

fn directory() -> Identity {
    Identity {
        attributes: 0x10,
        ..Identity::default()
    }
}

#[test]
fn refuses_globs_and_ads() {
    assert!(literal_absolute("C:/data/*", "C:/data/*").is_err());
    assert!(literal_absolute("C:/data/file:stream", "C:/data/file:stream").is_err());
    assert!(literal_absolute("C:file", "C:/work/file").is_err());
}

#[test]
fn rm_and_undo_never_delete() {
    let file = r"C:\d\precious.txt".to_string();
    let mut plan = Plan::new(1, 10);
    let none = Vec::new();
    assert_eq!(plan.refuses(&none, &file, &Identity::default(), false), None);
    plan.add_all(vec![target(1, &file)]);
    assert_eq!(plan.targets.len(), 1);
    assert_eq!(undo(&mut plan, &[file.clone()], false), 1);
    assert!(plan.targets.is_empty());
    assert_eq!(undo(&mut plan, &[file], false), 0);
}

#[test]
fn rejects_volume_and_current_dir() {
    let around = Surroundings {
        in_use: vec![r"C:\work\here".to_string()],
        system: vec![r"C:\Windows".to_string()],
        profiles: vec![r"C:\Users\me".to_string()],
    };
    let judged = |p: &str| protection(p, r"C:\", &around);
    assert_eq!(judged(r"C:\work\here"), Some(Protection::InUse(0)));
    assert_eq!(judged("C:/"), Some(Protection::VolumeRoot));
    assert_eq!(judged(r"C:\work"), Some(Protection::InUse(0)));
    assert_eq!(judged(r"C:\Windows\Temp"), Some(Protection::SystemDirectory));
    assert_eq!(judged(r"c:\users\ME"), Some(Protection::ProfileRoot));
    assert_eq!(judged(r"C:\repo\.git\objects"), Some(Protection::InsideGit));
    assert_eq!(judged(r"C:\pagefile.sys"), Some(Protection::Managed));
    assert_eq!(judged(r"C:\Users"), Some(Protection::ContainerRoot));
    assert_eq!(judged(r"C:\Users\me\old"), None);
}

#[test]
fn overlapping_marks_rejected() {
    let mut plan = Plan::new(1, 10);
    plan.add_all(vec![target(1, r"C:\d\data\x")]);
    let none = Vec::new();
    assert_eq!(
        plan.refuses(&none, r"C:\d\data", &directory(), true),
        Some(StageFault::Overlap(0))
    );
    assert_eq!(
        plan.refuses(&vec![target(2, r"C:\e")], r"c:/E/f", &Identity::default(), false),
        Some(StageFault::Overlap(1))
    );
    assert_eq!(
        plan.refuses(&none, r"C:\d\other", &directory(), false),
        Some(StageFault::NeedsRecursive)
    );
    let link = Identity {
        attributes: 0x410,
        ..Identity::default()
    };
    assert_eq!(plan.refuses(&none, r"C:\d\other", &link, false), None);
}

#[test]
fn cleanup_paths_are_literal_local_and_settled() {
    let ok = |a: &str, b: &str| literal_absolute(a, b);
    assert_eq!(
        ok(r"x\..\y\.\z", r"C:\w\x\..\y\.\z").unwrap(),
        r"C:\w\y\z"
    );
    assert_eq!(ok("a\0b", "C:/a").unwrap_err(), PathFault::Nul);
    assert_eq!(ok(r"\\srv\share", r"\\srv\share").unwrap_err(), PathFault::NotLocal);
    assert_eq!(
        ok(r"\\?\globalroot\x", r"\\?\globalroot\x").unwrap_err(),
        PathFault::NotLocal
    );
    assert_eq!(ok("C:/a?", "C:/a?").unwrap_err(), PathFault::Glob);
    assert_eq!(ok("C:/a:b", "C:/a:b").unwrap_err(), PathFault::Stream);
    assert_eq!(ok("C:a", "C:/a").unwrap_err(), PathFault::DriveRelative);
    assert_eq!(ok("C:/../a", "C:/../a").unwrap_err(), PathFault::EscapesRoot);
    assert_eq!(
        PathFault::Glob.message(),
        "cleanup targets are literal paths, never globs"
    );
}

#[test]
fn ancestors_are_looked_at_from_the_top() {
    let chain = ancestors(r"C:\a\b", false).unwrap();
    assert_eq!(chain, vec![r"C:\", r"C:\a"]);
    let whole = ancestors(r"C:\a\b", true).unwrap();
    assert_eq!(whole.last().unwrap(), r"C:\a\b");
    assert_eq!(ancestors(r"C:\", false), None);
    let plain = Some(directory());
    let link = Some(Identity {
        attributes: 0x410,
        ..Identity::default()
    });
    assert_eq!(reject_reparse_ancestors(Some(&[plain, plain])), Ok(()));
    assert_eq!(
        reject_reparse_ancestors(Some(&[plain, link])),
        Err(AncestorFault::Reparse(1))
    );
    assert_eq!(
        reject_reparse_ancestors(Some(&[None, link])),
        Err(AncestorFault::Unreadable(0))
    );
    assert_eq!(reject_reparse_ancestors(None), Err(AncestorFault::NoParent));
}

#[test]
fn stored_plans_are_checked() {
    let mut plan = Plan::new(7, 10);
    assert_eq!(plan.check(100), Ok(()));
    assert_eq!(plan.check(64 * 1024 * 1024), Err(PlanFault::TooLarge));
    plan.touch(8, 11);
    assert_eq!((plan.revision, plan.created_unix, plan.updated_unix), (8, 10, 11));
    plan.schema_version = 2;
    assert_eq!(plan.check(100), Err(PlanFault::UnsupportedSchema));
    plan.schema_version = 1;
    for i in 0..10001 {
        plan.targets.push(target(i, "C:/x"));
    }
    assert_eq!(plan.check(100), Err(PlanFault::TooManyTargets));
    assert_eq!(undo(&mut plan, &[], true), 10001);
}

#[test]
fn undo_goes_by_the_key_of_the_path() {
    let mut plan = Plan::new(1, 0);
    plan.add_all(vec![target(1, r"C:\A\b"), target(2, r"C:\A\c")]);
    assert_eq!(undo(&mut plan, &["c:/a/B/".to_string()], false), 1);
    assert_eq!(plan.targets[0].id, 2);
}

#[test]
fn replacing_targets_keeps_the_others() {
    let mut plan = Plan::new(1, 0);
    plan.add_all(vec![target(1, "C:/a"), target(2, "C:/b"), target(3, "C:/c")]);
    plan.replace(&vec![1, 3], vec![target(9, "C:/d")]);
    let ids: Vec<u128> = plan.targets.iter().map(|t| t.id).collect();
    assert_eq!(ids, vec![2, 9]);
}

#[test]
fn notes_and_reasons() {
    let n = notes(&vec!["w".to_string()], &vec!["c".to_string()]);
    assert_eq!(n.len(), 2);
    let mut t = target(1, "C:/x");
    assert_eq!(t.severity(), None);
    t.alerts = n;
    assert_eq!(t.severity(), Some(Level::Critical));
    assert_eq!(Level::Warn.label(), "WARN");
    assert_eq!(Level::Critical.label(), "CRITICAL");
    assert!(reason_fits(&"中".repeat(2000)));
    assert!(!reason_fits(&"a".repeat(2001)));
}

#[test]
fn summaries_come_from_scans_and_identities() {
    let mut s = Snapshot::new(Wide::of("C:/x"), VolumeInfo::default(), "test", 1, 0);
    s.push(0, &[97], 3, 8, 0).unwrap();
    s.push(0, &[98], 0, 0, DIR).unwrap();
    s.finish().unwrap();
    s.warn("w".to_string());
    assert_eq!(
        Summary::from_snapshot(&s),
        Summary {
            logical_bytes: 3,
            allocated_bytes: 8,
            files: 1,
            dirs: 2,
            errors: 1,
        }
    );
    let one = Identity {
        length: 5,
        allocated: 16,
        ..Identity::default()
    };
    assert_eq!(
        Summary::from_identity(&one),
        Summary {
            logical_bytes: 5,
            allocated_bytes: 16,
            files: 1,
            ..Summary::default()
        }
    );
}

#[test]
fn refusals_to_mark_are_told_in_words() {
    assert_eq!(
        StageFault::NeedsRecursive.message(""),
        "directory requires -r/--recursive (still stage-only)"
    );
    assert_eq!(
        StageFault::Overlap(0).message("D:/a"),
        "overlapping target already staged: D:/a; undo-rm it first"
    );
}

#[test]
fn revisions_are_shown_in_five_groups() {
    let p = Plan::new(0x67e5504410b1426f9247bb680e5fe0c8, 0);
    assert_eq!(p.revision_text(), "67e55044-10b1-426f-9247-bb680e5fe0c8");
    assert_eq!(Plan::new(10, 0).revision_text(), "00000000-0000-0000-0000-00000000000a");
}
