use disk_cleaner::console::{
    cancelled_text, captured_text, compare_code, doctor_text, git_text, pending_text, relaunches,
    reuses_scan, review_relaunches, scan_code, staged_text,
};
use disk_cleaner::deletion::{tree_source, IndexSource, TreeSource};
use disk_cleaner::git_audit::GitAudit;
use disk_cleaner::model::{FindError, Snapshot, DIR, NONE};
use disk_cleaner::plan::{notes, Plan, Summary, Target};
use disk_cleaner::platform::{Identity, VolumeInfo};
use disk_cleaner::selection::can_select;
use disk_cleaner::subtree::CutError;
use disk_cleaner::wide::Wide;

fn units(s: &str) -> Vec<u16> {
    s.encode_utf16().collect()
}

/// `D:\data` with `a\x.bin`, `a\b\y.bin` and `z.bin`.
fn tree() -> Snapshot {
    let volume = VolumeInfo {
        root: r"D:\".to_string(),
        ..VolumeInfo::default()
    };
    let mut s = Snapshot::new(Wide::of(r"D:\data"), volume, "test", 1, 42);
    let a = s.push(0, &units("a"), 0, 0, DIR).unwrap();
    let b = s.push(a, &units("b"), 0, 0, DIR).unwrap();
    s.push(a, &units("x.bin"), 5, 8, 0).unwrap();
    s.push(b, &units("y.bin"), 100, 128, 0).unwrap();
    s.push(0, &units("z.bin"), 7, 16, 0).unwrap();
    s.finish().unwrap();
    s.stats.complete = true;
    s
}

fn target(path: &str) -> Target {
    Target {
        id: 1,
        path: Wide::of(path),
        reason: "old build".to_string(),
        marked_unix: 0,
        identity: Identity::default(),
        summary: Summary {
            allocated_bytes: 1536,
            files: 3,
            ..Summary::default()
        },
        git: None,
        alerts: notes(&vec!["look".to_string()], &vec!["stop".to_string()]),
    }
}

#[test]
fn the_overview_names_every_volume() {
    let volumes = vec![VolumeInfo {
        root: r"C:\".to_string(),
        device: r"\\.\C:".to_string(),
        filesystem: "NTFS".to_string(),
        serial: 1,
        total_bytes: 2048,
        free_bytes: 1536,
        cluster_bytes: 4096,
    }];
    let shown = doctor_text("1.2.3", false, r"C:\work", &volumes);
    let lines: Vec<&str> = shown.lines().collect();
    assert_eq!(lines[0], r"disk-cleaner 1.2.3 | administrator=false | cwd=C:\work");
    assert_eq!(
        lines[1],
        r"C:\  NTFS    total=2.00 KiB free=1.50 KiB cluster=4096  raw=\\.\C:"
    );
    assert!(lines[2].starts_with("elevation: raw NTFS/ReFS scans need administrator rights"));
    assert_eq!(
        lines[3],
        "rm is STAGE ONLY. No headless/--yes/force-delete command exists."
    );
    assert_eq!(lines.len(), 4);
}

#[test]
fn a_repository_is_told_with_its_risks() {
    assert_eq!(git_text(&None), "not a Git repository\n");
    let audit = GitAudit {
        root: r"D:\repo".to_string(),
        branch: Some("main".to_string()),
        modified: 2,
        risks: vec!["uncommitted".to_string()],
        local_only_refs: vec!["refs/heads/x".to_string()],
        ..GitAudit::default()
    };
    assert_eq!(
        git_text(&Some(audit)),
        "D:\\repo\ngit:LOCAL-DATA branch=main changed=2 staged=0 untracked=0 ignored=0 stash=0 \
         local-refs=1 remote=UNVERIFIED\ntracked_history_covered=false  all_content_synced=false\n\
         RISK: uncommitted\nLOCAL REF: refs/heads/x\n"
    );
}

#[test]
fn marking_says_that_nothing_was_deleted() {
    let shown = staged_text(&vec![target(r"\\?\D:\data\a")], r"D:\plan.json", 2);
    assert_eq!(
        shown,
        "STAGED (NOT DELETED): D:\\data\\a | 1.50 KiB | reason=old build\n  WARN: look\n  \
         CRITICAL: stop\n1 target(s) marked in D:\\plan.json. No files were deleted. Use show-rm \
         for human review.\n2 note(s) attached to this batch; show-rm highlights them in the tree \
         and in --text/--json.\n"
    );
    assert_eq!(
        staged_text(&Vec::new(), "p", 0),
        "0 target(s) marked in p. No files were deleted. Use show-rm for human review.\n"
    );
    assert_eq!(
        cancelled_text(3),
        "Cancelled 3 mark(s). No content was deleted or restored.\n"
    );
}

#[test]
fn pending_targets_show_the_heaviest_notes_first() {
    let mut plan = Plan::new(7, 0);
    let mut plain = target(r"D:\data\z.bin");
    plain.alerts = Vec::new();
    plan.add_all(vec![target(r"D:\data\a"), plain]);
    assert_eq!(
        pending_text(r"D:\plan.json", &plan),
        "PENDING ONLY | D:\\plan.json | revision=00000000-0000-0000-0000-000000000007 | notes: 1 critical, 0 warn\n\
         !! 1.50 KiB  D:\\data\\a  files=3  reason=old build\n    CRITICAL: stop\n    WARN: look\n   \
         1.50 KiB  D:\\data\\z.bin  files=3  reason=old build\n2 targets. This text view cannot \
         delete anything.\nNotes are the agent's own words: they prove nothing and never replace \
         the marked reason. Resolve them with the user before deleting.\n"
    );
}

#[test]
fn codes_tell_failures_apart() {
    let mut s = tree();
    assert_eq!(scan_code(&s), 0);
    s.stats.complete = false;
    assert_eq!(scan_code(&s), 2);
    assert_eq!((compare_code(true), compare_code(false)), (0, 3));
    assert_eq!(
        captured_text(&s),
        "Snapshot captured at Unix 42. Run scan again when freshness matters.\n"
    );
}

#[test]
fn more_rights_are_asked_for_only_when_told_to() {
    assert!(relaunches(true, false, false));
    assert!(!relaunches(false, false, false));
    assert!(!relaunches(true, true, false));
    assert!(!relaunches(true, false, true));
    assert!(review_relaunches(false, IndexSource::Volume, false));
    assert!(!review_relaunches(true, IndexSource::Volume, false));
    assert!(!review_relaunches(false, IndexSource::Fs, false));
    assert!(!review_relaunches(false, IndexSource::Volume, true));
}

#[test]
fn a_saved_scan_is_reused_only_if_it_holds_everything() {
    let mut s = tree();
    let held = vec![target(r"D:\data\a"), target(r"D:\data\z.bin")];
    assert!(reuses_scan(IndexSource::Volume, &held, &s));
    assert!(!reuses_scan(IndexSource::Fs, &held, &s));
    assert!(!reuses_scan(IndexSource::Volume, &Vec::new(), &s));
    let beyond = vec![target(r"D:\data\a"), target(r"D:\other")];
    assert!(!reuses_scan(IndexSource::Volume, &beyond, &s));
    s.stats.complete = false;
    assert!(!reuses_scan(IndexSource::Volume, &held, &s));
}

#[test]
fn directories_are_walked_only_when_that_was_asked_for() {
    assert_eq!(tree_source(true, IndexSource::Fs, false), TreeSource::Saved);
    assert_eq!(tree_source(false, IndexSource::Fs, false), TreeSource::Walk);
    assert_eq!(tree_source(false, IndexSource::Volume, true), TreeSource::Raw);
    assert_eq!(
        tree_source(false, IndexSource::Volume, false),
        TreeSource::Missing
    );
}

#[test]
fn cutting_keeps_names_and_figures() {
    let s = tree();
    let part = s.subtree(r"d:\DATA\a").unwrap();
    assert_eq!(part.root.to_text(), r"D:\data\a");
    assert_eq!(part.nodes.len(), 4);
    assert_eq!(part.nodes[0].parent, NONE);
    assert_eq!((part.nodes[0].allocated, part.nodes[0].logical), (136, 105));
    assert_eq!((part.nodes[0].files, part.nodes[0].dirs), (2, s.nodes[1].dirs));
    let inner = part.find(r"D:\data\a\b\y.bin").unwrap();
    assert_eq!(part.path(inner).to_text(), r"D:\data\a\b\y.bin");
    assert_eq!(part.nodes[inner as usize].allocated, 128);
    assert!(part.find(r"D:\data\a\z.bin").is_err());
    assert!(part.validate().is_ok());
    assert!(can_select(&part));
    assert_eq!(part.stats.started_unix, 42);
    let leaf = s.subtree(r"D:\data\z.bin").unwrap();
    assert_eq!((leaf.nodes.len(), leaf.nodes[0].allocated), (1, 16));
    let whole = s.subtree(r"D:\data").unwrap();
    assert_eq!(whole.nodes.len(), s.nodes.len());
    assert_eq!(whole.path(5), s.path(whole_id(&s, &whole.path(5).to_text())));
}

fn whole_id(s: &Snapshot, path: &str) -> u32 {
    s.find(path).unwrap()
}

#[test]
fn only_what_is_there_can_be_cut_out() {
    let s = tree();
    assert_eq!(
        s.subtree(r"E:\data").err(),
        Some(CutError::Find(FindError::Outside))
    );
    assert_eq!(
        s.subtree(r"D:\data\missing").err(),
        Some(CutError::Find(FindError::NotFound))
    );
}

#[test]
fn figures_that_do_not_add_up_cannot_be_selected() {
    let mut s = tree();
    assert!(can_select(&s));
    s.nodes[0].allocated = 1;
    assert!(!can_select(&s));
}
