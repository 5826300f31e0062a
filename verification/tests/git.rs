use disk_cleaner::git_audit::{
    advertised_as, audit, covered, state_name, tag_advertised, Advertised, GitAudit, GitFacts,
    RefFact, RemoteFailure, CONFLICTED, IGNORED, WT_NEW,
};
use disk_cleaner::locks::{
    error_code, list_answer, may_be_locked, may_close, owner_of, size_answer, CloseFault, ListStep,
    Owner, RawOwner, MORE_DATA,
};

fn facts() -> GitFacts {
    GitFacts {
        root: "D:/repo".to_string(),
        git_dir: "D:/repo/.git".to_string(),
        bare: false,
        detached: false,
        checked_unix: 9,
        head: true,
        branch: Some("main".to_string()),
        operation: None,
        statuses: Vec::new(),
        status_error: None,
        stashes: 0,
        stash_error: None,
        worktrees: 0,
        submodules: 0,
        remotes: vec!["origin".to_string()],
        fetch: true,
        failures: Vec::new(),
        branches: vec![RefFact {
            name: "main".to_string(),
            covered: true,
        }],
        head_covered: true,
        tags: Vec::new(),
    }
}

#[test]
fn a_fetched_clean_repository_is_covered() {
    let a = audit(facts());
    assert!(a.remote_verified && a.tracked_history_covered && a.all_content_synced);
    assert!(a.risks.is_empty() && !a.needs_confirmation());
    assert_eq!(
        a.concise(),
        "git:covered branch=main changed=0 staged=0 untracked=0 ignored=0 stash=0 local-refs=0 remote=verified"
    );
}

#[test]
fn cached_refs_are_no_proof() {
    let a = audit(GitFacts {
        fetch: false,
        ..facts()
    });
    assert!(!a.remote_verified && !a.all_content_synced);
    assert!(a.risks.iter().any(|r| r.starts_with("remote refs are CACHED")));
    assert!(a.needs_confirmation());
}

#[test]
fn every_kind_of_local_data_is_counted_and_told() {
    let a = audit(GitFacts {
        statuses: vec![IGNORED, WT_NEW, 0x100, 0x1, CONFLICTED],
        stashes: 2,
        worktrees: 1,
        submodules: 3,
        operation: Some("Merge".to_string()),
        tags: vec![RefFact {
            name: "refs/tags/v1".to_string(),
            covered: false,
        }],
        branches: vec![RefFact {
            name: "side".to_string(),
            covered: false,
        }],
        failures: vec![RemoteFailure {
            name: "origin".to_string(),
            error: "timed out".to_string(),
        }],
        ..facts()
    });
    assert_eq!(
        (a.ignored, a.untracked, a.modified, a.staged, a.conflicts),
        (1, 1, 1, 1, 1)
    );
    assert_eq!(a.local_only_refs, vec!["branch:side", "refs/tags/v1"]);
    assert!(!a.remote_verified && !a.tracked_history_covered);
    for part in [
        "operation in progress: Merge",
        "remote origin unavailable/unverified: timed out",
        "tracked changes/conflicts",
        "untracked worktree entries",
        "ignored entries",
        "local stashes",
        "1 linked worktree",
        "3 submodule",
        "local refs/commits/tags",
    ] {
        assert!(a.risks.iter().any(|r| r.contains(part)), "{part}");
    }
}

#[test]
fn paths_inside_a_repository_have_a_state() {
    assert_eq!(state_name(true, false, None), "ignored/local-only");
    assert_eq!(state_name(false, true, None), "worktree-dir");
    assert_eq!(state_name(false, false, Some(0)), "tracked");
    assert_eq!(state_name(false, false, Some(WT_NEW)), "untracked");
    assert_eq!(state_name(false, false, Some(0x100)), "modified");
    assert_eq!(state_name(false, false, None), "unknown");
    assert!(GitAudit::default().concise().contains("branch=unborn"));
}

fn raw(pid: u32, kind: i32) -> RawOwner {
    let mut name: Vec<u16> = "Editor".encode_utf16().collect();
    name.extend([0, 88]);
    RawOwner {
        pid,
        name,
        service: vec![0],
        kind,
        restartable: 1,
        started_high: 1,
        started_low: 2,
    }
}

#[test]
fn owners_are_read_up_to_the_nul() {
    let o = owner_of(&raw(7, 1), 99);
    assert_eq!(
        (o.pid, o.name.as_str(), o.service.as_str(), o.critical, o.restartable, o.started),
        (7, "Editor", "", false, true, (1 << 32) + 2)
    );
    assert!(owner_of(&raw(7, 1000), 99).critical);
    assert!(owner_of(&raw(7, 3), 99).critical);
    assert!(owner_of(&raw(7, 1), 7).critical);
}

#[test]
fn listing_owners_is_bounded() {
    assert_eq!(size_answer(0, 0), ListStep::Nobody);
    assert_eq!(size_answer(MORE_DATA, 3), ListStep::Fetch(3));
    assert_eq!(size_answer(MORE_DATA, 4096), ListStep::TooMany);
    assert_eq!(size_answer(5, 0), ListStep::Failed(5));
    assert_eq!(list_answer(0, 0), ListStep::Done);
    assert_eq!(list_answer(MORE_DATA, 0), ListStep::Again);
    assert_eq!(list_answer(MORE_DATA, 4), ListStep::KeepsChanging);
    assert_eq!(list_answer(6, 0), ListStep::Failed(6));
}

fn owner(pid: u32, started: u64, critical: bool) -> Owner {
    Owner {
        pid,
        name: "App".to_string(),
        service: String::new(),
        critical,
        restartable: true,
        started,
    }
}

#[test]
fn only_the_owners_that_were_shown_are_closed() {
    let a = owner(1, 5, false);
    let b = owner(2, 6, false);
    let both = [a.clone(), b.clone()];
    let swapped = [b.clone(), a.clone()];
    assert_eq!(may_close(&both, &swapped), Ok(()));
    assert_eq!(
        may_close(&both, &[a.clone()]),
        Err(CloseFault::OwnersChanged)
    );
    assert_eq!(
        may_close(&[owner(1, 9, false)], &[a.clone()]),
        Err(CloseFault::OwnersChanged)
    );
    assert_eq!(may_close(&[], &[]), Err(CloseFault::NobodyFound));
    let c = owner(4, 0, true);
    assert_eq!(
        may_close(&[c.clone()], &[c.clone()]),
        Err(CloseFault::CriticalOwner)
    );
    assert!(CloseFault::CriticalOwner.message().contains("refusing"));
}

#[test]
fn sharing_faults_mean_occupied() {
    assert_eq!(error_code(&[None, Some(32), Some(5)]), Some(32));
    assert_eq!(error_code(&[None]), None);
    for code in [5, 32, 33] {
        assert!(may_be_locked(&[Some(code)]));
    }
    assert!(!may_be_locked(&[Some(2)]));
    assert!(!may_be_locked(&[]));
}

#[test]
fn advertised_names_are_told_apart() {
    assert_eq!(advertised_as("refs/heads/main"), Advertised::Tip);
    assert_eq!(advertised_as("refs/tags/v1"), Advertised::Tag);
    assert_eq!(advertised_as("refs/tags/v1^{}"), Advertised::Other);
    assert_eq!(advertised_as("HEAD"), Advertised::Other);
}

#[test]
fn a_branch_is_covered_by_any_remote_tip() {
    assert!(!covered(&[], &[]));
    assert!(!covered(&[false, false], &[false, false]));
    assert!(covered(&[false, true], &[false, false]));
    assert!(covered(&[false, false], &[true, false]));
}

#[test]
fn a_tag_is_advertised_by_what_it_points_to() {
    let tags = vec![vec![1u8; 20], vec![2u8; 20]];
    assert!(tag_advertised(Some(&[2u8; 20]), &tags));
    assert!(!tag_advertised(Some(&[3u8; 20]), &tags));
    assert!(!tag_advertised(Some(&[2u8; 19]), &tags));
    assert!(!tag_advertised(None, &tags));
    assert!(!tag_advertised(Some(&[2u8; 20]), &[]));
}
