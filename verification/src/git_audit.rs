//! Conservative Git evidence. Cached refs are never described as remote proof.
use crate::bytes;
use crate::platform;
use crate::text;
use vstd::prelude::*;
use vstd::string::*;

verus! {

/// The status bit of an ignored worktree entry.
pub const IGNORED: u32 = 0x4000;

/// The status bit of an untracked worktree entry.
pub const WT_NEW: u32 = 0x80;

/// The status bits of a changed, deleted, renamed, retyped or unreadable worktree entry.
pub const WT_CHANGED: u32 = 0x1f00;

/// The status bits of an entry that differs between index and commit.
pub const INDEX_CHANGED: u32 = 0x1f;

/// The status bit of a conflicted entry.
pub const CONFLICTED: u32 = 0x8000;

/// What is known of one repository.
#[derive(Debug)]
pub struct GitAudit {
    pub root: String,
    pub git_dir: String,
    pub branch: Option<String>,
    pub bare: bool,
    pub detached: bool,
    pub modified: u64,
    pub staged: u64,
    pub untracked: u64,
    pub ignored: u64,
    pub conflicts: u64,
    pub stashes: u64,
    pub remote_verified: bool,
    pub tracked_history_covered: bool,
    pub all_content_synced: bool,
    pub remotes: Vec<String>,
    pub local_only_refs: Vec<String>,
    pub risks: Vec<String>,
    pub checked_unix: u64,
}

impl Default for GitAudit {
    fn default() -> (r: Self)
        ensures
            r.root@ == Seq::<char>::empty(),
            r.git_dir@ == Seq::<char>::empty(),
            r.branch is None,
            !r.bare,
            !r.detached,
            r.modified == 0,
            r.staged == 0,
            r.untracked == 0,
            r.ignored == 0,
            r.conflicts == 0,
            r.stashes == 0,
            !r.remote_verified,
            !r.tracked_history_covered,
            !r.all_content_synced,
            r.remotes@.len() == 0,
            r.local_only_refs@.len() == 0,
            r.risks@.len() == 0,
            r.checked_unix == 0,
    {
        GitAudit {
            root: String::new(),
            git_dir: String::new(),
            branch: None,
            bare: false,
            detached: false,
            modified: 0,
            staged: 0,
            untracked: 0,
            ignored: 0,
            conflicts: 0,
            stashes: 0,
            remote_verified: false,
            tracked_history_covered: false,
            all_content_synced: false,
            remotes: Vec::new(),
            local_only_refs: Vec::new(),
            risks: Vec::new(),
            checked_unix: 0,
        }
    }
}

/// Two audits that say the same.
pub open spec fn same_audit(a: GitAudit, b: GitAudit) -> bool {
    &&& a.root == b.root
    &&& a.git_dir == b.git_dir
    &&& a.branch == b.branch
    &&& a.bare == b.bare
    &&& a.detached == b.detached
    &&& a.modified == b.modified
    &&& a.staged == b.staged
    &&& a.untracked == b.untracked
    &&& a.ignored == b.ignored
    &&& a.conflicts == b.conflicts
    &&& a.stashes == b.stashes
    &&& a.remote_verified == b.remote_verified
    &&& a.tracked_history_covered == b.tracked_history_covered
    &&& a.all_content_synced == b.all_content_synced
    &&& a.remotes@ == b.remotes@
    &&& a.local_only_refs@ == b.local_only_refs@
    &&& a.risks@ == b.risks@
    &&& a.checked_unix == b.checked_unix
}

impl Clone for GitAudit {
    fn clone(&self) -> (r: Self)
        ensures
            same_audit(r, *self),
    {
        GitAudit {
            root: self.root.clone(),
            git_dir: self.git_dir.clone(),
            branch: match &self.branch {
                Some(b) => Some(b.clone()),
                None => None,
            },
            bare: self.bare,
            detached: self.detached,
            modified: self.modified,
            staged: self.staged,
            untracked: self.untracked,
            ignored: self.ignored,
            conflicts: self.conflicts,
            stashes: self.stashes,
            remote_verified: self.remote_verified,
            tracked_history_covered: self.tracked_history_covered,
            all_content_synced: self.all_content_synced,
            remotes: text::copy_list(&self.remotes),
            local_only_refs: text::copy_list(&self.local_only_refs),
            risks: text::copy_list(&self.risks),
            checked_unix: self.checked_unix,
        }
    }
}

impl GitAudit {
    /// Deleting anything here needs a word of its own.
    pub open spec fn risky(&self) -> bool {
        !self.all_content_synced || self.risks@.len() > 0
    }

    pub fn needs_confirmation(&self) -> (r: bool)
        ensures
            r == self.risky(),
    {
        !self.all_content_synced || self.risks.len() > 0
    }

    /// The one-line form.
    pub open spec fn line(&self) -> Seq<char> {
        "git:"@ + (if self.all_content_synced {
            "covered"@
        } else {
            "LOCAL-DATA"@
        }) + " branch="@ + (match self.branch {
            Some(b) => b@,
            None => if self.detached {
                "detached"@
            } else {
                "unborn"@
            },
        }) + " changed="@ + text::decimal_of(self.modified as nat) + " staged="@
            + text::decimal_of(self.staged as nat) + " untracked="@ + text::decimal_of(
            self.untracked as nat,
        ) + " ignored="@ + text::decimal_of(self.ignored as nat) + " stash="@ + text::decimal_of(
            self.stashes as nat,
        ) + " local-refs="@ + text::decimal_of(self.local_only_refs@.len()) + " remote="@ + (
        if self.remote_verified {
            "verified"@
        } else {
            "UNVERIFIED"@
        })
    }

    pub fn concise(&self) -> (r: String)
        ensures
            r@ == self.line(),
    {
        let mut s = String::new();
        s.append("git:");
        s.append(if self.all_content_synced { "covered" } else { "LOCAL-DATA" });
        s.append(" branch=");
        match &self.branch {
            Some(b) => {
                s.append(b.as_str());
            },
            None => {
                s.append(if self.detached { "detached" } else { "unborn" });
            },
        }
        s.append(" changed=");
        s.append(text::decimal(self.modified).as_str());
        s.append(" staged=");
        s.append(text::decimal(self.staged).as_str());
        s.append(" untracked=");
        s.append(text::decimal(self.untracked).as_str());
        s.append(" ignored=");
        s.append(text::decimal(self.ignored).as_str());
        s.append(" stash=");
        s.append(text::decimal(self.stashes).as_str());
        s.append(" local-refs=");
        s.append(text::decimal(self.local_only_refs.len() as u64).as_str());
        s.append(" remote=");
        s.append(if self.remote_verified { "verified" } else { "UNVERIFIED" });
        assert(s@ =~= self.line());
        s
    }
}

/// A local branch or tag, and whether a remote is known to hold it.
pub struct RefFact {
    pub name: String,
    pub covered: bool,
}

/// A remote that could not be read, and why.
pub struct RemoteFailure {
    pub name: String,
    pub error: String,
}

/// What was read from a repository.
pub struct GitFacts {
    pub root: String,
    pub git_dir: String,
    pub bare: bool,
    pub detached: bool,
    pub checked_unix: u64,
    /// There is a readable HEAD.
    pub head: bool,
    pub branch: Option<String>,
    /// The operation in progress, if any.
    pub operation: Option<String>,
    /// The status bits of every worktree entry.
    pub statuses: Vec<u32>,
    pub status_error: Option<String>,
    pub stashes: u64,
    pub stash_error: Option<String>,
    pub worktrees: u64,
    pub submodules: u64,
    pub remotes: Vec<String>,
    /// The remotes were asked, not just their cached refs.
    pub fetch: bool,
    /// The remotes that could not be asked.
    pub failures: Vec<RemoteFailure>,
    pub branches: Vec<RefFact>,
    /// A remote is known to hold a detached HEAD.
    pub head_covered: bool,
    pub tags: Vec<RefFact>,
}

pub open spec fn is_ignored(s: u32) -> bool {
    s == IGNORED
}

pub open spec fn is_untracked(s: u32) -> bool {
    s != IGNORED && s & WT_NEW != 0
}

pub open spec fn is_modified(s: u32) -> bool {
    s != IGNORED && s & WT_CHANGED != 0
}

pub open spec fn is_staged(s: u32) -> bool {
    s != IGNORED && s & INDEX_CHANGED != 0
}

pub open spec fn is_conflicted(s: u32) -> bool {
    s != IGNORED && s & CONFLICTED != 0
}

/// How many entries a predicate holds of.
pub open spec fn tally(statuses: Seq<u32>, p: spec_fn(u32) -> bool) -> nat
    decreases statuses.len(),
{
    if statuses.len() == 0 {
        0
    } else {
        tally(statuses.drop_last(), p) + if p(statuses.last()) {
            1nat
        } else {
            0nat
        }
    }
}

/// The worktree entries that count: those of a repository with a worktree.
pub open spec fn counted(f: GitFacts) -> Seq<u32> {
    if f.bare {
        Seq::empty()
    } else {
        f.statuses@
    }
}

/// The branches that no remote is known to hold.
pub open spec fn open_branches(refs: Seq<RefFact>) -> Seq<Seq<char>>
    decreases refs.len(),
{
    if refs.len() == 0 {
        Seq::empty()
    } else {
        open_branches(refs.drop_last()) + text::when(
            !refs.last().covered,
            "branch:"@ + refs.last().name@,
        )
    }
}

/// The tags that no remote is known to hold; without asking, none is known to be held.
pub open spec fn open_tags(refs: Seq<RefFact>, fetch: bool) -> Seq<Seq<char>>
    decreases refs.len(),
{
    if refs.len() == 0 {
        Seq::empty()
    } else {
        open_tags(refs.drop_last(), fetch) + text::when(
            !fetch || !refs.last().covered,
            refs.last().name@,
        )
    }
}

/// The refs that may exist only here.
pub open spec fn local_refs(f: GitFacts) -> Seq<Seq<char>> {
    open_branches(f.branches@) + text::when(f.detached && !f.head_covered, "detached HEAD"@)
        + open_tags(f.tags@, f.fetch)
}

pub open spec fn failure_lines(v: Seq<RemoteFailure>) -> Seq<Seq<char>>
    decreases v.len(),
{
    if v.len() == 0 {
        Seq::empty()
    } else {
        failure_lines(v.drop_last()).push(
            "remote "@ + v.last().name@ + " unavailable/unverified: "@ + v.last().error@,
        )
    }
}

pub open spec fn with_error(head: Seq<char>, e: Option<String>) -> Seq<Seq<char>> {
    match e {
        Some(e) => seq![head + e@],
        None => Seq::empty(),
    }
}

/// The risks that are told before the refs are looked at.
pub open spec fn early_risks(f: GitFacts) -> Seq<Seq<char>> {
    text::when(!f.head, "unborn or unreadable HEAD"@) + with_error(
        "repository operation in progress: "@,
        f.operation,
    ) + with_error(
        "worktree status unknown: "@,
        if f.bare {
            None
        } else {
            f.status_error
        },
    ) + with_error("stash status unknown: "@, f.stash_error) + text::when(
        f.worktrees > 0,
        text::decimal_of(f.worktrees as nat)
            + " linked worktree(s); their private state is not covered by this report"@,
    ) + text::when(
        f.submodules > 0,
        text::decimal_of(f.submodules as nat)
            + " submodule(s): inspect nested repositories separately"@,
    ) + text::when(
        !f.bare && !platform::key_within(
            platform::key_of(f.git_dir@),
            platform::key_of(f.root@),
        ),
        "Git metadata is outside this worktree (linked worktree/submodule)"@,
    ) + (if f.fetch {
        failure_lines(f.failures@)
    } else {
        seq![
            "remote refs are CACHED, not proof of current remote contents; run git --fetch to verify"@,
        ]
    }) + text::when(f.remotes@.len() == 0, "no remote configured"@)
}

/// The risks that the counts tell.
pub open spec fn late_risks(
    changed: bool,
    untracked: bool,
    ignored: bool,
    stashes: bool,
    refs: bool,
) -> Seq<Seq<char>> {
    text::when(changed, "tracked changes/conflicts exist only locally"@) + text::when(
        untracked,
        "untracked worktree entries are not in Git"@,
    ) + text::when(
        ignored,
        "ignored entries are LOCAL-ONLY too; ignore does not mean disposable"@,
    ) + text::when(stashes, "local stashes are not protected by ordinary push"@) + text::when(
        refs,
        "local refs/commits/tags are not proven covered by advertised remotes"@,
    )
}

/// Whether the remotes are known to hold a commit: one of their tips is it, or descends
/// from it.
pub fn covered(same: &[bool], descends: &[bool]) -> (r: bool)
    requires
        same@.len() == descends@.len(),
    ensures
        r == exists|i: int| 0 <= i < same@.len() && ((#[trigger] same@[i]) || descends@[i]),
{
    let mut i: usize = 0;
    while i < same.len()
        invariant
            i <= same@.len(),
            same@.len() == descends@.len(),
            forall|k: int| 0 <= k < i ==> !(#[trigger] same@[k]) && !descends@[k],
        decreases same@.len() - i,
    {
        let here: bool = same[i];
        let above: bool = descends[i];
        if here || above {
            assert(same@[i as int] == here);
            return true;
        }
        assert forall|k: int| 0 <= k < i + 1 implies !(#[trigger] same@[k]) && !descends@[k] by {
            if k == i {
                assert(same@[k] == here && descends@[k] == above);
            }
        }
        i += 1;
    }
    false
}

/// Whether a tag points at an object that a remote advertises a tag for.
pub open spec fn is_advertised(target: Option<Seq<u8>>, tags: Seq<Vec<u8>>) -> bool {
    match target {
        Some(id) => exists|i: int| 0 <= i < tags.len() && (#[trigger] tags[i])@ == id,
        None => false,
    }
}

pub fn tag_advertised(target: Option<&[u8]>, tags: &[Vec<u8>]) -> (r: bool)
    ensures
        r == is_advertised(
            match target {
                Some(id) => Some(id@),
                None => None,
            },
            tags@,
        ),
{
    let id: &[u8] = match target {
        Some(id) => id,
        None => {
            return false;
        },
    };
    let mut i: usize = 0;
    while i < tags.len()
        invariant
            i <= tags@.len(),
            target matches Some(t) && t@ == id@,
            forall|k: int| 0 <= k < i ==> (#[trigger] tags@[k])@ != id@,
        decreases tags@.len() - i,
    {
        if bytes::same_bytes(tags[i].as_slice(), id) {
            assert(tags@[i as int]@ == id@);
            assert(is_advertised(Some(id@), tags@));
            return true;
        }
        i += 1;
    }
    false
}

/// Every remote was asked and answered.
pub open spec fn verified(f: GitFacts) -> bool {
    f.fetch && f.remotes@.len() > 0 && f.failures@.len() == 0
}

/// The audit that the facts call for.
pub open spec fn audits(f: GitFacts, a: GitAudit) -> bool {
    let s = counted(f);
    &&& a.root@ == f.root@
    &&& a.git_dir@ == f.git_dir@
    &&& a.bare == f.bare
    &&& a.detached == f.detached
    &&& a.checked_unix == f.checked_unix
    &&& a.branch == if f.head {
        f.branch
    } else {
        None
    }
    &&& a.modified == tally(s, |x: u32| is_modified(x))
    &&& a.staged == tally(s, |x: u32| is_staged(x))
    &&& a.untracked == tally(s, |x: u32| is_untracked(x))
    &&& a.ignored == tally(s, |x: u32| is_ignored(x))
    &&& a.conflicts == tally(s, |x: u32| is_conflicted(x))
    &&& a.stashes == f.stashes
    &&& a.remotes@ == f.remotes@
    &&& a.remote_verified == verified(f)
    &&& text::views(a.local_only_refs@) == local_refs(f)
    &&& a.tracked_history_covered == (verified(f) && local_refs(f).len() == 0 && f.head)
    &&& text::views(a.risks@) == early_risks(f) + late_risks(
        a.modified > 0 || a.staged > 0 || a.conflicts > 0,
        a.untracked > 0,
        a.ignored > 0,
        a.stashes > 0,
        local_refs(f).len() > 0,
    )
    &&& a.all_content_synced == (a.tracked_history_covered && a.modified == 0 && a.staged == 0
        && a.untracked == 0 && a.ignored == 0 && a.conflicts == 0 && a.stashes == 0
        && a.risks@.len() == 0)
}

fn note_error(out: &mut Vec<String>, head: &str, e: &Option<String>)
    ensures
        text::views(final(out)@) == text::views(old(out)@) + with_error(head@, *e),
{
    let ghost had = out@;
    if let Some(e) = e {
        out.push(text::glue(head, e));
    }
    assert(text::views(out@) =~= text::views(had) + with_error(head@, *e));
}

/// The worktree entries by kind.
struct Entries {
    modified: u64,
    staged: u64,
    untracked: u64,
    ignored: u64,
    conflicts: u64,
}

fn count_entries(facts: &GitFacts) -> (r: Entries)
    ensures
        r.modified == tally(counted(*facts), |x: u32| is_modified(x)),
        r.staged == tally(counted(*facts), |x: u32| is_staged(x)),
        r.untracked == tally(counted(*facts), |x: u32| is_untracked(x)),
        r.ignored == tally(counted(*facts), |x: u32| is_ignored(x)),
        r.conflicts == tally(counted(*facts), |x: u32| is_conflicted(x)),
{
    let ghost s = counted(*facts);
    if facts.bare {
        return Entries { modified: 0, staged: 0, untracked: 0, ignored: 0, conflicts: 0 };
    }
    let mut i: usize = 0;
    assert(s.subrange(0, 0) =~= Seq::<u32>::empty());
    let mut modified: u64 = 0;
    let mut staged: u64 = 0;
    let mut untracked: u64 = 0;
    let mut ignored: u64 = 0;
    let mut conflicts: u64 = 0;
    while i < facts.statuses.len()
        invariant
            i <= facts.statuses.len(),
            s == facts.statuses@,
            modified == tally(s.subrange(0, i as int), |x: u32| is_modified(x)),
            staged == tally(s.subrange(0, i as int), |x: u32| is_staged(x)),
            untracked == tally(s.subrange(0, i as int), |x: u32| is_untracked(x)),
            ignored == tally(s.subrange(0, i as int), |x: u32| is_ignored(x)),
            conflicts == tally(s.subrange(0, i as int), |x: u32| is_conflicted(x)),
            modified <= i,
            staged <= i,
            untracked <= i,
            ignored <= i,
            conflicts <= i,
        decreases facts.statuses.len() - i,
    {
        let x: u32 = facts.statuses[i];
        proof {
            assert(s.subrange(0, i + 1).drop_last() =~= s.subrange(0, i as int));
            assert(s.subrange(0, i + 1).last() == x);
        }
        if x == IGNORED {
            ignored += 1;
        } else {
            if x & WT_NEW != 0 {
                untracked += 1;
            }
            if x & WT_CHANGED != 0 {
                modified += 1;
            }
            if x & INDEX_CHANGED != 0 {
                staged += 1;
            }
            if x & CONFLICTED != 0 {
                conflicts += 1;
            }
        }
        i += 1;
    }
    assert(s.subrange(0, i as int) =~= s);
    Entries { modified, staged, untracked, ignored, conflicts }
}

fn early_notes(facts: &GitFacts) -> (r: Vec<String>)
    ensures
        text::views(r@) == early_risks(*facts),
{
    let mut risks: Vec<String> = Vec::new();
    assert(text::views(risks@) =~= Seq::<Seq<char>>::empty());
    text::note(&mut risks, !facts.head, "unborn or unreadable HEAD");
    note_error(&mut risks, "repository operation in progress: ", &facts.operation);
    let none: Option<String> = None;
    note_error(
        &mut risks,
        "worktree status unknown: ",
        if facts.bare {
            &none
        } else {
            &facts.status_error
        },
    );
    note_error(&mut risks, "stash status unknown: ", &facts.stash_error);
    let worktrees: String = text::glue(
        &text::decimal(facts.worktrees),
        " linked worktree(s); their private state is not covered by this report",
    );
    text::note(&mut risks, facts.worktrees > 0, &worktrees);
    let submodules: String = text::glue(
        &text::decimal(facts.submodules),
        " submodule(s): inspect nested repositories separately",
    );
    text::note(&mut risks, facts.submodules > 0, &submodules);
    let outside: bool = !facts.bare && !platform::within(&facts.git_dir, &facts.root);
    text::note(
        &mut risks,
        outside,
        "Git metadata is outside this worktree (linked worktree/submodule)",
    );
    let ghost before = text::views(risks@);
    if facts.fetch {
        let mut k: usize = 0;
        let ghost all = facts.failures@;
        assert(all.subrange(0, 0) =~= Seq::<RemoteFailure>::empty());
        assert(before + failure_lines(all.subrange(0, 0)) =~= before);
        while k < facts.failures.len()
            invariant
                k <= facts.failures.len(),
                all == facts.failures@,
                text::views(risks@) == before + failure_lines(all.subrange(0, k as int)),
            decreases facts.failures.len() - k,
        {
            let mut line = String::new();
            line.append("remote ");
            line.append(facts.failures[k].name.as_str());
            line.append(" unavailable/unverified: ");
            line.append(facts.failures[k].error.as_str());
            let ghost had = text::views(risks@);
            let ghost item = "remote "@ + facts.failures@[k as int].name@
                + " unavailable/unverified: "@ + facts.failures@[k as int].error@;
            assert(line@ =~= item);
            risks.push(line);
            assert(text::views(risks@) =~= had.push(item));
            k += 1;
            proof {
                let now = all.subrange(0, k as int);
                assert(now.drop_last() =~= all.subrange(0, k - 1));
                assert(text::views(risks@) =~= before + failure_lines(now));
            }
        }
        assert(all.subrange(0, k as int) =~= all);
    } else {
        text::note(
            &mut risks,
            true,
            "remote refs are CACHED, not proof of current remote contents; run git --fetch to verify",
        );
    }
    text::note(&mut risks, facts.remotes.len() == 0, "no remote configured");
    assert(text::views(risks@) =~= early_risks(*facts));
    risks
}

fn list_local_refs(facts: &GitFacts) -> (r: Vec<String>)
    ensures
        text::views(r@) == local_refs(*facts),
{
    let mut refs: Vec<String> = Vec::new();
    assert(text::views(refs@) =~= Seq::<Seq<char>>::empty());
    let mut b: usize = 0;
    let ghost branches = facts.branches@;
    assert(branches.subrange(0, 0) =~= Seq::<RefFact>::empty());
    while b < facts.branches.len()
        invariant
            b <= facts.branches.len(),
            branches == facts.branches@,
            text::views(refs@) == open_branches(branches.subrange(0, b as int)),
        decreases facts.branches.len() - b,
    {
        let name: String = text::glue("branch:", &facts.branches[b].name);
        proof {
            let now = branches.subrange(0, b + 1);
            assert(now.drop_last() =~= branches.subrange(0, b as int));
        }
        text::note(&mut refs, !facts.branches[b].covered, &name);
        b += 1;
    }
    assert(branches.subrange(0, b as int) =~= branches);
    text::note(&mut refs, facts.detached && !facts.head_covered, "detached HEAD");
    let ghost kept = text::views(refs@);
    let mut t: usize = 0;
    let ghost tags = facts.tags@;
    assert(tags.subrange(0, 0) =~= Seq::<RefFact>::empty());
    assert(kept + open_tags(tags.subrange(0, 0), facts.fetch) =~= kept);
    while t < facts.tags.len()
        invariant
            t <= facts.tags.len(),
            tags == facts.tags@,
            text::views(refs@) == kept + open_tags(tags.subrange(0, t as int), facts.fetch),
        decreases facts.tags.len() - t,
    {
        proof {
            let now = tags.subrange(0, t + 1);
            assert(now.drop_last() =~= tags.subrange(0, t as int));
        }
        text::note(&mut refs, !facts.fetch || !facts.tags[t].covered, &facts.tags[t].name);
        t += 1;
        assert(text::views(refs@) =~= kept + open_tags(tags.subrange(0, t as int), facts.fetch));
    }
    assert(tags.subrange(0, t as int) =~= tags);
    assert(text::views(refs@) =~= local_refs(*facts));
    refs
}

fn late_notes(risks: &mut Vec<String>, e: &Entries, stashes: bool, refs: bool)
    ensures
        text::views(final(risks)@) == text::views(old(risks)@) + late_risks(
            e.modified > 0 || e.staged > 0 || e.conflicts > 0,
            e.untracked > 0,
            e.ignored > 0,
            stashes,
            refs,
        ),
{
    let ghost early = text::views(risks@);
    text::note(
        risks,
        e.modified > 0 || e.staged > 0 || e.conflicts > 0,
        "tracked changes/conflicts exist only locally",
    );
    text::note(risks, e.untracked > 0, "untracked worktree entries are not in Git");
    text::note(
        risks,
        e.ignored > 0,
        "ignored entries are LOCAL-ONLY too; ignore does not mean disposable",
    );
    text::note(risks, stashes, "local stashes are not protected by ordinary push");
    text::note(
        risks,
        refs,
        "local refs/commits/tags are not proven covered by advertised remotes",
    );
    assert(text::views(risks@) =~= early + late_risks(
        e.modified > 0 || e.staged > 0 || e.conflicts > 0,
        e.untracked > 0,
        e.ignored > 0,
        stashes,
        refs,
    ));
}

/// Draws up the audit that the facts call for.
pub fn audit(facts: GitFacts) -> (a: GitAudit)
    ensures
        audits(facts, a),
{
    let e: Entries = count_entries(&facts);
    let mut risks: Vec<String> = early_notes(&facts);
    let refs: Vec<String> = list_local_refs(&facts);
    assert(refs@.len() == text::views(refs@).len());
    late_notes(&mut risks, &e, facts.stashes > 0, refs.len() > 0);
    let remote_verified: bool = facts.fetch && facts.remotes.len() > 0 && facts.failures.len() == 0;
    let covered: bool = remote_verified && refs.len() == 0 && facts.head;
    let synced: bool = covered && e.modified == 0 && e.staged == 0 && e.untracked == 0 && e.ignored
        == 0 && e.conflicts == 0 && facts.stashes == 0 && risks.len() == 0;
    GitAudit {
        branch: if facts.head {
            facts.branch
        } else {
            None
        },
        root: facts.root,
        git_dir: facts.git_dir,
        bare: facts.bare,
        detached: facts.detached,
        modified: e.modified,
        staged: e.staged,
        untracked: e.untracked,
        ignored: e.ignored,
        conflicts: e.conflicts,
        stashes: facts.stashes,
        remote_verified,
        tracked_history_covered: covered,
        all_content_synced: synced,
        remotes: facts.remotes,
        local_only_refs: refs,
        risks,
        checked_unix: facts.checked_unix,
    }
}

/// Without asking the remotes, nothing is taken as covered: deleting needs a word.
pub proof fn law_cached_refs_prove_nothing(f: GitFacts, a: GitAudit)
    requires
        audits(f, a),
        !f.fetch,
    ensures
        a.risky(),
        !a.remote_verified,
        !a.tracked_history_covered,
        !a.all_content_synced,
{
}

/// An audit that asks for no confirmation stands for a repository whose remotes were
/// all asked and which holds nothing of its own.
pub proof fn law_no_confirmation_means_nothing_local(f: GitFacts, a: GitAudit)
    requires
        audits(f, a),
        !a.risky(),
    ensures
        f.fetch,
        f.head,
        f.remotes@.len() > 0,
        f.failures@.len() == 0,
        f.stashes == 0,
        local_refs(f).len() == 0,
        forall|i: int|
            0 <= i < counted(f).len() ==> !is_ignored(#[trigger] counted(f)[i]) && !is_untracked(
                counted(f)[i],
            ) && !is_modified(counted(f)[i]) && !is_staged(counted(f)[i]) && !is_conflicted(
                counted(f)[i],
            ),
{
    assert forall|i: int| 0 <= i < counted(f).len() implies !is_ignored(#[trigger] counted(f)[i])
        && !is_untracked(counted(f)[i]) && !is_modified(counted(f)[i]) && !is_staged(
        counted(f)[i],
    ) && !is_conflicted(counted(f)[i]) by {
        lemma_tally_zero(counted(f), |x: u32| is_ignored(x), i);
        lemma_tally_zero(counted(f), |x: u32| is_untracked(x), i);
        lemma_tally_zero(counted(f), |x: u32| is_modified(x), i);
        lemma_tally_zero(counted(f), |x: u32| is_staged(x), i);
        lemma_tally_zero(counted(f), |x: u32| is_conflicted(x), i);
    }
}

proof fn lemma_tally_zero(s: Seq<u32>, p: spec_fn(u32) -> bool, i: int)
    requires
        tally(s, p) == 0,
        0 <= i < s.len(),
    ensures
        !p(s[i]),
    decreases s.len(),
{
    if i < s.len() - 1 {
        lemma_tally_zero(s.drop_last(), p, i);
    }
}

/// How a visible file or folder of a worktree is classified.
pub open spec fn state_text(ignored: bool, directory: bool, status: Option<u32>) -> Seq<char> {
    if ignored {
        "ignored/local-only"@
    } else if directory {
        "worktree-dir"@
    } else {
        match status {
            Some(s) => if s == 0 {
                "tracked"@
            } else if s & WT_NEW != 0 {
                "untracked"@
            } else {
                "modified"@
            },
            None => "unknown"@,
        }
    }
}

/// Classifies a visible file or folder, without taking an ignore rule for a permission.
pub fn state_name(ignored: bool, directory: bool, status: Option<u32>) -> (r: String)
    ensures
        r@ == state_text(ignored, directory, status),
{
    if ignored {
        "ignored/local-only".to_owned()
    } else if directory {
        "worktree-dir".to_owned()
    } else {
        match status {
            Some(s) => if s == 0 {
                "tracked".to_owned()
            } else if s & WT_NEW != 0 {
                "untracked".to_owned()
            } else {
                "modified".to_owned()
            },
            None => "unknown".to_owned(),
        }
    }
}

/// What a remote advertises under a name.
#[derive(Clone, Copy, Debug, PartialEq, Eq, Structural)]
pub enum Advertised {
    /// The tip of a branch.
    Tip,
    /// A tag; what it points to is listed by itself.
    Tag,
    Other,
}

pub open spec fn advertised(name: Seq<char>) -> Advertised {
    if "refs/heads/"@.is_prefix_of(name) {
        Advertised::Tip
    } else if "refs/tags/"@.is_prefix_of(name) && !"^{}"@.is_suffix_of(name) {
        Advertised::Tag
    } else {
        Advertised::Other
    }
}

/// What a remote advertises under a name.
pub fn advertised_as(name: &str) -> (r: Advertised)
    ensures
        r == advertised(name@),
{
    if text::starts(name, "refs/heads/") {
        Advertised::Tip
    } else if text::starts(name, "refs/tags/") && !text::ends(
        &text::chars_of(name),
        &text::chars_of("^{}"),
    ) {
        Advertised::Tag
    } else {
        Advertised::Other
    }
}

/// What a repository holds that no remote is known to hold: something changed, staged, new,
/// ignored or in conflict in its worktree, whatever bit of the status tells it.
pub proof fn law_every_local_entry_needs_a_word(f: GitFacts, a: GitAudit, i: int)
    requires
        audits(f, a),
        !f.bare,
        0 <= i < f.statuses@.len(),
        ({
            let s = f.statuses@[i];
            s == 0x4000 || s & 0x1f != 0 || s & 0x1f00 != 0 || s & 0x80 != 0 || s & 0x8000 != 0
        }),
    ensures
        a.risky(),
        !a.all_content_synced,
{
    let s = f.statuses@[i];
    if a.all_content_synced {
        lemma_tally_zero(counted(f), |x: u32| is_ignored(x), i);
        lemma_tally_zero(counted(f), |x: u32| is_untracked(x), i);
        lemma_tally_zero(counted(f), |x: u32| is_modified(x), i);
        lemma_tally_zero(counted(f), |x: u32| is_staged(x), i);
        lemma_tally_zero(counted(f), |x: u32| is_conflicted(x), i);
    }
}

proof fn lemma_no_open_branch(refs: Seq<RefFact>)
    ensures
        open_branches(refs).len() == 0 <==> forall|i: int|
            0 <= i < refs.len() ==> (#[trigger] refs[i]).covered,
    decreases refs.len(),
{
    if refs.len() > 0 {
        let rest = refs.drop_last();
        lemma_no_open_branch(rest);
        assert forall|i: int| 0 <= i < rest.len() implies rest[i] == #[trigger] refs[i] by {}
        if open_branches(refs).len() == 0 {
            assert(refs.last().covered);
            assert forall|i: int| 0 <= i < refs.len() implies (#[trigger] refs[i]).covered by {
                if i < rest.len() {
                    assert(rest[i].covered);
                }
            }
        } else if forall|i: int| 0 <= i < refs.len() ==> (#[trigger] refs[i]).covered {
            assert(refs[refs.len() - 1].covered);
            assert forall|i: int| 0 <= i < rest.len() implies (#[trigger] rest[i]).covered by {
                assert(refs[i].covered);
            }
        }
    }
}

proof fn lemma_no_open_tag(refs: Seq<RefFact>)
    ensures
        open_tags(refs, true).len() == 0 <==> forall|i: int|
            0 <= i < refs.len() ==> (#[trigger] refs[i]).covered,
    decreases refs.len(),
{
    if refs.len() > 0 {
        let rest = refs.drop_last();
        lemma_no_open_tag(rest);
        assert forall|i: int| 0 <= i < rest.len() implies rest[i] == #[trigger] refs[i] by {}
        if open_tags(refs, true).len() == 0 {
            assert(refs.last().covered);
            assert forall|i: int| 0 <= i < refs.len() implies (#[trigger] refs[i]).covered by {
                if i < rest.len() {
                    assert(rest[i].covered);
                }
            }
        } else if forall|i: int| 0 <= i < refs.len() ==> (#[trigger] refs[i]).covered {
            assert(refs[refs.len() - 1].covered);
            assert forall|i: int| 0 <= i < rest.len() implies (#[trigger] rest[i]).covered by {
                assert(refs[i].covered);
            }
        }
    }
}

proof fn lemma_no_failure_line(v: Seq<RemoteFailure>)
    ensures
        failure_lines(v).len() == v.len(),
    decreases v.len(),
{
    if v.len() > 0 {
        lemma_no_failure_line(v.drop_last());
    }
}

proof fn lemma_tally_none(s: Seq<u32>, p: spec_fn(u32) -> bool)
    requires
        forall|i: int| 0 <= i < s.len() ==> !p(#[trigger] s[i]),
    ensures
        tally(s, p) == 0,
    decreases s.len(),
{
    if s.len() > 0 {
        assert(!p(s[s.len() - 1]));
        assert forall|i: int| 0 <= i < s.drop_last().len() implies !p(
            #[trigger] s.drop_last()[i],
        ) by {
            assert(!p(s[i]));
        }
        lemma_tally_none(s.drop_last(), p);
    }
}

/// A repository may go without a word exactly if its remotes were all asked and answered,
/// every branch and tag and a detached head is covered by them, its worktree holds nothing
/// but what is committed, and nothing else is under way, stashed or unknown in it.
pub proof fn law_exactly_a_covered_repository_needs_no_word(f: GitFacts, a: GitAudit)
    requires
        audits(f, a),
    ensures
        !a.risky() <==> {
            &&& f.fetch
            &&& f.remotes@.len() > 0
            &&& f.failures@.len() == 0
            &&& f.head
            &&& f.operation is None
            &&& f.stash_error is None
            &&& f.stashes == 0
            &&& f.worktrees == 0
            &&& f.submodules == 0
            &&& f.detached ==> f.head_covered
            &&& forall|i: int| 0 <= i < f.branches@.len() ==> (#[trigger] f.branches@[i]).covered
            &&& forall|i: int| 0 <= i < f.tags@.len() ==> (#[trigger] f.tags@[i]).covered
            &&& !f.bare ==> f.status_error is None && platform::key_within(
                platform::key_of(f.git_dir@),
                platform::key_of(f.root@),
            )
            &&& !f.bare ==> forall|i: int|
                0 <= i < f.statuses@.len() ==> {
                    let s = #[trigger] f.statuses@[i];
                    s != 0x4000 && s & 0x1f == 0 && s & 0x1f00 == 0 && s & 0x80 == 0 && s & 0x8000
                        == 0
                }
        },
{
    lemma_no_open_branch(f.branches@);
    if f.fetch {
        lemma_no_open_tag(f.tags@);
    }
    lemma_no_failure_line(f.failures@);
    assert(a.risks@.len() == text::views(a.risks@).len());
    let s = counted(f);
    if !a.risky() {
        if !f.bare {
            assert forall|i: int| 0 <= i < f.statuses@.len() implies ({
                let s = #[trigger] f.statuses@[i];
                s != 0x4000 && s & 0x1f == 0 && s & 0x1f00 == 0 && s & 0x80 == 0 && s & 0x8000 == 0
            }) by {
                let s = f.statuses@[i];
                if s == 0x4000 || s & 0x1f != 0 || s & 0x1f00 != 0 || s & 0x80 != 0 || s & 0x8000
                    != 0 {
                    law_every_local_entry_needs_a_word(f, a, i);
                }
            }
        }
    } else if f.fetch && (!f.bare ==> forall|i: int|
        0 <= i < f.statuses@.len() ==> {
            let s = #[trigger] f.statuses@[i];
            s != 0x4000 && s & 0x1f == 0 && s & 0x1f00 == 0 && s & 0x80 == 0 && s & 0x8000 == 0
        }) {
        lemma_tally_none(s, |x: u32| is_ignored(x));
        lemma_tally_none(s, |x: u32| is_untracked(x));
        lemma_tally_none(s, |x: u32| is_modified(x));
        lemma_tally_none(s, |x: u32| is_staged(x));
        lemma_tally_none(s, |x: u32| is_conflicted(x));
    }
}

/// What the counts of an audit say: an entry counts under each of its kinds, and a bare
/// repository has none.
pub proof fn law_entries_count_by_their_bits(f: GitFacts, a: GitAudit, more: GitFacts, b: GitAudit)
    requires
        audits(f, a),
        audits(more, b),
        !f.bare,
        !more.bare,
        more.statuses@.len() > 0,
        f.statuses@ == more.statuses@.drop_last(),
    ensures
        ({
            let s = more.statuses@.last();
            let one = |yes: bool|
                if yes {
                    1int
                } else {
                    0int
                };
            &&& b.ignored == a.ignored + one(s == 0x4000)
            &&& b.untracked == a.untracked + one(s != 0x4000 && s & 0x80 != 0)
            &&& b.modified == a.modified + one(s != 0x4000 && s & 0x1f00 != 0)
            &&& b.staged == a.staged + one(s != 0x4000 && s & 0x1f != 0)
            &&& b.conflicts == a.conflicts + one(s != 0x4000 && s & 0x8000 != 0)
        }),
{
}

/// What a remote advertises below its heads is the tip of a branch; below its tags it is a
/// tag, but for the entries that only say what a tag points to.
pub proof fn law_heads_are_tips_and_tags_are_tags(name: Seq<char>)
    ensures
        advertised("refs/heads/"@ + name) == Advertised::Tip,
        advertised("refs/tags/"@ + name) == Advertised::Tag || "^{}"@.is_suffix_of(
            "refs/tags/"@ + name,
        ),
        advertised("refs/tags/"@ + name + "^{}"@) == Advertised::Other,
        advertised(name) == Advertised::Tip ==> "refs/heads/"@.is_prefix_of(name),
        advertised(name) == Advertised::Tag ==> "refs/tags/"@.is_prefix_of(name)
            && !"^{}"@.is_suffix_of(name),
{
    reveal_strlit("refs/heads/");
    reveal_strlit("refs/tags/");
    reveal_strlit("^{}");
    let heads = "refs/heads/"@;
    let tags = "refs/tags/"@;
    let mark = "^{}"@;
    assert((heads + name).subrange(0, heads.len() as int) =~= heads);
    assert((tags + name).subrange(0, tags.len() as int) =~= tags);
    let tag = tags + name + mark;
    assert(tag.subrange(0, tags.len() as int) =~= tags);
    assert(tag.subrange(tag.len() - mark.len(), tag.len() as int) =~= mark);
    assert(heads[5] == 'h' && tags[5] == 't');
    assert((tags + name)[5] == 't' && tag[5] == 't');
    if heads.is_prefix_of(tags + name) {
        assert((tags + name).subrange(0, heads.len() as int)[5] == heads[5]);
    }
    if heads.is_prefix_of(tag) {
        assert(tag.subrange(0, heads.len() as int)[5] == heads[5]);
    }
}

/// A file is called tracked only if its status is empty, and untracked only if it is new; an
/// ignored one is called local whatever its status.
pub proof fn law_files_are_called_by_their_status(ignored: bool, directory: bool, s: u32)
    ensures
        ignored ==> state_text(ignored, directory, Some(s)) == "ignored/local-only"@,
        !ignored && !directory && s == 0 ==> state_text(ignored, directory, Some(s)) == "tracked"@,
        !ignored && !directory && s != 0 && s & 0x80 != 0 ==> state_text(
            ignored,
            directory,
            Some(s),
        ) == "untracked"@,
        !ignored && !directory && s != 0 && s & 0x80 == 0 ==> state_text(
            ignored,
            directory,
            Some(s),
        ) == "modified"@,
        !ignored && !directory ==> state_text(ignored, directory, None) == "unknown"@,
{
}

/// A tag counts as advertised only with a target, and only if a remote lists just that.
pub proof fn law_tags_are_advertised_by_their_target(target: Option<Seq<u8>>, tags: Seq<Vec<u8>>)
    ensures
        target is None ==> !is_advertised(target, tags),
        target matches Some(id) ==> (is_advertised(target, tags) <==> exists|i: int|
            0 <= i < tags.len() && (#[trigger] tags[i])@ == id),
{
}

/// The remotes count as verified only if they were asked, there are some, and none failed.
pub proof fn law_remotes_are_verified_by_asking(f: GitFacts, a: GitAudit)
    requires
        audits(f, a),
    ensures
        a.remote_verified <==> f.fetch && f.remotes@.len() > 0 && f.failures@.len() == 0,
        a.tracked_history_covered ==> a.remote_verified && f.head,
        a.all_content_synced ==> a.tracked_history_covered,
        a.branch is Some ==> f.head,
{
}

/// A branch or tag that no remote is known to hold is told, under its name.
pub proof fn law_uncovered_refs_are_told(refs: Seq<RefFact>, i: int)
    requires
        0 <= i < refs.len(),
        !refs[i].covered,
    ensures
        open_branches(refs).contains("branch:"@ + refs[i].name@),
        open_tags(refs, true).contains(refs[i].name@),
        open_tags(refs, false).contains(refs[i].name@),
    decreases refs.len(),
{
    let rest = refs.drop_last();
    let b = "branch:"@ + refs[i].name@;
    let t = refs[i].name@;
    if i < rest.len() {
        law_uncovered_refs_are_told(rest, i);
        let k = open_branches(rest).index_of(b);
        assert(open_branches(refs)[k] == b);
        let k = open_tags(rest, true).index_of(t);
        assert(open_tags(refs, true)[k] == t);
        let k = open_tags(rest, false).index_of(t);
        assert(open_tags(refs, false)[k] == t);
    } else {
        assert(open_branches(refs)[open_branches(rest).len() as int] == b);
        assert(open_tags(refs, true)[open_tags(rest, true).len() as int] == t);
        assert(open_tags(refs, false)[open_tags(rest, false).len() as int] == t);
    }
}

} // verus!
