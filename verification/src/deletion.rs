//! The review of marked targets, its approval, and what becomes of the plan afterwards.
use crate::git_audit;
use crate::git_audit::GitAudit;
use crate::model;
use crate::model::Snapshot;
use crate::order;
use crate::path_order;
use crate::plan;
use crate::plan::{Alert, Plan, Summary, Target};
use crate::platform;
use crate::platform::{Identity, VolumeInfo};
use crate::selection;
use crate::selection::TreeSelection;
use crate::text;
use crate::tree;
use crate::wide;
use crate::wide::Wide;
use vstd::prelude::*;
use vstd::string::*;

verus! {

/// The time between two reports of progress, in milliseconds.
pub const PROGRESS_MS: u64 = 50;

/// A marked target and the tree that was found there.
#[derive(Debug)]
pub struct PreparedTarget {
    pub target: Target,
    pub tree: Snapshot,
}

/// Everything that a person reviews.
#[derive(Debug)]
pub struct Prepared {
    pub plan_path: String,
    pub plan: Plan,
    pub targets: Vec<PreparedTarget>,
    pub git: Vec<GitAudit>,
    pub problems: Vec<String>,
    pub volumes: Vec<VolumeInfo>,
    pub total_items: u64,
    pub allocated_upper_bound: u64,
}

/// A tree that can be reviewed.
pub open spec fn reviewable(s: Snapshot) -> bool {
    &&& tree::linked(s.nodes@)
    &&& model::names_inside(s.nodes@, s.names@.len())
    &&& model::parents_inside(s.nodes@)
}

impl Prepared {
    /// Every tree can be reviewed.
    pub open spec fn sound(&self) -> bool {
        forall|i: int|
            0 <= i < self.targets@.len() ==> reviewable((#[trigger] self.targets@[i]).tree)
    }

    pub open spec fn risky(&self) -> bool {
        exists|i: int| 0 <= i < self.git@.len() && (#[trigger] self.git@[i]).risky()
    }

    pub open spec fn deletable(&self) -> bool {
        self.problems@.len() == 0 && self.targets@.len() > 0
    }

    pub fn git_risk(&self) -> (r: bool)
        ensures
            r == self.risky(),
    {
        let mut i: usize = 0;
        while i < self.git.len()
            invariant
                i <= self.git@.len(),
                forall|k: int| 0 <= k < i ==> !(#[trigger] self.git@[k]).risky(),
            decreases self.git@.len() - i,
        {
            if self.git[i].needs_confirmation() {
                return true;
            }
            i += 1;
        }
        false
    }

    pub fn can_delete(&self) -> (r: bool)
        ensures
            r == self.deletable(),
    {
        self.problems.len() == 0 && self.targets.len() > 0
    }
}

/// What to do about a file that somebody holds.
#[derive(Clone, Copy, Debug, PartialEq, Eq, Structural)]
pub enum LockDecision {
    Skip,
    Retry,
    CloseGracefully,
    ForceClose,
}

/// How many selections go with the targets.
pub open spec fn pairs(prepared: Prepared, chosen: Seq<TreeSelection>) -> nat {
    if chosen.len() < prepared.targets@.len() {
        chosen.len()
    } else {
        prepared.targets@.len()
    }
}

/// Each selection that covers its tree is one of that tree.
pub open spec fn paired(prepared: Prepared, chosen: Seq<TreeSelection>) -> bool {
    forall|i: int|
        0 <= i < pairs(prepared, chosen) && (#[trigger] chosen[i]).marks().len()
            == prepared.targets@[i].tree.nodes@.len() ==> chosen[i].fits(
            prepared.targets@[i].tree.nodes@,
        )
}

/// There is one selection for each target, and it covers the target's tree.
pub open spec fn covers(prepared: Prepared, chosen: Seq<TreeSelection>) -> bool {
    &&& chosen.len() == prepared.targets@.len()
    &&& forall|i: int|
        0 <= i < chosen.len() ==> (#[trigger] chosen[i]).marks().len()
            == prepared.targets@[i].tree.nodes@.len()
}

/// The paths of the listed nodes, as they are read.
pub open spec fn node_paths(s: Snapshot, ids: Seq<u32>) -> Seq<Seq<u16>> {
    ids.map_values(|id: u32| model::path_at(s.root@, s.nodes@, s.names@, id, s.nodes@.len()))
}

/// The paths of the topmost selected nodes of the first `n` targets.
pub open spec fn chosen_paths(prepared: Prepared, chosen: Seq<TreeSelection>, n: nat) -> Seq<
    Seq<u16>,
>
    decreases n,
{
    if n == 0 {
        Seq::empty()
    } else {
        let t = prepared.targets@[n - 1].tree;
        chosen_paths(prepared, chosen, (n - 1) as nat) + node_paths(
            t,
            selection::roots_of(t.nodes@, chosen[n - 1].sums()),
        )
    }
}

/// A repository lies at, in or around one of the paths.
pub open spec fn touched(root: Seq<char>, paths: Seq<Seq<u16>>) -> bool {
    exists|i: int| 0 <= i < paths.len() && plan::overlap(text::utf16_text(#[trigger] paths[i]), root)
}

/// The first `n` audits whose repositories one of the paths touches.
pub open spec fn touched_audits(git: Seq<GitAudit>, paths: Seq<Seq<u16>>, n: nat) -> Seq<usize>
    decreases n,
{
    if n == 0 {
        Seq::empty()
    } else {
        let before = touched_audits(git, paths, (n - 1) as nat);
        if touched(git[n - 1].root@, paths) {
            before.push((n - 1) as usize)
        } else {
            before
        }
    }
}

/// The audits that concern what is selected.
pub open spec fn concerned(prepared: Prepared, chosen: Seq<TreeSelection>) -> Seq<usize> {
    touched_audits(
        prepared.git@,
        chosen_paths(prepared, chosen, pairs(prepared, chosen)),
        prepared.git@.len(),
    )
}

/// Some repository that the selection concerns needs a word of its own.
pub open spec fn chosen_risk(prepared: Prepared, chosen: Seq<TreeSelection>) -> bool {
    exists|i: int|
        0 <= i < prepared.git@.len() && (#[trigger] prepared.git@[i]).risky() && touched(
            prepared.git@[i].root@,
            chosen_paths(prepared, chosen, pairs(prepared, chosen)),
        )
}

/// The paths of what is selected, topmost nodes only.
pub fn selected_paths(prepared: &Prepared, chosen: &[TreeSelection]) -> (r: Vec<Wide>)
    requires
        prepared.sound(),
        covers(*prepared, chosen@),
        paired(*prepared, chosen@),
    ensures
        wide::all_units(r@) == chosen_paths(*prepared, chosen@, pairs(*prepared, chosen@)),
{
    let mut out: Vec<Wide> = Vec::new();
    let mut i: usize = 0;
    assert(wide::all_units(out@) =~= Seq::<Seq<u16>>::empty());
    while i < chosen.len()
        invariant
            i <= chosen@.len(),
            prepared.sound(),
            covers(*prepared, chosen@),
            paired(*prepared, chosen@),
            wide::all_units(out@) == chosen_paths(*prepared, chosen@, i as nat),
        decreases chosen@.len() - i,
    {
        let t: &Snapshot = &prepared.targets[i].tree;
        proof {
            assert(reviewable(prepared.targets@[i as int].tree));
            assert(chosen@[i as int].marks().len() == t.nodes@.len());
        }
        let roots: Vec<u32> = chosen[i].selected_roots(t);
        let ghost before = wide::all_units(out@);
        let ghost paths = node_paths(*t, roots@);
        let mut k: usize = 0;
        proof {
            selection::lemma_roots_inside(t.nodes@, chosen@[i as int].sums());
            assert(before + paths.subrange(0, 0) =~= before);
        }
        while k < roots.len()
            invariant
                k <= roots@.len(),
                reviewable(*t),
                forall|j: int| 0 <= j < roots@.len() ==> (#[trigger] roots@[j]) < t.nodes@.len(),
                paths == node_paths(*t, roots@),
                wide::all_units(out@) == before + paths.subrange(0, k as int),
            decreases roots@.len() - k,
        {
            let ghost had = out@;
            let p: Wide = t.path(roots[k]);
            out.push(p);
            proof {
                assert(wide::all_units(out@) =~= wide::all_units(had).push(p@));
                assert(paths[k as int] == p@);
                assert(wide::all_units(out@) =~= before + paths.subrange(0, k + 1));
            }
            k += 1;
        }
        assert(paths.subrange(0, k as int) =~= paths);
        i += 1;
    }
    out
}

fn touches(root: &str, paths: &Vec<Wide>) -> (r: bool)
    ensures
        r == touched(root@, wide::all_units(paths@)),
{
    let ghost all = wide::all_units(paths@);
    let mut i: usize = 0;
    while i < paths.len()
        invariant
            i <= paths@.len(),
            all == wide::all_units(paths@),
            forall|k: int| 0 <= k < i ==> !plan::overlap(
                text::utf16_text(#[trigger] all[k]),
                root@,
            ),
        decreases paths@.len() - i,
    {
        assert(all[i as int] == paths@[i as int]@);
        let path: String = paths[i].to_text();
        if platform::within(&path, root) || platform::within(root, &path) {
            return true;
        }
        i += 1;
    }
    false
}

/// Which audits concern what is selected.
pub fn selected_git(prepared: &Prepared, chosen: &[TreeSelection]) -> (r: Vec<usize>)
    requires
        prepared.sound(),
        covers(*prepared, chosen@),
        paired(*prepared, chosen@),
    ensures
        r@ == concerned(*prepared, chosen@),
        forall|i: int| 0 <= i < r@.len() ==> (#[trigger] r@[i]) < prepared.git@.len(),
{
    let paths: Vec<Wide> = selected_paths(prepared, chosen);
    let mut out: Vec<usize> = Vec::new();
    let mut i: usize = 0;
    while i < prepared.git.len()
        invariant
            i <= prepared.git@.len(),
            out@ == touched_audits(prepared.git@, wide::all_units(paths@), i as nat),
            forall|k: int| 0 <= k < out@.len() ==> (#[trigger] out@[k]) < prepared.git@.len(),
        decreases prepared.git@.len() - i,
    {
        if touches(&prepared.git[i].root, &paths) {
            out.push(i);
        }
        i += 1;
    }
    out
}

/// Whether what is selected concerns a repository that needs a word of its own.
pub fn selected_git_risk(prepared: &Prepared, chosen: &[TreeSelection]) -> (r: bool)
    requires
        prepared.sound(),
        covers(*prepared, chosen@),
        paired(*prepared, chosen@),
    ensures
        r == chosen_risk(*prepared, chosen@),
{
    let paths: Vec<Wide> = selected_paths(prepared, chosen);
    let mut i: usize = 0;
    while i < prepared.git.len()
        invariant
            i <= prepared.git@.len(),
            wide::all_units(paths@) == chosen_paths(*prepared, chosen@, pairs(*prepared, chosen@)),
            forall|k: int|
                0 <= k < i ==> !((#[trigger] prepared.git@[k]).risky() && touched(
                    prepared.git@[k].root@,
                    wide::all_units(paths@),
                )),
        decreases prepared.git@.len() - i,
    {
        if prepared.git[i].needs_confirmation() && touches(&prepared.git[i].root, &paths) {
            assert(prepared.git@[i as int].risky());
            return true;
        }
        i += 1;
    }
    false
}

/// Consent to remove a selection of a reviewed plan. Only a review can give it.
#[derive(Debug)]
pub struct Approval {
    revision: u128,
    git_acknowledged: bool,
    chosen: Vec<TreeSelection>,
}

/// Why a review cannot be approved.
#[derive(Debug)]
pub enum ApprovalFault {
    Unresolved,
    WrongSelection,
    NothingChecked,
    GitUnconfirmed,
    /// A selected path is refused, for this reason.
    Refused(String),
}

impl ApprovalFault {
    pub fn message(&self) -> (r: String)
        ensures
            r@ == (match *self {
                ApprovalFault::Unresolved => "review has unresolved problems"@,
                ApprovalFault::WrongSelection => "selection does not match the reviewed trees"@,
                ApprovalFault::NothingChecked => "no files or folders are checked"@,
                ApprovalFault::GitUnconfirmed => "unsynced/unknown Git data needs a separate confirmation"@,
                ApprovalFault::Refused(s) => s@,
            }),
    {
        match self {
            ApprovalFault::Unresolved => "review has unresolved problems".to_owned(),
            ApprovalFault::WrongSelection => "selection does not match the reviewed trees".to_owned(),
            ApprovalFault::NothingChecked => "no files or folders are checked".to_owned(),
            ApprovalFault::GitUnconfirmed => "unsynced/unknown Git data needs a separate confirmation".to_owned(),
            ApprovalFault::Refused(s) => s.clone(),
        }
    }
}

/// Something is selected.
pub open spec fn any_checked(chosen: Seq<TreeSelection>) -> bool {
    exists|i: int| 0 <= i < chosen.len() && (#[trigger] chosen[i]).sums()[0].items() > 0
}

fn covering(prepared: &Prepared, chosen: &[TreeSelection]) -> (r: bool)
    ensures
        r == covers(*prepared, chosen@),
{
    if chosen.len() != prepared.targets.len() {
        return false;
    }
    let mut i: usize = 0;
    while i < chosen.len()
        invariant
            i <= chosen@.len(),
            chosen@.len() == prepared.targets@.len(),
            forall|k: int|
                0 <= k < i ==> (#[trigger] chosen@[k]).marks().len()
                    == prepared.targets@[k].tree.nodes@.len(),
        decreases chosen@.len() - i,
    {
        if chosen[i].len() != prepared.targets[i].tree.nodes.len() {
            assert(chosen@[i as int].marks().len() != prepared.targets@[i as int].tree.nodes@.len());
            return false;
        }
        i += 1;
    }
    true
}

fn checked(prepared: &Prepared, chosen: &[TreeSelection]) -> (r: bool)
    requires
        prepared.sound(),
        covers(*prepared, chosen@),
        paired(*prepared, chosen@),
    ensures
        r == any_checked(chosen@),
{
    let mut i: usize = 0;
    while i < chosen.len()
        invariant
            i <= chosen@.len(),
            prepared.sound(),
            covers(*prepared, chosen@),
            paired(*prepared, chosen@),
            forall|k: int| 0 <= k < i ==> (#[trigger] chosen@[k]).sums()[0].items() == 0,
        decreases chosen@.len() - i,
    {
        proof {
            assert(reviewable(prepared.targets@[i as int].tree));
            assert(chosen@[i as int].marks().len() == prepared.targets@[i as int].tree.nodes@.len());
        }
        if chosen[i].totals(0).items() > 0 {
            return true;
        }
        i += 1;
    }
    false
}

fn copy_chosen(chosen: &[TreeSelection]) -> (r: Vec<TreeSelection>)
    ensures
        same_choices(r@, chosen@),
{
    let mut out: Vec<TreeSelection> = Vec::new();
    let mut i: usize = 0;
    while i < chosen.len()
        invariant
            i <= chosen@.len(),
            out@.len() == i,
            forall|k: int|
                0 <= k < i ==> (#[trigger] out@[k]).marks() == chosen@[k].marks() && out@[k].sums()
                    == chosen@[k].sums(),
        decreases chosen@.len() - i,
    {
        out.push(chosen[i].clone());
        i += 1;
    }
    out
}

/// Selections of the same nodes.
pub open spec fn same_choices(a: Seq<TreeSelection>, b: Seq<TreeSelection>) -> bool {
    a.len() == b.len() && forall|i: int|
        0 <= i < a.len() ==> (#[trigger] a[i]).marks() == b[i].marks() && a[i].sums()
            == b[i].sums()
}

impl Approval {
    pub closed spec fn for_revision(&self) -> u128 {
        self.revision
    }

    pub closed spec fn acknowledged(&self) -> bool {
        self.git_acknowledged
    }

    pub closed spec fn choices(&self) -> Seq<TreeSelection> {
        self.chosen@
    }

    pub fn chosen(&self) -> (r: &[TreeSelection])
        ensures
            r@ == self.choices(),
    {
        self.chosen.as_slice()
    }

    pub fn git_confirmed(&self) -> (r: bool)
        ensures
            r == self.acknowledged(),
    {
        self.git_acknowledged
    }

    /// Approves the removal of a selection. `refused` says why the first of the selected
    /// paths that may not be removed is refused, if there is one.
    pub fn from_gui(
        prepared: &Prepared,
        chosen: &[TreeSelection],
        git_acknowledged: bool,
        refused: Option<String>,
    ) -> (r: Result<Approval, ApprovalFault>)
        requires
            prepared.sound(),
            paired(*prepared, chosen@),
        ensures
            match r {
                Ok(a) => {
                    &&& prepared.deletable()
                    &&& covers(*prepared, chosen@)
                    &&& any_checked(chosen@)
                    &&& chosen_risk(*prepared, chosen@) ==> git_acknowledged
                    &&& refused is None
                    &&& a.for_revision() == prepared.plan.revision
                    &&& a.acknowledged() == git_acknowledged
                    &&& same_choices(a.choices(), chosen@)
                },
                Err(ApprovalFault::Unresolved) => !prepared.deletable(),
                Err(ApprovalFault::WrongSelection) => prepared.deletable() && !covers(
                    *prepared,
                    chosen@,
                ),
                Err(ApprovalFault::NothingChecked) => prepared.deletable() && covers(
                    *prepared,
                    chosen@,
                ) && !any_checked(chosen@),
                Err(ApprovalFault::GitUnconfirmed) => prepared.deletable() && covers(
                    *prepared,
                    chosen@,
                ) && any_checked(chosen@) && chosen_risk(*prepared, chosen@) && !git_acknowledged,
                Err(ApprovalFault::Refused(s)) => prepared.deletable() && covers(
                    *prepared,
                    chosen@,
                ) && any_checked(chosen@) && (chosen_risk(*prepared, chosen@) ==> git_acknowledged)
                    && refused == Some(s),
            },
    {
        if !prepared.can_delete() {
            return Err(ApprovalFault::Unresolved);
        }
        if !covering(prepared, chosen) {
            return Err(ApprovalFault::WrongSelection);
        }
        if !checked(prepared, chosen) {
            return Err(ApprovalFault::NothingChecked);
        }
        if selected_git_risk(prepared, chosen) && !git_acknowledged {
            return Err(ApprovalFault::GitUnconfirmed);
        }
        match refused {
            Some(s) => Err(ApprovalFault::Refused(s)),
            None => Ok(
                Approval {
                    revision: prepared.plan.revision,
                    git_acknowledged,
                    chosen: copy_chosen(chosen),
                },
            ),
        }
    }
}

/// Why a marked target cannot be reviewed.
#[derive(Clone, Copy, Debug, PartialEq, Eq, Structural)]
pub enum TargetFault {
    /// The path leads to another object by now.
    Replaced,
    /// The path is another one by now.
    Moved,
    /// Another target of the plan overlaps.
    Overlap,
    /// The tree has read errors.
    Incomplete,
}

impl TargetFault {
    pub fn message(self) -> (r: &'static str)
        ensures
            r@ == (match self {
                TargetFault::Replaced => "staged path now points to a different file"@,
                TargetFault::Moved => "staged canonical path changed"@,
                TargetFault::Overlap => "plan was edited to contain overlapping targets"@,
                TargetFault::Incomplete => "cannot prepare an incomplete subtree"@,
            }),
    {
        match self {
            TargetFault::Replaced => "staged path now points to a different file",
            TargetFault::Moved => "staged canonical path changed",
            TargetFault::Overlap => "plan was edited to contain overlapping targets",
            TargetFault::Incomplete => "cannot prepare an incomplete subtree",
        }
    }
}

/// Some other target of the plan overlaps the one of number `at`.
pub open spec fn crowded(targets: Seq<Target>, at: int) -> bool {
    exists|i: int|
        0 <= i < targets.len() && (#[trigger] targets[i]).id != targets[at].id && plan::overlap(
            targets[at].path.words(),
            targets[i].path.words(),
        )
}

/// What keeps a target from being reviewed, where its path now resolves to `path` and
/// leads to `now`.
pub open spec fn target_fault(targets: Seq<Target>, at: int, path: Seq<char>, now: Identity) -> Option<
    TargetFault,
> {
    if !now.same(targets[at].identity) {
        Some(TargetFault::Replaced)
    } else if platform::key_of(path) != platform::key_of(targets[at].path.words()) {
        Some(TargetFault::Moved)
    } else if crowded(targets, at) {
        Some(TargetFault::Overlap)
    } else {
        None
    }
}

/// Checks a target of the plan against what its path leads to now.
pub fn check_target(plan: &Plan, at: usize, path: &str, now: &Identity) -> (r: Result<
    (),
    TargetFault,
>)
    requires
        at < plan.targets.len(),
    ensures
        r == (match target_fault(plan.targets@, at as int, path@, *now) {
            Some(f) => Err::<(), TargetFault>(f),
            None => Ok(()),
        }),
{
    let target: &Target = &plan.targets[at];
    let own: String = target.path.to_text();
    if !now.same_file(&target.identity) {
        return Err(TargetFault::Replaced);
    }
    if !text::same(&platform::path_key(path), &platform::path_key(&own)) {
        return Err(TargetFault::Moved);
    }
    let mut i: usize = 0;
    while i < plan.targets.len()
        invariant
            i <= plan.targets@.len(),
            at < plan.targets@.len(),
            *target == plan.targets@[at as int],
            own@ == target.path.words(),
            now.same(target.identity),
            platform::key_of(path@) == platform::key_of(target.path.words()),
            forall|k: int|
                0 <= k < i && (#[trigger] plan.targets@[k]).id != target.id ==> !plan::overlap(
                    target.path.words(),
                    plan.targets@[k].path.words(),
                ),
        decreases plan.targets@.len() - i,
    {
        let other: &Target = &plan.targets[i];
        let place: String = other.path.to_text();
        if other.id != target.id && (platform::within(&own, &place) || platform::within(
            &place,
            &own,
        )) {
            assert(crowded(plan.targets@, at as int));
            return Err(TargetFault::Overlap);
        }
        i += 1;
    }
    Ok(())
}

/// Whether a tree can stand for a target: one that was walked must be complete, one out
/// of an index need not be.
pub fn tree_accepted(tree: &Snapshot, walked: bool) -> (r: Result<(), TargetFault>)
    ensures
        r == (if walked && !tree.stats.complete {
            Err::<(), TargetFault>(TargetFault::Incomplete)
        } else {
            Ok(())
        }),
        r is Ok <==> (walked ==> tree.stats.complete),
{
    if walked && !tree.stats.complete {
        Err(TargetFault::Incomplete)
    } else {
        Ok(())
    }
}

/// Where a review may take its trees from, if not from a saved scan.
#[derive(Clone, Copy, Debug, PartialEq, Eq, Structural)]
pub enum IndexSource {
    /// The index of the volume itself.
    Volume,
    /// A walk through the directories.
    Fs,
}

/// What a target's tree is taken from.
#[derive(Clone, Copy, Debug, PartialEq, Eq, Structural)]
pub enum TreeSource {
    Saved,
    Raw,
    Walk,
    /// There is nothing to take it from.
    Missing,
}

/// What a target's tree is taken from: a scan that was given, else the index of the volume
/// where it holds the target. Directories are walked only where that was asked for.
pub fn tree_source(saved: bool, index: IndexSource, indexed: bool) -> (r: TreeSource)
    ensures
        r == (if saved {
            TreeSource::Saved
        } else if index == IndexSource::Fs {
            TreeSource::Walk
        } else if indexed {
            TreeSource::Raw
        } else {
            TreeSource::Missing
        }),
        saved <==> r == TreeSource::Saved,
        r == TreeSource::Walk ==> index == IndexSource::Fs,
        r == TreeSource::Raw ==> index == IndexSource::Volume && indexed,
        r == TreeSource::Missing ==> index == IndexSource::Volume && !indexed,
{
    if saved {
        TreeSource::Saved
    } else if index == IndexSource::Fs {
        TreeSource::Walk
    } else if indexed {
        TreeSource::Raw
    } else {
        TreeSource::Missing
    }
}

/// The parents of the nodes among the first `n` that are called `.git`.
pub open spec fn git_parents(s: Snapshot, n: nat) -> Seq<Seq<u16>>
    decreases n,
{
    if n <= 1 {
        Seq::empty()
    } else {
        let before = git_parents(s, (n - 1) as nat);
        if model::name_at(s.nodes@, s.names@, n - 1) == ".git"@ {
            before.push(
                model::path_at(
                    s.root@,
                    s.nodes@,
                    s.names@,
                    s.nodes@[n - 1].parent,
                    s.nodes@.len(),
                ),
            )
        } else {
            before
        }
    }
}

/// Where the first `n` targets may hold repositories: at their own paths, and wherever a
/// `.git` stands.
pub open spec fn repo_places(targets: Seq<PreparedTarget>, n: nat) -> Seq<Seq<u16>>
    decreases n,
{
    if n == 0 {
        Seq::empty()
    } else {
        let t = targets[n - 1];
        repo_places(targets, (n - 1) as nat).push(t.target.path@) + git_parents(
            t.tree,
            t.tree.nodes@.len(),
        )
    }
}

/// The same places, each once, in the order of paths.
pub open spec fn repo_list(places: Seq<Seq<u16>>) -> Seq<Seq<u16>> {
    order::distinct_of(places.map_values(|p: Seq<u16>| path_order::key_of(p))).map_values(
        |i: usize| places[i as int],
    )
}

fn add_git_parents(s: &Snapshot, out: &mut Vec<Wide>)
    requires
        reviewable(*s),
    ensures
        wide::all_units(final(out)@) == wide::all_units(old(out)@) + git_parents(*s, s.nodes@.len()),
{
    let ghost had = wide::all_units(out@);
    let n: usize = s.nodes.len();
    let mut i: u32 = 1;
    assert(had + git_parents(*s, 1) =~= had);
    while (i as usize) < n
        invariant
            1 <= i <= n,
            n == s.nodes@.len(),
            n <= u32::MAX,
            reviewable(*s),
            wide::all_units(out@) == had + git_parents(*s, i as nat),
        decreases n - i,
    {
        let ghost before = out@;
        assert(s.nodes@[i as int].name_start + s.nodes@[i as int].name_len <= s.names@.len());
        if text::same(&s.name(i), ".git") {
            let parent: u32 = s.nodes[i as usize].parent;
            let p: Wide = s.path(parent);
            out.push(p);
            proof {
                assert(wide::all_units(out@) =~= wide::all_units(before).push(p@));
                assert(wide::all_units(out@) =~= had + git_parents(*s, (i + 1) as nat));
            }
        }
        i += 1;
    }
}

/// Where to look for repositories: each place once, in the order of paths.
pub fn repo_candidates(targets: &Vec<PreparedTarget>) -> (r: Vec<Wide>)
    requires
        forall|i: int| 0 <= i < targets@.len() ==> reviewable((#[trigger] targets@[i]).tree),
    ensures
        wide::all_units(r@) == repo_list(repo_places(targets@, targets@.len())),
{
    let mut places: Vec<Wide> = Vec::new();
    let mut i: usize = 0;
    assert(wide::all_units(places@) =~= Seq::<Seq<u16>>::empty());
    while i < targets.len()
        invariant
            i <= targets@.len(),
            forall|k: int| 0 <= k < targets@.len() ==> reviewable((#[trigger] targets@[k]).tree),
            wide::all_units(places@) == repo_places(targets@, i as nat),
        decreases targets@.len() - i,
    {
        let ghost had = places@;
        assert(reviewable(targets@[i as int].tree));
        places.push(targets[i].target.path.clone());
        assert(wide::all_units(places@) =~= wide::all_units(had).push(targets@[i as int].target.path@));
        add_git_parents(&targets[i].tree, &mut places);
        i += 1;
    }
    let ghost all = wide::all_units(places@);
    let ghost keys = all.map_values(|p: Seq<u16>| path_order::key_of(p));
    let mut lists: Vec<Vec<u32>> = Vec::new();
    let mut j: usize = 0;
    while j < places.len()
        invariant
            j <= places@.len(),
            all == wide::all_units(places@),
            keys == all.map_values(|p: Seq<u16>| path_order::key_of(p)),
            order::key_views(lists@) == keys.subrange(0, j as int),
        decreases places@.len() - j,
    {
        let ghost had = lists@;
        let l: Vec<u32> = path_order::place(&places[j].units);
        lists.push(l);
        proof {
            assert(order::key_views(lists@) =~= order::key_views(had).push(l@));
            assert(keys[j as int] == path_order::key_of(places@[j as int]@));
            assert(order::key_views(lists@) =~= keys.subrange(0, j + 1));
        }
        j += 1;
    }
    assert(keys.subrange(0, j as int) =~= keys);
    assert(order::key_views(lists@).len() == lists@.len());
    let picks: Vec<usize> = order::distinct(&lists);
    let ghost pick = |i: usize| all[i as int];
    let mut out: Vec<Wide> = Vec::new();
    let mut k: usize = 0;
    assert(wide::all_units(out@) =~= picks@.subrange(0, 0).map_values(pick));
    while k < picks.len()
        invariant
            k <= picks@.len(),
            all == wide::all_units(places@),
            lists@.len() == places@.len(),
            forall|m: int| 0 <= m < picks@.len() ==> (#[trigger] picks@[m]) < lists@.len(),
            pick == (|i: usize| all[i as int]),
            wide::all_units(out@) == picks@.subrange(0, k as int).map_values(pick),
        decreases picks@.len() - k,
    {
        let ghost had = out@;
        let at: usize = picks[k];
        out.push(places[at].clone());
        proof {
            assert(wide::all_units(out@) =~= wide::all_units(had).push(all[at as int]));
            assert(wide::all_units(out@) =~= picks@.subrange(0, k + 1).map_values(pick));
        }
        k += 1;
    }
    assert(picks@.subrange(0, k as int) =~= picks@);
    out
}

/// What came of looking for a repository at one place.
#[derive(Debug)]
pub enum Examined {
    NoRepository,
    Audit(GitAudit),
    /// It could not be told, for this reason.
    Failed(String),
}

/// Some of the listed answers is an audit of that repository.
pub open spec fn audited(answers: Seq<Examined>, kept: Seq<int>, root: Seq<char>) -> bool {
    exists|k: int|
        0 <= k < kept.len() && (answers[#[trigger] kept[k]] matches Examined::Audit(a)
            && platform::key_of(a.root@) == platform::key_of(root))
}

/// Which of the first `n` answers give an audit: one for each repository, and one for each
/// place of which nothing could be told.
pub open spec fn kept_answers(answers: Seq<Examined>, n: nat) -> Seq<int>
    decreases n,
{
    if n == 0 {
        Seq::empty()
    } else {
        let before = kept_answers(answers, (n - 1) as nat);
        match answers[n - 1] {
            Examined::NoRepository => before,
            Examined::Audit(a) => if audited(answers, before, a.root@) {
                before
            } else {
                before.push(n - 1)
            },
            Examined::Failed(_) => before.push(n - 1),
        }
    }
}

/// What is recorded of an answer.
pub open spec fn recorded(place: Seq<char>, answer: Examined, a: GitAudit) -> bool {
    match answer {
        Examined::NoRepository => false,
        Examined::Audit(b) => git_audit::same_audit(a, b),
        Examined::Failed(e) => {
            &&& a.root@ == place
            &&& text::views(a.risks@) == seq!["Git safety unknown: "@ + e@]
            &&& a.git_dir@.len() == 0
            &&& a.branch is None
            &&& !a.bare && !a.detached
            &&& a.modified == 0 && a.staged == 0 && a.untracked == 0 && a.ignored == 0
            &&& a.conflicts == 0 && a.stashes == 0
            &&& !a.all_content_synced && !a.tracked_history_covered && !a.remote_verified
            &&& a.remotes@.len() == 0 && a.local_only_refs@.len() == 0
            &&& a.checked_unix == 0
        },
    }
}

/// The audits that a review shows, from the answers at the places looked at.
pub fn collect_audits(places: &Vec<Wide>, answers: &Vec<Examined>) -> (r: Vec<GitAudit>)
    requires
        places@.len() == answers@.len(),
    ensures
        ({
            let kept = kept_answers(answers@, answers@.len());
            &&& r@.len() == kept.len()
            &&& forall|k: int|
                0 <= k < kept.len() ==> recorded(
                    places@[kept[k]].words(),
                    answers@[kept[k]],
                    #[trigger] r@[k],
                )
        }),
{
    let mut out: Vec<GitAudit> = Vec::new();
    let mut seen: Vec<String> = Vec::new();
    let ghost mut kept = Seq::<int>::empty();
    let mut i: usize = 0;
    while i < answers.len()
        invariant
            i <= answers@.len(),
            places@.len() == answers@.len(),
            kept == kept_answers(answers@, i as nat),
            kept.len() == out@.len(),
            forall|k: int| 0 <= k < kept.len() ==> 0 <= #[trigger] kept[k] < i,
            forall|k: int|
                0 <= k < kept.len() ==> recorded(
                    places@[kept[k]].words(),
                    answers@[kept[k]],
                    #[trigger] out@[k],
                ),
            forall|root: Seq<char>|
                #![trigger platform::key_of(root)]
                text::views(seen@).contains(platform::key_of(root)) == audited(
                    answers@,
                    kept,
                    root,
                ),
        decreases answers@.len() - i,
    {
        let ghost had = kept;
        let ghost keys = text::views(seen@);
        match &answers[i] {
            Examined::NoRepository => {},
            Examined::Audit(a) => {
                let key: String = platform::path_key(&a.root);
                if !knows(&seen, &key) {
                    out.push(a.clone());
                    seen.push(key);
                    proof {
                        kept = had.push(i as int);
                        assert(text::views(seen@) =~= keys.push(key@));
                        assert forall|root: Seq<char>|
                            #![trigger platform::key_of(root)]
                            text::views(seen@).contains(platform::key_of(root)) == audited(
                                answers@,
                                kept,
                                root,
                            ) by {
                            let k = platform::key_of(root);
                            if text::views(seen@).contains(k) {
                                if k == key@ {
                                    assert(kept[had.len() as int] == i);
                                } else {
                                    let w = text::views(seen@).index_of(k);
                                    assert(keys[w] == k);
                                    assert(keys.contains(k));
                                    lemma_audited_more(answers@, had, i as int, root);
                                }
                            }
                            if audited(answers@, kept, root) {
                                let w = choose|w: int|
                                    0 <= w < kept.len() && (answers@[#[trigger] kept[w]]
                                        matches Examined::Audit(b) && platform::key_of(b.root@)
                                        == platform::key_of(root));
                                if w < had.len() {
                                    assert(had[w] == kept[w]);
                                    assert(audited(answers@, had, root));
                                    assert(keys.contains(k));
                                    let v = keys.index_of(k);
                                    assert(text::views(seen@)[v] == k);
                                } else {
                                    assert(text::views(seen@)[keys.len() as int] == k);
                                }
                            }
                        }
                    }
                }
            },
            Examined::Failed(e) => {
                let mut a: GitAudit = GitAudit::default();
                a.root = places[i].to_text();
                let mut risks: Vec<String> = Vec::new();
                let note: String = text::glue("Git safety unknown: ", e);
                risks.push(note);
                assert(text::views(risks@) =~= seq![note@]);
                a.risks = risks;
                out.push(a);
                proof {
                    kept = had.push(i as int);
                    assert forall|root: Seq<char>|
                        #![trigger platform::key_of(root)]
                        text::views(seen@).contains(platform::key_of(root)) == audited(
                            answers@,
                            kept,
                            root,
                        ) by {
                        if audited(answers@, had, root) {
                            lemma_audited_more(answers@, had, i as int, root);
                        }
                        if audited(answers@, kept, root) {
                            let w = choose|w: int|
                                0 <= w < kept.len() && (answers@[#[trigger] kept[w]]
                                    matches Examined::Audit(b) && platform::key_of(b.root@)
                                    == platform::key_of(root));
                            assert(had[w] == kept[w]);
                            assert(audited(answers@, had, root));
                        }
                    }
                }
            },
        }
        i += 1;
    }
    out
}

proof fn lemma_audited_more(answers: Seq<Examined>, kept: Seq<int>, i: int, root: Seq<char>)
    requires
        audited(answers, kept, root),
    ensures
        audited(answers, kept.push(i), root),
{
    let w = choose|w: int|
        0 <= w < kept.len() && (answers[#[trigger] kept[w]] matches Examined::Audit(b)
            && platform::key_of(b.root@) == platform::key_of(root));
    assert(kept.push(i)[w] == kept[w]);
}

fn knows(seen: &Vec<String>, key: &str) -> (r: bool)
    ensures
        r == text::views(seen@).contains(key@),
{
    let ghost all = text::views(seen@);
    let mut i: usize = 0;
    while i < seen.len()
        invariant
            i <= seen@.len(),
            all == text::views(seen@),
            forall|k: int| 0 <= k < i ==> #[trigger] all[k] != key@,
        decreases seen@.len() - i,
    {
        assert(all[i as int] == seen@[i as int]@);
        if text::same(&seen[i], key) {
            return true;
        }
        i += 1;
    }
    false
}

/// The volumes of the targets: the first target of each volume gives what is known of it.
pub open spec fn volume_picks(targets: Seq<PreparedTarget>) -> Seq<usize> {
    order::distinct_of(
        targets.map_values(|t: PreparedTarget| text::code_points(platform::key_of(t.tree.volume.root@))),
    )
}

fn distinct_volumes(targets: &Vec<PreparedTarget>) -> (r: Vec<VolumeInfo>)
    ensures
        r@ == volume_picks(targets@).map_values(|i: usize| targets@[i as int].tree.volume),
{
    let ghost keys = targets@.map_values(
        |t: PreparedTarget| text::code_points(platform::key_of(t.tree.volume.root@)),
    );
    let mut lists: Vec<Vec<u32>> = Vec::new();
    let mut i: usize = 0;
    while i < targets.len()
        invariant
            i <= targets@.len(),
            keys == targets@.map_values(
                |t: PreparedTarget| text::code_points(platform::key_of(t.tree.volume.root@)),
            ),
            order::key_views(lists@) == keys.subrange(0, i as int),
        decreases targets@.len() - i,
    {
        let ghost had = lists@;
        let key: String = platform::path_key(&targets[i].tree.volume.root);
        let one: Vec<u32> = text::points_of(&key);
        lists.push(one);
        proof {
            assert(order::key_views(lists@) =~= order::key_views(had).push(one@));
            assert(keys[i as int] == one@);
            assert(order::key_views(lists@) =~= keys.subrange(0, i + 1));
        }
        i += 1;
    }
    assert(keys.subrange(0, i as int) =~= keys);
    assert(order::key_views(lists@).len() == lists@.len());
    let picks: Vec<usize> = order::distinct(&lists);
    let ghost pick = |i: usize| targets@[i as int].tree.volume;
    let mut out: Vec<VolumeInfo> = Vec::new();
    let mut k: usize = 0;
    while k < picks.len()
        invariant
            k <= picks@.len(),
            lists@.len() == targets@.len(),
            forall|m: int| 0 <= m < picks@.len() ==> (#[trigger] picks@[m]) < lists@.len(),
            pick == (|i: usize| targets@[i as int].tree.volume),
            out@ == picks@.subrange(0, k as int).map_values(pick),
        decreases picks@.len() - k,
    {
        out.push(targets[picks[k]].tree.volume.clone());
        assert(out@ =~= picks@.subrange(0, k + 1).map_values(pick));
        k += 1;
    }
    assert(picks@.subrange(0, k as int) =~= picks@);
    out
}

/// How many entries the first `n` targets have.
pub open spec fn item_sum(targets: Seq<PreparedTarget>, n: nat) -> nat
    decreases n,
{
    if n == 0 {
        0
    } else {
        item_sum(targets, (n - 1) as nat) + targets[n - 1].tree.nodes@.len()
    }
}

/// What the first `n` targets take up.
pub open spec fn space_sum(targets: Seq<PreparedTarget>, n: nat) -> nat
    decreases n,
{
    if n == 0 {
        0
    } else {
        space_sum(targets, (n - 1) as nat) + targets[n - 1].tree.nodes@[0].allocated as nat
    }
}

proof fn lemma_sums_grow(targets: Seq<PreparedTarget>, m: nat, n: nat)
    requires
        m <= n,
    ensures
        item_sum(targets, m) <= item_sum(targets, n),
        space_sum(targets, m) <= space_sum(targets, n),
    decreases n,
{
    if m < n {
        lemma_sums_grow(targets, m, (n - 1) as nat);
    }
}

impl Prepared {
    /// Puts a review together; nothing if its totals cannot be counted.
    pub fn new(
        plan_path: String,
        plan: Plan,
        targets: Vec<PreparedTarget>,
        git: Vec<GitAudit>,
        problems: Vec<String>,
    ) -> (r: Option<Prepared>)
        requires
            forall|i: int| 0 <= i < targets@.len() ==> reviewable((#[trigger] targets@[i]).tree),
        ensures
            match r {
                Some(p) => {
                    &&& p.sound()
                    &&& p.plan_path == plan_path
                    &&& p.plan == plan
                    &&& p.targets == targets
                    &&& p.git == git
                    &&& p.problems == problems
                    &&& p.volumes@ == volume_picks(targets@).map_values(
                        |i: usize| targets@[i as int].tree.volume,
                    )
                    &&& p.total_items == item_sum(targets@, targets@.len())
                    &&& p.allocated_upper_bound == space_sum(targets@, targets@.len())
                },
                None => item_sum(targets@, targets@.len()) > u64::MAX || space_sum(
                    targets@,
                    targets@.len(),
                ) > u64::MAX,
            },
    {
        let mut items: u64 = 0;
        let mut space: u64 = 0;
        let mut i: usize = 0;
        while i < targets.len()
            invariant
                i <= targets@.len(),
                forall|k: int|
                    0 <= k < targets@.len() ==> reviewable((#[trigger] targets@[k]).tree),
                items == item_sum(targets@, i as nat),
                space == space_sum(targets@, i as nat),
            decreases targets@.len() - i,
        {
            proof {
                assert(reviewable(targets@[i as int].tree));
                lemma_sums_grow(targets@, (i + 1) as nat, targets@.len());
            }
            let n: u64 = targets[i].tree.nodes.len() as u64;
            match (items.checked_add(n), space.checked_add(targets[i].tree.nodes[0].allocated)) {
                (Some(a), Some(b)) => {
                    items = a;
                    space = b;
                },
                _ => {
                    return None;
                },
            }
            i += 1;
        }
        let volumes: Vec<VolumeInfo> = distinct_volumes(&targets);
        Some(
            Prepared {
                plan_path,
                plan,
                targets,
                git,
                problems,
                volumes,
                total_items: items,
                allocated_upper_bound: space,
            },
        )
    }
}

/// Why an approved removal does not start.
#[derive(Clone, Copy, Debug, PartialEq, Eq, Structural)]
pub enum RunFault {
    Mismatch,
    Incomplete,
    PlanChanged,
}

impl RunFault {
    pub fn message(self) -> (r: &'static str)
        ensures
            r@ == (match self {
                RunFault::Mismatch => "approval does not match reviewed plan/Git risk"@,
                RunFault::Incomplete => "review is incomplete"@,
                RunFault::PlanChanged => "plan changed while window was open; refresh and confirm again"@,
            }),
    {
        match self {
            RunFault::Mismatch => "approval does not match reviewed plan/Git risk",
            RunFault::Incomplete => "review is incomplete",
            RunFault::PlanChanged => "plan changed while window was open; refresh and confirm again",
        }
    }
}

/// What is selected of target `i`: nothing, a part, or all of it.
pub open spec fn choice(prepared: Prepared, chosen: Seq<TreeSelection>, i: int) -> int {
    selection::state_of(prepared.targets@[i].tree.nodes@, chosen[i].sums(), 0)
}

/// The items selected of the first `n` targets.
pub open spec fn chosen_items(chosen: Seq<TreeSelection>, n: nat) -> nat
    decreases n,
{
    if n == 0 {
        0
    } else {
        chosen_items(chosen, (n - 1) as nat) + chosen[n - 1].sums()[0].items()
    }
}

/// The topmost selected nodes of target `i`, with the number of the target.
pub open spec fn roots_at(prepared: Prepared, chosen: Seq<TreeSelection>, i: int) -> Seq<(usize, u32)> {
    selection::roots_of(prepared.targets@[i].tree.nodes@, chosen[i].sums()).map_values(
        |id: u32| (i as usize, id),
    )
}

/// What stays marked of the first `n` targets if it still exists: the topmost selected
/// nodes of those that are selected in part.
pub open spec fn left_roots(prepared: Prepared, chosen: Seq<TreeSelection>, n: nat) -> Seq<
    (usize, u32),
>
    decreases n,
{
    if n == 0 {
        Seq::empty()
    } else {
        let before = left_roots(prepared, chosen, (n - 1) as nat);
        if choice(prepared, chosen, n - 1) == 1 {
            before + roots_at(prepared, chosen, n - 1)
        } else {
            before
        }
    }
}

/// The marks of the first `n` targets that a run settles: those of wholly selected targets
/// that went, and those of targets selected in part.
pub open spec fn settled_ids(
    prepared: Prepared,
    chosen: Seq<TreeSelection>,
    cleared: Seq<bool>,
    n: nat,
) -> Seq<u128>
    decreases n,
{
    if n == 0 {
        Seq::empty()
    } else {
        let before = settled_ids(prepared, chosen, cleared, (n - 1) as nat);
        let c = choice(prepared, chosen, n - 1);
        if c == 1 || (c == 2 && cleared[n - 1]) {
            before.push(prepared.targets@[n - 1].target.id)
        } else {
            before
        }
    }
}

/// What was found at a path that stays marked: the new mark for it.
#[derive(Debug)]
pub struct Found {
    pub id: u128,
    pub identity: Identity,
    pub now: u64,
}

/// The new mark of a selected node that still exists.
pub open spec fn marks_rest(t: PreparedTarget, id: u32, found: Found, mark: Target) -> bool {
    &&& mark.id == found.id
    &&& mark.path@ == model::path_at(
        t.tree.root@,
        t.tree.nodes@,
        t.tree.names@,
        id,
        t.tree.nodes@.len(),
    )
    &&& mark.reason == t.target.reason
    &&& mark.marked_unix == found.now
    &&& mark.identity == found.identity
    &&& mark.summary == plan::node_summary(t.tree, id as int, 0)
    &&& (match (mark.git, t.target.git) {
        (Some(a), Some(b)) => git_audit::same_audit(a, b),
        (None, None) => true,
        _ => false,
    })
    &&& mark.alerts@ == t.target.alerts@
}

/// Which of the first `n` places were found.
pub open spec fn found_at(found: Seq<Option<Found>>, n: nat) -> Seq<int>
    decreases n,
{
    if n == 0 {
        Seq::empty()
    } else if found[n - 1] is Some {
        found_at(found, (n - 1) as nat).push(n - 1)
    } else {
        found_at(found, (n - 1) as nat)
    }
}

/// The new marks are those of the places that were found.
pub open spec fn rest_marked(
    prepared: Prepared,
    left: Seq<(usize, u32)>,
    found: Seq<Option<Found>>,
    marks: Seq<Target>,
) -> bool {
    let at = found_at(found, found.len());
    &&& marks.len() == at.len()
    &&& forall|k: int|
        0 <= k < marks.len() ==> marks_rest(
            prepared.targets@[left[at[k]].0 as int],
            left[at[k]].1,
            found[at[k]]->0,
            #[trigger] marks[k],
        )
}

impl Approval {
    /// Whether the approved removal may start; `stored` is the revision of the stored plan.
    pub fn check_run(&self, prepared: &Prepared, stored: u128) -> (r: Result<(), RunFault>)
        requires
            prepared.sound(),
            covers(*prepared, self.choices()),
            paired(*prepared, self.choices()),
        ensures
            r == (if self.for_revision() != prepared.plan.revision || (chosen_risk(
                *prepared,
                self.choices(),
            ) && !self.acknowledged()) {
                Err::<(), RunFault>(RunFault::Mismatch)
            } else if !prepared.deletable() {
                Err(RunFault::Incomplete)
            } else if stored != self.for_revision() {
                Err(RunFault::PlanChanged)
            } else {
                Ok(())
            }),
    {
        if self.revision != prepared.plan.revision || (selected_git_risk(prepared, &self.chosen)
            && !self.git_acknowledged) {
            return Err(RunFault::Mismatch);
        }
        if !prepared.can_delete() {
            return Err(RunFault::Incomplete);
        }
        if stored != self.revision {
            return Err(RunFault::PlanChanged);
        }
        Ok(())
    }

    /// How many items are to be removed; nothing if that cannot be counted.
    pub fn total(&self, prepared: &Prepared) -> (r: Option<u64>)
        requires
            prepared.sound(),
            covers(*prepared, self.choices()),
            paired(*prepared, self.choices()),
        ensures
            match r {
                Some(n) => n == chosen_items(self.choices(), self.choices().len()),
                None => chosen_items(self.choices(), self.choices().len()) > u64::MAX,
            },
    {
        let mut sum: u64 = 0;
        let mut i: usize = 0;
        while i < self.chosen.len()
            invariant
                i <= self.chosen@.len(),
                prepared.sound(),
                covers(*prepared, self.chosen@),
                paired(*prepared, self.chosen@),
                sum == chosen_items(self.chosen@, i as nat),
            decreases self.chosen@.len() - i,
        {
            proof {
                assert(reviewable(prepared.targets@[i as int].tree));
                assert(self.chosen@[i as int].marks().len()
                    == prepared.targets@[i as int].tree.nodes@.len());
                lemma_items_grow(self.chosen@, (i + 1) as nat, self.chosen@.len());
            }
            match sum.checked_add(self.chosen[i].totals(0).items()) {
                Some(n) => {
                    sum = n;
                },
                None => {
                    return None;
                },
            }
            i += 1;
        }
        Some(sum)
    }

    /// What is to be looked up before the plan is settled: the places that stay marked if
    /// they still exist.
    pub fn remaining(&self, prepared: &Prepared) -> (r: Vec<(usize, u32)>)
        requires
            prepared.sound(),
            covers(*prepared, self.choices()),
            paired(*prepared, self.choices()),
        ensures
            r@ == left_roots(*prepared, self.choices(), self.choices().len()),
            forall|k: int|
                0 <= k < r@.len() ==> (#[trigger] r@[k]).0 < prepared.targets@.len() && r@[k].1
                    < prepared.targets@[r@[k].0 as int].tree.nodes@.len(),
    {
        let mut out: Vec<(usize, u32)> = Vec::new();
        let mut i: usize = 0;
        while i < self.chosen.len()
            invariant
                i <= self.chosen@.len(),
                prepared.sound(),
                covers(*prepared, self.chosen@),
                paired(*prepared, self.chosen@),
                out@ == left_roots(*prepared, self.chosen@, i as nat),
                forall|k: int|
                    0 <= k < out@.len() ==> (#[trigger] out@[k]).0 < prepared.targets@.len()
                        && out@[k].1 < prepared.targets@[out@[k].0 as int].tree.nodes@.len(),
            decreases self.chosen@.len() - i,
        {
            let t: &Snapshot = &prepared.targets[i].tree;
            proof {
                assert(reviewable(prepared.targets@[i as int].tree));
                assert(self.chosen@[i as int].marks().len() == t.nodes@.len());
            }
            if self.chosen[i].state(t, 0) == 1 {
                let roots: Vec<u32> = self.chosen[i].selected_roots(t);
                let ghost before = out@;
                let ghost want = roots_at(*prepared, self.chosen@, i as int);
                let mut k: usize = 0;
                proof {
                    selection::lemma_roots_inside(t.nodes@, self.chosen@[i as int].sums());
                    assert(before + want.subrange(0, 0) =~= before);
                }
                while k < roots.len()
                    invariant
                        k <= roots@.len(),
                        i < prepared.targets@.len(),
                        *t == prepared.targets@[i as int].tree,
                        want == roots@.map_values(|id: u32| (i as usize, id)),
                        forall|j: int|
                            0 <= j < roots@.len() ==> (#[trigger] roots@[j]) < t.nodes@.len(),
                        out@ == before + want.subrange(0, k as int),
                        forall|j: int|
                            0 <= j < out@.len() ==> (#[trigger] out@[j]).0
                                < prepared.targets@.len() && out@[j].1
                                < prepared.targets@[out@[j].0 as int].tree.nodes@.len(),
                    decreases roots@.len() - k,
                {
                    out.push((i, roots[k]));
                    assert(out@ =~= before + want.subrange(0, k + 1));
                    k += 1;
                }
                assert(want.subrange(0, k as int) =~= want);
            }
            i += 1;
        }
        out
    }

    fn settled(&self, prepared: &Prepared, cleared: &[bool]) -> (r: Vec<u128>)
        requires
            prepared.sound(),
            covers(*prepared, self.choices()),
            paired(*prepared, self.choices()),
            cleared@.len() == self.choices().len(),
        ensures
            r@ == settled_ids(*prepared, self.choices(), cleared@, self.choices().len()),
    {
        let mut out: Vec<u128> = Vec::new();
        let mut i: usize = 0;
        while i < self.chosen.len()
            invariant
                i <= self.chosen@.len(),
                prepared.sound(),
                covers(*prepared, self.chosen@),
                paired(*prepared, self.chosen@),
                cleared@.len() == self.chosen@.len(),
                out@ == settled_ids(*prepared, self.chosen@, cleared@, i as nat),
            decreases self.chosen@.len() - i,
        {
            proof {
                assert(reviewable(prepared.targets@[i as int].tree));
                assert(self.chosen@[i as int].marks().len()
                    == prepared.targets@[i as int].tree.nodes@.len());
            }
            let state: i32 = self.chosen[i].state(&prepared.targets[i].tree, 0);
            if state == 1 || (state == 2 && cleared[i]) {
                out.push(prepared.targets[i].target.id);
            }
            i += 1;
        }
        out
    }

    /// Brings the stored plan in line with what a run did, and says whether it changed.
    /// `cleared` tells of each target whether all of its selection went; `found` tells what
    /// still exists at the places that `remaining` gives.
    ///
    /// A target selected in part never grows back to the whole: its mark gives way to
    /// marks of the selected parts that are still there.
    pub fn settle(
        &self,
        stored: &mut Plan,
        prepared: &Prepared,
        cleared: &[bool],
        left: &Vec<(usize, u32)>,
        found: &Vec<Option<Found>>,
    ) -> (changed: bool)
        requires
            prepared.sound(),
            covers(*prepared, self.choices()),
            paired(*prepared, self.choices()),
            cleared@.len() == self.choices().len(),
            left@ == left_roots(*prepared, self.choices(), self.choices().len()),
            forall|k: int|
                0 <= k < left@.len() ==> (#[trigger] left@[k]).0 < prepared.targets@.len()
                    && left@[k].1 < prepared.targets@[left@[k].0 as int].tree.nodes@.len(),
            found@.len() == left@.len(),
        ensures
            ({
                let ids = settled_ids(
                    *prepared,
                    self.choices(),
                    cleared@,
                    self.choices().len(),
                );
                let kept = plan::without(old(stored).targets@, ids);
                let now = final(stored).targets@;
                &&& kept.len() <= now.len()
                &&& now.subrange(0, kept.len() as int) == kept
                &&& rest_marked(
                    *prepared,
                    left@,
                    found@,
                    now.subrange(kept.len() as int, now.len() as int),
                )
                &&& changed == (ids.len() > 0)
            }),
            final(stored).schema_version == old(stored).schema_version,
            final(stored).revision == old(stored).revision,
            final(stored).created_unix == old(stored).created_unix,
            final(stored).updated_unix == old(stored).updated_unix,
    {
        let ids: Vec<u128> = self.settled(prepared, cleared);
        let mut marks: Vec<Target> = Vec::new();
        let mut k: usize = 0;
        let ghost mut at = Seq::<int>::empty();
        while k < found.len()
            invariant
                k <= found@.len(),
                found@.len() == left@.len(),
                prepared.sound(),
                forall|j: int|
                    0 <= j < left@.len() ==> (#[trigger] left@[j]).0 < prepared.targets@.len()
                        && left@[j].1 < prepared.targets@[left@[j].0 as int].tree.nodes@.len(),
                at == found_at(found@, k as nat),
                marks@.len() == at.len(),
                forall|j: int| 0 <= j < at.len() ==> 0 <= #[trigger] at[j] < k,
                forall|j: int|
                    0 <= j < marks@.len() ==> marks_rest(
                        prepared.targets@[left@[at[j]].0 as int],
                        left@[at[j]].1,
                        found@[at[j]]->0,
                        #[trigger] marks@[j],
                    ),
            decreases found@.len() - k,
        {
            if let Some(f) = &found[k] {
                let (ti, id) = left[k];
                let t: &PreparedTarget = &prepared.targets[ti];
                assert(left@[k as int].0 < prepared.targets@.len());
                assert(reviewable(prepared.targets@[ti as int].tree));
                let ghost had = marks@;
                let ghost was = at;
                let mark: Target = rest_mark(t, id, f);
                marks.push(mark);
                proof {
                    at = was.push(k as int);
                    assert(found@[k as int] == Some(*f));
                    assert forall|j: int| 0 <= j < marks@.len() implies marks_rest(
                        prepared.targets@[left@[at[j]].0 as int],
                        left@[at[j]].1,
                        found@[at[j]]->0,
                        #[trigger] marks@[j],
                    ) by {
                        if j < had.len() {
                            assert(marks@[j] == had[j]);
                            assert(at[j] == was[j]);
                        } else {
                            assert(marks@[j] == mark);
                            assert(at[j] == k);
                        }
                    }
                }
            }
            k += 1;
        }
        let ghost others = marks@;
        stored.replace(&ids, marks);
        proof {
            let kept = plan::without(old(stored).targets@, ids@);
            assert(stored.targets@.subrange(0, kept.len() as int) =~= kept);
            assert(stored.targets@.subrange(kept.len() as int, stored.targets@.len() as int)
                =~= others);
        }
        ids.len() > 0
    }
}

fn copy_alerts(v: &Vec<Alert>) -> (r: Vec<Alert>)
    ensures
        r@ == v@,
{
    let mut out: Vec<Alert> = Vec::new();
    let mut i: usize = 0;
    while i < v.len()
        invariant
            i <= v@.len(),
            out@ == v@.subrange(0, i as int),
        decreases v@.len() - i,
    {
        out.push(v[i].clone());
        i += 1;
        assert(out@ =~= v@.subrange(0, i as int));
    }
    assert(out@ =~= v@);
    out
}

fn rest_mark(t: &PreparedTarget, id: u32, found: &Found) -> (r: Target)
    requires
        reviewable(t.tree),
        id < t.tree.nodes@.len(),
    ensures
        marks_rest(*t, id, *found, r),
{
    let n = t.tree.nodes[id as usize];
    Target {
        id: found.id,
        path: t.tree.path(id),
        reason: t.target.reason.clone(),
        marked_unix: found.now,
        identity: found.identity,
        summary: Summary {
            logical_bytes: n.logical,
            allocated_bytes: n.allocated,
            files: n.files as u64,
            dirs: n.dirs as u64,
            errors: 0,
        },
        git: match &t.target.git {
            Some(g) => Some(g.clone()),
            None => None,
        },
        alerts: copy_alerts(&t.target.alerts),
    }
}

proof fn lemma_items_grow(chosen: Seq<TreeSelection>, m: nat, n: nat)
    requires
        m <= n,
    ensures
        chosen_items(chosen, m) <= chosen_items(chosen, n),
    decreases n,
{
    if m < n {
        lemma_items_grow(chosen, m, (n - 1) as nat);
    }
}

/// Whether progress is to be reported: not more often than the eye can follow, but always
/// at the end.
pub fn progress_due(processed: u64, total: u64, since_ms: u64) -> (r: bool)
    ensures
        r == !(processed < total && since_ms < PROGRESS_MS),
{
    !(processed < total && since_ms < PROGRESS_MS)
}

/// What follows from a decision about a held file.
#[derive(Clone, Copy, Debug, PartialEq, Eq, Structural)]
pub enum LockStep {
    GiveUp,
    TryAgain,
    /// Close the owners that were shown, by force or not, and try again.
    Close(bool),
    /// The owners are unknown, so nobody can be closed.
    UnknownOwner,
}

/// What to do about a held file; `identified` tells whether the owners could be asked for.
/// A decision that never came, or a run that is being stopped, leaves the file alone.
pub fn lock_step(decision: Option<LockDecision>, identified: bool, stopping: bool) -> (r: LockStep)
    ensures
        r == (if stopping {
            LockStep::GiveUp
        } else {
            match decision {
                None => LockStep::GiveUp,
                Some(LockDecision::Skip) => LockStep::GiveUp,
                Some(LockDecision::Retry) => LockStep::TryAgain,
                Some(LockDecision::CloseGracefully) => if identified {
                    LockStep::Close(false)
                } else {
                    LockStep::UnknownOwner
                },
                Some(LockDecision::ForceClose) => if identified {
                    LockStep::Close(true)
                } else {
                    LockStep::UnknownOwner
                },
            }
        }),
        stopping ==> r == LockStep::GiveUp,
        r is TryAgain <==> !stopping && decision == Some(LockDecision::Retry),
        r is Close ==> identified,
        r == LockStep::Close(true) ==> decision == Some(LockDecision::ForceClose),
        r == LockStep::Close(false) ==> decision == Some(LockDecision::CloseGracefully),
        r == LockStep::UnknownOwner ==> !identified,
{
    if stopping {
        return LockStep::GiveUp;
    }
    match decision {
        None => LockStep::GiveUp,
        Some(LockDecision::Skip) => LockStep::GiveUp,
        Some(LockDecision::Retry) => LockStep::TryAgain,
        Some(LockDecision::CloseGracefully) => if identified {
            LockStep::Close(false)
        } else {
            LockStep::UnknownOwner
        },
        Some(LockDecision::ForceClose) => if identified {
            LockStep::Close(true)
        } else {
            LockStep::UnknownOwner
        },
    }
}

/// A target of which nothing was selected, or all was selected and not all went, stays
/// marked as it was.
pub proof fn law_unselected_targets_stay_marked(
    prepared: Prepared,
    chosen: Seq<TreeSelection>,
    cleared: Seq<bool>,
    n: nat,
    i: int,
)
    requires
        n <= prepared.targets@.len(),
        0 <= i < n,
        choice(prepared, chosen, i) == 0 || (choice(prepared, chosen, i) == 2 && !cleared[i]),
        forall|a: int, b: int|
            0 <= a < b < n ==> (#[trigger] prepared.targets@[a]).target.id != (
            #[trigger] prepared.targets@[b]).target.id,
    ensures
        !settled_ids(prepared, chosen, cleared, n).contains(prepared.targets@[i].target.id),
    decreases n,
{
    let ids = settled_ids(prepared, chosen, cleared, n);
    let before = settled_ids(prepared, chosen, cleared, (n - 1) as nat);
    if i < n - 1 {
        law_unselected_targets_stay_marked(prepared, chosen, cleared, (n - 1) as nat, i);
        assert(prepared.targets@[i].target.id != prepared.targets@[n - 1].target.id);
        if ids.contains(prepared.targets@[i].target.id) {
            let w = ids.index_of(prepared.targets@[i].target.id);
            assert(before[w] == ids[w]);
        }
    } else {
        assert(ids == before);
        lemma_settled_from(prepared, chosen, cleared, (n - 1) as nat);
        if ids.contains(prepared.targets@[i].target.id) {
            let w = ids.index_of(prepared.targets@[i].target.id);
            let k = choose|k: int|
                0 <= k < n - 1 && ids[w] == (#[trigger] prepared.targets@[k]).target.id;
            assert(prepared.targets@[k].target.id != prepared.targets@[i].target.id);
        }
    }
}

proof fn lemma_settled_from(
    prepared: Prepared,
    chosen: Seq<TreeSelection>,
    cleared: Seq<bool>,
    n: nat,
)
    ensures
        forall|w: int|
            0 <= w < settled_ids(prepared, chosen, cleared, n).len() ==> exists|k: int|
                0 <= k < n && #[trigger] settled_ids(prepared, chosen, cleared, n)[w] == (
                #[trigger] prepared.targets@[k]).target.id,
    decreases n,
{
    if n > 0 {
        lemma_settled_from(prepared, chosen, cleared, (n - 1) as nat);
        let ids = settled_ids(prepared, chosen, cleared, n);
        let before = settled_ids(prepared, chosen, cleared, (n - 1) as nat);
        assert forall|w: int| 0 <= w < ids.len() implies exists|k: int|
            0 <= k < n && #[trigger] ids[w] == (#[trigger] prepared.targets@[k]).target.id by {
            if w < before.len() {
                assert(ids[w] == before[w]);
                let k = choose|k: int|
                    0 <= k < n - 1 && before[w] == (#[trigger] prepared.targets@[k]).target.id;
                assert(ids[w] == prepared.targets@[k].target.id);
            } else {
                assert(ids[w] == prepared.targets@[n - 1].target.id);
            }
        }
    }
}

/// A target is what was marked only if the path still leads to the same object of the same
/// volume, is still the same path, and no other target lies above or below it.
pub proof fn law_only_the_marked_object_is_taken(
    targets: Seq<Target>,
    at: int,
    path: Seq<char>,
    now: Identity,
)
    requires
        0 <= at < targets.len(),
    ensures
        target_fault(targets, at, path, now) is None <==> {
            &&& now.volume == targets[at].identity.volume
            &&& now.id@ == targets[at].identity.id@
            &&& platform::key_of(path) == platform::key_of(targets[at].path.words())
            &&& forall|i: int|
                0 <= i < targets.len() && (#[trigger] targets[i]).id != targets[at].id
                    ==> !plan::overlap(targets[at].path.words(), targets[i].path.words())
        },
        now.volume != targets[at].identity.volume || now.id@ != targets[at].identity.id@
            <==> target_fault(targets, at, path, now) == Some(TargetFault::Replaced),
{
}

proof fn lemma_git_parents(s: Snapshot, n: nat, i: int)
    requires
        1 <= i < n <= s.nodes@.len(),
        model::name_at(s.nodes@, s.names@, i) == ".git"@,
    ensures
        git_parents(s, n).contains(
            model::path_at(s.root@, s.nodes@, s.names@, s.nodes@[i].parent, s.nodes@.len()),
        ),
    decreases n,
{
    let place = model::path_at(s.root@, s.nodes@, s.names@, s.nodes@[i].parent, s.nodes@.len());
    let before = git_parents(s, (n - 1) as nat);
    let now = git_parents(s, n);
    if i < n - 1 {
        lemma_git_parents(s, (n - 1) as nat, i);
        let k = before.index_of(place);
        assert(now[k] == place);
    } else {
        assert(now[before.len() as int] == place);
    }
}

/// Every folder of a target that holds something named like a repository, and the target
/// itself, is looked at for one.
pub proof fn law_every_repository_is_looked_at(targets: Seq<PreparedTarget>, n: nat, t: int, i: int)
    requires
        0 <= t < n <= targets.len(),
    ensures
        repo_places(targets, n).contains(targets[t].target.path@),
        1 <= i < targets[t].tree.nodes@.len() && model::name_at(
            targets[t].tree.nodes@,
            targets[t].tree.names@,
            i,
        ) == ".git"@ ==> repo_places(targets, n).contains(
            model::path_at(
                targets[t].tree.root@,
                targets[t].tree.nodes@,
                targets[t].tree.names@,
                targets[t].tree.nodes@[i].parent,
                targets[t].tree.nodes@.len(),
            ),
        ),
    decreases n,
{
    let before = repo_places(targets, (n - 1) as nat);
    let now = repo_places(targets, n);
    let tree = targets[t].tree;
    let place = model::path_at(
        tree.root@,
        tree.nodes@,
        tree.names@,
        tree.nodes@[i].parent,
        tree.nodes@.len(),
    );
    if t < n - 1 {
        law_every_repository_is_looked_at(targets, (n - 1) as nat, t, i);
        let k = before.index_of(targets[t].target.path@);
        assert(now[k] == targets[t].target.path@);
        if before.contains(place) {
            let k = before.index_of(place);
            assert(now[k] == place);
        }
    } else {
        assert(now[before.len() as int] == targets[t].target.path@);
        if 1 <= i < tree.nodes@.len() && model::name_at(tree.nodes@, tree.names@, i) == ".git"@ {
            lemma_git_parents(tree, tree.nodes@.len(), i);
            let found = git_parents(tree, tree.nodes@.len());
            let k = found.index_of(place);
            assert(now[before.len() + 1 + k] == place);
        }
    }
}

/// No answer that tells of a repository is lost: a failed look is kept, and an audit too,
/// unless one of the same repository is kept already.
pub proof fn law_no_finding_is_lost(answers: Seq<Examined>, n: nat, i: int)
    requires
        0 <= i < n <= answers.len(),
    ensures
        answers[i] is Failed ==> kept_answers(answers, n).contains(i),
        answers[i] matches Examined::Audit(a) ==> audited(answers, kept_answers(answers, n), a.root@),
        answers[i] is NoRepository ==> !kept_answers(answers, n).contains(i),
        forall|k: int|
            0 <= k < kept_answers(answers, n).len() ==> 0 <= #[trigger] kept_answers(answers, n)[k]
                < n,
    decreases n,
{
    let m = (n - 1) as nat;
    let before = kept_answers(answers, m);
    let now = kept_answers(answers, n);
    lemma_kept_inside(answers, m);
    lemma_kept_inside(answers, n);
    if i < m {
        law_no_finding_is_lost(answers, m, i);
        if before.contains(i) {
            let k = before.index_of(i);
            assert(now[k] == i);
        }
        if now.contains(i) {
            let k = now.index_of(i);
            assert(before[k] == i);
        }
        if answers[i] is Audit {
            let root = answers[i]->Audit_0.root@;
            let k = choose|k: int|
                0 <= k < before.len() && (answers[#[trigger] before[k]] matches Examined::Audit(a)
                    && platform::key_of(a.root@) == platform::key_of(root));
            assert(now[k] == before[k]);
        }
    } else {
        match answers[i] {
            Examined::NoRepository => {
                if now.contains(i) {
                    let k = now.index_of(i);
                    assert(before[k] == i);
                }
            },
            Examined::Audit(a) => {
                if !audited(answers, before, a.root@) {
                    assert(now[before.len() as int] == i);
                }
            },
            Examined::Failed(_) => {
                assert(now[before.len() as int] == i);
            },
        }
    }
}

proof fn lemma_kept_inside(answers: Seq<Examined>, n: nat)
    requires
        n <= answers.len(),
    ensures
        forall|k: int|
            0 <= k < kept_answers(answers, n).len() ==> 0 <= #[trigger] kept_answers(answers, n)[k]
                < n,
    decreases n,
{
    if n > 0 {
        lemma_kept_inside(answers, (n - 1) as nat);
        let before = kept_answers(answers, (n - 1) as nat);
        let now = kept_answers(answers, n);
        assert forall|k: int| 0 <= k < now.len() implies 0 <= #[trigger] now[k] < n by {
            if k < before.len() {
                assert(now[k] == before[k]);
            }
        }
    }
}

/// A repository that could not be told about needs a word.
pub proof fn law_unknown_repositories_need_a_word(place: Seq<char>, e: String, a: GitAudit)
    requires
        recorded(place, Examined::Failed(e), a),
    ensures
        a.risky(),
        a.root@ == place,
{
}

/// Deleting what is chosen needs a word exactly if a repository that needs one lies at,
/// above or below a chosen path.
pub proof fn law_touched_repositories_need_a_word(
    prepared: Prepared,
    chosen: Seq<TreeSelection>,
    i: int,
    k: int,
)
    requires
        0 <= i < prepared.git@.len(),
        0 <= k < chosen_paths(prepared, chosen, pairs(prepared, chosen)).len(),
        plan::overlap(
            text::utf16_text(chosen_paths(prepared, chosen, pairs(prepared, chosen))[k]),
            prepared.git@[i].root@,
        ),
        !prepared.git@[i].all_content_synced || prepared.git@[i].risks@.len() > 0,
    ensures
        chosen_risk(prepared, chosen),
{
    assert(touched(
        prepared.git@[i].root@,
        chosen_paths(prepared, chosen, pairs(prepared, chosen)),
    ));
}

/// The totals that a review shows are those of its targets: every entry, and the space of
/// each tree.
pub proof fn law_totals_are_those_of_the_targets(targets: Seq<PreparedTarget>, t: PreparedTarget)
    ensures
        item_sum(targets.push(t), targets.len() + 1) == item_sum(targets, targets.len())
            + t.tree.nodes@.len(),
        space_sum(targets.push(t), targets.len() + 1) == space_sum(targets, targets.len())
            + t.tree.nodes@[0].allocated,
        item_sum(Seq::empty(), 0) == 0,
        space_sum(Seq::empty(), 0) == 0,
{
    let more = targets.push(t);
    lemma_sums_of_same(targets, more, targets.len());
}

proof fn lemma_sums_of_same(a: Seq<PreparedTarget>, b: Seq<PreparedTarget>, n: nat)
    requires
        n <= a.len(),
        n <= b.len(),
        forall|i: int| 0 <= i < n ==> #[trigger] a[i] == b[i],
    ensures
        item_sum(a, n) == item_sum(b, n),
        space_sum(a, n) == space_sum(b, n),
    decreases n,
{
    if n > 0 {
        lemma_sums_of_same(a, b, (n - 1) as nat);
        assert(a[n - 1] == b[n - 1]);
    }
}

/// The repositories that a choice concerns are all those that lie at, above or below a
/// chosen path, and no other.
pub proof fn law_touched_repositories_are_concerned(
    git: Seq<GitAudit>,
    paths: Seq<Seq<u16>>,
    n: nat,
    i: int,
)
    requires
        0 <= i < n <= git.len(),
        n <= usize::MAX,
    ensures
        touched_audits(git, paths, n).contains(i as usize) <==> exists|k: int|
            0 <= k < paths.len() && plan::overlap(
                text::utf16_text(#[trigger] paths[k]),
                git[i].root@,
            ),
    decreases n,
{
    let m = (n - 1) as nat;
    let before = touched_audits(git, paths, m);
    let now = touched_audits(git, paths, n);
    lemma_touched_inside(git, paths, m);
    if i < m {
        law_touched_repositories_are_concerned(git, paths, m, i);
        if before.contains(i as usize) {
            let k = before.index_of(i as usize);
            assert(now[k] == i as usize);
        }
        if now.contains(i as usize) {
            let k = now.index_of(i as usize);
            assert(before[k] == i as usize);
        }
    } else if touched(git[i].root@, paths) {
        assert(now[before.len() as int] == i as usize);
    } else if now.contains(i as usize) {
        let k = now.index_of(i as usize);
        assert(before[k] < m);
    }
}

proof fn lemma_touched_inside(git: Seq<GitAudit>, paths: Seq<Seq<u16>>, n: nat)
    requires
        n <= usize::MAX,
    ensures
        forall|k: int|
            0 <= k < touched_audits(git, paths, n).len() ==> (#[trigger] touched_audits(
                git,
                paths,
                n,
            )[k]) < n,
    decreases n,
{
    if n > 0 {
        let m = (n - 1) as nat;
        lemma_touched_inside(git, paths, m);
        let before = touched_audits(git, paths, m);
        let now = touched_audits(git, paths, n);
        assert forall|k: int| 0 <= k < now.len() implies (#[trigger] now[k]) < n by {
            if k < before.len() {
                assert(now[k] == before[k]);
            }
        }
    }
}

/// A target that was chosen whole and is gone leaves the plan, and so does one of which a
/// part was chosen, since what is left of it is marked anew.
pub proof fn law_settled_targets_leave_the_plan(
    prepared: Prepared,
    chosen: Seq<TreeSelection>,
    cleared: Seq<bool>,
    n: nat,
    i: int,
)
    requires
        0 <= i < n <= prepared.targets@.len(),
        choice(prepared, chosen, i) == 1 || (choice(prepared, chosen, i) == 2 && cleared[i]),
    ensures
        settled_ids(prepared, chosen, cleared, n).contains(prepared.targets@[i].target.id),
    decreases n,
{
    let before = settled_ids(prepared, chosen, cleared, (n - 1) as nat);
    let now = settled_ids(prepared, chosen, cleared, n);
    let id = prepared.targets@[i].target.id;
    if i < n - 1 {
        law_settled_targets_leave_the_plan(prepared, chosen, cleared, (n - 1) as nat, i);
        let k = before.index_of(id);
        assert(now[k] == id);
    } else {
        assert(now[before.len() as int] == id);
    }
}

/// The chosen parts of a target of which only a part was chosen are looked at again, each
/// under its target.
pub proof fn law_chosen_parts_are_looked_at_again(
    prepared: Prepared,
    chosen: Seq<TreeSelection>,
    n: nat,
    i: int,
    id: u32,
)
    requires
        0 <= i < n <= prepared.targets@.len() <= usize::MAX,
        choice(prepared, chosen, i) == 1,
        selection::roots_of(prepared.targets@[i].tree.nodes@, chosen[i].sums()).contains(id),
    ensures
        left_roots(prepared, chosen, n).contains((i as usize, id)),
    decreases n,
{
    let before = left_roots(prepared, chosen, (n - 1) as nat);
    let now = left_roots(prepared, chosen, n);
    if i < n - 1 {
        law_chosen_parts_are_looked_at_again(prepared, chosen, (n - 1) as nat, i, id);
        let k = before.index_of((i as usize, id));
        assert(now[k] == (i as usize, id));
    } else {
        let roots = selection::roots_of(prepared.targets@[i].tree.nodes@, chosen[i].sums());
        let k = roots.index_of(id);
        assert(roots_at(prepared, chosen, i)[k] == (i as usize, id));
        assert(now[before.len() + k] == (i as usize, id));
    }
}

/// What is still there is marked again, and nothing else.
pub proof fn law_what_is_left_is_marked_again(found: Seq<Option<Found>>, n: nat, i: int)
    requires
        0 <= i < n <= found.len(),
    ensures
        found_at(found, n).contains(i) <==> found[i] is Some,
    decreases n,
{
    let before = found_at(found, (n - 1) as nat);
    let now = found_at(found, n);
    lemma_found_inside(found, (n - 1) as nat);
    if i < n - 1 {
        law_what_is_left_is_marked_again(found, (n - 1) as nat, i);
        if before.contains(i) {
            let k = before.index_of(i);
            assert(now[k] == i);
        }
        if now.contains(i) {
            let k = now.index_of(i);
            assert(before[k] == i);
        }
    } else if found[i] is Some {
        assert(now[before.len() as int] == i);
    } else if now.contains(i) {
        let k = now.index_of(i);
        assert(before[k] < n - 1);
    }
}

proof fn lemma_found_inside(found: Seq<Option<Found>>, n: nat)
    ensures
        forall|k: int| 0 <= k < found_at(found, n).len() ==> #[trigger] found_at(found, n)[k] < n,
    decreases n,
{
    if n > 0 {
        lemma_found_inside(found, (n - 1) as nat);
        let before = found_at(found, (n - 1) as nat);
        let now = found_at(found, n);
        assert forall|k: int| 0 <= k < now.len() implies #[trigger] now[k] < n by {
            if k < before.len() {
                assert(now[k] == before[k]);
            }
        }
    }
}

/// What is marked again keeps the reason and the alerts of the target it was part of, and is
/// the object that was found there, with its own size.
pub proof fn law_new_marks_keep_the_reason(t: PreparedTarget, id: u32, found: Found, mark: Target)
    requires
        marks_rest(t, id, found, mark),
    ensures
        mark.reason@ == t.target.reason@,
        mark.alerts@ == t.target.alerts@,
        mark.identity == found.identity,
        mark.id == found.id,
        mark.marked_unix == found.now,
        mark.summary.allocated_bytes == t.tree.nodes@[id as int].allocated,
        mark.summary.logical_bytes == t.tree.nodes@[id as int].logical,
        mark.summary.files == t.tree.nodes@[id as int].files,
        mark.summary.errors == 0,
{
}

/// Something is chosen exactly if a target has a chosen file or directory.
pub proof fn law_a_choice_needs_an_entry(chosen: Seq<TreeSelection>)
    ensures
        any_checked(chosen) <==> exists|i: int|
            0 <= i < chosen.len() && (#[trigger] chosen[i]).sums()[0].files
                + chosen[i].sums()[0].dirs > 0,
{
    if any_checked(chosen) {
        let i = choose|i: int| 0 <= i < chosen.len() && (#[trigger] chosen[i]).sums()[0].items() > 0;
        assert(chosen[i].sums()[0].files + chosen[i].sums()[0].dirs > 0);
    }
    if exists|i: int|
        0 <= i < chosen.len() && (#[trigger] chosen[i]).sums()[0].files + chosen[i].sums()[0].dirs
            > 0 {
        let i = choose|i: int|
            0 <= i < chosen.len() && (#[trigger] chosen[i]).sums()[0].files
                + chosen[i].sums()[0].dirs > 0;
        assert(chosen[i].sums()[0].items() > 0);
    }
}

/// A plan can be carried out only if it has targets and no problem is left.
pub proof fn law_problems_stop_a_plan(p: Prepared)
    ensures
        p.deletable() <==> p.problems@.len() == 0 && p.targets@.len() > 0,
        p.risky() <==> exists|i: int|
            0 <= i < p.git@.len() && !((#[trigger] p.git@[i]).all_content_synced
                && p.git@[i].risks@.len() == 0),
{
    if p.risky() {
        let i = choose|i: int| 0 <= i < p.git@.len() && (#[trigger] p.git@[i]).risky();
        assert(!(p.git@[i].all_content_synced && p.git@[i].risks@.len() == 0));
    }
}

/// What is recorded of a repository is what the audit found; of one that could not be read
/// only the reason is, and nothing of it counts as kept elsewhere.
pub proof fn law_unread_repositories_tell_nothing(
    place: Seq<char>,
    e: String,
    a: GitAudit,
    b: GitAudit,
)
    ensures
        !recorded(place, Examined::NoRepository, a),
        recorded(place, Examined::Audit(b), a) ==> a.root@ == b.root@ && a.modified == b.modified
            && a.staged == b.staged && a.untracked == b.untracked && a.ignored == b.ignored
            && a.conflicts == b.conflicts && a.stashes == b.stashes && a.all_content_synced
            == b.all_content_synced,
        recorded(place, Examined::Failed(e), a) ==> a.root@ == place && a.modified == 0 && a.staged
            == 0 && a.untracked == 0 && a.ignored == 0 && a.conflicts == 0 && a.stashes == 0
            && !a.all_content_synced && !a.tracked_history_covered && !a.remote_verified
            && a.local_only_refs@.len() == 0 && a.remotes@.len() == 0 && a.branch is None,
{
}

/// Everything that was found of the rest is marked, each once.
pub proof fn law_all_of_the_rest_is_marked(
    prepared: Prepared,
    left: Seq<(usize, u32)>,
    found: Seq<Option<Found>>,
    marks: Seq<Target>,
    i: int,
)
    requires
        rest_marked(prepared, left, found, marks),
        0 <= i < found.len(),
    ensures
        marks.len() <= found.len(),
        found[i] is Some ==> exists|k: int|
            0 <= k < marks.len() && marks_rest(
                prepared.targets@[left[i].0 as int],
                left[i].1,
                found[i]->0,
                #[trigger] marks[k],
            ),
{
    law_what_is_left_is_marked_again(found, found.len(), i);
    let at = found_at(found, found.len());
    if found[i] is Some {
        assert(at.contains(i));
        let k = choose|k: int| 0 <= k < at.len() && at[k] == i;
        assert(marks_rest(
            prepared.targets@[left[at[k]].0 as int],
            left[at[k]].1,
            found[at[k]]->0,
            marks[k],
        ));
    }
    lemma_found_few(found, found.len());
}

proof fn lemma_found_few(found: Seq<Option<Found>>, n: nat)
    ensures
        found_at(found, n).len() <= n,
    decreases n,
{
    if n > 0 {
        lemma_found_few(found, (n - 1) as nat);
    }
}

} // verus!
