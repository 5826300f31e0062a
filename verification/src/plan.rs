//! The plan of marked targets. Marking deletes nothing.
use crate::git_audit::GitAudit;
use crate::model::Snapshot;
use crate::platform;
use crate::platform::Identity;
use crate::text;
use crate::wide::Wide;
use vstd::prelude::*;
use vstd::string::*;

verus! {

/// The longest reason, in characters.
pub const MAX_REASON: usize = 2000;

/// The most targets of a stored plan.
pub const MAX_TARGETS: usize = 10000;

/// A stored plan is smaller than this.
pub const MAX_PLAN_BYTES: u64 = 67108864;

/// What a target amounts to.
#[derive(Clone, Copy, Debug, PartialEq, Eq, Structural)]
pub struct Summary {
    pub logical_bytes: u64,
    pub allocated_bytes: u64,
    pub files: u64,
    pub dirs: u64,
    pub errors: u64,
}

impl Default for Summary {
    fn default() -> (r: Self)
        ensures
            r == (Summary {
                logical_bytes: 0,
                allocated_bytes: 0,
                files: 0,
                dirs: 0,
                errors: 0,
            }),
    {
        Summary { logical_bytes: 0, allocated_bytes: 0, files: 0, dirs: 0, errors: 0 }
    }
}

/// What the node of a snapshot amounts to.
pub open spec fn node_summary(s: Snapshot, id: int, errors: u64) -> Summary {
    Summary {
        logical_bytes: s.nodes@[id].logical,
        allocated_bytes: s.nodes@[id].allocated,
        files: s.nodes@[id].files as u64,
        dirs: s.nodes@[id].dirs as u64,
        errors,
    }
}

impl Summary {
    pub fn from_snapshot(s: &Snapshot) -> (r: Self)
        requires
            s.nodes.len() > 0,
        ensures
            r == node_summary(*s, 0, s.stats.errors),
    {
        let n = s.nodes[0];
        Summary {
            logical_bytes: n.logical,
            allocated_bytes: n.allocated,
            files: n.files as u64,
            dirs: n.dirs as u64,
            errors: s.stats.errors,
        }
    }

    /// One object that is not looked into.
    pub fn from_identity(identity: &Identity) -> (r: Self)
        ensures
            r == (Summary {
                logical_bytes: identity.length,
                allocated_bytes: identity.allocated,
                files: 1,
                dirs: 0,
                errors: 0,
            }),
    {
        Summary {
            logical_bytes: identity.length,
            allocated_bytes: identity.allocated,
            files: 1,
            dirs: 0,
            errors: 0,
        }
    }
}

/// How much a note weighs.
#[derive(Clone, Copy, Debug, PartialEq, Eq, Structural)]
pub enum Level {
    Warn,
    Critical,
}

impl Level {
    pub open spec fn word(self) -> Seq<char> {
        match self {
            Level::Warn => "WARN"@,
            Level::Critical => "CRITICAL"@,
        }
    }

    pub fn label(self) -> (r: &'static str)
        ensures
            r@ == self.word(),
    {
        match self {
            Level::Warn => "WARN",
            Level::Critical => "CRITICAL",
        }
    }
}

/// A note for the person who reviews a target.
#[derive(Debug)]
pub struct Alert {
    pub level: Level,
    pub text: String,
}

impl Clone for Alert {
    fn clone(&self) -> (r: Self)
        ensures
            r == *self,
    {
        Alert { level: self.level, text: self.text.clone() }
    }
}

pub open spec fn alert_of(level: Level, t: Seq<char>, a: Alert) -> bool {
    a.level == level && a.text@ == t
}

/// The notes of one command: what to look at again, then what is of high risk.
pub fn notes(warn: &Vec<String>, critical: &Vec<String>) -> (r: Vec<Alert>)
    ensures
        r@.len() == warn@.len() + critical@.len(),
        forall|i: int|
            0 <= i < warn@.len() ==> alert_of(Level::Warn, warn@[i]@, #[trigger] r@[i]),
        forall|i: int|
            warn@.len() <= i < r@.len() ==> alert_of(
                Level::Critical,
                critical@[i - warn@.len()]@,
                #[trigger] r@[i],
            ),
{
    let mut out: Vec<Alert> = Vec::new();
    let mut i: usize = 0;
    while i < warn.len()
        invariant
            i <= warn@.len(),
            out@.len() == i,
            forall|k: int| 0 <= k < i ==> alert_of(Level::Warn, warn@[k]@, #[trigger] out@[k]),
        decreases warn@.len() - i,
    {
        out.push(Alert { level: Level::Warn, text: warn[i].clone() });
        i += 1;
    }
    let mut j: usize = 0;
    while j < critical.len()
        invariant
            j <= critical@.len(),
            out@.len() == warn@.len() + j,
            forall|k: int|
                0 <= k < warn@.len() ==> alert_of(Level::Warn, warn@[k]@, #[trigger] out@[k]),
            forall|k: int|
                warn@.len() <= k < out@.len() ==> alert_of(
                    Level::Critical,
                    critical@[k - warn@.len()]@,
                    #[trigger] out@[k],
                ),
        decreases critical@.len() - j,
    {
        out.push(Alert { level: Level::Critical, text: critical[j].clone() });
        j += 1;
    }
    out
}

/// A marked path with all that is known of it.
#[derive(Debug)]
pub struct Target {
    pub id: u128,
    pub path: Wide,
    pub reason: String,
    pub marked_unix: u64,
    pub identity: Identity,
    pub summary: Summary,
    pub git: Option<GitAudit>,
    pub alerts: Vec<Alert>,
}

pub open spec fn has_level(alerts: Seq<Alert>, level: Level) -> bool {
    exists|i: int| 0 <= i < alerts.len() && (#[trigger] alerts[i]).level == level
}

/// The greatest weight among the notes.
pub open spec fn worst(alerts: Seq<Alert>) -> Option<Level> {
    if has_level(alerts, Level::Critical) {
        Some(Level::Critical)
    } else if has_level(alerts, Level::Warn) {
        Some(Level::Warn)
    } else {
        None
    }
}

impl Target {
    pub fn severity(&self) -> (r: Option<Level>)
        ensures
            r == worst(self.alerts@),
    {
        let mut found: Option<Level> = None;
        let mut i: usize = 0;
        while i < self.alerts.len()
            invariant
                i <= self.alerts@.len(),
                found matches Some(l) ==> has_level(self.alerts@, l),
                found is None ==> i == 0,
                found != Some(Level::Critical) ==> forall|k: int|
                    0 <= k < i ==> (#[trigger] self.alerts@[k]).level == Level::Warn,
            decreases self.alerts@.len() - i,
        {
            assert(has_level(self.alerts@, self.alerts@[i as int].level));
            match self.alerts[i].level {
                Level::Critical => {
                    found = Some(Level::Critical);
                },
                Level::Warn => {
                    match found {
                        Some(Level::Critical) => {},
                        _ => {
                            found = Some(Level::Warn);
                        },
                    }
                },
            }
            i += 1;
        }
        found
    }
}

/// Everything that is marked.
#[derive(Debug)]
pub struct Plan {
    pub schema_version: u32,
    pub revision: u128,
    pub created_unix: u64,
    pub updated_unix: u64,
    pub targets: Vec<Target>,
}

/// Why a stored plan is refused.
#[derive(Clone, Copy, Debug, PartialEq, Eq, Structural)]
pub enum PlanFault {
    TooLarge,
    UnsupportedSchema,
    TooManyTargets,
}

impl PlanFault {
    pub fn message(self) -> (r: &'static str)
        ensures
            r@ == (match self {
                PlanFault::TooLarge => "plan is unexpectedly large"@,
                PlanFault::UnsupportedSchema => "unsupported plan schema"@,
                PlanFault::TooManyTargets => "too many targets"@,
            }),
    {
        match self {
            PlanFault::TooLarge => "plan is unexpectedly large",
            PlanFault::UnsupportedSchema => "unsupported plan schema",
            PlanFault::TooManyTargets => "too many targets",
        }
    }
}

/// Why a path cannot be marked.
#[derive(Clone, Copy, Debug, PartialEq, Eq, Structural)]
pub enum StageFault {
    /// A directory is marked only where that was asked for.
    NeedsRecursive,
    /// The target of this number, of those marked before and now, overlaps.
    Overlap(usize),
}

impl StageFault {
    pub open spec fn words(self, other: Seq<char>) -> Seq<char> {
        match self {
            StageFault::NeedsRecursive => "directory requires -r/--recursive (still stage-only)"@,
            StageFault::Overlap(_) => "overlapping target already staged: "@ + other
                + "; undo-rm it first"@,
        }
    }

    /// What is told of it; `other` is the path of the target that overlaps.
    pub fn message(self, other: &str) -> (r: String)
        ensures
            r@ == self.words(other@),
    {
        match self {
            StageFault::NeedsRecursive => {
                "directory requires -r/--recursive (still stage-only)".to_owned()
            },
            StageFault::Overlap(_) => text::glue(
                &text::glue("overlapping target already staged: ", other),
                "; undo-rm it first",
            ),
        }
    }
}

/// One path lies within the other, or they are the same.
pub open spec fn overlap(a: Seq<char>, b: Seq<char>) -> bool {
    platform::key_within(platform::key_of(a), platform::key_of(b)) || platform::key_within(
        platform::key_of(b),
        platform::key_of(a),
    )
}

/// The first target that overlaps a path.
pub open spec fn first_overlap(targets: Seq<Target>, path: Seq<char>, from: nat) -> Option<nat>
    decreases targets.len() - from,
{
    if from >= targets.len() {
        None
    } else if overlap(path, targets[from as int].path.words()) {
        Some(from)
    } else {
        first_overlap(targets, path, from + 1)
    }
}

/// What keeps a path from being marked beside the given targets.
pub open spec fn stage_fault(
    targets: Seq<Target>,
    path: Seq<char>,
    identity: Identity,
    recursive: bool,
) -> Option<StageFault> {
    if identity.dir() && !identity.reparse() && !recursive {
        Some(StageFault::NeedsRecursive)
    } else {
        match first_overlap(targets, path, 0) {
            Some(i) => Some(StageFault::Overlap(i as usize)),
            None => None,
        }
    }
}

/// No target lies within another.
pub open spec fn apart(targets: Seq<Target>) -> bool {
    forall|i: int, j: int|
        0 <= i < targets.len() && 0 <= j < targets.len() && i != j ==> !overlap(
            (#[trigger] targets[i]).path.words(),
            (#[trigger] targets[j]).path.words(),
        )
}

/// The path is one of those listed.
pub open spec fn listed(path: Seq<char>, paths: Seq<String>) -> bool {
    exists|i: int|
        0 <= i < paths.len() && platform::key_of((#[trigger] paths[i])@) == platform::key_of(path)
}

/// The targets that stay when the listed ones, or all, are taken off the plan.
pub open spec fn unmarked(targets: Seq<Target>, paths: Seq<String>, all: bool) -> Seq<Target>
    decreases targets.len(),
{
    if targets.len() == 0 {
        Seq::empty()
    } else if all || listed(targets.last().path.words(), paths) {
        unmarked(targets.drop_last(), paths, all)
    } else {
        unmarked(targets.drop_last(), paths, all).push(targets.last())
    }
}

fn find_overlap(targets: &Vec<Target>, path: &str) -> (r: Option<usize>)
    ensures
        match (r, first_overlap(targets@, path@, 0)) {
            (Some(i), Some(k)) => i == k,
            (None, None) => true,
            _ => false,
        },
{
    let mut i: usize = 0;
    while i < targets.len()
        invariant
            i <= targets@.len(),
            first_overlap(targets@, path@, i as nat) == first_overlap(targets@, path@, 0),
        decreases targets@.len() - i,
    {
        let other: String = targets[i].path.to_text();
        if platform::within(path, &other) || platform::within(&other, path) {
            return Some(i);
        }
        i += 1;
    }
    None
}

/// Whether a reason is short enough to be kept.
pub fn reason_fits(reason: &str) -> (r: bool)
    ensures
        r == (reason@.len() <= MAX_REASON),
{
    text::chars_of(reason).len() <= MAX_REASON
}

/// A number of 128 bits as people write an identifier: thirty-two small hexadecimal digits,
/// the highest first, in five groups with hyphens between them.
pub open spec fn hyphenated(v: u128) -> Seq<char> {
    text::hex_padded_of((v / 0x1000000000000000000000000) as nat, 8) + "-"@ + text::hex_padded_of(
        ((v / 0x100000000000000000000) % 0x10000) as nat,
        4,
    ) + "-"@ + text::hex_padded_of(((v / 0x10000000000000000) % 0x10000) as nat, 4) + "-"@
        + text::hex_padded_of(((v / 0x1000000000000) % 0x10000) as nat, 4) + "-"@
        + text::hex_padded_of((v % 0x1000000000000) as nat, 12)
}

/// `uuid::Uuid::from_u128` and the `Display` of `Uuid`: the identifier of that number, in
/// hyphenated form and small letters.
#[verifier::external_body]
fn uuid_text(v: u128) -> (r: String)
    ensures
        r@ == hyphenated(v),
{
    uuid::Uuid::from_u128(v).to_string()
}

impl Plan {
    /// The revision as it is shown.
    pub fn revision_text(&self) -> (r: String)
        ensures
            r@ == hyphenated(self.revision),
    {
        uuid_text(self.revision)
    }

    /// An empty plan.
    pub fn new(revision: u128, now: u64) -> (r: Self)
        ensures
            r.schema_version == 1,
            r.revision == revision,
            r.created_unix == now,
            r.updated_unix == now,
            r.targets@.len() == 0,
    {
        Plan {
            schema_version: 1,
            revision,
            created_unix: now,
            updated_unix: now,
            targets: Vec::new(),
        }
    }

    /// Whether a stored plan of so many bytes is accepted.
    pub fn check(&self, bytes: u64) -> (r: Result<(), PlanFault>)
        ensures
            r == (if bytes >= MAX_PLAN_BYTES {
                Err::<(), PlanFault>(PlanFault::TooLarge)
            } else if self.schema_version != 1 {
                Err(PlanFault::UnsupportedSchema)
            } else if self.targets@.len() > MAX_TARGETS {
                Err(PlanFault::TooManyTargets)
            } else {
                Ok(())
            }),
            r is Ok <==> bytes < MAX_PLAN_BYTES && self.schema_version == 1 && self.targets@.len() <= MAX_TARGETS,
    {
        if bytes >= MAX_PLAN_BYTES {
            Err(PlanFault::TooLarge)
        } else if self.schema_version != 1 {
            Err(PlanFault::UnsupportedSchema)
        } else if self.targets.len() > MAX_TARGETS {
            Err(PlanFault::TooManyTargets)
        } else {
            Ok(())
        }
    }

    /// Gives the plan a new revision, as before it is stored.
    pub fn touch(&mut self, revision: u128, now: u64)
        ensures
            final(self).revision == revision,
            final(self).updated_unix == now,
            final(self).schema_version == old(self).schema_version,
            final(self).created_unix == old(self).created_unix,
            final(self).targets == old(self).targets,
    {
        self.revision = revision;
        self.updated_unix = now;
    }

    /// What keeps a path from being marked beside the targets of the plan and those that
    /// are about to be added.
    pub fn refuses(
        &self,
        additions: &Vec<Target>,
        path: &str,
        identity: &Identity,
        recursive: bool,
    ) -> (r: Option<StageFault>)
        requires
            self.targets.len() + additions.len() <= usize::MAX,
        ensures
            r == stage_fault(self.targets@ + additions@, path@, *identity, recursive),
    {
        if identity.is_dir() && !identity.is_reparse() && !recursive {
            return Some(StageFault::NeedsRecursive);
        }
        proof {
            lemma_overlap_concat(self.targets@, additions@, path@, 0);
        }
        if let Some(i) = find_overlap(&self.targets, path) {
            return Some(StageFault::Overlap(i));
        }
        if let Some(i) = find_overlap(additions, path) {
            proof {
                lemma_overlap_fits(additions@, path@, 0);
            }
            return Some(StageFault::Overlap(self.targets.len() + i));
        }
        None
    }

    /// Marks the collected targets.
    pub fn add_all(&mut self, additions: Vec<Target>)
        ensures
            final(self).targets@ == old(self).targets@ + additions@,
            final(self).schema_version == old(self).schema_version,
            final(self).revision == old(self).revision,
            final(self).created_unix == old(self).created_unix,
            final(self).updated_unix == old(self).updated_unix,
    {
        let mut more: Vec<Target> = additions;
        self.targets.append(&mut more);
    }
}

proof fn lemma_overlap_fits(targets: Seq<Target>, path: Seq<char>, from: nat)
    ensures
        first_overlap(targets, path, from) matches Some(i) ==> from <= i < targets.len() && overlap(
            path,
            targets[i as int].path.words(),
        ),
        first_overlap(targets, path, from) is None ==> forall|i: int|
            from <= i < targets.len() ==> !overlap(path, (#[trigger] targets[i]).path.words()),
    decreases targets.len() - from,
{
    if from < targets.len() && !overlap(path, targets[from as int].path.words()) {
        lemma_overlap_fits(targets, path, from + 1);
    }
}

proof fn lemma_overlap_shift(a: Seq<Target>, b: Seq<Target>, path: Seq<char>, from: nat)
    requires
        from <= b.len(),
    ensures
        first_overlap(a + b, path, a.len() + from) == (match first_overlap(b, path, from) {
            Some(i) => Some(a.len() + i),
            None => None,
        }),
    decreases b.len() - from,
{
    if from < b.len() {
        assert((a + b)[(a.len() + from) as int] == b[from as int]);
        if !overlap(path, b[from as int].path.words()) {
            lemma_overlap_shift(a, b, path, from + 1);
        }
    }
}

proof fn lemma_overlap_concat(a: Seq<Target>, b: Seq<Target>, path: Seq<char>, from: nat)
    requires
        from <= a.len(),
    ensures
        first_overlap(a + b, path, from) == (match first_overlap(a, path, from) {
            Some(i) => Some(i),
            None => match first_overlap(b, path, 0) {
                Some(i) => Some(a.len() + i),
                None => None,
            },
        }),
    decreases a.len() - from,
{
    if from < a.len() {
        assert((a + b)[from as int] == a[from as int]);
        if !overlap(path, a[from as int].path.words()) {
            lemma_overlap_concat(a, b, path, from + 1);
        }
    } else {
        lemma_overlap_shift(a, b, path, 0);
    }
}

fn is_listed(path: &str, paths: &[String]) -> (r: bool)
    ensures
        r == listed(path@, paths@),
{
    let key: String = platform::path_key(path);
    let mut i: usize = 0;
    while i < paths.len()
        invariant
            i <= paths@.len(),
            key@ == platform::key_of(path@),
            forall|k: int|
                0 <= k < i ==> platform::key_of((#[trigger] paths@[k])@) != platform::key_of(path@),
        decreases paths@.len() - i,
    {
        if text::same(&platform::path_key(&paths[i]), &key) {
            return true;
        }
        i += 1;
    }
    false
}

/// The targets that are not flagged.
pub open spec fn sifted(targets: Seq<Target>, gone: Seq<bool>) -> Seq<Target>
    decreases targets.len(),
{
    if targets.len() == 0 {
        Seq::empty()
    } else if gone[targets.len() - 1] {
        sifted(targets.drop_last(), gone)
    } else {
        sifted(targets.drop_last(), gone).push(targets.last())
    }
}

/// Takes the flagged targets away, and says how many went.
fn sift(targets: &mut Vec<Target>, gone: &Vec<bool>) -> (removed: usize)
    requires
        gone@.len() == old(targets)@.len(),
    ensures
        final(targets)@ == sifted(old(targets)@, gone@),
        removed == old(targets)@.len() - final(targets)@.len(),
{
    let ghost whole = targets@;
    let n: usize = targets.len();
    let mut removed: usize = 0;
    let mut i: usize = 0;
    assert(whole.subrange(0, 0) =~= Seq::<Target>::empty());
    assert(targets@.subrange(0, 0) =~= Seq::<Target>::empty());
    while i < targets.len()
        invariant
            i + removed <= n,
            n == whole.len(),
            n == gone@.len(),
            targets@.len() + removed == n,
            i <= targets@.len(),
            targets@.subrange(0, i as int) == sifted(whole.subrange(0, i + removed), gone@),
            targets@.subrange(i as int, targets@.len() as int) == whole.subrange(
                i + removed,
                n as int,
            ),
        decreases targets@.len() - i,
    {
        let ghost now = targets@;
        let ghost next = whole.subrange(0, i + removed + 1);
        proof {
            assert(now.subrange(i as int, now.len() as int)[0] == whole.subrange(
                i + removed,
                n as int,
            )[0]);
            assert(now[i as int] == whole[i + removed]);
            assert(next.drop_last() =~= whole.subrange(0, i + removed));
            assert(next.last() == now[i as int]);
        }
        if gone[i + removed] {
            let _ = targets.remove(i);
            removed += 1;
            proof {
                assert(targets@.subrange(0, i as int) =~= now.subrange(0, i as int));
                assert(targets@.subrange(i as int, targets@.len() as int) =~= now.subrange(
                    i as int,
                    now.len() as int,
                ).subrange(1, (now.len() - i) as int));
                assert(whole.subrange(i + removed, n as int) =~= whole.subrange(
                    i + removed - 1,
                    n as int,
                ).subrange(1, n - (i + removed - 1)));
            }
        } else {
            i += 1;
            proof {
                assert(now.subrange(0, i as int) =~= now.subrange(0, i - 1).push(now[i - 1]));
                assert(now.subrange(i as int, now.len() as int) =~= now.subrange(
                    i - 1,
                    now.len() as int,
                ).subrange(1, now.len() - (i - 1)));
                assert(whole.subrange(i + removed, n as int) =~= whole.subrange(
                    i + removed - 1,
                    n as int,
                ).subrange(1, n - (i + removed - 1)));
            }
        }
    }
    proof {
        assert(targets@.subrange(0, i as int) =~= targets@);
        assert(whole.subrange(i + removed, n as int).len() == 0);
        assert(whole.subrange(0, i + removed) =~= whole);
    }
    removed
}

proof fn lemma_sifted_unmarked(
    targets: Seq<Target>,
    gone: Seq<bool>,
    paths: Seq<String>,
    all: bool,
)
    requires
        gone.len() >= targets.len(),
        forall|i: int|
            0 <= i < targets.len() ==> #[trigger] gone[i] == (all || listed(
                targets[i].path.words(),
                paths,
            )),
    ensures
        sifted(targets, gone) == unmarked(targets, paths, all),
    decreases targets.len(),
{
    if targets.len() > 0 {
        let rest = targets.drop_last();
        assert(gone[targets.len() - 1] == (all || listed(
            targets[targets.len() - 1].path.words(),
            paths,
        )));
        lemma_sifted_unmarked(rest, gone, paths, all);
    }
}

/// Takes the listed targets, or all, off the plan, and says how many went. Nothing is
/// deleted or restored.
pub fn undo(plan: &mut Plan, paths: &[String], all: bool) -> (removed: usize)
    ensures
        final(plan).targets@ == unmarked(old(plan).targets@, paths@, all),
        removed == old(plan).targets@.len() - final(plan).targets@.len(),
        final(plan).schema_version == old(plan).schema_version,
        final(plan).revision == old(plan).revision,
        final(plan).created_unix == old(plan).created_unix,
        final(plan).updated_unix == old(plan).updated_unix,
{
    let mut gone: Vec<bool> = Vec::new();
    let mut i: usize = 0;
    while i < plan.targets.len()
        invariant
            i <= plan.targets@.len(),
            gone@.len() == i,
            *plan == *old(plan),
            forall|k: int|
                0 <= k < i ==> #[trigger] gone@[k] == (all || listed(
                    plan.targets@[k].path.words(),
                    paths@,
                )),
        decreases plan.targets@.len() - i,
    {
        gone.push(all || is_listed(&plan.targets[i].path.to_text(), paths));
        i += 1;
    }
    proof {
        lemma_sifted_unmarked(plan.targets@, gone@, paths@, all);
    }
    sift(&mut plan.targets, &gone)
}

/// The targets whose marks are none of those listed.
pub open spec fn without(targets: Seq<Target>, ids: Seq<u128>) -> Seq<Target>
    decreases targets.len(),
{
    if targets.len() == 0 {
        Seq::empty()
    } else if ids.contains(targets.last().id) {
        without(targets.drop_last(), ids)
    } else {
        without(targets.drop_last(), ids).push(targets.last())
    }
}

proof fn lemma_sifted_without(targets: Seq<Target>, gone: Seq<bool>, ids: Seq<u128>)
    requires
        gone.len() >= targets.len(),
        forall|i: int|
            0 <= i < targets.len() ==> #[trigger] gone[i] == ids.contains(targets[i].id),
    ensures
        sifted(targets, gone) == without(targets, ids),
    decreases targets.len(),
{
    if targets.len() > 0 {
        assert(gone[targets.len() - 1] == ids.contains(targets[targets.len() - 1].id));
        lemma_sifted_without(targets.drop_last(), gone, ids);
    }
}

fn holds_id(ids: &Vec<u128>, id: u128) -> (r: bool)
    ensures
        r == ids@.contains(id),
{
    let mut i: usize = 0;
    while i < ids.len()
        invariant
            i <= ids@.len(),
            forall|k: int| 0 <= k < i ==> #[trigger] ids@[k] != id,
        decreases ids@.len() - i,
    {
        if ids[i] == id {
            return true;
        }
        i += 1;
    }
    false
}

impl Plan {
    /// Replaces the marks of the given numbers by others.
    pub fn replace(&mut self, ids: &Vec<u128>, others: Vec<Target>)
        ensures
            final(self).targets@ == without(old(self).targets@, ids@) + others@,
            final(self).schema_version == old(self).schema_version,
            final(self).revision == old(self).revision,
            final(self).created_unix == old(self).created_unix,
            final(self).updated_unix == old(self).updated_unix,
    {
        let mut gone: Vec<bool> = Vec::new();
        let mut i: usize = 0;
        while i < self.targets.len()
            invariant
                i <= self.targets@.len(),
                gone@.len() == i,
                *self == *old(self),
                forall|k: int|
                    0 <= k < i ==> #[trigger] gone@[k] == ids@.contains(self.targets@[k].id),
            decreases self.targets@.len() - i,
        {
            gone.push(holds_id(ids, self.targets[i].id));
            i += 1;
        }
        proof {
            lemma_sifted_without(self.targets@, gone@, ids@);
        }
        let _ = sift(&mut self.targets, &gone);
        let mut more: Vec<Target> = others;
        self.targets.append(&mut more);
    }
}

/// Marking only what is not refused never makes targets overlap.
pub proof fn law_marking_keeps_targets_apart(
    targets: Seq<Target>,
    t: Target,
    identity: Identity,
    recursive: bool,
)
    ensures
        apart(targets) && stage_fault(targets, t.path.words(), identity, recursive) is None ==> apart(
            targets.push(t),
        ),
{
    if apart(targets) && stage_fault(targets, t.path.words(), identity, recursive) is None {
        lemma_overlap_fits(targets, t.path.words(), 0);
        let more = targets.push(t);
        assert forall|i: int, j: int|
            0 <= i < more.len() && 0 <= j < more.len() && i != j implies !overlap(
            (#[trigger] more[i]).path.words(),
            (#[trigger] more[j]).path.words(),
        ) by {
            if i < targets.len() {
                assert(more[i] == targets[i]);
            }
            if j < targets.len() {
                assert(more[j] == targets[j]);
            }
        }
    }
}

/// Taking a fresh mark off again leaves the plan as it was.
pub proof fn law_undo_takes_back_a_mark(targets: Seq<Target>, t: Target, path: String)
    ensures
        first_overlap(targets, t.path.words(), 0) is None && path@ == t.path.words() ==> unmarked(
            targets.push(t),
            seq![path],
            false,
        ) == targets,
{
    if first_overlap(targets, t.path.words(), 0) is None && path@ == t.path.words() {
        lemma_overlap_fits(targets, t.path.words(), 0);
        let paths = seq![path];
        let more = targets.push(t);
        assert(more.drop_last() =~= targets);
        assert(paths[0]@ == t.path.words());
        assert(listed(t.path.words(), paths));
        lemma_unmarked_same(targets, paths);
    }
}

proof fn lemma_unmarked_same(targets: Seq<Target>, paths: Seq<String>)
    requires
        paths.len() == 1,
        forall|i: int|
            0 <= i < targets.len() ==> !overlap(paths[0]@, (#[trigger] targets[i]).path.words()),
    ensures
        unmarked(targets, paths, false) == targets,
    decreases targets.len(),
{
    if targets.len() > 0 {
        let rest = targets.drop_last();
        assert(!overlap(paths[0]@, targets[targets.len() - 1].path.words()));
        assert forall|i: int| 0 <= i < rest.len() implies !overlap(
            paths[0]@,
            (#[trigger] rest[i]).path.words(),
        ) by {
            assert(!overlap(paths[0]@, targets[i].path.words()));
        }
        lemma_unmarked_same(rest, paths);
        assert(targets =~= rest.push(targets.last()));
    } else {
        assert(targets =~= Seq::<Target>::empty());
    }
}

/// A directory is marked only where that was asked for, and nothing is marked that overlaps
/// what is marked already; anything else is.
pub proof fn law_marks_are_refused_only_for_cause(
    targets: Seq<Target>,
    path: Seq<char>,
    identity: Identity,
    recursive: bool,
)
    requires
        targets.len() <= usize::MAX,
    ensures
        ({
            let f = stage_fault(targets, path, identity, recursive);
            let folder = identity.attributes & 0x10 != 0 && identity.attributes & 0x400 == 0;
            let crowded = exists|i: int|
                0 <= i < targets.len() && overlap(path, (#[trigger] targets[i]).path.words());
            &&& f == Some(StageFault::NeedsRecursive) <==> folder && !recursive
            &&& f is None <==> !(folder && !recursive) && !crowded
            &&& f matches Some(StageFault::Overlap(i)) ==> i < targets.len() && overlap(
                path,
                targets[i as int].path.words(),
            )
        }),
{
    lemma_first_overlap(targets, path, 0);
}

proof fn lemma_first_overlap(targets: Seq<Target>, path: Seq<char>, from: nat)
    ensures
        first_overlap(targets, path, from) is None ==> forall|i: int|
            from <= i < targets.len() ==> !overlap(path, (#[trigger] targets[i]).path.words()),
        first_overlap(targets, path, from) is Some ==> from <= first_overlap(targets, path, from)->0
            < targets.len() && overlap(
            path,
            targets[first_overlap(targets, path, from)->0 as int].path.words(),
        ),
    decreases targets.len() - from,
{
    if from < targets.len() {
        lemma_first_overlap(targets, path, from + 1);
    }
}

/// Two paths overlap whichever is named first, a path overlaps itself, and it overlaps what
/// lies below it.
pub proof fn law_overlap_is_mutual(a: Seq<char>, b: Seq<char>)
    ensures
        overlap(a, b) <==> overlap(b, a),
        overlap(a, a),
        platform::key_of(a).len() < platform::key_of(b).len() && platform::key_of(a).is_prefix_of(
            platform::key_of(b),
        ) && platform::key_of(b)[platform::key_of(a).len() as int] == '\\' ==> overlap(a, b),
        overlap(a, b) ==> platform::key_of(a).is_prefix_of(platform::key_of(b)) || platform::key_of(
            b,
        ).is_prefix_of(platform::key_of(a)),
        overlap(a, b) && platform::key_of(a).len() < platform::key_of(b).len() ==> platform::key_of(
            b,
        )[platform::key_of(a).len() as int] == '\\',
{
}

/// Taking back marks takes back just those of the paths given, or all: what stays was not
/// given, what was not given stays, and nothing new comes in.
pub proof fn law_only_given_marks_are_taken_back(
    targets: Seq<Target>,
    paths: Seq<String>,
    all: bool,
    t: Target,
)
    ensures
        unmarked(targets, paths, all).contains(t) <==> {
            &&& targets.contains(t)
            &&& !all
            &&& forall|i: int|
                0 <= i < paths.len() ==> platform::key_of((#[trigger] paths[i])@)
                    != platform::key_of(t.path.words())
        },
        unmarked(targets, paths, all).len() <= targets.len(),
    decreases targets.len(),
{
    if targets.len() > 0 {
        let rest = targets.drop_last();
        let last = targets.last();
        law_only_given_marks_are_taken_back(rest, paths, all, t);
        let kept = unmarked(rest, paths, all);
        let now = unmarked(targets, paths, all);
        assert(targets.contains(t) <==> rest.contains(t) || last == t) by {
            if targets.contains(t) {
                let i = targets.index_of(t);
                if i < rest.len() {
                    assert(rest[i] == t);
                }
            }
            if rest.contains(t) {
                let i = rest.index_of(t);
                assert(targets[i] == t);
            }
            if last == t {
                assert(targets[targets.len() - 1] == t);
            }
        }
        if !(all || listed(last.path.words(), paths)) {
            assert(now.contains(t) <==> kept.contains(t) || last == t) by {
                if now.contains(t) {
                    let i = now.index_of(t);
                    if i < kept.len() {
                        assert(kept[i] == t);
                    }
                }
                if kept.contains(t) {
                    let i = kept.index_of(t);
                    assert(now[i] == t);
                }
                if last == t {
                    assert(now[kept.len() as int] == t);
                }
            }
        }
    }
}

/// Settled targets leave the plan, and no other.
pub proof fn law_only_settled_targets_leave(targets: Seq<Target>, ids: Seq<u128>, t: Target)
    ensures
        without(targets, ids).contains(t) <==> targets.contains(t) && !(exists|i: int|
            0 <= i < ids.len() && #[trigger] ids[i] == t.id),
        without(targets, ids).len() <= targets.len(),
    decreases targets.len(),
{
    if targets.len() > 0 {
        let rest = targets.drop_last();
        let last = targets.last();
        law_only_settled_targets_leave(rest, ids, t);
        let kept = without(rest, ids);
        let now = without(targets, ids);
        assert(targets.contains(t) <==> rest.contains(t) || last == t) by {
            if targets.contains(t) {
                let i = targets.index_of(t);
                if i < rest.len() {
                    assert(rest[i] == t);
                }
            }
            if rest.contains(t) {
                let i = rest.index_of(t);
                assert(targets[i] == t);
            }
            if last == t {
                assert(targets[targets.len() - 1] == t);
            }
        }
        if !ids.contains(last.id) {
            assert(now.contains(t) <==> kept.contains(t) || last == t) by {
                if now.contains(t) {
                    let i = now.index_of(t);
                    if i < kept.len() {
                        assert(kept[i] == t);
                    }
                }
                if kept.contains(t) {
                    let i = kept.index_of(t);
                    assert(now[i] == t);
                }
                if last == t {
                    assert(now[kept.len() as int] == t);
                }
            }
        }
    }
}

/// The worst of some alerts is critical if one is, else a warning if one is.
pub proof fn law_the_worst_alert_counts(alerts: Seq<Alert>, i: int)
    requires
        0 <= i < alerts.len(),
    ensures
        worst(alerts) is Some,
        alerts[i].level is Critical ==> worst(alerts) == Some(Level::Critical),
        worst(alerts) == Some(Level::Critical) ==> exists|k: int|
            0 <= k < alerts.len() && (#[trigger] alerts[k]).level is Critical,
{
    assert(alerts[i].level == alerts[i].level);
    match alerts[i].level {
        Level::Critical => {
            assert(has_level(alerts, Level::Critical));
        },
        Level::Warn => {
            assert(has_level(alerts, Level::Warn));
        },
    }
}

/// What is kept of a marked node is what the scan found of it.
pub proof fn law_marks_keep_what_was_found(s: Snapshot, id: int, errors: u64)
    ensures
        node_summary(s, id, errors).logical_bytes == s.nodes@[id].logical,
        node_summary(s, id, errors).allocated_bytes == s.nodes@[id].allocated,
        node_summary(s, id, errors).files == s.nodes@[id].files,
        node_summary(s, id, errors).dirs == s.nodes@[id].dirs,
        node_summary(s, id, errors).errors == errors,
{
}

/// What is sifted out is what was told to be gone.
pub proof fn law_only_what_is_gone_is_sifted_out(targets: Seq<Target>, gone: Seq<bool>, i: int)
    requires
        0 <= i < targets.len(),
        gone.len() >= targets.len(),
    ensures
        !gone[i] ==> sifted(targets, gone).contains(targets[i]),
        forall|k: int|
            0 <= k < sifted(targets, gone).len() ==> exists|j: int|
                0 <= j < targets.len() && !gone[j] && #[trigger] targets[j] == #[trigger] sifted(
                    targets,
                    gone,
                )[k],
        sifted(targets, gone).len() <= targets.len(),
    decreases targets.len(),
{
    let rest = targets.drop_last();
    let last = targets.last();
    let now = sifted(targets, gone);
    let before = sifted(rest, gone);
    lemma_sifted(targets, gone);
    if i < rest.len() {
        law_only_what_is_gone_is_sifted_out(rest, gone, i);
        if !gone[i] {
            let k = before.index_of(rest[i]);
            assert(now[k] == targets[i]);
        }
    } else if !gone[i] {
        assert(now[before.len() as int] == targets[i]);
    }
}

proof fn lemma_sifted(targets: Seq<Target>, gone: Seq<bool>)
    ensures
        sifted(targets, gone).len() <= targets.len(),
        forall|k: int|
            0 <= k < sifted(targets, gone).len() ==> exists|j: int|
                0 <= j < targets.len() && !gone[j] && #[trigger] targets[j] == #[trigger] sifted(
                    targets,
                    gone,
                )[k],
    decreases targets.len(),
{
    if targets.len() > 0 {
        let rest = targets.drop_last();
        lemma_sifted(rest, gone);
        let before = sifted(rest, gone);
        let now = sifted(targets, gone);
        assert forall|k: int| 0 <= k < now.len() implies exists|j: int|
            0 <= j < targets.len() && !gone[j] && #[trigger] targets[j] == #[trigger] now[k] by {
            if k < before.len() {
                let j = choose|j: int|
                    0 <= j < rest.len() && !gone[j] && #[trigger] rest[j] == before[k];
                assert(targets[j] == now[k]);
            } else {
                assert(targets[targets.len() - 1] == now[k]);
            }
        }
    }
}

} // verus!
