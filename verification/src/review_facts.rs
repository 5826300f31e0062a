//! What the review window tells besides the tree: the chosen row, the drives, the totals.
use crate::deletion::Prepared;
use crate::executor::Outcome;
use crate::model;
use crate::model::Snapshot;
use crate::plan::{Alert, Level, Target};
use crate::platform;
use crate::platform::VolumeInfo;
use crate::report;
use crate::report::{human, safe_text};
use crate::review;
use crate::review::{severity_of, Scene};
use crate::review_tree::{Forest, Location};
use crate::selection::TreeSelection;
use crate::text;
use crate::text::{decimal, glue};
use vstd::prelude::*;
use vstd::string::*;

verus! {

/// So many notes of a group are shown.
pub const MAX_NOTES: usize = 32;

/// What is told of a chosen row.
#[derive(Debug)]
pub struct Details {
    pub path: String,
    pub reason: String,
    pub alerts: String,
    pub preview: String,
    pub note_count: usize,
    pub severity: i32,
    pub can_unmark: bool,
}

#[verifier::ext_equal]
pub struct DetailsV {
    pub path: Seq<char>,
    pub reason: Seq<char>,
    pub alerts: Seq<char>,
    pub preview: Seq<char>,
    pub note_count: nat,
    pub severity: i32,
    pub can_unmark: bool,
}

impl View for Details {
    type V = DetailsV;

    open spec fn view(&self) -> DetailsV {
        DetailsV {
            path: self.path@,
            reason: self.reason@,
            alerts: self.alerts@,
            preview: self.preview@,
            note_count: self.note_count as nat,
            severity: self.severity,
            can_unmark: self.can_unmark,
        }
    }
}

/// A note with the path that it is about.
pub open spec fn placed_note(path: Seq<char>, a: Alert) -> Seq<char> {
    a.level.word() + "  ·  "@ + platform::shown(path) + "\n"@ + report::safe_of(a.text@)
}

/// The notes of one weight among the first `n` of a target.
pub open spec fn notes_of(path: Seq<char>, alerts: Seq<Alert>, level: Level, n: nat) -> Seq<
    Seq<char>,
>
    decreases n,
{
    if n == 0 {
        Seq::empty()
    } else {
        let before = notes_of(path, alerts, level, (n - 1) as nat);
        if alerts[n - 1].level == level {
            before.push(placed_note(path, alerts[n - 1]))
        } else {
            before
        }
    }
}

/// The notes of one weight of the first `n` targets of a list.
pub open spec fn group_notes(prepared: Prepared, targets: Seq<usize>, level: Level, n: nat) -> Seq<
    Seq<char>,
>
    decreases n,
{
    if n == 0 {
        Seq::empty()
    } else {
        let t = prepared.targets@[targets[n - 1] as int].target;
        group_notes(prepared, targets, level, (n - 1) as nat) + notes_of(
            t.path.words(),
            t.alerts@,
            level,
            t.alerts@.len(),
        )
    }
}

/// The notes of a group, the weightiest first.
pub open spec fn all_notes(prepared: Prepared, targets: Seq<usize>) -> Seq<Seq<char>> {
    group_notes(prepared, targets, Level::Critical, targets.len()) + group_notes(
        prepared,
        targets,
        Level::Warn,
        targets.len(),
    )
}

/// How many notes the first `n` targets of a list have.
pub open spec fn note_sum(prepared: Prepared, targets: Seq<usize>, n: nat) -> nat
    decreases n,
{
    if n == 0 {
        0
    } else {
        note_sum(prepared, targets, (n - 1) as nat)
            + prepared.targets@[targets[n - 1] as int].target.alerts@.len()
    }
}

/// The shown notes of a group, and how many more there are.
pub open spec fn shown_notes(prepared: Prepared, targets: Seq<usize>) -> Seq<Seq<char>> {
    let all = all_notes(prepared, targets);
    let shown = if all.len() > MAX_NOTES {
        all.subrange(0, MAX_NOTES as int)
    } else {
        all
    };
    let left = note_sum(prepared, targets, targets.len()) - shown.len();
    if left > 0 {
        shown.push(
            "另有 "@ + text::decimal_of(left as nat) + " 条提示；选择具体对象查看。"@,
        )
    } else {
        shown
    }
}

/// The first text of one weight among the first `n` targets of a list.
pub open spec fn first_text(prepared: Prepared, targets: Seq<usize>, level: Level, from: nat) -> Option<
    Seq<char>,
>
    decreases targets.len() - from,
{
    if from >= targets.len() {
        None
    } else {
        let alerts = prepared.targets@[targets[from as int] as int].target.alerts@;
        let texts = review::texts_of(alerts, level, alerts.len());
        if texts.len() > 0 {
            Some(texts[0])
        } else {
            first_text(prepared, targets, level, from + 1)
        }
    }
}

/// The text of the first of the weightiest notes of a group.
pub open spec fn group_preview(prepared: Prepared, targets: Seq<usize>) -> Seq<char> {
    match first_text(prepared, targets, Level::Critical, 0) {
        Some(t) => t,
        None => match first_text(prepared, targets, Level::Warn, 0) {
            Some(t) => t,
            None => Seq::empty(),
        },
    }
}

/// The text of the first of the weightiest notes of a target.
pub open spec fn target_preview(alerts: Seq<Alert>) -> Seq<char> {
    let critical = review::texts_of(alerts, Level::Critical, alerts.len());
    let warn = review::texts_of(alerts, Level::Warn, alerts.len());
    if critical.len() > 0 {
        critical[0]
    } else if warn.len() > 0 {
        warn[0]
    } else {
        Seq::empty()
    }
}

/// The notes of a target as they stand, each under its weight.
pub open spec fn target_notes(alerts: Seq<Alert>) -> Seq<Seq<char>> {
    alerts.map_values(|a: Alert| a.level.word() + "\n"@ + report::safe_of(a.text@))
}

/// What is told of a group.
pub open spec fn group_details(prepared: Prepared, forest: Forest, g: int) -> DetailsV {
    let targets = forest.groups@[g].targets@;
    DetailsV {
        path: platform::shown(forest.groups@[g].path@),
        reason: Seq::empty(),
        alerts: text::joined_by(shown_notes(prepared, targets), "\n\n"@),
        preview: group_preview(prepared, targets),
        note_count: note_sum(prepared, targets, targets.len()),
        severity: review::worst_weight(prepared, targets, targets.len()),
        can_unmark: targets.len() > 0,
    }
}

/// What is told of an entry: of a target all that is known, of what lies below it the path.
pub open spec fn entry_details(prepared: Prepared, target: int, node: u32) -> DetailsV {
    let t = prepared.targets@[target];
    let path = platform::shown(
        model::words_at(t.tree.root@, t.tree.nodes@, t.tree.names@, node),
    );
    if node == 0 {
        DetailsV {
            path,
            reason: if t.target.reason@.len() == 0 {
                Seq::empty()
            } else {
                "原因："@ + t.target.reason@
            },
            alerts: text::joined_by(target_notes(t.target.alerts@), "\n\n"@),
            preview: target_preview(t.target.alerts@),
            note_count: t.target.alerts@.len(),
            severity: review::weight(t.target.alerts@),
            can_unmark: true,
        }
    } else {
        DetailsV {
            path,
            reason: Seq::empty(),
            alerts: Seq::empty(),
            preview: Seq::empty(),
            note_count: 0,
            severity: 0,
            can_unmark: true,
        }
    }
}

fn add_level(out: &mut Vec<String>, path: &str, alerts: &Vec<Alert>, level: Level)
    ensures
        text::views(final(out)@) == text::views(old(out)@) + notes_of(
            path@,
            alerts@,
            level,
            alerts@.len(),
        ),
{
    let ghost had = text::views(out@);
    let mut i: usize = 0;
    assert(had + notes_of(path@, alerts@, level, 0) =~= had);
    while i < alerts.len()
        invariant
            i <= alerts@.len(),
            text::views(out@) == had + notes_of(path@, alerts@, level, i as nat),
        decreases alerts@.len() - i,
    {
        if alerts[i].level == level {
            let ghost before = out@;
            let head: String = glue(
                &glue(alerts[i].level.label(), "  ·  "),
                &platform::display_path(path),
            );
            let one: String = glue(&glue(&head, "\n"), &safe_text(&alerts[i].text));
            out.push(one);
            assert(text::views(out@) =~= text::views(before).push(one@));
            assert(text::views(out@) =~= had + notes_of(path@, alerts@, level, i as nat).push(
                one@,
            ));
        }
        i += 1;
    }
}

fn add_notes(out: &mut Vec<String>, prepared: &Prepared, targets: &Vec<usize>, level: Level)
    requires
        forall|i: int|
            0 <= i < targets@.len() ==> (#[trigger] targets@[i]) < prepared.targets@.len(),
    ensures
        text::views(final(out)@) == text::views(old(out)@) + group_notes(
            *prepared,
            targets@,
            level,
            targets@.len(),
        ),
{
    let ghost had = text::views(out@);
    let mut i: usize = 0;
    assert(had + group_notes(*prepared, targets@, level, 0) =~= had);
    while i < targets.len()
        invariant
            i <= targets@.len(),
            forall|i: int|
                0 <= i < targets@.len() ==> (#[trigger] targets@[i]) < prepared.targets@.len(),
            text::views(out@) == had + group_notes(*prepared, targets@, level, i as nat),
        decreases targets@.len() - i,
    {
        let t: &Target = &prepared.targets[targets[i]].target;
        add_level(out, &t.path.to_text(), &t.alerts, level);
        i += 1;
        assert(text::views(out@) =~= had + group_notes(*prepared, targets@, level, i as nat));
    }
}

fn count_notes(prepared: &Prepared, targets: &Vec<usize>) -> (r: Option<usize>)
    requires
        forall|i: int|
            0 <= i < targets@.len() ==> (#[trigger] targets@[i]) < prepared.targets@.len(),
    ensures
        match r {
            Some(n) => n == note_sum(*prepared, targets@, targets@.len()),
            None => note_sum(*prepared, targets@, targets@.len()) > usize::MAX,
        },
{
    let mut n: usize = 0;
    let mut i: usize = 0;
    while i < targets.len()
        invariant
            i <= targets@.len(),
            forall|i: int|
                0 <= i < targets@.len() ==> (#[trigger] targets@[i]) < prepared.targets@.len(),
            n == note_sum(*prepared, targets@, i as nat),
        decreases targets@.len() - i,
    {
        match n.checked_add(prepared.targets[targets[i]].target.alerts.len()) {
            Some(m) => {
                n = m;
            },
            None => {
                proof {
                    lemma_note_sum(*prepared, targets@, (i + 1) as nat, targets@.len());
                }
                return None;
            },
        }
        i += 1;
    }
    Some(n)
}

proof fn lemma_note_sum(prepared: Prepared, targets: Seq<usize>, m: nat, n: nat)
    requires
        m <= n,
    ensures
        note_sum(prepared, targets, m) <= note_sum(prepared, targets, n),
    decreases n,
{
    if m < n {
        lemma_note_sum(prepared, targets, m, (n - 1) as nat);
    }
}

fn first_of_level(alerts: &Vec<Alert>, level: Level) -> (r: Option<String>)
    ensures
        ({
            let texts = review::texts_of(alerts@, level, alerts@.len());
            match r {
                Some(t) => texts.len() > 0 && t@ == texts[0],
                None => texts.len() == 0,
            }
        }),
{
    let mut i: usize = 0;
    while i < alerts.len()
        invariant
            i <= alerts@.len(),
            review::texts_of(alerts@, level, i as nat).len() == 0,
        decreases alerts@.len() - i,
    {
        if alerts[i].level == level {
            let t: String = safe_text(&alerts[i].text);
            proof {
                let one = review::texts_of(alerts@, level, (i + 1) as nat);
                assert(one[0] == t@);
                lemma_first_stays(alerts@, level, (i + 1) as nat, alerts@.len());
            }
            return Some(t);
        }
        i += 1;
    }
    None
}

proof fn lemma_first_stays(alerts: Seq<Alert>, level: Level, m: nat, n: nat)
    requires
        m <= n,
        review::texts_of(alerts, level, m).len() > 0,
    ensures
        review::texts_of(alerts, level, n).len() > 0,
        review::texts_of(alerts, level, n)[0] == review::texts_of(alerts, level, m)[0],
    decreases n,
{
    if m < n {
        lemma_first_stays(alerts, level, m, (n - 1) as nat);
    }
}

fn first_in_group(prepared: &Prepared, targets: &Vec<usize>, level: Level) -> (r: Option<String>)
    requires
        forall|i: int|
            0 <= i < targets@.len() ==> (#[trigger] targets@[i]) < prepared.targets@.len(),
    ensures
        match (r, first_text(*prepared, targets@, level, 0)) {
            (Some(t), Some(u)) => t@ == u,
            (None, None) => true,
            _ => false,
        },
{
    let mut i: usize = 0;
    while i < targets.len()
        invariant
            i <= targets@.len(),
            forall|i: int|
                0 <= i < targets@.len() ==> (#[trigger] targets@[i]) < prepared.targets@.len(),
            first_text(*prepared, targets@, level, i as nat) == first_text(
                *prepared,
                targets@,
                level,
                0,
            ),
        decreases targets@.len() - i,
    {
        match first_of_level(&prepared.targets[targets[i]].target.alerts, level) {
            Some(t) => {
                return Some(t);
            },
            None => {},
        }
        i += 1;
    }
    None
}

fn details_of_group(prepared: &Prepared, forest: &Forest, g: usize) -> (r: Option<Details>)
    requires
        g < forest.groups@.len(),
        forall|i: int|
            0 <= i < forest.groups@[g as int].targets@.len() ==> (
            #[trigger] forest.groups@[g as int].targets@[i]) < prepared.targets@.len(),
    ensures
        match r {
            Some(d) => d@ == group_details(*prepared, *forest, g as int),
            None => group_details(*prepared, *forest, g as int).note_count > usize::MAX,
        },
{
    let targets: &Vec<usize> = &forest.groups[g].targets;
    proof {
        assert forall|i: int| 0 <= i < targets@.len() implies (#[trigger] targets@[i])
            < prepared.targets@.len() by {
            assert(forest.groups@[g as int].targets@[i] < prepared.targets@.len());
        }
    }
    let note_count: usize = match count_notes(prepared, targets) {
        None => {
            return None;
        },
        Some(n) => n,
    };
    let mut notes: Vec<String> = Vec::new();
    add_notes(&mut notes, prepared, targets, Level::Critical);
    add_notes(&mut notes, prepared, targets, Level::Warn);
    assert(text::views(notes@) =~= all_notes(*prepared, targets@));
    if notes.len() > MAX_NOTES {
        notes.truncate(MAX_NOTES);
        assert(text::views(notes@) =~= all_notes(*prepared, targets@).subrange(
            0,
            MAX_NOTES as int,
        ));
    }
    let ghost shown = notes@;
    if note_count > notes.len() {
        let left: usize = note_count - notes.len();
        let one: String = glue(
            &glue("另有 ", &decimal(left as u64)),
            " 条提示；选择具体对象查看。",
        );
        notes.push(one);
        assert(text::views(notes@) =~= text::views(shown).push(one@));
    }
    assert(text::views(notes@) =~= shown_notes(*prepared, targets@));
    let preview: String = match first_in_group(prepared, targets, Level::Critical) {
        Some(t) => t,
        None => match first_in_group(prepared, targets, Level::Warn) {
            Some(t) => t,
            None => String::new(),
        },
    };
    let mut severity: i32 = 0;
    let mut i: usize = 0;
    while i < targets.len()
        invariant
            i <= targets@.len(),
            forall|i: int|
                0 <= i < targets@.len() ==> (#[trigger] targets@[i]) < prepared.targets@.len(),
            severity == review::worst_weight(*prepared, targets@, i as nat),
        decreases targets@.len() - i,
    {
        let one: i32 = severity_of(&prepared.targets[targets[i]].target);
        if one > severity {
            severity = one;
        }
        i += 1;
    }
    Some(
        Details {
            path: platform::display_path(&forest.groups[g].path),
            reason: String::new(),
            alerts: text::join_by(&notes, "\n\n"),
            preview,
            note_count,
            severity,
            can_unmark: targets.len() > 0,
        },
    )
}

fn notes_of_target(alerts: &Vec<Alert>) -> (r: Vec<String>)
    ensures
        text::views(r@) == target_notes(alerts@),
{
    let mut out: Vec<String> = Vec::new();
    let mut i: usize = 0;
    let ghost want = target_notes(alerts@);
    assert(text::views(out@) =~= want.subrange(0, 0));
    while i < alerts.len()
        invariant
            i <= alerts@.len(),
            want == target_notes(alerts@),
            text::views(out@) == want.subrange(0, i as int),
        decreases alerts@.len() - i,
    {
        let ghost had = out@;
        let one: String = glue(
            &glue(alerts[i].level.label(), "\n"),
            &safe_text(&alerts[i].text),
        );
        out.push(one);
        assert(text::views(out@) =~= text::views(had).push(one@));
        i += 1;
        assert(text::views(out@) =~= want.subrange(0, i as int));
    }
    assert(want.subrange(0, i as int) =~= want);
    out
}

fn details_of_entry(prepared: &Prepared, path: &str, target: usize, node: u32) -> (r: Details)
    requires
        target < prepared.targets@.len(),
        path@ == entry_path(*prepared, target as int, node),
    ensures
        r@ == entry_details(*prepared, target as int, node),
{
    let t: &Target = &prepared.targets[target].target;
    let shown: String = platform::display_path(path);
    if node != 0 {
        return Details {
            path: shown,
            reason: String::new(),
            alerts: String::new(),
            preview: String::new(),
            note_count: 0,
            severity: 0,
            can_unmark: true,
        };
    }
    let empty: bool = text::same(&t.reason, "");
    proof {
        reveal_strlit("");
        if empty {
            assert(t.reason@.len() == 0);
        } else if t.reason@.len() == 0 {
            assert(t.reason@ =~= ""@);
        }
    }
    let reason: String = if empty {
        String::new()
    } else {
        glue("原因：", &t.reason)
    };
    let preview: String = match first_of_level(&t.alerts, Level::Critical) {
        Some(x) => x,
        None => match first_of_level(&t.alerts, Level::Warn) {
            Some(x) => x,
            None => String::new(),
        },
    };
    Details {
        path: shown,
        reason,
        alerts: text::join_by(&notes_of_target(&t.alerts), "\n\n"),
        preview,
        note_count: t.alerts.len(),
        severity: severity_of(t),
        can_unmark: true,
    }
}

pub open spec fn entry_path(prepared: Prepared, target: int, node: u32) -> Seq<char> {
    let t = prepared.targets@[target].tree;
    model::words_at(t.root@, t.nodes@, t.names@, node)
}

/// What is told of the row with this key; nothing if there is none, or if its notes cannot
/// be counted.
pub fn details(prepared: &Prepared, forest: &Forest, trees: &[&Snapshot], key: i32) -> (r: Option<
    Details,
>)
    requires
        prepared.sound(),
        trees@.len() == prepared.targets@.len(),
        forall|i: int|
            0 <= i < trees@.len() ==> *(#[trigger] trees@[i]) == prepared.targets@[i].tree,
        forest.belongs_to(trees@),
    ensures
        match forest.place(key as int) {
            None => r is None,
            Some(Location::Group(g)) => match r {
                Some(d) => d@ == group_details(*prepared, *forest, g as int),
                None => group_details(*prepared, *forest, g as int).note_count > usize::MAX,
            },
            Some(Location::Entry { target, node }) => r is Some && r->0@ == entry_details(
                *prepared,
                target as int,
                node,
            ),
        },
{
    proof {
        assert forall|t: int| 0 <= t < trees@.len() implies model::names_inside(
            #[trigger] trees@[t].nodes@,
            trees@[t].names@.len(),
        ) && model::parents_inside(trees@[t].nodes@) && trees@[t].nodes@.len() <= u32::MAX by {
            assert(*trees@[t] == prepared.targets@[t].tree);
        }
    }
    match forest.locate(key) {
        None => None,
        Some(Location::Group(g)) => {
            proof {
                assert forall|i: int| 0 <= i < forest.groups@[g as int].targets@.len() implies (
                #[trigger] forest.groups@[g as int].targets@[i]) < prepared.targets@.len() by {
                    assert(forest.groups@[g as int].targets@[i] < trees@.len());
                }
            }
            details_of_group(prepared, forest, g)
        },
        Some(Location::Entry { target, node }) => {
            proof {
                forest.lemma_entry(trees@, target as int);
                assert(*trees@[target as int] == prepared.targets@[target as int].tree);
            }
            match forest.path(trees, key) {
                None => None,
                Some(path) => Some(details_of_entry(prepared, &path.to_text(), target, node)),
            }
        },
    }
}

/// The free space of a drive, before and after.
#[derive(Debug)]
pub struct SpaceRow {
    pub drive: String,
    pub before: String,
    pub after: String,
    pub measured: bool,
    pub free_before: u64,
    pub free_after: u64,
    pub total: u64,
}

/// The first volume with this number.
pub open spec fn with_serial(v: Seq<VolumeInfo>, serial: u32, from: nat) -> Option<VolumeInfo>
    decreases v.len() - from,
{
    if from >= v.len() {
        None
    } else if v[from as int].serial == serial {
        Some(v[from as int])
    } else {
        with_serial(v, serial, from + 1)
    }
}

/// The space that is selected on a volume in the first `n` targets.
pub open spec fn selected_on(
    prepared: Prepared,
    choices: Seq<TreeSelection>,
    serial: u32,
    n: nat,
) -> nat
    decreases n,
{
    if n == 0 {
        0
    } else {
        let before = selected_on(prepared, choices, serial, (n - 1) as nat);
        if prepared.targets@[n - 1].tree.volume.serial == serial {
            before + choices[n - 1].sums()[0].allocated
        } else {
            before
        }
    }
}

/// What a drive shows: what was measured, or what is to be expected.
pub open spec fn space_shown(
    prepared: Prepared,
    choices: Seq<TreeSelection>,
    outcome: Option<Outcome>,
    i: int,
    r: SpaceRow,
) -> bool {
    let volume = prepared.volumes@[i];
    let before = match outcome {
        Some(o) => match with_serial(o.before@, volume.serial, 0) {
            Some(v) => v,
            None => volume,
        },
        None => volume,
    };
    let expected = before.free_bytes + selected_on(
        prepared,
        choices,
        volume.serial,
        prepared.targets@.len(),
    );
    let measured = match outcome {
        Some(o) => with_serial(o.after@, volume.serial, 0),
        None => None,
    };
    &&& r.drive@ == platform::shown(volume.root@)
    &&& r.free_before == before.free_bytes
    &&& r.total == before.total_bytes
    &&& r.free_after == (match measured {
        Some(v) => v.free_bytes as int,
        None => if expected < before.total_bytes {
            expected
        } else {
            before.total_bytes as int
        },
    })
    &&& r.before@ == report::human_text(r.free_before as int)
    &&& r.after@ == report::human_text(r.free_after as int)
    &&& r.measured == (outcome is Some)
}

fn find_serial(v: &Vec<VolumeInfo>, serial: u32) -> (r: Option<usize>)
    ensures
        match (r, with_serial(v@, serial, 0)) {
            (Some(i), Some(w)) => i < v@.len() && v@[i as int] == w,
            (None, None) => true,
            _ => false,
        },
{
    let mut i: usize = 0;
    while i < v.len()
        invariant
            i <= v@.len(),
            with_serial(v@, serial, i as nat) == with_serial(v@, serial, 0),
        decreases v@.len() - i,
    {
        if v[i].serial == serial {
            return Some(i);
        }
        i += 1;
    }
    None
}

/// The choices are those of the targets.
pub open spec fn choices_fit(prepared: Prepared, choices: Seq<TreeSelection>) -> bool {
    &&& choices.len() == prepared.targets@.len()
    &&& forall|i: int| 0 <= i < choices.len() ==> (#[trigger] choices[i]).sums().len() > 0
}

/// A sum, or the greatest number if it does not fit.
pub open spec fn capped(n: nat) -> u64 {
    if n <= u64::MAX {
        n as u64
    } else {
        u64::MAX
    }
}

fn selected_space(prepared: &Prepared, choices: &[TreeSelection], serial: u32) -> (r: u64)
    requires
        choices_fit(*prepared, choices@),
    ensures
        r == capped(selected_on(*prepared, choices@, serial, prepared.targets@.len())),
{
    let mut sum: u64 = 0;
    let mut i: usize = 0;
    while i < prepared.targets.len()
        invariant
            i <= prepared.targets@.len(),
            choices_fit(*prepared, choices@),
            sum == capped(selected_on(*prepared, choices@, serial, i as nat)),
        decreases prepared.targets@.len() - i,
    {
        if prepared.targets[i].tree.volume.serial == serial {
            assert(choices@[i as int].sums().len() > 0);
            sum = sum.saturating_add(choices[i].totals(0).allocated);
        }
        i += 1;
    }
    sum
}

/// The drives of a review: as they were measured, or as they are to be expected.
pub fn space_rows(prepared: &Prepared, choices: &[TreeSelection], outcome: Option<&Outcome>) -> (r: Vec<
    SpaceRow,
>)
    requires
        choices_fit(*prepared, choices@),
    ensures
        r@.len() == prepared.volumes@.len(),
        forall|i: int|
            0 <= i < r@.len() ==> space_shown(
                *prepared,
                choices@,
                (match outcome {
                    Some(o) => Some(*o),
                    None => None,
                }),
                i,
                #[trigger] r@[i],
            ),
{
    let mut out: Vec<SpaceRow> = Vec::new();
    let mut i: usize = 0;
    let ghost known = match outcome {
        Some(o) => Some(*o),
        None => None,
    };
    while i < prepared.volumes.len()
        invariant
            i <= prepared.volumes@.len(),
            choices_fit(*prepared, choices@),
            known == (match outcome {
                Some(o) => Some(*o),
                None => None,
            }),
            out@.len() == i,
            forall|k: int|
                0 <= k < i ==> space_shown(*prepared, choices@, known, k, #[trigger] out@[k]),
        decreases prepared.volumes@.len() - i,
    {
        let volume: &VolumeInfo = &prepared.volumes[i];
        let before: &VolumeInfo = match outcome {
            Some(o) => match find_serial(&o.before, volume.serial) {
                Some(k) => &o.before[k],
                None => volume,
            },
            None => volume,
        };
        let candidate: u64 = selected_space(prepared, choices, volume.serial);
        let expected: u64 = before.free_bytes.saturating_add(candidate);
        let guess: u64 = if expected < before.total_bytes {
            expected
        } else {
            before.total_bytes
        };
        let after: u64 = match outcome {
            Some(o) => match find_serial(&o.after, volume.serial) {
                Some(k) => o.after[k].free_bytes,
                None => guess,
            },
            None => guess,
        };
        let row = SpaceRow {
            drive: platform::display_path(&volume.root),
            before: human(before.free_bytes),
            after: human(after),
            measured: outcome.is_some(),
            free_before: before.free_bytes,
            free_after: after,
            total: before.total_bytes,
        };
        assert(space_shown(*prepared, choices@, known, i as int, row));
        out.push(row);
        i += 1;
    }
    out
}

/// What is selected in all.
#[derive(Debug)]
pub struct Totals {
    pub size: String,
    pub items: String,
    pub can_delete: bool,
}

/// What is selected in the first `n` targets: space, files, directories.
pub open spec fn space_selected(choices: Seq<TreeSelection>, n: nat) -> nat
    decreases n,
{
    if n == 0 {
        0
    } else {
        space_selected(choices, (n - 1) as nat) + choices[n - 1].sums()[0].allocated
    }
}

pub open spec fn files_selected(choices: Seq<TreeSelection>, n: nat) -> nat
    decreases n,
{
    if n == 0 {
        0
    } else {
        files_selected(choices, (n - 1) as nat) + choices[n - 1].sums()[0].files
    }
}

pub open spec fn dirs_selected(choices: Seq<TreeSelection>, n: nat) -> nat
    decreases n,
{
    if n == 0 {
        0
    } else {
        dirs_selected(choices, (n - 1) as nat) + choices[n - 1].sums()[0].dirs
    }
}

/// The files and directories of the first `n` targets.
pub open spec fn files_marked(prepared: Prepared, n: nat) -> nat
    decreases n,
{
    if n == 0 {
        0
    } else {
        files_marked(prepared, (n - 1) as nat) + prepared.targets@[n
            - 1].tree.nodes@[0].files as nat
    }
}

pub open spec fn dirs_marked(prepared: Prepared, n: nat) -> nat
    decreases n,
{
    if n == 0 {
        0
    } else {
        dirs_marked(prepared, (n - 1) as nat) + prepared.targets@[n - 1].tree.nodes@[0].dirs as nat
    }
}

/// Adds up what is selected and what is marked. Sums that do not fit stay at the greatest
/// number.
pub fn totals(prepared: &Prepared, choices: &[TreeSelection]) -> (r: Totals)
    requires
        prepared.sound(),
        choices_fit(*prepared, choices@),
    ensures
        ({
            let n = choices@.len();
            let files = capped(files_selected(choices@, n));
            let dirs = capped(dirs_selected(choices@, n));
            &&& r.size@ == review::of_text(
                report::human_text(capped(space_selected(choices@, n)) as int),
                report::human_text(prepared.allocated_upper_bound as int),
            )
            &&& r.items@ == "已选 "@ + text::decimal_of(files as nat) + " / "@ + text::decimal_of(
                capped(files_marked(*prepared, n)) as nat,
            ) + " 文件、"@ + text::decimal_of(dirs as nat) + " / "@ + text::decimal_of(
                capped(dirs_marked(*prepared, n)) as nat,
            ) + " 文件夹"@
            &&& r.can_delete == (prepared.deletable() && (files > 0 || dirs > 0))
        }),
{
    let mut bytes: u64 = 0;
    let mut files: u64 = 0;
    let mut dirs: u64 = 0;
    let mut all_files: u64 = 0;
    let mut all_dirs: u64 = 0;
    let mut i: usize = 0;
    while i < choices.len()
        invariant
            i <= choices@.len(),
            prepared.sound(),
            choices_fit(*prepared, choices@),
            bytes == capped(space_selected(choices@, i as nat)),
            files == capped(files_selected(choices@, i as nat)),
            dirs == capped(dirs_selected(choices@, i as nat)),
            all_files == capped(files_marked(*prepared, i as nat)),
            all_dirs == capped(dirs_marked(*prepared, i as nat)),
        decreases choices@.len() - i,
    {
        assert(choices@[i as int].sums().len() > 0);
        assert(crate::deletion::reviewable(prepared.targets@[i as int].tree));
        let t: crate::selection::Tally = choices[i].totals(0);
        bytes = bytes.saturating_add(t.allocated);
        files = files.saturating_add(t.files as u64);
        dirs = dirs.saturating_add(t.dirs as u64);
        let root: model::Node = prepared.targets[i].tree.nodes[0];
        all_files = all_files.saturating_add(root.files as u64);
        all_dirs = all_dirs.saturating_add(root.dirs as u64);
        i += 1;
    }
    let size: String = glue(
        &glue(&human(bytes), " / "),
        &human(prepared.allocated_upper_bound),
    );
    let head: String = glue(&glue(&glue("已选 ", &decimal(files)), " / "), &decimal(all_files));
    let middle: String = glue(&glue(&glue(&head, " 文件、"), &decimal(dirs)), " / ");
    let items: String = glue(&glue(&middle, &decimal(all_dirs)), " 文件夹");
    Totals { size, items, can_delete: prepared.can_delete() && (files > 0 || dirs > 0) }
}

/// Collapsing or paging never changes what a row says of sizes, counts and selection.
pub proof fn law_collapsing_changes_no_totals(s: Scene, t: Scene, key: i32, depth: int)
    requires
        t == (Scene { expanded: t.expanded, ..s }),
    ensures
        review::row_at(s, key, depth).size == review::row_at(t, key, depth).size,
        review::row_at(s, key, depth).files == review::row_at(t, key, depth).files,
        review::row_at(s, key, depth).check_state == review::row_at(t, key, depth).check_state,
{
}

/// The free space that is to be expected on a volume is what is free and what is chosen on
/// it, but no more than the volume has; once measured, it is what was measured.
pub proof fn law_expected_space_is_free_and_chosen(
    prepared: Prepared,
    choices: Seq<TreeSelection>,
    i: int,
    r: SpaceRow,
)
    requires
        space_shown(prepared, choices, None, i, r),
    ensures
        ({
            let v = prepared.volumes@[i];
            let chosen = selected_on(prepared, choices, v.serial, prepared.targets@.len());
            &&& r.free_before == v.free_bytes && r.total == v.total_bytes && !r.measured
            &&& v.free_bytes + chosen <= v.total_bytes ==> r.free_after == v.free_bytes + chosen
            &&& v.free_bytes + chosen > v.total_bytes ==> r.free_after == v.total_bytes
        }),
{
}

/// What is chosen on a volume adds up over its targets, and those of other volumes add
/// nothing.
pub proof fn law_chosen_space_counts_on_its_volume(
    prepared: Prepared,
    choices: Seq<TreeSelection>,
    serial: u32,
    n: nat,
)
    requires
        n < prepared.targets@.len(),
    ensures
        selected_on(prepared, choices, serial, 0) == 0,
        selected_on(prepared, choices, serial, n + 1) == selected_on(prepared, choices, serial, n)
            + (if prepared.targets@[n as int].tree.volume.serial == serial {
            choices[n as int].sums()[0].allocated
        } else {
            0
        }),
        space_selected(choices, n + 1) == space_selected(choices, n)
            + choices[n as int].sums()[0].allocated,
        files_selected(choices, n + 1) == files_selected(choices, n)
            + choices[n as int].sums()[0].files,
        dirs_selected(choices, n + 1) == dirs_selected(choices, n)
            + choices[n as int].sums()[0].dirs,
{
}

/// A volume is found again by its serial number.
pub proof fn law_volumes_are_found_by_serial(v: Seq<VolumeInfo>, serial: u32, from: nat)
    ensures
        with_serial(v, serial, from) matches Some(w) ==> w.serial == serial && exists|i: int|
            from <= i < v.len() && #[trigger] v[i] == w,
        with_serial(v, serial, from) is None <==> forall|i: int|
            from <= i < v.len() ==> (#[trigger] v[i]).serial != serial,
    decreases v.len() - from,
{
    if from < v.len() && v[from as int].serial != serial {
        law_volumes_are_found_by_serial(v, serial, from + 1);
    } else if from < v.len() {
        assert(v[from as int] == v[from as int]);
    }
}

/// Every alert of a group is counted.
pub proof fn law_every_alert_is_counted(prepared: Prepared, targets: Seq<usize>, n: nat)
    requires
        n < targets.len(),
    ensures
        note_sum(prepared, targets, 0) == 0,
        note_sum(prepared, targets, n + 1) == note_sum(prepared, targets, n)
            + prepared.targets@[targets[n as int] as int].target.alerts@.len(),
{
}

/// What is told of a marked entry: its alerts all counted, how grave they are, and of its
/// alerts the first critical one in front; below it, none of that.
pub proof fn law_details_tell_of_the_marked_entry(prepared: Prepared, target: int, node: u32)
    ensures
        ({
            let d = entry_details(prepared, target, node);
            let t = prepared.targets@[target];
            &&& d.path == platform::shown(
                model::words_at(t.tree.root@, t.tree.nodes@, t.tree.names@, node),
            )
            &&& node == 0 ==> d.note_count == t.target.alerts@.len() && d.severity
                == review::weight(t.target.alerts@)
            &&& node != 0 ==> d.note_count == 0 && d.severity == 0 && d.reason.len() == 0
            &&& node == 0 && t.target.reason@.len() > 0 ==> d.reason == "原因："@
                + t.target.reason@
            &&& d.can_unmark
        }),
{
}

/// No more than 32 alerts of a group are shown by themselves, and those that are left are
/// counted in one more line.
pub proof fn law_shown_notes_are_few(prepared: Prepared, targets: Seq<usize>)
    ensures
        shown_notes(prepared, targets).len() <= 33,
        all_notes(prepared, targets).len() <= 32 && all_notes(prepared, targets).len() == note_sum(
            prepared,
            targets,
            targets.len(),
        ) ==> shown_notes(prepared, targets) == all_notes(prepared, targets),
{
}

/// The entries that are marked are counted over all targets.
pub proof fn law_marked_entries_are_counted(prepared: Prepared, n: nat)
    requires
        n < prepared.targets@.len(),
    ensures
        files_marked(prepared, 0) == 0,
        dirs_marked(prepared, 0) == 0,
        files_marked(prepared, n + 1) == files_marked(prepared, n)
            + prepared.targets@[n as int].tree.nodes@[0].files,
        dirs_marked(prepared, n + 1) == dirs_marked(prepared, n)
            + prepared.targets@[n as int].tree.nodes@[0].dirs,
{
}

proof fn lemma_texts_of(alerts: Seq<Alert>, level: Level, n: nat, i: int)
    requires
        n <= alerts.len(),
    ensures
        0 <= i < n && alerts[i].level == level ==> review::texts_of(alerts, level, n).len() > 0,
        review::texts_of(alerts, level, n).len() > 0 ==> exists|k: int|
            0 <= k < n && (#[trigger] alerts[k]).level == level && report::safe_of(alerts[k].text@)
                == review::texts_of(alerts, level, n)[0],
    decreases n,
{
    if n > 0 {
        lemma_texts_of(alerts, level, (n - 1) as nat, i);
        let before = review::texts_of(alerts, level, (n - 1) as nat);
        if before.len() == 0 {
            assert(alerts[n - 1] == alerts[n - 1]);
        } else {
            let k = choose|k: int|
                0 <= k < n - 1 && (#[trigger] alerts[k]).level == level && report::safe_of(
                    alerts[k].text@,
                ) == before[0];
            assert(alerts[k].level == level);
        }
    }
}

proof fn lemma_first_text(
    prepared: Prepared,
    targets: Seq<usize>,
    level: Level,
    from: nat,
    t: int,
    i: int,
)
    requires
        from <= t < targets.len(),
        0 <= i < prepared.targets@[targets[t] as int].target.alerts@.len(),
        prepared.targets@[targets[t] as int].target.alerts@[i].level == level,
    ensures
        first_text(prepared, targets, level, from) is Some,
        exists|u: int, k: int|
            from <= u <= t && 0 <= k < prepared.targets@[targets[u] as int].target.alerts@.len()
                && (#[trigger] prepared.targets@[targets[u] as int].target.alerts@[k]).level
                == level && first_text(prepared, targets, level, from) == Some(
                report::safe_of(prepared.targets@[targets[u] as int].target.alerts@[k].text@),
            ),
    decreases targets.len() - from,
{
    let alerts = prepared.targets@[targets[from as int] as int].target.alerts@;
    let texts = review::texts_of(alerts, level, alerts.len());
    lemma_texts_of(alerts, level, alerts.len(), i);
    if texts.len() > 0 {
        let k = choose|k: int|
            0 <= k < alerts.len() && (#[trigger] alerts[k]).level == level && report::safe_of(
                alerts[k].text@,
            ) == texts[0];
        let u = from as int;
        assert(prepared.targets@[targets[u] as int].target.alerts@[k].level == level);
    } else {
        lemma_first_text(prepared, targets, level, from + 1, t, i);
    }
}

/// Where a target of a group carries a critical alert, what the group shows first is a
/// critical alert of one of its targets.
pub proof fn law_critical_alerts_are_shown_first(
    prepared: Prepared,
    targets: Seq<usize>,
    t: int,
    i: int,
)
    requires
        0 <= t < targets.len(),
        0 <= i < prepared.targets@[targets[t] as int].target.alerts@.len(),
        prepared.targets@[targets[t] as int].target.alerts@[i].level == Level::Critical,
    ensures
        exists|u: int, k: int|
            0 <= u < targets.len() && 0 <= k
                < prepared.targets@[targets[u] as int].target.alerts@.len() && (
            #[trigger] prepared.targets@[targets[u] as int].target.alerts@[k]).level
                == Level::Critical && group_preview(prepared, targets) == report::safe_of(
                prepared.targets@[targets[u] as int].target.alerts@[k].text@,
            ),
{
    lemma_first_text(prepared, targets, Level::Critical, 0, t, i);
    let (u, k) = choose|u: int, k: int|
        0 <= u <= t && 0 <= k < prepared.targets@[targets[u] as int].target.alerts@.len() && (
        #[trigger] prepared.targets@[targets[u] as int].target.alerts@[k]).level == Level::Critical
            && first_text(prepared, targets, Level::Critical, 0) == Some(
            report::safe_of(prepared.targets@[targets[u] as int].target.alerts@[k].text@),
        );
    assert(prepared.targets@[targets[u] as int].target.alerts@[k].level == Level::Critical);
}

} // verus!
