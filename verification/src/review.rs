//! The rows of the review window: the tree of what is marked, the drives, and what is known
//! of a chosen row.
use crate::deletion::Prepared;
use crate::git_audit::GitAudit;
use crate::model;
use crate::model::{Node, Snapshot};
use crate::plan;
use crate::plan::{Alert, Level, Target};
use crate::platform;
use crate::report;
use crate::report::{human, safe_text};
use crate::review_tree;
use crate::review_tree::{Forest, Location};
use crate::selection::{Tally, TreeSelection};
use crate::text;
use crate::text::{decimal, glue};
use crate::tree;
use crate::wide;
use vstd::prelude::*;
use vstd::string::*;

verus! {

/// The weight of notes: 0 = none, 1 = something to look at again, 2 = of high risk.
pub open spec fn weight(alerts: Seq<Alert>) -> i32 {
    match plan::worst(alerts) {
        Some(Level::Critical) => 2,
        Some(Level::Warn) => 1,
        None => 0,
    }
}

pub fn severity_of(target: &Target) -> (r: i32)
    ensures
        r == weight(target.alerts@),
{
    match target.severity() {
        Some(Level::Critical) => 2,
        Some(Level::Warn) => 1,
        None => 0,
    }
}

/// The texts of one weight among the first `n` notes.
pub open spec fn texts_of(alerts: Seq<Alert>, level: Level, n: nat) -> Seq<Seq<char>>
    decreases n,
{
    if n == 0 {
        Seq::empty()
    } else {
        let before = texts_of(alerts, level, (n - 1) as nat);
        if alerts[n - 1].level == level {
            before.push(report::safe_of(alerts[n - 1].text@))
        } else {
            before
        }
    }
}

/// The first of the weightiest notes, and how many lighter ones there are.
pub open spec fn alert_line(alerts: Seq<Alert>) -> Seq<char> {
    match plan::worst(alerts) {
        None => Seq::empty(),
        Some(level) => {
            let texts = texts_of(alerts, level, alerts.len());
            let hidden = alerts.len() - texts.len();
            (if texts.len() == 0 {
                Seq::empty()
            } else {
                texts[0]
            }) + (if hidden > 0 {
                " (+"@ + text::decimal_of(hidden as nat) + ")"@
            } else {
                Seq::empty()
            })
        },
    }
}

fn alert_texts(alerts: &Vec<Alert>, level: Level) -> (r: Vec<String>)
    ensures
        text::views(r@) == texts_of(alerts@, level, alerts@.len()),
        r@.len() <= alerts@.len(),
{
    let mut out: Vec<String> = Vec::new();
    let mut i: usize = 0;
    assert(text::views(out@) =~= texts_of(alerts@, level, 0));
    while i < alerts.len()
        invariant
            i <= alerts@.len(),
            out@.len() <= i,
            text::views(out@) == texts_of(alerts@, level, i as nat),
        decreases alerts@.len() - i,
    {
        if alerts[i].level == level {
            let ghost had = out@;
            let one: String = safe_text(&alerts[i].text);
            out.push(one);
            assert(text::views(out@) =~= text::views(had).push(one@));
        }
        i += 1;
    }
    out
}

/// The note that a row shows of a target.
pub fn alert_text(target: &Target) -> (r: String)
    ensures
        r@ == alert_line(target.alerts@),
{
    let level: Level = match target.severity() {
        None => {
            return String::new();
        },
        Some(level) => level,
    };
    let texts: Vec<String> = alert_texts(&target.alerts, level);
    let hidden: usize = target.alerts.len() - texts.len();
    let mut row: String = String::new();
    if texts.len() > 0 {
        row.append(&texts[0]);
        assert(text::views(texts@)[0] == texts@[0]@);
    }
    let ghost head = row@;
    proof {
        assert(text::views(texts@).len() == texts@.len());
        assert(head =~= if texts@.len() == 0 {
            Seq::<char>::empty()
        } else {
            text::views(texts@)[0]
        });
    }
    if hidden > 0 {
        row.append(" (+");
        row.append(&decimal(hidden as u64));
        row.append(")");
        assert(row@ =~= head + (" (+"@ + text::decimal_of(hidden as nat) + ")"@));
    } else {
        assert(row@ =~= head + Seq::<char>::empty());
    }
    row
}

/// What follows the last dot of a name, all of it if there is no dot.
pub open spec fn after_dot(name: Seq<char>) -> Seq<char>
    decreases name.len(),
{
    if name.len() == 0 {
        name
    } else if name.last() == '.' {
        Seq::empty()
    } else {
        after_dot(name.drop_last()).push(name.last())
    }
}

/// The extension of a name, in small letters.
pub open spec fn extension(name: Seq<char>) -> Seq<char> {
    after_dot(name).map_values(|c: char| text::lower_ascii(c))
}

pub open spec fn is_archive(e: Seq<char>) -> bool {
    e == "zip"@ || e == "7z"@ || e == "rar"@ || e == "tar"@ || e == "gz"@ || e == "bz2"@ || e
        == "xz"@
}

pub open spec fn is_code(e: Seq<char>) -> bool {
    e == "rs"@ || e == "c"@ || e == "h"@ || e == "cpp"@ || e == "hpp"@ || e == "cs"@ || e == "js"@
        || e == "mjs"@ || e == "ts"@ || e == "tsx"@ || e == "jsx"@ || e == "py"@ || e == "go"@ || e
        == "java"@ || e == "swift"@ || e == "html"@ || e == "css"@ || e == "slint"@
}

pub open spec fn is_settings(e: Seq<char>) -> bool {
    e == "json"@ || e == "toml"@ || e == "yaml"@ || e == "yml"@ || e == "xml"@ || e == "ini"@ || e
        == "cfg"@ || e == "lock"@
}

pub open spec fn is_text(e: Seq<char>) -> bool {
    e == "txt"@ || e == "md"@ || e == "log"@ || e == "csv"@ || e == "pdf"@ || e == "doc"@ || e
        == "docx"@
}

pub open spec fn is_image(e: Seq<char>) -> bool {
    e == "png"@ || e == "jpg"@ || e == "jpeg"@ || e == "gif"@ || e == "svg"@ || e == "webp"@ || e
        == "bmp"@ || e == "avif"@
}

pub open spec fn is_video(e: Seq<char>) -> bool {
    e == "mp4"@ || e == "mkv"@ || e == "webm"@ || e == "mov"@ || e == "avi"@
}

pub open spec fn is_audio(e: Seq<char>) -> bool {
    e == "mp3"@ || e == "wav"@ || e == "flac"@ || e == "m4a"@ || e == "ogg"@
}

/// The picture for an entry.
pub open spec fn icon_of(name: Seq<char>, directory: bool, reparse: bool) -> Seq<char> {
    let e = extension(name);
    if reparse {
        "link"@
    } else if directory {
        "folder"@
    } else if is_archive(e) {
        "archive"@
    } else if is_code(e) {
        "code"@
    } else if is_settings(e) {
        "settings"@
    } else if is_text(e) {
        "text"@
    } else if is_image(e) {
        "image"@
    } else if is_video(e) {
        "video"@
    } else if is_audio(e) {
        "audio"@
    } else {
        "file"@
    }
}

proof fn lemma_after_dot(s: Seq<char>, from: int)
    requires
        0 <= from <= s.len(),
        from == 0 || s[from - 1] == '.',
        forall|i: int| from <= i < s.len() ==> s[i] != '.',
    ensures
        after_dot(s) == s.skip(from),
    decreases s.len(),
{
    if s.len() == 0 {
        assert(s.skip(from) =~= s);
    } else if from == s.len() {
        assert(s.last() == '.');
        assert(s.skip(from) =~= Seq::<char>::empty());
    } else {
        assert(s.last() == s[s.len() - 1]);
        lemma_after_dot(s.drop_last(), from);
        assert(s.drop_last().skip(from).push(s.last()) =~= s.skip(from));
    }
}

fn small_extension(name: &str) -> (r: String)
    ensures
        r@ == extension(name@),
{
    let chars: Vec<char> = text::chars_of(name);
    let total: usize = chars.len();
    let mut from: usize = total;
    while from > 0 && chars[from - 1] != '.'
        invariant
            from <= total,
            total == chars@.len(),
            forall|i: int| from <= i < total ==> chars@[i] != '.',
        decreases from,
    {
        from -= 1;
    }
    proof {
        lemma_after_dot(chars@, from as int);
    }
    let ghost tail = chars@.skip(from as int);
    let ghost small = |c: char| text::lower_ascii(c);
    let mut out: String = String::new();
    let mut i: usize = from;
    assert(out@ =~= tail.subrange(0, 0).map_values(small));
    while i < total
        invariant
            from <= i <= total,
            total == chars@.len(),
            tail == chars@.skip(from as int),
            small == (|c: char| text::lower_ascii(c)),
            out@ == tail.subrange(0, i - from).map_values(small),
        decreases total - i,
    {
        out.push(text::to_lower_ascii(chars[i]));
        i += 1;
        assert(out@ =~= tail.subrange(0, i - from).map_values(small));
    }
    assert(tail.subrange(0, total - from) =~= tail);
    out
}

pub fn file_icon(name: &str, directory: bool, reparse: bool) -> (r: &'static str)
    ensures
        r@ == icon_of(name@, directory, reparse),
{
    if reparse {
        return "link";
    }
    if directory {
        return "folder";
    }
    let e: String = small_extension(name);
    if text::same(&e, "zip") || text::same(&e, "7z") || text::same(&e, "rar") || text::same(
        &e,
        "tar",
    ) || text::same(&e, "gz") || text::same(&e, "bz2") || text::same(&e, "xz") {
        return "archive";
    }
    if text::same(&e, "rs") || text::same(&e, "c") || text::same(&e, "h") || text::same(&e, "cpp")
        || text::same(&e, "hpp") || text::same(&e, "cs") || text::same(&e, "js") || text::same(
        &e,
        "mjs",
    ) || text::same(&e, "ts") || text::same(&e, "tsx") || text::same(&e, "jsx") || text::same(
        &e,
        "py",
    ) || text::same(&e, "go") || text::same(&e, "java") || text::same(&e, "swift") || text::same(
        &e,
        "html",
    ) || text::same(&e, "css") || text::same(&e, "slint") {
        return "code";
    }
    if text::same(&e, "json") || text::same(&e, "toml") || text::same(&e, "yaml") || text::same(
        &e,
        "yml",
    ) || text::same(&e, "xml") || text::same(&e, "ini") || text::same(&e, "cfg") || text::same(
        &e,
        "lock",
    ) {
        return "settings";
    }
    if text::same(&e, "txt") || text::same(&e, "md") || text::same(&e, "log") || text::same(
        &e,
        "csv",
    ) || text::same(&e, "pdf") || text::same(&e, "doc") || text::same(&e, "docx") {
        return "text";
    }
    if text::same(&e, "png") || text::same(&e, "jpg") || text::same(&e, "jpeg") || text::same(
        &e,
        "gif",
    ) || text::same(&e, "svg") || text::same(&e, "webp") || text::same(&e, "bmp") || text::same(
        &e,
        "avif",
    ) {
        return "image";
    }
    if text::same(&e, "mp4") || text::same(&e, "mkv") || text::same(&e, "webm") || text::same(
        &e,
        "mov",
    ) || text::same(&e, "avi") {
        return "video";
    }
    if text::same(&e, "mp3") || text::same(&e, "wav") || text::same(&e, "flac") || text::same(
        &e,
        "m4a",
    ) || text::same(&e, "ogg") {
        return "audio";
    }
    "file"
}

/// Whether a repository lies at a path, below it or above it.
pub open spec fn has_git(git: Seq<GitAudit>, path: Seq<char>) -> bool {
    exists|i: int| 0 <= i < git.len() && plan::overlap((#[trigger] git[i]).root@, path)
}

/// Whether one of them needs to be confirmed.
pub open spec fn git_at_risk(git: Seq<GitAudit>, path: Seq<char>) -> bool {
    exists|i: int|
        0 <= i < git.len() && (#[trigger] git[i]).risky() && plan::overlap(git[i].root@, path)
}

/// Whether a repository lies at a path, below it or above it, and whether one of them needs
/// to be confirmed.
pub fn git_near(git: &Vec<GitAudit>, path: &str) -> (r: (bool, bool))
    ensures
        r.0 == has_git(git@, path@),
        r.1 == git_at_risk(git@, path@),
{
    let mut found: bool = false;
    let mut risk: bool = false;
    let mut i: usize = 0;
    while i < git.len()
        invariant
            i <= git@.len(),
            found == (exists|k: int|
                0 <= k < i && plan::overlap((#[trigger] git@[k]).root@, path@)),
            risk == (exists|k: int|
                0 <= k < i && (#[trigger] git@[k]).risky() && plan::overlap(
                    git@[k].root@,
                    path@,
                )),
        decreases git@.len() - i,
    {
        if platform::within(&git[i].root, path) || platform::within(path, &git[i].root) {
            assert(plan::overlap(git@[i as int].root@, path@));
            found = true;
            if git[i].needs_confirmation() {
                risk = true;
            }
        }
        i += 1;
    }
    (found, risk)
}

/// One row of the tree.
#[derive(Debug)]
pub struct TreeRow {
    pub key: i32,
    pub depth: i32,
    pub name: String,
    pub size: String,
    pub files: String,
    pub check_state: i32,
    pub reason: String,
    pub directory: bool,
    pub group: bool,
    pub expandable: bool,
    pub expanded: bool,
    pub more: bool,
    pub warning: bool,
    pub git: bool,
    pub icon: &'static str,
    pub severity: i32,
    pub alert: String,
}

#[verifier::ext_equal]
pub struct TreeRowV {
    pub key: i32,
    pub depth: int,
    pub name: Seq<char>,
    pub size: Seq<char>,
    pub files: Seq<char>,
    pub check_state: int,
    pub reason: Seq<char>,
    pub directory: bool,
    pub group: bool,
    pub expandable: bool,
    pub expanded: bool,
    pub more: bool,
    pub warning: bool,
    pub git: bool,
    pub icon: Seq<char>,
    pub severity: i32,
    pub alert: Seq<char>,
}

impl View for TreeRow {
    type V = TreeRowV;

    open spec fn view(&self) -> TreeRowV {
        TreeRowV {
            key: self.key,
            depth: self.depth as int,
            name: self.name@,
            size: self.size@,
            files: self.files@,
            check_state: self.check_state as int,
            reason: self.reason@,
            directory: self.directory,
            group: self.group,
            expandable: self.expandable,
            expanded: self.expanded,
            more: self.more,
            warning: self.warning,
            git: self.git,
            icon: self.icon@,
            severity: self.severity,
            alert: self.alert@,
        }
    }
}

pub open spec fn tree_row_views(v: Seq<TreeRow>) -> Seq<TreeRowV> {
    v.map_values(|r: TreeRow| r@)
}

/// How many children of a key are shown, if it is expanded.
pub open spec fn limit_of(expanded: Seq<(i32, usize)>, key: i32) -> Option<usize>
    decreases expanded.len(),
{
    if expanded.len() == 0 {
        None
    } else if expanded[0].0 == key {
        Some(expanded[0].1)
    } else {
        limit_of(expanded.skip(1), key)
    }
}

pub fn shown_limit(expanded: &Vec<(i32, usize)>, key: i32) -> (r: Option<usize>)
    ensures
        r == limit_of(expanded@, key),
{
    let mut i: usize = 0;
    assert(expanded@.skip(0) =~= expanded@);
    while i < expanded.len()
        invariant
            i <= expanded@.len(),
            limit_of(expanded@.skip(i as int), key) == limit_of(expanded@, key),
        decreases expanded@.len() - i,
    {
        let (k, n): (i32, usize) = expanded[i];
        assert(expanded@.skip(i as int)[0] == (k, n));
        assert(expanded@.skip(i as int).skip(1) =~= expanded@.skip(i + 1));
        if k == key {
            return Some(n);
        }
        i += 1;
    }
    None
}

/// All that the tree shows.
pub struct Scene<'a> {
    pub prepared: Prepared,
    pub forest: Forest,
    pub trees: Seq<&'a Snapshot>,
    pub choices: Seq<TreeSelection>,
    pub expanded: Seq<(i32, usize)>,
}

/// The trees are those of the targets, and the keys and choices are theirs.
pub open spec fn staged(
    prepared: Prepared,
    forest: Forest,
    trees: Seq<&Snapshot>,
    choices: Seq<TreeSelection>,
) -> bool {
    &&& trees.len() == prepared.targets@.len()
    &&& forall|i: int| 0 <= i < trees.len() ==> *(#[trigger] trees[i]) == prepared.targets@[i].tree
    &&& forest.belongs_to(trees)
    &&& review_tree::listed(forest, trees)
    &&& review_tree::choices_ok(trees, choices)
    &&& forall|g: int|
        0 <= g < forest.groups@.len() ==> review_tree::count_fits(
            review_tree::group_count(
                review_tree::whole(trees),
                (#[trigger] forest.groups@[g]).targets@,
            ),
        )
}

/// The greatest weight among the first `n` targets of a list.
pub open spec fn worst_weight(prepared: Prepared, targets: Seq<usize>, n: nat) -> i32
    decreases n,
{
    if n == 0 {
        0
    } else {
        let before = worst_weight(prepared, targets, (n - 1) as nat);
        let one = weight(prepared.targets@[targets[n - 1] as int].target.alerts@);
        if one > before {
            one
        } else {
            before
        }
    }
}

/// Whether a target of a list has a repository to confirm.
pub open spec fn any_at_risk(prepared: Prepared, targets: Seq<usize>) -> bool {
    exists|i: int|
        0 <= i < targets.len() && git_at_risk(
            prepared.git@,
            prepared.targets@[(#[trigger] targets[i]) as int].target.path.words(),
        )
}

/// Selected and total, as two texts with a stroke between.
pub open spec fn of_text(a: Seq<char>, b: Seq<char>) -> Seq<char> {
    a + " / "@ + b
}

/// What a row says of a group.
pub open spec fn group_row(s: Scene, key: i32, g: int, depth: int) -> TreeRowV {
    let group = s.forest.groups@[g];
    TreeRowV {
        name: report::safe_of(group.name@),
        reason: report::safe_of(
            if group.drive {
                text::decimal_of(group.targets@.len()) + " 个已标记目标"@
            } else {
                Seq::empty()
            },
        ),
        directory: true,
        group: true,
        expandable: group.children@.len() > 0,
        icon: if group.drive {
            "drive"@
        } else {
            "group-folder"@
        },
        warning: any_at_risk(s.prepared, group.targets@),
        git: false,
        severity: worst_weight(s.prepared, group.targets@, group.targets@.len()),
        alert: Seq::empty(),
        ..counted_row(s, key, depth)
    }
}

/// What a row says of an entry.
pub open spec fn entry_row(s: Scene, key: i32, target: int, node: u32, depth: int) -> TreeRowV {
    let t = s.prepared.targets@[target];
    let n = t.tree.nodes@[node as int];
    let name = if node == 0 {
        text::utf16_text(wide::file_name_of(t.target.path@))
    } else {
        model::name_at(t.tree.nodes@, t.tree.names@, node as int)
    };
    TreeRowV {
        name: report::safe_of(name),
        reason: report::safe_of(
            if node == 0 {
                t.target.reason@
            } else if n.reparse() {
                "重解析点 · 不跟随"@
            } else {
                Seq::empty()
            },
        ),
        directory: n.dir(),
        group: false,
        expandable: n.first_child != model::NONE,
        icon: icon_of(name, n.dir(), n.reparse()),
        warning: node == 0 && git_at_risk(s.prepared.git@, t.target.path.words()),
        git: node == 0 && has_git(s.prepared.git@, t.target.path.words()),
        severity: if node == 0 {
            weight(t.target.alerts@)
        } else {
            0
        },
        alert: if node == 0 {
            alert_line(t.target.alerts@)
        } else {
            Seq::empty()
        },
        ..counted_row(s, key, depth)
    }
}

/// 0 = nothing is selected, 2 = everything, 1 = some.
pub open spec fn state_of(s: Scene, key: i32) -> int {
    let (selected, total) = review_tree::tallied(s.forest, s.trees, s.choices, key as int);
    if selected.items() == 0 {
        0
    } else if selected.items() == total.items() {
        2
    } else {
        1
    }
}

/// What a row says of how much is selected.
pub open spec fn counted_row(s: Scene, key: i32, depth: int) -> TreeRowV {
    let (selected, total) = review_tree::tallied(s.forest, s.trees, s.choices, key as int);
    TreeRowV {
        key,
        depth,
        name: Seq::empty(),
        size: of_text(
            report::human_text(selected.allocated as int),
            report::human_text(total.allocated as int),
        ),
        files: of_text(text::decimal_of(selected.files), text::decimal_of(total.files)),
        check_state: state_of(s, key),
        reason: Seq::empty(),
        directory: false,
        group: false,
        expandable: false,
        expanded: limit_of(s.expanded, key) is Some,
        more: false,
        warning: false,
        git: false,
        icon: Seq::empty(),
        severity: 0,
        alert: Seq::empty(),
    }
}

/// The row that shows more children.
pub open spec fn more_row(key: i32, depth: int, left: nat) -> TreeRowV {
    TreeRowV {
        key,
        depth,
        name: "再显示 "@ + text::decimal_of(review_tree::PAGE_SIZE as nat) + " 项 · 还有 "@
            + text::decimal_of(left) + " 项"@,
        size: ""@,
        files: ""@,
        check_state: 0,
        reason: "折叠 / 分页不影响勾选范围"@,
        directory: false,
        group: false,
        expandable: false,
        expanded: false,
        more: true,
        warning: false,
        git: false,
        icon: "add"@,
        severity: 0,
        alert: ""@,
    }
}

/// The row of a key.
pub open spec fn row_at(s: Scene, key: i32, depth: int) -> TreeRowV {
    match s.forest.place(key as int) {
        Some(Location::Group(g)) => group_row(s, key, g as int, depth),
        Some(Location::Entry { target, node }) => entry_row(s, key, target as int, node, depth),
        None => counted_row(s, key, depth),
    }
}

/// How many children of a list are shown.
pub open spec fn shown_count(len: nat, limit: usize) -> nat {
    if len > limit {
        limit as nat
    } else {
        len
    }
}

/// The rows of a key and of what is expanded below it, down to `fuel` levels.
pub open spec fn rows_at(s: Scene, key: i32, depth: int, fuel: nat) -> Seq<TreeRowV>
    decreases fuel, 0nat,
{
    if fuel == 0 || s.forest.place(key as int) is None {
        Seq::empty()
    } else {
        seq![row_at(s, key, depth)] + match limit_of(s.expanded, key) {
            None => Seq::empty(),
            Some(limit) => {
                let kids = review_tree::display_keys(s.forest, s.trees, key as int);
                rows_of(
                    s,
                    kids,
                    shown_count(kids.len(), limit),
                    depth + 1,
                    (fuel - 1) as nat,
                ) + if kids.len() > limit {
                    seq![more_row(key, depth + 1, (kids.len() - limit) as nat)]
                } else {
                    Seq::empty()
                }
            },
        }
    }
}

/// The rows of the first `n` keys of a list and of what is expanded below them.
pub open spec fn rows_of(s: Scene, keys: Seq<i32>, n: nat, depth: int, fuel: nat) -> Seq<TreeRowV>
    decreases fuel, n,
{
    if n == 0 {
        Seq::empty()
    } else {
        rows_of(s, keys, (n - 1) as nat, depth, fuel) + rows_at(s, keys[n - 1], depth, fuel)
    }
}

/// As many levels as there are keys.
pub open spec fn levels(forest: Forest) -> nat {
    let n = forest.entry_count as nat + forest.groups@.len();
    if n < i32::MAX {
        n
    } else {
        i32::MAX as nat
    }
}

/// The rows of the whole tree.
pub open spec fn tree_rows(s: Scene) -> Seq<TreeRowV> {
    rows_of(s, s.forest.roots@, s.forest.roots@.len(), 0, levels(s.forest))
}

/// What is still to be shown.
enum Work {
    /// A key, and so many levels of what is expanded below it.
    Node { key: i32, depth: i32, fuel: usize },
    /// The row that offers more children of a key.
    More { key: i32, depth: i32, left: usize },
}

impl Work {
    /// The levels below fit.
    spec fn fits(self) -> bool {
        match self {
            Work::Node { key, depth, fuel } => depth >= 0 && depth + fuel <= i32::MAX,
            Work::More { key, depth, left } => true,
        }
    }

    /// The rows that come of it.
    spec fn rows(self, s: Scene) -> Seq<TreeRowV> {
        match self {
            Work::Node { key, depth, fuel } => rows_at(s, key, depth as int, fuel as nat),
            Work::More { key, depth, left } => seq![more_row(key, depth as int, left as nat)],
        }
    }
}

spec fn bounded(stack: Seq<Work>) -> bool {
    forall|i: int| 0 <= i < stack.len() ==> (#[trigger] stack[i]).fits()
}

/// The rows that come of a stack, the last piece of work first.
spec fn stack_rows(s: Scene, stack: Seq<Work>) -> Seq<TreeRowV>
    decreases stack.len(),
{
    if stack.len() == 0 {
        Seq::empty()
    } else {
        stack.last().rows(s) + stack_rows(s, stack.drop_last())
    }
}

/// What the tree shows, as it is at hand.
struct Rows<'a> {
    prepared: &'a Prepared,
    forest: &'a Forest,
    trees: &'a [&'a Snapshot],
    choices: &'a [TreeSelection],
    expanded: &'a Vec<(i32, usize)>,
}

impl<'a> Rows<'a> {
    spec fn scene(&self) -> Scene<'a> {
        Scene {
            prepared: *self.prepared,
            forest: *self.forest,
            trees: self.trees@,
            choices: self.choices@,
            expanded: self.expanded@,
        }
    }

    spec fn ready(&self) -> bool {
        staged(*self.prepared, *self.forest, self.trees@, self.choices@)
    }

    fn weight_among(&self, targets: &Vec<usize>) -> (r: i32)
        requires
            forall|i: int|
                0 <= i < targets@.len() ==> (#[trigger] targets@[i])
                    < self.prepared.targets@.len(),
        ensures
            r == worst_weight(*self.prepared, targets@, targets@.len()),
    {
        let mut most: i32 = 0;
        let mut i: usize = 0;
        while i < targets.len()
            invariant
                i <= targets@.len(),
                forall|i: int|
                    0 <= i < targets@.len() ==> (#[trigger] targets@[i])
                        < self.prepared.targets@.len(),
                most == worst_weight(*self.prepared, targets@, i as nat),
            decreases targets@.len() - i,
        {
            let one: i32 = severity_of(&self.prepared.targets[targets[i]].target);
            if one > most {
                most = one;
            }
            i += 1;
        }
        most
    }

    fn risk_among(&self, targets: &Vec<usize>) -> (r: bool)
        requires
            forall|i: int|
                0 <= i < targets@.len() ==> (#[trigger] targets@[i])
                    < self.prepared.targets@.len(),
        ensures
            r == any_at_risk(*self.prepared, targets@),
    {
        let mut i: usize = 0;
        while i < targets.len()
            invariant
                i <= targets@.len(),
                forall|i: int|
                    0 <= i < targets@.len() ==> (#[trigger] targets@[i])
                        < self.prepared.targets@.len(),
                forall|k: int|
                    0 <= k < i ==> !git_at_risk(
                        self.prepared.git@,
                        self.prepared.targets@[(#[trigger] targets@[k]) as int].target.path.words(),
                    ),
            decreases targets@.len() - i,
        {
            let t: usize = targets[i];
            let (_, risk): (bool, bool) = git_near(
                &self.prepared.git,
                &self.prepared.targets[t].target.path.to_text(),
            );
            if risk {
                assert(targets@[i as int] == t);
                return true;
            }
            i += 1;
        }
        false
    }

    fn counts(&self, key: i32, depth: i32) -> (r: TreeRow)
        requires
            self.ready(),
            self.forest.place(key as int) is Some,
        ensures
            r@.key == key,
            r@.depth == depth,
            r@.size == counted_row(self.scene(), key, depth as int).size,
            r@.files == counted_row(self.scene(), key, depth as int).files,
            r@.check_state == state_of(self.scene(), key),
            r@.expanded == (limit_of(self.expanded@, key) is Some),
            !r@.more,
    {
        let (selected, total): (Tally, Tally) = self.forest.tally(self.trees, self.choices, key);
        let state: i32 = self.forest.check_state(self.trees, self.choices, key);
        let size: String = glue(
            &glue(&human(selected.allocated), " / "),
            &human(total.allocated),
        );
        let files: String = glue(
            &glue(&decimal(selected.files as u64), " / "),
            &decimal(total.files as u64),
        );
        TreeRow {
            key,
            depth,
            name: String::new(),
            size,
            files,
            check_state: state,
            reason: String::new(),
            directory: false,
            group: false,
            expandable: false,
            expanded: shown_limit(self.expanded, key).is_some(),
            more: false,
            warning: false,
            git: false,
            icon: "",
            severity: 0,
            alert: String::new(),
        }
    }

    fn of_group(&self, key: i32, g: usize, depth: i32) -> (r: TreeRow)
        requires
            self.ready(),
            self.forest.place(key as int) == Some(Location::Group(g)),
            g < self.forest.groups@.len(),
        ensures
            r@ == group_row(self.scene(), key, g as int, depth as int),
    {
        let group: &review_tree::Group = &self.forest.groups[g];
        proof {
            assert forall|i: int| 0 <= i < group.targets@.len() implies (
            #[trigger] group.targets@[i]) < self.prepared.targets@.len() by {
                assert(self.forest.groups@[g as int].targets@[i] < self.trees@.len());
            }
        }
        let mut row: TreeRow = self.counts(key, depth);
        row.name = safe_text(&group.name);
        let count: String = glue(&decimal(group.targets.len() as u64), " 个已标记目标");
        row.reason = if group.drive {
            safe_text(&count)
        } else {
            safe_text("")
        };
        proof {
            reveal_strlit("");
            assert(""@ =~= Seq::<char>::empty());
        }
        row.directory = true;
        row.group = true;
        row.expandable = group.children.len() > 0;
        row.icon = if group.drive {
            "drive"
        } else {
            "group-folder"
        };
        row.warning = self.risk_among(&group.targets);
        row.git = false;
        row.severity = self.weight_among(&group.targets);
        row.alert = String::new();
        row
    }

    fn of_entry(&self, key: i32, target: usize, node: u32, depth: i32) -> (r: TreeRow)
        requires
            self.ready(),
            self.forest.place(key as int) == Some(Location::Entry { target, node }),
            target < self.prepared.targets@.len(),
            node < self.prepared.targets@[target as int].tree.nodes@.len(),
        ensures
            r@ == entry_row(self.scene(), key, target as int, node, depth as int),
    {
        let tree: &Snapshot = &self.prepared.targets[target].tree;
        let mark: &Target = &self.prepared.targets[target].target;
        proof {
            assert(*self.trees@[target as int] == *tree);
            assert(tree::linked(self.trees@[target as int].nodes@));
        }
        let n: Node = tree.nodes[node as usize];
        let name: String = if node == 0 {
            text::from_utf16(&wide::file_name(&mark.path.units))
        } else {
            tree.name(node)
        };
        let (near, risk): (bool, bool) = git_near(&self.prepared.git, &mark.path.to_text());
        let mut row: TreeRow = self.counts(key, depth);
        proof {
            reveal_strlit("");
            assert(""@ =~= Seq::<char>::empty());
        }
        row.reason = if node == 0 {
            safe_text(&mark.reason)
        } else if n.is_reparse() {
            safe_text("重解析点 · 不跟随")
        } else {
            safe_text("")
        };
        row.directory = n.is_dir();
        row.group = false;
        row.expandable = n.first_child != model::NONE;
        row.icon = file_icon(&name, n.is_dir(), n.is_reparse());
        row.name = safe_text(&name);
        row.warning = node == 0 && risk;
        row.git = node == 0 && near;
        row.severity = if node == 0 {
            severity_of(mark)
        } else {
            0
        };
        row.alert = if node == 0 {
            alert_text(mark)
        } else {
            String::new()
        };
        row
    }

    fn of_more(&self, key: i32, depth: i32, left: usize) -> (r: TreeRow)
        ensures
            r@ == more_row(key, depth as int, left as nat),
    {
        let head: String = glue(
            &glue("再显示 ", &decimal(review_tree::PAGE_SIZE as u64)),
            " 项 · 还有 ",
        );
        let name: String = glue(&glue(&head, &decimal(left as u64)), " 项");
        TreeRow {
            key,
            depth,
            name,
            size: "".to_owned(),
            files: "".to_owned(),
            check_state: 0,
            reason: "折叠 / 分页不影响勾选范围".to_owned(),
            directory: false,
            group: false,
            expandable: false,
            expanded: false,
            more: true,
            warning: false,
            git: false,
            icon: "add",
            severity: 0,
            alert: "".to_owned(),
        }
    }

    /// Puts the first `n` keys of a list on the stack, so that the first is taken first.
    fn stack_keys(&self, stack: &mut Vec<Work>, keys: &Vec<i32>, n: usize, depth: i32, fuel: usize)
        requires
            depth >= 0,
            depth + fuel <= i32::MAX,
            n <= keys@.len(),
            bounded(old(stack)@),
        ensures
            bounded(final(stack)@),
            stack_rows(self.scene(), final(stack)@) == rows_of(
                self.scene(),
                keys@,
                n as nat,
                depth as int,
                fuel as nat,
            ) + stack_rows(self.scene(), old(stack)@),
    {
        let ghost s = self.scene();
        let ghost base = stack_rows(s, stack@);
        let ghost all = rows_of(s, keys@, n as nat, depth as int, fuel as nat);
        let mut k: usize = n;
        while k > 0
            invariant
                k <= n <= keys@.len(),
                depth >= 0,
                depth + fuel <= i32::MAX,
                bounded(stack@),
                s == self.scene(),
                rows_of(s, keys@, k as nat, depth as int, fuel as nat) + stack_rows(s, stack@)
                    == all + base,
            decreases k,
        {
            let ghost had = stack@;
            k -= 1;
            stack.push(Work::Node { key: keys[k], depth, fuel });
            proof {
                let fore = rows_of(s, keys@, k as nat, depth as int, fuel as nat);
                let next = rows_at(s, keys@[k as int], depth as int, fuel as nat);
                assert(stack@.drop_last() =~= had);
                assert(stack_rows(s, stack@) == next + stack_rows(s, had));
                assert(fore + (next + stack_rows(s, had)) =~= (fore + next) + stack_rows(s, had));
            }
        }
        assert(Seq::<TreeRowV>::empty() + stack_rows(s, stack@) =~= stack_rows(s, stack@));
    }

    /// The row of a key, if the key stands for something.
    fn row(&self, key: i32, depth: i32) -> (r: Option<TreeRow>)
        requires
            self.ready(),
        ensures
            match r {
                Some(row) => self.scene().forest.place(key as int) is Some && row@ == row_at(
                    self.scene(),
                    key,
                    depth as int,
                ),
                None => self.scene().forest.place(key as int) is None,
            },
    {
        match self.forest.locate(key) {
            None => None,
            Some(Location::Group(g)) => Some(self.of_group(key, g, depth)),
            Some(Location::Entry { target, node }) => {
                proof {
                    self.forest.lemma_entry(self.trees@, target as int);
                    assert(*self.trees@[target as int] == self.prepared.targets@[target as int].tree);
                }
                Some(self.of_entry(key, target, node, depth))
            },
        }
    }

    /// Takes one piece of work off the stack.
    fn step(&self, out: &mut Vec<TreeRow>, stack: &mut Vec<Work>)
        requires
            self.ready(),
            bounded(old(stack)@),
            old(stack)@.len() > 0,
        ensures
            bounded(final(stack)@),
            tree_row_views(final(out)@) + stack_rows(self.scene(), final(stack)@)
                == tree_row_views(old(out)@) + stack_rows(self.scene(), old(stack)@),
            final(out)@.len() > old(out)@.len() || final(out)@.len() == old(out)@.len()
                && final(stack)@.len() < old(stack)@.len(),
    {
        let ghost s = self.scene();
        let ghost had = tree_row_views(out@);
        let ghost top = stack@.last();
        let ghost rest = stack@.drop_last();
        let ghost base = stack_rows(s, rest);
        proof {
            assert(bounded(rest)) by {
                assert forall|i: int| 0 <= i < rest.len() implies (#[trigger] rest[i]).fits() by {
                    assert(rest[i] == stack@[i]);
                }
            }
            assert(stack@[stack@.len() - 1].fits());
        }
        let work: Work = match stack.pop() {
            Some(w) => w,
            None => {
                return;
            },
        };
        match work {
            Work::More { key, depth, left } => {
                let row: TreeRow = self.of_more(key, depth, left);
                out.push(row);
                assert(tree_row_views(out@) =~= had.push(row@));
                assert(tree_row_views(out@) + base =~= had + (seq![row@] + base));
            },
            Work::Node { key, depth, fuel } => {
                let ghost none = Seq::<TreeRowV>::empty();
                if fuel == 0 {
                    assert(had + base =~= had + (none + base));
                    return;
                }
                match self.row(key, depth) {
                    None => {
                        assert(had + base =~= had + (none + base));
                    },
                    Some(row) => {
                        out.push(row);
                        assert(tree_row_views(out@) =~= had.push(row@));
                        match shown_limit(self.expanded, key) {
                            None => {
                                assert(tree_row_views(out@) + base =~= had + ((seq![row@] + none)
                                    + base));
                            },
                            Some(limit) => {
                                let kids: Vec<i32> = self.forest.children(self.trees, key);
                                let n: usize = if kids.len() > limit {
                                    limit
                                } else {
                                    kids.len()
                                };
                                let ghost mut tail = none;
                                if kids.len() > limit {
                                    let left: usize = kids.len() - limit;
                                    stack.push(Work::More { key, depth: depth + 1, left });
                                    proof {
                                        assert(stack@.drop_last() =~= rest);
                                        tail = seq![more_row(key, depth + 1, left as nat)];
                                    }
                                } else {
                                    assert(base =~= none + base);
                                }
                                assert(stack_rows(s, stack@) == tail + base);
                                self.stack_keys(stack, &kids, n, depth + 1, fuel - 1);
                                let ghost listed = rows_of(
                                    s,
                                    kids@,
                                    n as nat,
                                    depth + 1,
                                    (fuel - 1) as nat,
                                );
                                assert(tree_row_views(out@) + (listed + (tail + base)) =~= had + ((
                                seq![row@] + (listed + tail)) + base));
                            },
                        }
                    },
                }
            },
        }
    }
}

/// The rows of the tree: every drive, and below what is expanded its children, the larger
/// first, as many as are asked for.
pub fn make_rows(
    prepared: &Prepared,
    forest: &Forest,
    trees: &[&Snapshot],
    choices: &[TreeSelection],
    expanded: &Vec<(i32, usize)>,
) -> (r: Vec<TreeRow>)
    requires
        staged(*prepared, *forest, trees@, choices@),
    ensures
        tree_row_views(r@) == tree_rows(
            (Scene {
                prepared: *prepared,
                forest: *forest,
                trees: trees@,
                choices: choices@,
                expanded: expanded@,
            }),
        ),
{
    let rows = Rows { prepared, forest, trees, choices, expanded };
    let mut out: Vec<TreeRow> = Vec::new();
    let many: u64 = forest.entry_count as u64 + forest.groups.len() as u64;
    let fuel: usize = if many < 0x7fff_ffff {
        many as usize
    } else {
        0x7fff_ffff
    };
    let ghost want = tree_rows(rows.scene());
    let mut stack: Vec<Work> = Vec::new();
    rows.stack_keys(&mut stack, &forest.roots, forest.roots.len(), 0, fuel);
    assert(stack_rows(rows.scene(), stack@) =~= want);
    assert(tree_row_views(out@) + want =~= want);
    while stack.len() > 0
        invariant
            rows.ready(),
            bounded(stack@),
            want == tree_rows(rows.scene()),
            tree_row_views(out@) + stack_rows(rows.scene(), stack@) == want,
        decreases want.len() - out@.len(), stack@.len(),
    {
        rows.step(&mut out, &mut stack);
        assert(tree_row_views(out@).len() <= want.len());
    }
    assert(tree_row_views(out@) =~= want);
    out
}

/// How grave the alerts of a target are: two if one is critical, else one if there is any,
/// else none.
pub proof fn law_the_gravest_alert_shows(alerts: Seq<Alert>, i: int)
    ensures
        alerts.len() == 0 ==> weight(alerts) == 0,
        0 <= i < alerts.len() && alerts[i].level is Critical ==> weight(alerts) == 2,
        0 <= i < alerts.len() ==> weight(alerts) >= 1,
        weight(alerts) == 2 ==> exists|k: int|
            0 <= k < alerts.len() && (#[trigger] alerts[k]).level is Critical,
{
    if 0 <= i < alerts.len() {
        plan::law_the_worst_alert_counts(alerts, i);
    }
}

/// The gravity of a group is that of its gravest target.
pub proof fn law_groups_are_as_grave_as_their_gravest(
    prepared: Prepared,
    targets: Seq<usize>,
    n: nat,
    i: int,
)
    requires
        0 <= i < n <= targets.len(),
    ensures
        worst_weight(prepared, targets, n) >= weight(
            prepared.targets@[targets[i] as int].target.alerts@,
        ),
        worst_weight(prepared, targets, n) > 0 ==> exists|k: int|
            0 <= k < n && weight(
                prepared.targets@[(#[trigger] targets[k]) as int].target.alerts@,
            ) == worst_weight(prepared, targets, n),
    decreases n,
{
    reveal_with_fuel(worst_weight, 2);
    let m = (n - 1) as nat;
    let own = weight(prepared.targets@[targets[m as int] as int].target.alerts@);
    let before = worst_weight(prepared, targets, m);
    if m > 0 {
        law_groups_are_as_grave_as_their_gravest(
            prepared,
            targets,
            m,
            if i < m {
                i
            } else {
                0
            },
        );
        if before > 0 {
            let k = choose|k: int|
                0 <= k < m && weight(
                    prepared.targets@[(#[trigger] targets[k]) as int].target.alerts@,
                ) == before;
            assert(0 <= k < n && targets[k] == targets[k]);
        }
    }
    assert(targets[m as int] == targets[m as int]);
}

proof fn lemma_behind_dot(name: Seq<char>)
    ensures
        ({
            let e = after_dot(name);
            &&& e.len() <= name.len()
            &&& forall|i: int| 0 <= i < e.len() ==> #[trigger] e[i] != '.'
            &&& forall|i: int|
                0 <= i < e.len() ==> #[trigger] e[i] == name[name.len() - e.len() + i]
            &&& e.len() < name.len() ==> name[name.len() - e.len() - 1] == '.'
        }),
    decreases name.len(),
{
    if name.len() > 0 && name.last() != '.' {
        lemma_behind_dot(name.drop_last());
    }
}

/// The extension of a name is what stands behind its last dot, whatever the case of its
/// letters; without a dot it is the whole name.
pub proof fn law_extensions_stand_behind_the_last_dot(name: Seq<char>)
    ensures
        ({
            let e = extension(name);
            &&& e.len() <= name.len()
            &&& forall|k: int| name.len() - e.len() <= k < name.len() ==> #[trigger] name[k] != '.'
            &&& e.len() < name.len() ==> name[name.len() - e.len() - 1] == '.'
            &&& forall|i: int|
                0 <= i < e.len() ==> #[trigger] e[i] == text::lower_ascii(
                    name[name.len() - e.len() + i],
                )
        }),
{
    lemma_behind_dot(name);
    let e = after_dot(name);
    assert forall|k: int| name.len() - e.len() <= k < name.len() implies #[trigger] name[k]
        != '.' by {
        assert(e[k - (name.len() - e.len())] != '.');
    }
}

/// What leads elsewhere is shown as a link, any other directory as a folder, and a file by
/// its extension.
pub proof fn law_icons_tell_the_kind(name: Seq<char>, directory: bool, reparse: bool)
    ensures
        reparse ==> icon_of(name, directory, reparse) == "link"@,
        directory && !reparse ==> icon_of(name, directory, reparse) == "folder"@,
        !directory && !reparse && (extension(name) == "zip"@ || extension(name) == "7z"@ || extension(
            name,
        ) == "rar"@) ==> icon_of(name, directory, reparse) == "archive"@,
{
}

/// A target is shown as at risk exactly if a repository that is not wholly covered lies at,
/// above or below it.
pub proof fn law_risk_is_shown_where_it_is(git: Seq<GitAudit>, path: Seq<char>)
    ensures
        !git_at_risk(git, path) <==> forall|i: int|
            0 <= i < git.len() && plan::overlap((#[trigger] git[i]).root@, path)
                ==> git[i].all_content_synced && git[i].risks@.len() == 0,
        git_at_risk(git, path) ==> has_git(git, path),
{
}

/// A row tells what is chosen of what is there: nothing, all or a part of the entries.
pub proof fn law_rows_tell_what_is_chosen(s: Scene, key: i32, depth: int)
    ensures
        ({
            let r = row_at(s, key, depth);
            let (selected, total) = review_tree::tallied(s.forest, s.trees, s.choices, key as int);
            let n = selected.files + selected.dirs;
            let all = total.files + total.dirs;
            &&& r.check_state == 0 <==> n == 0
            &&& r.check_state == 2 <==> n > 0 && n == all
            &&& r.check_state == 1 <==> n > 0 && n != all
            &&& r.size == report::human_text(selected.allocated as int) + " / "@
                + report::human_text(total.allocated as int)
            &&& r.files == text::decimal_of(selected.files) + " / "@ + text::decimal_of(total.files)
            &&& r.key == key && r.depth == depth
        }),
{
}

/// A row of an entry tells what the scan found: its kind, and whether it can be opened; its
/// reason, its alerts and its repositories stand at the marked entry itself.
pub proof fn law_rows_tell_their_entry(s: Scene, key: i32, target: int, node: u32, depth: int)
    ensures
        ({
            let r = entry_row(s, key, target, node, depth);
            let t = s.prepared.targets@[target];
            let n = t.tree.nodes@[node as int];
            &&& r.directory == (n.flags & 1 != 0)
            &&& !r.group && !r.more
            &&& r.expandable == (n.first_child != 0xffff_ffff)
            &&& n.flags & 2 != 0 ==> r.icon == "link"@
            &&& node == 0 ==> r.reason == report::safe_of(t.target.reason@) && r.warning
                == git_at_risk(s.prepared.git@, t.target.path.words()) && r.git == has_git(
                s.prepared.git@,
                t.target.path.words(),
            ) && r.severity == weight(t.target.alerts@)
            &&& node != 0 ==> !r.warning && !r.git && r.severity == 0 && r.name == report::safe_of(
                model::name_at(t.tree.nodes@, t.tree.names@, node as int),
            )
        }),
{
}

/// A page shows as many entries as asked for, or all if there are no more.
pub proof fn law_pages_show_what_is_there(len: nat, limit: usize)
    ensures
        shown_count(len, limit) <= len,
        shown_count(len, limit) <= limit,
        shown_count(len, limit) == len || shown_count(len, limit) == limit,
{
}

/// A row is open with the limit that was set for it last in front.
pub proof fn law_open_rows_are_known_by_key(expanded: Seq<(i32, usize)>, key: i32)
    ensures
        limit_of(expanded, key) is None <==> forall|i: int|
            0 <= i < expanded.len() ==> (#[trigger] expanded[i]).0 != key,
        limit_of(expanded, key) matches Some(n) ==> expanded.contains((key, n)),
    decreases expanded.len(),
{
    if expanded.len() > 0 {
        let rest = expanded.skip(1);
        law_open_rows_are_known_by_key(rest, key);
        if expanded[0].0 == key {
            assert(expanded[0] == (key, expanded[0].1));
        } else {
            if limit_of(rest, key) is Some {
                let i = rest.index_of((key, limit_of(rest, key)->0));
                assert(expanded[i + 1] == rest[i]);
            }
            if limit_of(rest, key) is None {
                assert forall|i: int| 0 <= i < expanded.len() implies (#[trigger] expanded[i]).0
                    != key by {
                    if i > 0 {
                        assert(rest[i - 1].0 != key);
                    }
                }
            } else {
                let i = rest.index_of((key, limit_of(rest, key)->0));
                assert(expanded[i + 1].0 == key);
            }
        }
    }
}

} // verus!
