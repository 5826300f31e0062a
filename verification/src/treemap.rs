//! A bounded view of a snapshot: exact subtree totals, and folded remainder rows.
use crate::links;
use crate::model;
use crate::model::{
    latest_known, oldest_known, FindError, Node, ScanStats, Snapshot, DIR, INCOMPLETE,
    MTIME_UNKNOWN, UNKNOWN_MTIME, VIRTUAL,
};
use crate::order;
use crate::platform;
use crate::platform::VolumeInfo;
use crate::report;
use crate::rollup;
use crate::text;
use crate::tree;
use crate::tree::Count;
use vstd::prelude::*;
use vstd::relations::*;
use vstd::string::*;

verus! {

/// What a size is measured by.
#[derive(Clone, Copy, Debug, PartialEq, Eq, Structural)]
pub enum Metric {
    Allocated,
    Logical,
}

/// How much of a snapshot a view shows.
#[derive(Clone, Copy, Debug)]
pub struct ViewOptions {
    pub depth: usize,
    pub top: usize,
    pub min_bytes: u64,
    pub max_lines: usize,
    pub metric: Metric,
    pub git: bool,
    pub ascii: bool,
}

impl Default for ViewOptions {
    fn default() -> (r: Self)
        ensures
            r == (ViewOptions {
                depth: 3,
                top: 8,
                min_bytes: 67108864,
                max_lines: 80,
                metric: Metric::Allocated,
                git: true,
                ascii: false,
            }),
    {
        ViewOptions {
            depth: 3,
            top: 8,
            min_bytes: 67108864,
            max_lines: 80,
            metric: Metric::Allocated,
            git: true,
            ascii: false,
        }
    }
}

/// What a row stands for.
#[derive(Clone, Copy, Debug, PartialEq, Eq, Structural)]
pub enum RowKind {
    Directory,
    File,
    /// Entries of one directory that are shown as one.
    Folded,
}

impl RowKind {
    pub open spec fn word(self) -> Seq<char> {
        match self {
            RowKind::Directory => "directory"@,
            RowKind::File => "file"@,
            RowKind::Folded => "folded"@,
        }
    }

    pub fn label(&self) -> (r: &'static str)
        ensures
            r@ == self.word(),
    {
        match self {
            RowKind::Directory => "directory",
            RowKind::File => "file",
            RowKind::Folded => "folded",
        }
    }

    /// What the times of such a row mean.
    pub open spec fn meaning(self) -> Seq<char> {
        match self {
            RowKind::Directory => "latest_descendant_file_last_write"@,
            RowKind::File => "file_last_write"@,
            RowKind::Folded => "latest_folded_file_last_write"@,
        }
    }

    pub fn modified_semantics(&self) -> (r: &'static str)
        ensures
            r@ == self.meaning(),
    {
        match self {
            RowKind::Directory => "latest_descendant_file_last_write",
            RowKind::File => "file_last_write",
            RowKind::Folded => "latest_folded_file_last_write",
        }
    }
}

/// One line of a view.
#[derive(Debug)]
pub struct Row {
    pub depth: usize,
    pub kind: RowKind,
    pub name: String,
    pub path: Option<String>,
    pub logical_bytes: u64,
    pub allocated_bytes: u64,
    pub files: u64,
    pub dirs: u64,
    /// The time that stands for the row: the latest.
    pub modified_utc: Option<String>,
    pub oldest_modified_utc: Option<String>,
    pub latest_modified_utc: Option<String>,
    pub oldest_modified_unix_ms: Option<i64>,
    pub latest_modified_unix_ms: Option<i64>,
    pub modified_complete: bool,
    pub modified_semantics: &'static str,
    /// The row's size, of which `share_whole` is the size of the scope.
    pub share_part: u64,
    pub share_whole: u64,
    pub folded_children: usize,
    pub flags: Vec<String>,
    pub git: Option<String>,
}

/// A row as a reader understands it.
pub struct Line {
    pub depth: nat,
    pub kind: RowKind,
    pub name: Seq<char>,
    pub path: Option<Seq<char>>,
    pub sum: Count,
    pub oldest: i64,
    pub latest: i64,
    pub complete: bool,
    pub part: nat,
    pub whole: nat,
    pub folded: nat,
    pub bits: u16,
}

pub open spec fn known(ms: i64) -> Option<i64> {
    if ms == UNKNOWN_MTIME {
        None
    } else {
        Some(ms)
    }
}

/// The row is that line, with no word on version control yet.
pub open spec fn shows(r: Row, l: Line) -> bool {
    &&& r.depth == l.depth
    &&& r.kind == l.kind
    &&& r.name@ == l.name
    &&& report::text_view(r.path) == l.path
    &&& r.logical_bytes == l.sum.logical
    &&& r.allocated_bytes == l.sum.allocated
    &&& r.files == l.sum.files
    &&& r.dirs == l.sum.dirs
    &&& report::text_view(r.modified_utc) == report::stamp_of(l.latest)
    &&& report::text_view(r.oldest_modified_utc) == report::stamp_of(l.oldest)
    &&& report::text_view(r.latest_modified_utc) == report::stamp_of(l.latest)
    &&& r.oldest_modified_unix_ms == known(l.oldest)
    &&& r.latest_modified_unix_ms == known(l.latest)
    &&& r.modified_complete == l.complete
    &&& r.modified_semantics@ == l.kind.meaning()
    &&& r.share_part == l.part
    &&& r.share_whole == l.whole
    &&& r.folded_children == l.folded
    &&& text::views(r.flags@) == report::flag_names(l.bits)
    &&& r.git is None
    &&& times_shaped(r)
}

/// The times of a row are texts as a clock gives them.
pub open spec fn times_shaped(r: Row) -> bool {
    &&& r.oldest_modified_utc matches Some(s) ==> report::time_shaped(s@)
    &&& r.latest_modified_utc matches Some(s) ==> report::time_shaped(s@)
}

/// The times of a row can be cut to the second.
pub open spec fn times_dateable(r: Row) -> bool {
    &&& r.oldest_modified_utc matches Some(s) ==> report::dateable(s@)
    &&& r.latest_modified_utc matches Some(s) ==> report::dateable(s@)
}

pub open spec fn all_show(rows: Seq<Row>, lines: Seq<Line>) -> bool {
    &&& rows.len() == lines.len()
    &&& forall|i: int| 0 <= i < rows.len() ==> shows(#[trigger] rows[i], lines[i])
}

/// The named tree that a snapshot holds.
pub struct Table {
    pub root: Seq<u16>,
    pub nodes: Seq<Node>,
    pub names: Seq<u16>,
}

impl Snapshot {
    pub open spec fn table(&self) -> Table {
        Table { root: self.root@, nodes: self.nodes@, names: self.names@ }
    }
}

pub open spec fn weight(n: Node, metric: Metric) -> u64 {
    match metric {
        Metric::Allocated => n.allocated,
        Metric::Logical => n.logical,
    }
}

pub open spec fn sum_weight(c: Count, metric: Metric) -> nat {
    match metric {
        Metric::Allocated => c.allocated,
        Metric::Logical => c.logical,
    }
}

pub open spec fn times_complete(n: Node) -> bool {
    n.flags & MTIME_UNKNOWN == 0 && n.flags & INCOMPLETE == 0
}

pub open spec fn path_of(t: Table, id: u32) -> Seq<char> {
    platform::shown(model::words_at(t.root, t.nodes, t.names, id))
}

/// The line of one entry.
pub open spec fn entry_line(
    t: Table,
    id: u32,
    depth: nat,
    whole: nat,
    options: ViewOptions,
) -> Line {
    let n = t.nodes[id as int];
    Line {
        depth,
        kind: if n.dir() {
            RowKind::Directory
        } else {
            RowKind::File
        },
        name: if depth == 0 {
            path_of(t, id)
        } else {
            model::name_at(t.nodes, t.names, id as int)
        },
        path: if n.flags & VIRTUAL == 0 {
            Some(path_of(t, id))
        } else {
            None
        },
        sum: tree::count_of(n),
        oldest: n.oldest_modified_ms,
        latest: n.latest_modified_ms,
        complete: times_complete(n),
        part: weight(n, options.metric) as nat,
        whole,
        folded: if depth >= options.depth {
            tree::kids(t.nodes, id as int).len()
        } else {
            0
        },
        bits: n.flags,
    }
}

pub open spec fn oldest_over(nodes: Seq<Node>, ids: Seq<u32>) -> i64
    decreases ids.len(),
{
    if ids.len() == 0 {
        UNKNOWN_MTIME
    } else {
        model::oldest_of(
            oldest_over(nodes, ids.drop_last()),
            nodes[ids.last() as int].oldest_modified_ms,
        )
    }
}

pub open spec fn latest_over(nodes: Seq<Node>, ids: Seq<u32>) -> i64
    decreases ids.len(),
{
    if ids.len() == 0 {
        UNKNOWN_MTIME
    } else {
        model::latest_of(
            latest_over(nodes, ids.drop_last()),
            nodes[ids.last() as int].latest_modified_ms,
        )
    }
}

pub open spec fn folded_name(n: nat) -> Seq<char> {
    "[other "@ + text::decimal_of(n) + " immediate entries]"@
}

/// The line that stands for all the listed entries: their exact sums.
pub open spec fn folded_line(
    nodes: Seq<Node>,
    ids: Seq<u32>,
    depth: nat,
    whole: nat,
    metric: Metric,
) -> Line {
    let sum = tree::count_over(tree::counts(nodes), ids);
    Line {
        depth,
        kind: RowKind::Folded,
        name: folded_name(ids.len()),
        path: None,
        sum,
        oldest: oldest_over(nodes, ids),
        latest: latest_over(nodes, ids),
        complete: forall|i: int|
            0 <= i < ids.len() ==> times_complete(nodes[(#[trigger] ids[i]) as int]),
        part: sum_weight(sum, metric),
        whole,
        folded: ids.len(),
        bits: 0,
    }
}

/// Where entries stand in a listing: the larger first, then by name, then as found.
pub open spec fn ahead(t: Table, metric: Metric, ks: Seq<u32>, a: usize, b: usize) -> bool {
    let wa = weight(t.nodes[ks[a as int] as int], metric);
    let wb = weight(t.nodes[ks[b as int] as int], metric);
    let na = order::unit_numbers(model::units_at(t.nodes, t.names, ks[a as int] as int));
    let nb = order::unit_numbers(model::units_at(t.nodes, t.names, ks[b as int] as int));
    ||| wa > wb
    ||| wa == wb && order::lex_below(na, nb)
    ||| wa == wb && na == nb && a <= b
}

/// The children of a node in the order of a listing.
pub open spec fn listing(t: Table, metric: Metric, id: u32) -> Seq<u32> {
    let ks = tree::kids(t.nodes, id as int);
    order::numbers(ks.len()).sort_by(|a: usize, b: usize| ahead(t, metric, ks, a, b)).map_values(
        |i: usize| ks[i as int],
    )
}

/// How many entries of a listing are worth a line of their own.
pub open spec fn worthy(t: Table, options: ViewOptions, all: Seq<u32>, from: nat) -> nat
    decreases all.len() - from,
{
    if from < all.len() && from < options.top && weight(
        t.nodes[all[from as int] as int],
        options.metric,
    ) >= options.min_bytes {
        worthy(t, options, all, from + 1)
    } else {
        from
    }
}

/// What a part of a view comes to: its lines, the lines still free, and how many entries
/// of the listing got a line.
pub struct Part {
    pub lines: Seq<Line>,
    pub left: nat,
    pub shown: nat,
}

/// The lines below a node.
pub open spec fn below(
    t: Table,
    options: ViewOptions,
    id: u32,
    depth: nat,
    whole: nat,
    budget: nat,
) -> Part
    decreases
        options.depth + 1 - depth,
        worthy(t, options, listing(t, options.metric, id), 0) + 1,
{
    let all = listing(t, options.metric, id);
    let part = entries(t, options, all, worthy(t, options, all, 0), 0, depth, whole, budget);
    let hidden = folded_away(all, worthy(t, options, all, 0), part.shown);
    if hidden.len() > 0 && part.left > 0 {
        Part {
            lines: part.lines.push(folded_line(t.nodes, hidden, depth, whole, options.metric)),
            left: (part.left - 1) as nat,
            shown: part.shown,
        }
    } else {
        part
    }
}

/// The entries without a line of their own: the unworthy ones, then those for which no
/// line was left.
pub open spec fn folded_away(all: Seq<u32>, worth: nat, shown: nat) -> Seq<u32> {
    all.subrange(worth as int, all.len() as int) + all.subrange(shown as int, worth as int)
}

/// The lines of the entries `from` to `worth` of a listing, each with what hangs below it.
/// A line is kept free for what remains.
pub open spec fn entries(
    t: Table,
    options: ViewOptions,
    all: Seq<u32>,
    worth: nat,
    from: nat,
    depth: nat,
    whole: nat,
    budget: nat,
) -> Part
    decreases options.depth + 1 - depth, worth - from,
{
    if from >= worth || budget <= 1 {
        Part { lines: Seq::empty(), left: budget, shown: from }
    } else {
        let child = all[from as int];
        let reserve: nat = if from + 1 < worth || worth < all.len() {
            1
        } else {
            0
        };
        let nested = if depth < options.depth && t.nodes[child as int].dir() && budget - 1
            > reserve {
            let inner = below(
                t,
                options,
                child,
                depth + 1,
                whole,
                (budget - 1 - reserve) as nat,
            );
            Part { lines: inner.lines, left: inner.left + reserve, shown: 0 }
        } else {
            Part { lines: Seq::empty(), left: (budget - 1) as nat, shown: 0 }
        };
        let rest = entries(t, options, all, worth, from + 1, depth, whole, nested.left);
        Part {
            lines: seq![entry_line(t, child, depth, whole, options)] + nested.lines + rest.lines,
            left: rest.left,
            shown: rest.shown,
        }
    }
}

proof fn lemma_worthy(t: Table, options: ViewOptions, all: Seq<u32>, from: nat)
    requires
        from <= all.len(),
    ensures
        from <= worthy(t, options, all, from) <= all.len(),
    decreases all.len() - from,
{
    if from < all.len() {
        lemma_worthy(t, options, all, from + 1);
    }
}

proof fn lemma_ahead_orders(t: Table, metric: Metric, ks: Seq<u32>)
    ensures
        total_ordering(|a: usize, b: usize| ahead(t, metric, ks, a, b)),
{
    let le = |a: usize, b: usize| ahead(t, metric, ks, a, b);
    let name = |a: usize|
        order::unit_numbers(model::units_at(t.nodes, t.names, ks[a as int] as int));
    assert forall|a: usize| #[trigger] le(a, a) by {
        order::lemma_lex_total(name(a), name(a));
    }
    assert forall|a: usize, b: usize| #[trigger] le(a, b) && #[trigger] le(b, a) implies a == b by {
        order::lemma_lex_total(name(a), name(b));
    }
    assert forall|a: usize, b: usize, c: usize| #[trigger]
        le(a, b) && #[trigger] le(b, c) implies le(a, c) by {
        if order::lex_below(name(a), name(b)) && order::lex_below(name(b), name(c)) {
            order::lemma_lex_trans(name(a), name(b), name(c));
        }
    }
    assert forall|a: usize, b: usize| #[trigger] le(a, b) || #[trigger] le(b, a) by {
        order::lemma_lex_total(name(a), name(b));
    }
}

/// A listing holds just the children, and each of them exists.
pub proof fn lemma_listing(t: Table, metric: Metric, id: u32)
    requires
        t.nodes.len() <= u32::MAX,
        id < t.nodes.len(),
        tree::chain_ok(t.nodes, id as int),
    ensures
        listing(t, metric, id).to_multiset() == tree::kids(t.nodes, id as int).to_multiset(),
        listing(t, metric, id).len() == tree::kids(t.nodes, id as int).len(),
        forall|i: int|
            0 <= i < listing(t, metric, id).len() ==> (#[trigger] listing(t, metric, id)[i])
                < t.nodes.len(),
{
    broadcast use vstd::seq_lib::group_to_multiset_ensures;

    let ks = tree::kids(t.nodes, id as int);
    let num = order::numbers(ks.len());
    let le = |a: usize, b: usize| ahead(t, metric, ks, a, b);
    let pick = |i: usize| ks[i as int];
    tree::lemma_kids(t.nodes, id as int);
    lemma_ahead_orders(t, metric, ks);
    num.lemma_sort_by_ensures(le);
    let q = num.sort_by(le);
    order::lemma_map_rearranged(q, num, pick);
    assert(num.map_values(pick) =~= ks);
    assert(q.len() == q.to_multiset().len());
    assert(num.len() == num.to_multiset().len());
    assert forall|i: int| 0 <= i < q.len() implies (#[trigger] q.map_values(pick)[i])
        < t.nodes.len() by {
        order::lemma_same_members(q, num, i);
        let w = num.index_of(q[i]);
        assert(num[w] == q[i]);
        assert(ks[w] < t.nodes.len());
    }
}

/// The sums over the children of each node fit.
pub open spec fn adds_up(nodes: Seq<Node>) -> bool {
    forall|p: int|
        0 <= p < nodes.len() ==> {
            let c = tree::count_over(tree::counts(nodes), #[trigger] tree::kids(nodes, p));
            c.allocated <= u64::MAX && c.logical <= u64::MAX
        }
}

proof fn lemma_count_concat(c: Seq<Count>, a: Seq<u32>, b: Seq<u32>)
    ensures
        tree::count_over(c, a + b) == tree::count_add(
            tree::count_over(c, a),
            tree::count_over(c, b),
        ),
    decreases b.len(),
{
    if b.len() == 0 {
        assert(a + b =~= a);
    } else {
        lemma_count_concat(c, a, b.drop_last());
        assert((a + b).drop_last() =~= a + b.drop_last());
        assert((a + b).last() == b.last());
    }
}

proof fn lemma_count_rearranged(c: Seq<Count>, a: Seq<u32>, b: Seq<u32>)
    requires
        a.to_multiset() == b.to_multiset(),
    ensures
        tree::count_over(c, a) == tree::count_over(c, b),
    decreases a.len(),
{
    broadcast use vstd::seq_lib::group_to_multiset_ensures;

    assert(a.len() == a.to_multiset().len());
    assert(b.len() == b.to_multiset().len());
    if a.len() > 0 {
        let x = a.last();
        let rest = a.drop_last();
        assert(a =~= rest.push(x));
        assert(a.contains(x));
        assert(b.to_multiset().count(x) > 0);
        assert(b.contains(x));
        let w = b.index_of(x);
        let front = b.subrange(0, w);
        let back = b.subrange(w + 1, b.len() as int);
        assert(b.remove(w) =~= front + back);
        vstd::seq_lib::to_multiset_build(rest, x);
        vstd::seq_lib::to_multiset_remove(b, w);
        assert(rest.to_multiset() =~= (front + back).to_multiset());
        lemma_count_rearranged(c, rest, front + back);
        lemma_count_concat(c, front, back);
        assert(b =~= front + (seq![x] + back));
        lemma_count_concat(c, front, seq![x] + back);
        tree::lemma_count_over_head(c, x, back);
    }
}

proof fn lemma_count_files(nodes: Seq<Node>, ids: Seq<u32>)
    requires
        forall|i: int| 0 <= i < ids.len() ==> (#[trigger] ids[i]) < nodes.len(),
    ensures
        tree::count_over(tree::counts(nodes), ids).files <= ids.len() * u32::MAX,
        tree::count_over(tree::counts(nodes), ids).dirs <= ids.len() * u32::MAX,
    decreases ids.len(),
{
    if ids.len() > 0 {
        let rest = ids.drop_last();
        assert forall|i: int| 0 <= i < rest.len() implies (#[trigger] rest[i]) < nodes.len() by {
            assert(ids[i] < nodes.len());
        }
        lemma_count_files(nodes, rest);
        assert(ids[ids.len() - 1] < nodes.len());
        assert(ids.len() * u32::MAX == rest.len() * u32::MAX + u32::MAX) by (nonlinear_arith)
            requires
                ids.len() == rest.len() + 1,
        ;
    }
}

/// What is folded away is part of the listing.
proof fn lemma_folded_fits(t: Table, metric: Metric, id: u32, worth: nat, shown: nat)
    requires
        t.nodes.len() <= u32::MAX,
        id < t.nodes.len(),
        tree::chain_ok(t.nodes, id as int),
        shown <= worth <= listing(t, metric, id).len(),
    ensures
        ({
            let all = listing(t, metric, id);
            let c = tree::counts(t.nodes);
            let hidden = folded_away(all, worth, shown);
            &&& tree::count_add(
                tree::count_over(c, all.subrange(0, shown as int)),
                tree::count_over(c, hidden),
            ) == tree::count_over(c, tree::kids(t.nodes, id as int))
            &&& forall|i: int| 0 <= i < hidden.len() ==> (#[trigger] hidden[i]) < t.nodes.len()
            &&& hidden.len() <= t.nodes.len()
        }),
{
    let all = listing(t, metric, id);
    let c = tree::counts(t.nodes);
    let a = all.subrange(0, shown as int);
    let b = all.subrange(shown as int, worth as int);
    let d = all.subrange(worth as int, all.len() as int);
    lemma_listing(t, metric, id);
    tree::lemma_kids(t.nodes, id as int);
    lemma_count_rearranged(c, all, tree::kids(t.nodes, id as int));
    assert(all =~= a + (b + d));
    lemma_count_concat(c, a, b + d);
    lemma_count_concat(c, b, d);
    lemma_count_concat(c, d, b);
    let hidden = folded_away(all, worth, shown);
    assert forall|i: int| 0 <= i < hidden.len() implies (#[trigger] hidden[i]) < t.nodes.len() by {
        if i < d.len() {
            assert(hidden[i] == all[worth + i]);
        } else {
            assert(hidden[i] == all[shown + (i - d.len())]);
        }
    }
}

fn size(s: &Snapshot, id: u32, metric: Metric) -> (r: u64)
    requires
        id < s.nodes.len(),
    ensures
        r == weight(s.nodes@[id as int], metric),
{
    match metric {
        Metric::Allocated => s.nodes[id as usize].allocated,
        Metric::Logical => s.nodes[id as usize].logical,
    }
}

fn known_time(ms: i64) -> (r: Option<i64>)
    ensures
        r == known(ms),
{
    if ms == UNKNOWN_MTIME {
        None
    } else {
        Some(ms)
    }
}

/// What a snapshot must be for a view of it: a tree whose names and sums are in range.
pub open spec fn viewable(s: Snapshot) -> bool {
    &&& tree::linked(s.nodes@)
    &&& model::names_inside(s.nodes@, s.names@.len())
    &&& model::parents_inside(s.nodes@)
    &&& adds_up(s.nodes@)
}

fn row(s: &Snapshot, id: u32, depth: usize, whole: u64, options: &ViewOptions) -> (r: Row)
    requires
        viewable(*s),
        id < s.nodes.len(),
    ensures
        shows(r, entry_line(s.table(), id, depth as nat, whole as nat, *options)),
{
    let n: Node = s.nodes[id as usize];
    let ghost t = s.table();
    proof {
        assert(tree::chain_ok(t.nodes, id as int));
        tree::lemma_kids(t.nodes, id as int);
        assert(s.nodes@[id as int].name_start + s.nodes@[id as int].name_len <= s.names@.len());
    }
    let path: String = platform::display_path(&s.path(id).to_text());
    let kind: RowKind = if n.is_dir() {
        RowKind::Directory
    } else {
        RowKind::File
    };
    Row {
        depth,
        kind,
        name: if depth == 0 {
            path.clone()
        } else {
            s.name(id)
        },
        path: if n.flags & VIRTUAL == 0 {
            Some(path)
        } else {
            None
        },
        logical_bytes: n.logical,
        allocated_bytes: n.allocated,
        files: n.files as u64,
        dirs: n.dirs as u64,
        modified_utc: report::timestamp(n.latest_modified_ms),
        oldest_modified_utc: report::timestamp(n.oldest_modified_ms),
        latest_modified_utc: report::timestamp(n.latest_modified_ms),
        oldest_modified_unix_ms: known_time(n.oldest_modified_ms),
        latest_modified_unix_ms: known_time(n.latest_modified_ms),
        modified_complete: n.flags & MTIME_UNKNOWN == 0 && n.flags & INCOMPLETE == 0,
        modified_semantics: kind.modified_semantics(),
        share_part: size(s, id, options.metric),
        share_whole: whole,
        folded_children: if depth >= options.depth {
            s.child_ids(id).len()
        } else {
            0
        },
        flags: report::flags(n.flags),
        git: None,
    }
}

fn ordered(s: &Snapshot, id: u32, metric: Metric) -> (r: Vec<u32>)
    requires
        viewable(*s),
        id < s.nodes.len(),
    ensures
        r@ == listing(s.table(), metric, id),
        forall|i: int| 0 <= i < r@.len() ==> (#[trigger] r@[i]) < s.nodes@.len(),
{
    let ghost t = s.table();
    let ghost ks = tree::kids(t.nodes, id as int);
    proof {
        assert(tree::chain_ok(t.nodes, id as int));
        tree::lemma_kids(t.nodes, id as int);
        lemma_listing(t, metric, id);
        lemma_ahead_orders(t, metric, ks);
    }
    let kids: Vec<u32> = s.child_ids(id);
    let n: usize = kids.len();
    let first = |a: usize, b: usize| -> (r: bool)
        requires
            a < n,
            b < n,
            n == kids@.len(),
            forall|i: int| 0 <= i < kids@.len() ==> (#[trigger] kids@[i]) < s.nodes@.len(),
            model::names_inside(s.nodes@, s.names@.len()),
        ensures
            r == ahead(s.table(), metric, kids@, a, b),
        {
            let wa: u64 = size(s, kids[a], metric);
            let wb: u64 = size(s, kids[b], metric);
            proof {
                assert(s.nodes@[kids@[a as int] as int].name_start <= s.names@.len());
                assert(s.nodes@[kids@[b as int] as int].name_start <= s.names@.len());
            }
            let na: &[u16] = s.name_units(kids[a]);
            let nb: &[u16] = s.name_units(kids[b]);
            proof {
                order::lemma_lex_total(order::unit_numbers(na@), order::unit_numbers(nb@));
            }
            wa > wb || (wa == wb && (order::units_below(na, nb) || (!order::units_below(nb, na)
                && a <= b)))
        };
    let q: Vec<usize> = order::rank(
        n,
        first,
        Ghost(|a: usize, b: usize| ahead(t, metric, ks, a, b)),
    );
    let ghost pick = |i: usize| ks[i as int];
    let mut out: Vec<u32> = Vec::new();
    let mut i: usize = 0;
    while i < n
        invariant
            i <= n,
            n == kids@.len(),
            kids@ == ks,
            q@.len() == n,
            forall|k: int| 0 <= k < q@.len() ==> (#[trigger] q@[k]) < n,
            pick == (|i: usize| ks[i as int]),
            out@ == q@.subrange(0, i as int).map_values(pick),
        decreases n - i,
    {
        out.push(kids[q[i]]);
        i += 1;
        assert(out@ =~= q@.subrange(0, i as int).map_values(pick));
    }
    assert(q@.subrange(0, n as int) =~= q@);
    out
}

fn folded_row(s: &Snapshot, ids: &Vec<u32>, depth: usize, whole: u64, metric: Metric) -> (r: Row)
    requires
        s.nodes@.len() <= u32::MAX,
        ids@.len() <= s.nodes@.len(),
        forall|i: int| 0 <= i < ids@.len() ==> (#[trigger] ids@[i]) < s.nodes@.len(),
        tree::count_over(tree::counts(s.nodes@), ids@).allocated <= u64::MAX,
        tree::count_over(tree::counts(s.nodes@), ids@).logical <= u64::MAX,
    ensures
        shows(r, folded_line(s.nodes@, ids@, depth as nat, whole as nat, metric)),
{
    let ghost c = tree::counts(s.nodes@);
    let mut logical: u64 = 0;
    let mut allocated: u64 = 0;
    let mut files: u64 = 0;
    let mut dirs: u64 = 0;
    let mut oldest: i64 = UNKNOWN_MTIME;
    let mut latest: i64 = UNKNOWN_MTIME;
    let mut complete: bool = true;
    let mut i: usize = 0;
    let n: usize = ids.len();
    assert(ids@.subrange(0, 0) =~= Seq::<u32>::empty());
    while i < n
        invariant
            i <= n,
            n == ids@.len(),
            s.nodes@.len() <= u32::MAX,
            n <= s.nodes@.len(),
            c == tree::counts(s.nodes@),
            forall|k: int| 0 <= k < ids@.len() ==> (#[trigger] ids@[k]) < s.nodes@.len(),
            tree::count_over(c, ids@).allocated <= u64::MAX,
            tree::count_over(c, ids@).logical <= u64::MAX,
            tree::count_over(c, ids@.subrange(0, i as int)) == (Count {
                allocated: allocated as nat,
                logical: logical as nat,
                files: files as nat,
                dirs: dirs as nat,
            }),
            oldest == oldest_over(s.nodes@, ids@.subrange(0, i as int)),
            latest == latest_over(s.nodes@, ids@.subrange(0, i as int)),
            complete == (forall|k: int|
                0 <= k < i ==> times_complete(s.nodes@[(#[trigger] ids@[k]) as int])),
        decreases n - i,
    {
        let node: Node = s.nodes[ids[i] as usize];
        proof {
            let now = ids@.subrange(0, i + 1);
            let rest = ids@.subrange(i + 1, n as int);
            assert(now.drop_last() =~= ids@.subrange(0, i as int));
            assert(now.last() == ids@[i as int]);
            assert(ids@ =~= now + rest);
            lemma_count_concat(c, now, rest);
            lemma_count_files(s.nodes@, now);
            assert(now.len() * u32::MAX <= u32::MAX * u32::MAX) by (nonlinear_arith)
                requires
                    now.len() <= u32::MAX,
            ;
        }
        logical = logical + node.logical;
        allocated = allocated + node.allocated;
        files = files + node.files as u64;
        dirs = dirs + node.dirs as u64;
        oldest = oldest_known(oldest, node.oldest_modified_ms);
        latest = latest_known(latest, node.latest_modified_ms);
        complete = complete && node.flags & MTIME_UNKNOWN == 0 && node.flags & INCOMPLETE == 0;
        i += 1;
    }
    assert(ids@.subrange(0, n as int) =~= ids@);
    let mut name: String = "[other ".to_owned();
    name.append(&text::decimal(n as u64));
    name.append(" immediate entries]");
    let flags: Vec<String> = Vec::new();
    proof {
        assert(0u16 & crate::model::REPARSE == 0 && 0u16 & crate::model::HARDLINK == 0 && 0u16
            & crate::model::ESTIMATED == 0 && 0u16 & INCOMPLETE == 0 && 0u16 & VIRTUAL == 0)
            by (bit_vector);
        assert(text::views(flags@) =~= report::flag_names(0));
    }
    Row {
        depth,
        kind: RowKind::Folded,
        name,
        path: None,
        logical_bytes: logical,
        allocated_bytes: allocated,
        files,
        dirs,
        modified_utc: report::timestamp(latest),
        oldest_modified_utc: report::timestamp(oldest),
        latest_modified_utc: report::timestamp(latest),
        oldest_modified_unix_ms: known_time(oldest),
        latest_modified_unix_ms: known_time(latest),
        modified_complete: complete,
        modified_semantics: RowKind::Folded.modified_semantics(),
        share_part: match metric {
            Metric::Allocated => allocated,
            Metric::Logical => logical,
        },
        share_whole: whole,
        folded_children: n,
        flags,
        git: None,
    }
}

/// What is behind the entries still to be listed.
proof fn lemma_entries_end(
    t: Table,
    options: ViewOptions,
    all: Seq<u32>,
    worth: nat,
    from: nat,
    depth: nat,
    whole: nat,
    budget: nat,
)
    requires
        from <= worth,
    ensures
        from <= entries(t, options, all, worth, from, depth, whole, budget).shown <= worth,
    decreases worth - from,
{
    if from < worth && budget > 1 {
        let child = all[from as int];
        let reserve: nat = if from + 1 < worth || worth < all.len() {
            1
        } else {
            0
        };
        if depth < options.depth && t.nodes[child as int].dir() && budget - 1 > reserve {
            let inner = below(
                t,
                options,
                child,
                depth + 1,
                whole,
                (budget - 1 - reserve) as nat,
            );
            lemma_entries_end(
                t,
                options,
                all,
                worth,
                from + 1,
                depth,
                whole,
                inner.left + reserve,
            );
        } else {
            lemma_entries_end(
                t,
                options,
                all,
                worth,
                from + 1,
                depth,
                whole,
                (budget - 1) as nat,
            );
        }
    }
}

proof fn lemma_show_push(rows: Seq<Row>, lines: Seq<Line>, r: Row, l: Line)
    requires
        all_show(rows, lines),
        shows(r, l),
    ensures
        all_show(rows.push(r), lines.push(l)),
{
    let rows2 = rows.push(r);
    let lines2 = lines.push(l);
    assert forall|i: int| 0 <= i < rows2.len() implies shows(#[trigger] rows2[i], lines2[i]) by {
        if i < rows.len() {
            assert(shows(rows[i], lines[i]));
        }
    }
}

/// Every line of the budget is either used or still free.
pub proof fn law_lines_stay_within_budget(
    t: Table,
    options: ViewOptions,
    id: u32,
    depth: nat,
    whole: nat,
    budget: nat,
)
    ensures
        ({
            let part = below(t, options, id, depth, whole, budget);
            part.lines.len() + part.left == budget
        }),
    decreases
        options.depth + 1 - depth,
        worthy(t, options, listing(t, options.metric, id), 0) + 1,
{
    let all = listing(t, options.metric, id);
    lemma_entries_budget(t, options, all, worthy(t, options, all, 0), 0, depth, whole, budget);
}

proof fn lemma_entries_budget(
    t: Table,
    options: ViewOptions,
    all: Seq<u32>,
    worth: nat,
    from: nat,
    depth: nat,
    whole: nat,
    budget: nat,
)
    ensures
        ({
            let part = entries(t, options, all, worth, from, depth, whole, budget);
            part.lines.len() + part.left == budget
        }),
    decreases options.depth + 1 - depth, worth - from,
{
    if from < worth && budget > 1 {
        let child = all[from as int];
        let reserve: nat = if from + 1 < worth || worth < all.len() {
            1
        } else {
            0
        };
        let left = if depth < options.depth && t.nodes[child as int].dir() && budget - 1
            > reserve {
            let b = (budget - 1 - reserve) as nat;
            law_lines_stay_within_budget(t, options, child, depth + 1, whole, b);
            below(t, options, child, depth + 1, whole, b).left + reserve
        } else {
            (budget - 1) as nat
        };
        lemma_entries_budget(t, options, all, worth, from + 1, depth, whole, left);
    }
}

/// Adds the lines below `id` to `rows` and returns how many lines are left.
#[verifier::spinoff_prover]
#[verifier::rlimit(60)]
fn children(
    s: &Snapshot,
    id: u32,
    depth: usize,
    whole: u64,
    options: &ViewOptions,
    budget: usize,
    rows: &mut Vec<Row>,
) -> (left: usize)
    requires
        viewable(*s),
        id < s.nodes.len(),
        depth <= options.depth,
    ensures
        left == below(s.table(), *options, id, depth as nat, whole as nat, budget as nat).left,
        forall|had: Seq<Line>| #[trigger]
            all_show(old(rows)@, had) ==> all_show(
                final(rows)@,
                had + below(
                    s.table(),
                    *options,
                    id,
                    depth as nat,
                    whole as nat,
                    budget as nat,
                ).lines,
            ),
    decreases options.depth - depth,
{
    let ghost t = s.table();
    let ghost d = depth as nat;
    let ghost w = whole as nat;
    let ghost rows0 = rows@;
    let all: Vec<u32> = ordered(s, id, options.metric);
    let mut worth: usize = 0;
    proof {
        assert(tree::chain_ok(t.nodes, id as int));
        tree::lemma_kids(t.nodes, id as int);
        lemma_listing(t, options.metric, id);
        lemma_worthy(t, *options, all@, 0);
    }
    while worth < all.len() && worth < options.top && size(s, all[worth], options.metric)
        >= options.min_bytes
        invariant
            worth <= all@.len(),
            t == s.table(),
            forall|i: int| 0 <= i < all@.len() ==> (#[trigger] all@[i]) < s.nodes@.len(),
            worthy(t, *options, all@, worth as nat) == worthy(t, *options, all@, 0),
        decreases all@.len() - worth,
    {
        worth += 1;
    }
    let ghost whole_part = entries(
        t,
        *options,
        all@,
        worth as nat,
        0,
        d,
        w,
        budget as nat,
    );
    let ghost mut lines = Seq::<Line>::empty();
    let mut left: usize = budget;
    let mut i: usize = 0;
    assert forall|had: Seq<Line>| #[trigger] all_show(rows0, had) implies all_show(
        rows@,
        had + lines,
    ) by {
        assert(had + lines =~= had);
    }
    assert(lines + whole_part.lines =~= whole_part.lines);
    while i < worth && left > 1
        invariant
            i <= worth <= all@.len(),
            viewable(*s),
            depth <= options.depth,
            t == s.table(),
            d == depth,
            w == whole,
            left <= budget,
            forall|k: int| 0 <= k < all@.len() ==> (#[trigger] all@[k]) < s.nodes@.len(),
            forall|had: Seq<Line>| #[trigger]
                all_show(rows0, had) ==> all_show(rows@, had + lines),
            ({
                let rest = entries(
                    t,
                    *options,
                    all@,
                    worth as nat,
                    i as nat,
                    d,
                    w,
                    left as nat,
                );
                &&& whole_part.lines == lines + rest.lines
                &&& whole_part.left == rest.left
                &&& whole_part.shown == rest.shown
            }),
        decreases worth - i,
    {
        let child: u32 = all[i];
        let ghost rest = entries(
            t,
            *options,
            all@,
            worth as nat,
            i as nat,
            d,
            w,
            left as nat,
        );
        let ghost line = entry_line(t, child, d, w, *options);
        let ghost lines0 = lines;
        let ghost before = rows@;
        let r: Row = row(s, child, depth, whole, options);
        rows.push(r);
        proof {
            lines = lines0.push(line);
            assert forall|had: Seq<Line>| #[trigger] all_show(rows0, had) implies all_show(
                rows@,
                had + lines,
            ) by {
                lemma_show_push(before, had + lines0, r, line);
                assert(had + lines =~= (had + lines0).push(line));
            }
        }
        let ghost b = left as nat;
        let reserve: usize = if i + 1 < worth || worth < all.len() {
            1
        } else {
            0
        };
        left -= 1;
        let ghost mut nested = Seq::<Line>::empty();
        if depth < options.depth && s.nodes[child as usize].is_dir() && left > reserve {
            let ghost middle = rows@;
            let ghost lines1 = lines;
            let inner: usize = children(
                s,
                child,
                depth + 1,
                whole,
                options,
                left - reserve,
                rows,
            );
            proof {
                let part = below(t, *options, child, d + 1, w, (b - 1 - reserve) as nat);
                law_lines_stay_within_budget(
                    t,
                    *options,
                    child,
                    d + 1,
                    w,
                    (b - 1 - reserve) as nat,
                );
                nested = part.lines;
                lines = lines1 + nested;
                assert forall|had: Seq<Line>| #[trigger] all_show(rows0, had) implies all_show(
                    rows@,
                    had + lines,
                ) by {
                    assert(all_show(middle, had + lines1));
                    assert((had + lines1) + nested =~= had + lines);
                }
            }
            left = inner + reserve;
        }
        i += 1;
        proof {
            let next = entries(t, *options, all@, worth as nat, i as nat, d, w, left as nat);
            assert(rest.lines == seq![line] + nested + next.lines);
            assert(lines + next.lines =~= lines0 + rest.lines);
        }
    }
    proof {
        lemma_entries_end(t, *options, all@, worth as nat, 0, d, w, budget as nat);
        assert(lines + Seq::<Line>::empty() =~= lines);
        assert(whole_part.lines == lines);
        assert(whole_part.shown == i);
        lemma_folded_fits(t, options.metric, id, worth as nat, i as nat);
    }
    let mut hidden: Vec<u32> = Vec::new();
    hidden.extend_from_slice(&all.as_slice()[worth..all.len()]);
    hidden.extend_from_slice(&all.as_slice()[i..worth]);
    assert(hidden@ =~= folded_away(all@, worth as nat, i as nat));
    if hidden.len() > 0 && left > 0 {
        let ghost before = rows@;
        let ghost lines0 = lines;
        proof {
            let c = tree::count_over(tree::counts(t.nodes), tree::kids(t.nodes, id as int));
            assert(c.allocated <= u64::MAX && c.logical <= u64::MAX);
        }
        let r: Row = folded_row(s, &hidden, depth, whole, options.metric);
        rows.push(r);
        left -= 1;
        proof {
            let line = folded_line(t.nodes, hidden@, d, w, options.metric);
            lines = lines0.push(line);
            assert forall|had: Seq<Line>| #[trigger] all_show(rows0, had) implies all_show(
                rows@,
                had + lines,
            ) by {
                lemma_show_push(before, had + lines0, r, line);
                assert(had + lines =~= (had + lines0).push(line));
            }
        }
    }
    left
}

/// The sum of the lines at one depth.
pub open spec fn level_sum(lines: Seq<Line>, depth: nat) -> Count
    decreases lines.len(),
{
    if lines.len() == 0 {
        tree::count_zero()
    } else if lines.last().depth == depth {
        tree::count_add(level_sum(lines.drop_last(), depth), lines.last().sum)
    } else {
        level_sum(lines.drop_last(), depth)
    }
}

proof fn lemma_level_concat(a: Seq<Line>, b: Seq<Line>, depth: nat)
    ensures
        level_sum(a + b, depth) == tree::count_add(level_sum(a, depth), level_sum(b, depth)),
    decreases b.len(),
{
    if b.len() == 0 {
        assert(a + b =~= a);
    } else {
        lemma_level_concat(a, b.drop_last(), depth);
        assert((a + b).drop_last() =~= a + b.drop_last());
        assert((a + b).last() == b.last());
    }
}

proof fn lemma_level_deeper(a: Seq<Line>, depth: nat)
    requires
        forall|i: int| 0 <= i < a.len() ==> (#[trigger] a[i]).depth > depth,
    ensures
        level_sum(a, depth) == tree::count_zero(),
    decreases a.len(),
{
    if a.len() > 0 {
        assert(a[a.len() - 1].depth > depth);
        assert forall|i: int| 0 <= i < a.drop_last().len() implies (#[trigger] a.drop_last()[i]).depth
            > depth by {
            assert(a[i].depth > depth);
        }
        lemma_level_deeper(a.drop_last(), depth);
    }
}

/// No line below a node stands further out than its children.
proof fn lemma_depths(
    t: Table,
    options: ViewOptions,
    id: u32,
    depth: nat,
    whole: nat,
    budget: nat,
)
    ensures
        forall|i: int|
            0 <= i < below(t, options, id, depth, whole, budget).lines.len() ==> (
            #[trigger] below(t, options, id, depth, whole, budget).lines[i]).depth >= depth,
    decreases
        options.depth + 1 - depth,
        worthy(t, options, listing(t, options.metric, id), 0) + 1,
{
    let all = listing(t, options.metric, id);
    lemma_entries_depths(t, options, all, worthy(t, options, all, 0), 0, depth, whole, budget);
}

proof fn lemma_entries_depths(
    t: Table,
    options: ViewOptions,
    all: Seq<u32>,
    worth: nat,
    from: nat,
    depth: nat,
    whole: nat,
    budget: nat,
)
    ensures
        forall|i: int|
            0 <= i < entries(t, options, all, worth, from, depth, whole, budget).lines.len() ==> (
            #[trigger] entries(
                t,
                options,
                all,
                worth,
                from,
                depth,
                whole,
                budget,
            ).lines[i]).depth >= depth,
    decreases options.depth + 1 - depth, worth - from,
{
    if from < worth && budget > 1 {
        let child = all[from as int];
        let reserve: nat = if from + 1 < worth || worth < all.len() {
            1
        } else {
            0
        };
        let left = if depth < options.depth && t.nodes[child as int].dir() && budget - 1
            > reserve {
            let b = (budget - 1 - reserve) as nat;
            lemma_depths(t, options, child, depth + 1, whole, b);
            below(t, options, child, depth + 1, whole, b).left + reserve
        } else {
            (budget - 1) as nat
        };
        lemma_entries_depths(t, options, all, worth, from + 1, depth, whole, left);
    }
}

proof fn lemma_entries_sum(
    t: Table,
    options: ViewOptions,
    all: Seq<u32>,
    worth: nat,
    from: nat,
    depth: nat,
    whole: nat,
    budget: nat,
)
    requires
        from <= worth <= all.len(),
        forall|i: int| 0 <= i < all.len() ==> (#[trigger] all[i]) < t.nodes.len(),
        budget > 0 || from == all.len(),
    ensures
        ({
            let part = entries(t, options, all, worth, from, depth, whole, budget);
            &&& from <= part.shown <= worth
            &&& level_sum(part.lines, depth) == tree::count_over(
                tree::counts(t.nodes),
                all.subrange(from as int, part.shown as int),
            )
            &&& part.left > 0 || part.shown == all.len()
        }),
    decreases worth - from,
{
    let part = entries(t, options, all, worth, from, depth, whole, budget);
    let c = tree::counts(t.nodes);
    if from < worth && budget > 1 {
        let child = all[from as int];
        let reserve: nat = if from + 1 < worth || worth < all.len() {
            1
        } else {
            0
        };
        let inside = depth < options.depth && t.nodes[child as int].dir() && budget - 1 > reserve;
        let b = (budget - 1 - reserve) as nat;
        let inner = below(t, options, child, depth + 1, whole, b);
        let nested = if inside {
            inner.lines
        } else {
            Seq::empty()
        };
        let left = if inside {
            inner.left + reserve
        } else {
            (budget - 1) as nat
        };
        let rest = entries(t, options, all, worth, from + 1, depth, whole, left);
        if inside {
            lemma_depths(t, options, child, depth + 1, whole, b);
        }
        lemma_level_deeper(nested, depth);
        let line = entry_line(t, child, depth, whole, options);
        lemma_entries_sum(t, options, all, worth, from + 1, depth, whole, left);
        assert(part.lines == seq![line] + nested + rest.lines);
        lemma_level_concat(seq![line] + nested, rest.lines, depth);
        lemma_level_concat(seq![line], nested, depth);
        assert(seq![line].drop_last() =~= Seq::<Line>::empty());
        assert(level_sum(seq![line], depth) == tree::count_of(t.nodes[child as int])) by {
            assert(level_sum(seq![line].drop_last(), depth) == tree::count_zero());
        }
        let span = all.subrange(from as int, part.shown as int);
        assert(span =~= seq![child] + all.subrange(from as int + 1, part.shown as int));
        tree::lemma_count_over_head(c, child, all.subrange(from as int + 1, part.shown as int));
        assert(all[from as int] < t.nodes.len());
    } else {
        assert(all.subrange(from as int, from as int) =~= Seq::<u32>::empty());
    }
}

/// Nothing is lost in a view: with at least one line to spend, the lines directly below a
/// node, folded ones among them, add up to exactly what its children are.
pub proof fn law_lines_add_up(
    t: Table,
    options: ViewOptions,
    id: u32,
    depth: nat,
    whole: nat,
    budget: nat,
)
    requires
        tree::linked(t.nodes),
        id < t.nodes.len(),
        budget > 0,
    ensures
        level_sum(below(t, options, id, depth, whole, budget).lines, depth) == tree::count_over(
            tree::counts(t.nodes),
            tree::kids(t.nodes, id as int),
        ),
{
    let all = listing(t, options.metric, id);
    let worth = worthy(t, options, all, 0);
    assert(tree::chain_ok(t.nodes, id as int));
    lemma_listing(t, options.metric, id);
    lemma_worthy(t, options, all, 0);
    lemma_entries_sum(t, options, all, worth, 0, depth, whole, budget);
    let part = entries(t, options, all, worth, 0, depth, whole, budget);
    let hidden = folded_away(all, worth, part.shown);
    lemma_folded_fits(t, options.metric, id, worth, part.shown);
    if hidden.len() > 0 {
        assert(part.left > 0);
        let line = folded_line(t.nodes, hidden, depth, whole, options.metric);
        let lines = part.lines.push(line);
        assert(lines.drop_last() =~= part.lines);
        assert(lines.last() == line);
        assert(below(t, options, id, depth, whole, budget).lines == lines);
    }
}

/// A view of part of a snapshot.
#[derive(Debug)]
pub struct TreeView<'a> {
    /// The time from the start of the program until the view was ready.
    pub report_ready_ms: Option<u64>,
    pub scope: String,
    pub snapshot_root: String,
    pub volume: &'a VolumeInfo,
    pub stats: &'a ScanStats,
    pub rows: Vec<Row>,
    pub notes: Vec<String>,
}

/// The name of the format of a view.
pub fn view_format() -> (r: &'static str)
    ensures
        r@ == "disk-cleaner-tree/v3"@,
{
    "disk-cleaner-tree/v3"
}

/// The lines that a view may have below its first.
pub open spec fn line_budget(max_lines: nat) -> nat {
    if max_lines < 16 {
        2
    } else if max_lines > 2000 {
        1986
    } else {
        (max_lines - 14) as nat
    }
}

/// All the lines of a view of `id`.
pub open spec fn view_lines(t: Table, options: ViewOptions, id: u32) -> Seq<Line> {
    let whole = weight(t.nodes[id as int], options.metric) as nat;
    let top = seq![entry_line(t, id, 0, whole, options)];
    if options.depth > 0 {
        top + below(t, options, id, 1, whole, line_budget(options.max_lines as nat)).lines
    } else {
        top
    }
}

pub open spec fn view_notes(git: bool) -> Seq<Seq<char>> {
    seq![
        "Folded rows are exact sums, not sampled files. All entries remain in the snapshot for detail queries."@,
        "Allocated size is not a promise of reclaimed space (hardlinks, ReFS block clones, sparse/compressed files, filesystem metadata)."@,
        "修改时间 UTC：文件=自身最后写入；目录/折叠行=后代文件的最晚(max，主要值)与最早(min)。不含目录本身时间；空目录 —，不完整 ?。"@,
    ] + text::when(
        git,
        "Git checks here are local/cached; git PATH --fetch is required for current remote proof. Ignored != safe to delete."@,
    )
}

/// The view of what lies at `scope`, without notes on version control.
pub fn view<'a>(s: &'a Snapshot, scope: &str, options: &ViewOptions) -> (r: Result<
    TreeView<'a>,
    FindError,
>)
    requires
        viewable(*s),
    ensures
        match (r, model::found(*s, scope@)) {
            (Ok(v), Ok(id)) => {
                &&& id < s.nodes@.len()
                &&& v.report_ready_ms is None
                &&& v.scope@ == path_of(s.table(), id)
                &&& v.snapshot_root@ == platform::shown(s.root.words())
                &&& *v.volume == s.volume
                &&& *v.stats == s.stats
                &&& all_show(v.rows@, view_lines(s.table(), *options, id))
                &&& text::views(v.notes@) == view_notes(options.git)
            },
            (Err(e), Err(f)) => e == f,
            _ => false,
        },
{
    let id: u32 = match s.find(scope) {
        Ok(id) => id,
        Err(e) => {
            return Err(e);
        },
    };
    let ghost t = s.table();
    let whole: u64 = size(s, id, options.metric);
    let mut rows: Vec<Row> = Vec::new();
    let first: Row = row(s, id, 0, whole, options);
    rows.push(first);
    let ghost top = seq![entry_line(t, id, 0, whole as nat, *options)];
    proof {
        let none = Seq::<Line>::empty();
        assert(all_show(Seq::<Row>::empty(), none));
        lemma_show_push(Seq::<Row>::empty(), none, first, top[0]);
        assert(none.push(top[0]) =~= top);
    }
    let lines: usize = if options.max_lines < 16 {
        16
    } else if options.max_lines > 2000 {
        2000
    } else {
        options.max_lines
    };
    if options.depth > 0 {
        let _left: usize = children(s, id, 1, whole, options, lines - 14, &mut rows);
        proof {
            assert(all_show(rows@, view_lines(t, *options, id)));
        }
    }
    let mut notes: Vec<String> = Vec::new();
    text::note(
        &mut notes,
        true,
        "Folded rows are exact sums, not sampled files. All entries remain in the snapshot for detail queries.",
    );
    text::note(
        &mut notes,
        true,
        "Allocated size is not a promise of reclaimed space (hardlinks, ReFS block clones, sparse/compressed files, filesystem metadata).",
    );
    text::note(
        &mut notes,
        true,
        "修改时间 UTC：文件=自身最后写入；目录/折叠行=后代文件的最晚(max，主要值)与最早(min)。不含目录本身时间；空目录 —，不完整 ?。",
    );
    text::note(
        &mut notes,
        options.git,
        "Git checks here are local/cached; git PATH --fetch is required for current remote proof. Ignored != safe to delete.",
    );
    assert(text::views(notes@) =~= view_notes(options.git));
    Ok(
        TreeView {
            report_ready_ms: None,
            scope: platform::display_path(&s.path(id).to_text()),
            snapshot_root: platform::display_path(&s.root.to_text()),
            volume: &s.volume,
            stats: &s.stats,
            rows,
            notes,
        },
    )
}

/// Every file has one time: its own last write.
pub open spec fn files_dated(nodes: Seq<Node>) -> bool {
    forall|i: int|
        0 <= i < nodes.len() && !(#[trigger] nodes[i]).dir() ==> nodes[i].oldest_modified_ms
            == nodes[i].latest_modified_ms
}

/// Adding up a table leaves every file its one time, where only directories have children.
pub proof fn law_files_keep_their_time(nodes: Seq<Node>, done: Seq<Node>)
    requires
        rollup::finished(nodes, done),
        files_dated(nodes),
        forall|k: int, p: int| #[trigger]
            tree::is_child(nodes, k, p) && 0 <= p < nodes.len() ==> nodes[p].dir(),
    ensures
        files_dated(done),
{
    let len = nodes.len() as int;
    let on = tree::everywhere(nodes.len());
    let t = tree::rolls(done);
    assert forall|i: int| 0 <= i < done.len() && !(#[trigger] done[i]).dir() implies done[i].oldest_modified_ms
        == done[i].latest_modified_ms by {
        assert(rollup::linked_as(nodes, done[i], i));
        let a = nodes[i].flags;
        let b = tree::gather(nodes, t, on, i, len).flags;
        assert((a | b) & DIR == 0 ==> a & DIR == 0) by (bit_vector);
        assert(!nodes[i].dir());
        lemma_childless(nodes, t, on, i, len);
    }
}

proof fn lemma_childless(nodes: Seq<Node>, t: Seq<tree::Roll>, on: Seq<bool>, p: int, n: int)
    requires
        forall|k: int| !#[trigger] tree::is_child(nodes, k, p),
    ensures
        tree::gather(nodes, t, on, p, n) == tree::roll_zero(),
    decreases n,
{
    if n > 1 {
        lemma_childless(nodes, t, on, p, n - 1);
    }
}

/// The first row is the scope itself with its exact totals, whatever the options are.
pub proof fn law_first_row_is_the_scope(rows: Seq<Row>, t: Table, options: ViewOptions, id: u32)
    requires
        all_show(rows, view_lines(t, options, id)),
    ensures
        rows.len() > 0,
        rows[0].depth == 0,
        rows[0].name@ == path_of(t, id),
        rows[0].logical_bytes == t.nodes[id as int].logical,
        rows[0].allocated_bytes == t.nodes[id as int].allocated,
        rows[0].files == t.nodes[id as int].files,
        rows[0].dirs == t.nodes[id as int].dirs,
        rows[0].share_part == rows[0].share_whole,
{
    assert(view_lines(t, options, id)[0] == entry_line(
        t,
        id,
        0,
        weight(t.nodes[id as int], options.metric) as nat,
        options,
    ));
    assert(shows(rows[0], view_lines(t, options, id)[0]));
}

/// A view leaves thirteen of the lines asked for to what stands around its rows.
pub proof fn law_rows_leave_room(rows: Seq<Row>, t: Table, options: ViewOptions, id: u32)
    requires
        all_show(rows, view_lines(t, options, id)),
    ensures
        rows.len() <= (if options.max_lines < 16 {
            16
        } else if options.max_lines > 2000 {
            2000
        } else {
            options.max_lines as int
        }) - 13,
{
    law_lines_stay_within_budget(
        t,
        options,
        id,
        1,
        weight(t.nodes[id as int], options.metric) as nat,
        line_budget(options.max_lines as nat),
    );
}

/// The time of a row is its latest, every kind of row says what its times mean, and the
/// row of a file has a single time.
pub proof fn law_rows_tell_their_times(rows: Seq<Row>, t: Table, options: ViewOptions, id: u32)
    requires
        tree::linked(t.nodes),
        id < t.nodes.len(),
        files_dated(t.nodes),
        all_show(rows, view_lines(t, options, id)),
    ensures
        forall|i: int|
            0 <= i < rows.len() ==> {
                let r = #[trigger] rows[i];
                &&& report::text_view(r.modified_utc) == report::text_view(r.latest_modified_utc)
                &&& r.modified_semantics@ == r.kind.meaning()
                &&& r.kind is File ==> report::text_view(r.oldest_modified_utc)
                    == report::text_view(r.latest_modified_utc) && r.oldest_modified_unix_ms
                    == r.latest_modified_unix_ms
            },
{
    let whole = weight(t.nodes[id as int], options.metric) as nat;
    let lines = view_lines(t, options, id);
    let rest = below(t, options, id, 1, whole, line_budget(options.max_lines as nat)).lines;
    if options.depth > 0 {
        lemma_below_dated(t, options, id, 1, whole, line_budget(options.max_lines as nat));
    }
    assert forall|i: int| 0 <= i < rows.len() implies shows(#[trigger] rows[i], lines[i]) && dated(
        lines[i],
    ) by {
        if i > 0 {
            assert(lines[i] == rest[i - 1]);
        }
    }
}

/// The line of a file has a single time.
spec fn dated(l: Line) -> bool {
    l.kind is File ==> l.oldest == l.latest
}

proof fn lemma_below_dated(
    t: Table,
    options: ViewOptions,
    id: u32,
    depth: nat,
    whole: nat,
    budget: nat,
)
    requires
        tree::linked(t.nodes),
        files_dated(t.nodes),
        id < t.nodes.len(),
    ensures
        forall|i: int|
            0 <= i < below(t, options, id, depth, whole, budget).lines.len() ==> dated(
                #[trigger] below(t, options, id, depth, whole, budget).lines[i],
            ),
    decreases
        options.depth + 1 - depth,
        worthy(t, options, listing(t, options.metric, id), 0) + 1,
{
    let all = listing(t, options.metric, id);
    assert(tree::chain_ok(t.nodes, id as int));
    lemma_listing(t, options.metric, id);
    lemma_worthy(t, options, all, 0);
    let worth = worthy(t, options, all, 0);
    lemma_entries_dated(t, options, all, worth, 0, depth, whole, budget);
    let part = entries(t, options, all, worth, 0, depth, whole, budget);
    let lines = below(t, options, id, depth, whole, budget).lines;
    assert forall|i: int| 0 <= i < lines.len() implies dated(#[trigger] lines[i]) by {
        if i < part.lines.len() {
            assert(lines[i] == part.lines[i]);
        } else {
            assert(lines[i].kind is Folded);
        }
    }
}

proof fn lemma_entries_dated(
    t: Table,
    options: ViewOptions,
    all: Seq<u32>,
    worth: nat,
    from: nat,
    depth: nat,
    whole: nat,
    budget: nat,
)
    requires
        tree::linked(t.nodes),
        files_dated(t.nodes),
        worth <= all.len(),
        forall|i: int| 0 <= i < all.len() ==> (#[trigger] all[i]) < t.nodes.len(),
    ensures
        forall|i: int|
            0 <= i < entries(t, options, all, worth, from, depth, whole, budget).lines.len()
                ==> dated(
                #[trigger] entries(t, options, all, worth, from, depth, whole, budget).lines[i],
            ),
    decreases options.depth + 1 - depth, worth - from,
{
    if from < worth && budget > 1 {
        let child = all[from as int];
        let line = entry_line(t, child, depth, whole, options);
        let reserve: nat = if from + 1 < worth || worth < all.len() {
            1
        } else {
            0
        };
        let deep = depth < options.depth && t.nodes[child as int].dir() && budget - 1 > reserve;
        let b = (budget - 1 - reserve) as nat;
        let inner = below(t, options, child, depth + 1, whole, b);
        let left = if deep {
            lemma_below_dated(t, options, child, depth + 1, whole, b);
            inner.left + reserve
        } else {
            (budget - 1) as nat
        };
        lemma_entries_dated(t, options, all, worth, from + 1, depth, whole, left);
        let next = entries(t, options, all, worth, from + 1, depth, whole, left);
        let nested = if deep {
            inner.lines
        } else {
            Seq::<Line>::empty()
        };
        let lines = entries(t, options, all, worth, from, depth, whole, budget).lines;
        assert(lines == seq![line] + nested + next.lines);
        assert forall|i: int| 0 <= i < lines.len() implies dated(#[trigger] lines[i]) by {
            if i == 0 {
                assert(lines[0] == line);
            } else if i <= nested.len() {
                assert(lines[i] == nested[i - 1]);
            } else {
                assert(lines[i] == next.lines[i - 1 - nested.len()]);
            }
        }
    }
}

/// What version control has to say of one row.
#[derive(Debug)]
pub enum GitAnswer {
    /// The path lies in no repository.
    Outside,
    /// It could not be told.
    Failed,
    /// The path is a repository; its summary, if there is one.
    Repository(Option<String>),
    /// The state of a path inside a repository.
    Inside(String),
}

/// The note that a row carries on version control.
pub fn git_note(answer: &GitAnswer) -> (r: Option<String>)
    ensures
        report::text_view(r) == (match *answer {
            GitAnswer::Outside => None,
            GitAnswer::Failed => Some("git:UNKNOWN"@),
            GitAnswer::Repository(Some(s)) => Some(s@),
            GitAnswer::Repository(None) => Some("git:UNKNOWN"@),
            GitAnswer::Inside(s) => Some("git:"@ + s@),
        }),
{
    match answer {
        GitAnswer::Outside => None,
        GitAnswer::Failed => Some("git:UNKNOWN".to_owned()),
        GitAnswer::Repository(Some(s)) => Some(s.clone()),
        GitAnswer::Repository(None) => Some("git:UNKNOWN".to_owned()),
        GitAnswer::Inside(s) => Some(text::glue("git:", s)),
    }
}

/// Figures that are their own and those of the children add up.
pub proof fn law_rolled_adds_up(nodes: Seq<Node>)
    requires
        tree::rolled(nodes),
    ensures
        adds_up(nodes),
{
    assert forall|p: int| 0 <= p < nodes.len() implies {
        let c = tree::count_over(tree::counts(nodes), #[trigger] tree::kids(nodes, p));
        c.allocated <= u64::MAX && c.logical <= u64::MAX
    } by {
        assert(tree::rolled_at(nodes, p));
    }
}

fn kids_add_up(s: &Snapshot, id: u32) -> (r: bool)
    requires
        tree::linked(s.nodes@),
        id < s.nodes.len(),
    ensures
        r == ({
            let c = tree::count_over(tree::counts(s.nodes@), tree::kids(s.nodes@, id as int));
            c.allocated <= u64::MAX && c.logical <= u64::MAX
        }),
{
    proof {
        assert(tree::chain_ok(s.nodes@, id as int));
        tree::lemma_kids(s.nodes@, id as int);
    }
    let ids: Vec<u32> = s.child_ids(id);
    let ghost c = tree::counts(s.nodes@);
    let mut allocated: u64 = 0;
    let mut logical: u64 = 0;
    let mut i: usize = 0;
    assert(ids@.subrange(0, 0) =~= Seq::<u32>::empty());
    while i < ids.len()
        invariant
            i <= ids@.len(),
            c == tree::counts(s.nodes@),
            ids@ == tree::kids(s.nodes@, id as int),
            forall|k: int| 0 <= k < ids@.len() ==> (#[trigger] ids@[k]) < s.nodes@.len(),
            tree::count_over(c, ids@.subrange(0, i as int)).allocated == allocated,
            tree::count_over(c, ids@.subrange(0, i as int)).logical == logical,
        decreases ids@.len() - i,
    {
        let n: Node = s.nodes[ids[i] as usize];
        proof {
            let now = ids@.subrange(0, i + 1);
            let rest = ids@.subrange(i + 1, ids@.len() as int);
            assert(now.drop_last() =~= ids@.subrange(0, i as int));
            assert(now.last() == ids@[i as int]);
            assert(ids@ =~= now + rest);
            lemma_count_concat(c, now, rest);
        }
        match (allocated.checked_add(n.allocated), logical.checked_add(n.logical)) {
            (Some(a), Some(l)) => {
                allocated = a;
                logical = l;
            },
            _ => {
                return false;
            },
        }
        i += 1;
    }
    assert(ids@.subrange(0, i as int) =~= ids@);
    true
}

/// Whether a valid snapshot can be viewed: the sums over the children of each node fit.
pub fn can_view(s: &Snapshot) -> (r: bool)
    requires
        s.valid(),
    ensures
        r == adds_up(s.nodes@),
        r ==> viewable(*s),
{
    let n: usize = s.nodes.len();
    let mut i: u32 = 0;
    while (i as usize) < n
        invariant
            i <= n,
            n == s.nodes@.len(),
            tree::linked(s.nodes@),
            forall|p: int|
                0 <= p < i ==> {
                    let c = tree::count_over(
                        tree::counts(s.nodes@),
                        #[trigger] tree::kids(s.nodes@, p),
                    );
                    c.allocated <= u64::MAX && c.logical <= u64::MAX
                },
        decreases n - i,
    {
        if !kids_add_up(s, i) {
            return false;
        }
        i += 1;
    }
    proof {
        assert forall|k: int| 0 <= k < s.nodes@.len() implies (#[trigger] s.nodes@[k]).name_start
            + s.nodes@[k].name_len <= s.names@.len() && (s.nodes@[k].parent == model::NONE
            || s.nodes@[k].parent < s.nodes@.len()) by {
            assert(links::node_fault(s.nodes@, s.names@.len(), k as usize) is None);
        }
    }
    true
}

/// The entries of a directory are listed by size, the largest first, each of its children
/// once and nothing else.
pub proof fn law_larger_entries_come_first(t: Table, metric: Metric, id: u32, i: int, j: int)
    requires
        t.nodes.len() <= u32::MAX,
        id < t.nodes.len(),
        tree::chain_ok(t.nodes, id as int),
        0 <= i < j < listing(t, metric, id).len(),
    ensures
        ({
            let a = t.nodes[listing(t, metric, id)[i] as int];
            let b = t.nodes[listing(t, metric, id)[j] as int];
            &&& metric is Allocated ==> a.allocated >= b.allocated
            &&& metric is Logical ==> a.logical >= b.logical
        }),
        listing(t, metric, id).len() == tree::kids(t.nodes, id as int).len(),
        forall|k: u32| #[trigger]
            listing(t, metric, id).contains(k) <==> tree::kids(t.nodes, id as int).contains(k),
{
    let ks = tree::kids(t.nodes, id as int);
    let num = order::numbers(ks.len());
    let le = |a: usize, b: usize| ahead(t, metric, ks, a, b);
    tree::lemma_kids(t.nodes, id as int);
    lemma_ahead_orders(t, metric, ks);
    num.lemma_sort_by_ensures(le);
    let q = num.sort_by(le);
    lemma_listing(t, metric, id);
    assert(le(q[i], q[j]));
    let all = listing(t, metric, id);
    assert forall|k: u32| #[trigger] all.contains(k) <==> ks.contains(k) by {
        broadcast use vstd::seq_lib::group_to_multiset_ensures;

        assert(all.to_multiset().contains(k) <==> ks.to_multiset().contains(k));
    }
}

/// What is shown of a directory by itself: no more entries than wanted, none below the size
/// wanted, and none is left out that is neither too small nor beyond that number.
pub proof fn law_shown_entries_are_worth_it(
    t: Table,
    options: ViewOptions,
    all: Seq<u32>,
    from: nat,
    i: int,
)
    requires
        from <= all.len(),
        from <= options.top,
    ensures
        ({
            let w = worthy(t, options, all, from);
            &&& from <= w <= all.len()
            &&& w <= options.top
            &&& from <= i < w && options.metric is Allocated ==> t.nodes[all[i] as int].allocated
                >= options.min_bytes
            &&& from <= i < w && options.metric is Logical ==> t.nodes[all[i] as int].logical
                >= options.min_bytes
            &&& w < all.len() && w < options.top && options.metric is Allocated
                ==> t.nodes[all[w as int] as int].allocated < options.min_bytes
            &&& w < all.len() && w < options.top && options.metric is Logical
                ==> t.nodes[all[w as int] as int].logical < options.min_bytes
        }),
    decreases all.len() - from,
{
    if from < all.len() && from < options.top && weight(
        t.nodes[all[from as int] as int],
        options.metric,
    ) >= options.min_bytes {
        law_shown_entries_are_worth_it(t, options, all, from + 1, i);
    }
}

/// A line tells of its entry the sizes, counts and times that the scan found; it is a
/// directory's if the entry is one, has a path unless the entry only stands for what has
/// none, and its time is complete unless something below is unknown.
pub proof fn law_lines_tell_what_was_found(
    t: Table,
    id: u32,
    depth: nat,
    whole: nat,
    options: ViewOptions,
)
    ensures
        ({
            let n = t.nodes[id as int];
            let l = entry_line(t, id, depth, whole, options);
            &&& l.kind == (if n.flags & 1 != 0 {
                RowKind::Directory
            } else {
                RowKind::File
            })
            &&& l.path is None <==> n.flags & 32 != 0
            &&& l.path is Some ==> l.path->0 == platform::shown(
                model::words_at(t.root, t.nodes, t.names, id),
            )
            &&& l.sum.allocated == n.allocated && l.sum.logical == n.logical
            &&& l.sum.files == n.files && l.sum.dirs == n.dirs
            &&& l.oldest == n.oldest_modified_ms && l.latest == n.latest_modified_ms
            &&& l.complete <==> n.flags & 64 == 0 && n.flags & 16 == 0
            &&& options.metric is Allocated ==> l.part == n.allocated
            &&& options.metric is Logical ==> l.part == n.logical
            &&& l.whole == whole && l.depth == depth && l.bits == n.flags
            &&& depth >= options.depth ==> l.folded == tree::kids(t.nodes, id as int).len()
            &&& depth < options.depth ==> l.folded == 0
        }),
{
}

/// A folded line tells the sums over the entries it stands for, and of their times the
/// oldest and the latest that are known.
pub proof fn law_folded_lines_tell_sums(
    nodes: Seq<Node>,
    ids: Seq<u32>,
    depth: nat,
    whole: nat,
    metric: Metric,
    more: u32,
)
    requires
        more < nodes.len(),
    ensures
        ({
            let a = folded_line(nodes, ids, depth, whole, metric);
            let b = folded_line(nodes, ids.push(more), depth, whole, metric);
            let n = nodes[more as int];
            &&& b.sum.allocated == a.sum.allocated + n.allocated
            &&& b.sum.logical == a.sum.logical + n.logical
            &&& b.sum.files == a.sum.files + n.files
            &&& b.sum.dirs == a.sum.dirs + n.dirs
            &&& b.folded == a.folded + 1
            &&& metric is Allocated ==> a.part == a.sum.allocated
            &&& metric is Logical ==> a.part == a.sum.logical
            &&& a.path is None && a.kind is Folded
            &&& n.oldest_modified_ms != i64::MIN ==> b.oldest != i64::MIN && b.oldest
                <= n.oldest_modified_ms
            &&& n.latest_modified_ms != i64::MIN ==> b.latest >= n.latest_modified_ms
            &&& a.oldest != i64::MIN ==> b.oldest != i64::MIN && b.oldest <= a.oldest
            &&& a.latest != i64::MIN ==> b.latest >= a.latest
            &&& b.complete <==> a.complete && n.flags & 64 == 0 && n.flags & 16 == 0
        }),
        folded_line(nodes, Seq::empty(), depth, whole, metric).sum.allocated == 0,
        folded_line(nodes, Seq::empty(), depth, whole, metric).sum.logical == 0,
{
    let all = ids.push(more);
    assert(all.drop_last() =~= ids);
    let a = folded_line(nodes, ids, depth, whole, metric);
    let b = folded_line(nodes, all, depth, whole, metric);
    let n = nodes[more as int];
    assert(b.complete <==> a.complete && times_complete(n)) by {
        if b.complete {
            assert(times_complete(nodes[all[ids.len() as int] as int]));
            assert forall|i: int| 0 <= i < ids.len() implies times_complete(
                nodes[(#[trigger] ids[i]) as int],
            ) by {
                assert(times_complete(nodes[all[i] as int]));
            }
        }
        if a.complete && times_complete(n) {
            assert forall|i: int| 0 <= i < all.len() implies times_complete(
                nodes[(#[trigger] all[i]) as int],
            ) by {
                if i < ids.len() {
                    assert(times_complete(nodes[ids[i] as int]));
                }
            }
        }
    }
}

/// Nothing is hidden twice or lost: what is not shown by itself is what is folded away.
pub proof fn law_the_rest_is_folded_away(all: Seq<u32>, worth: nat, shown: nat, i: int)
    requires
        shown <= worth <= all.len(),
        0 <= i < all.len(),
    ensures
        folded_away(all, worth, shown).len() == all.len() - shown,
        i >= shown ==> folded_away(all, worth, shown).contains(all[i]),
{
    let f = folded_away(all, worth, shown);
    if i >= worth {
        assert(f[i - worth] == all[i]);
    } else if i >= shown {
        assert(f[(all.len() - worth) + (i - shown)] == all[i]);
    }
}

/// A row shows its line: sizes, counts, times and place as they are.
pub proof fn law_rows_show_their_lines(r: Row, l: Line)
    requires
        shows(r, l),
    ensures
        r.allocated_bytes == l.sum.allocated,
        r.logical_bytes == l.sum.logical,
        r.files == l.sum.files,
        r.dirs == l.sum.dirs,
        r.depth == l.depth,
        r.kind == l.kind,
        r.name@ == l.name,
        r.modified_complete == l.complete,
        r.share_part == l.part,
        r.share_whole == l.whole,
        r.latest_modified_unix_ms is None <==> l.latest == i64::MIN,
        r.latest_modified_unix_ms is Some ==> r.latest_modified_unix_ms->0 == l.latest,
        r.oldest_modified_unix_ms is Some ==> r.oldest_modified_unix_ms->0 == l.oldest,
{
}

/// A view that looked at repositories has one note more.
pub proof fn law_repositories_add_a_note(git: bool)
    ensures
        view_notes(git).len() == view_notes(!git).len() + (if git {
            1int
        } else {
            -1
        }),
        view_notes(false).is_prefix_of(view_notes(git)),
{
    let n = view_notes(false).len() as int;
    assert(view_notes(git).subrange(0, n) =~= view_notes(false));
}

} // verus!
