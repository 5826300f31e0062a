//! A view as text: one line per row, and notes.
use crate::model::ScanStats;
use crate::platform::VolumeInfo;
use crate::report;
use crate::text;
use crate::treemap;
use crate::treemap::{Row, RowKind, TreeView, ViewOptions};
use vstd::prelude::*;
use vstd::string::*;

verus! {

/// A row's share of the scope: the percentage in tenths, and the bars that show it, of which
/// there are ten at most.
#[derive(Clone, Copy, Debug)]
pub struct Share {
    pub tenths: u64,
    pub bars: usize,
}

/// The percentage with one decimal.
pub open spec fn percent_of(share: Share) -> Seq<char> {
    text::decimal_of(share.tenths as nat / 10) + "."@ + text::decimal_of(share.tenths as nat % 10)
}

fn percent(share: &Share) -> (r: String)
    ensures
        r@ == percent_of(*share),
{
    let head: String = text::glue(&text::decimal(share.tenths / 10), ".");
    text::glue(&head, &text::decimal(share.tenths % 10))
}

/// How many bars are drawn.
pub open spec fn bars_of(share: Share) -> nat {
    if share.bars < 10 {
        share.bars as nat
    } else {
        10
    }
}

pub open spec fn head_of(scope: Seq<char>, filesystem: Seq<char>, backend: Seq<char>) -> Seq<char> {
    "DISK-CLEANER TREE v3 | scope="@ + report::safe_of(scope) + " | fs="@ + filesystem
        + " | backend="@ + backend + "\n"@
}

fn head(scope: &str, filesystem: &str, backend: &str) -> (r: String)
    ensures
        r@ == head_of(scope@, filesystem@, backend@),
{
    let mut out: String = "DISK-CLEANER TREE v3 | scope=".to_owned();
    out.append(&report::safe_text(scope));
    out.append(" | fs=");
    out.append(filesystem);
    out.append(" | backend=");
    out.append(backend);
    out.append("\n");
    out
}

pub open spec fn stats_of(s: ScanStats) -> Seq<char> {
    "扫描/汇总="@ + text::decimal_of(s.elapsed_ms as nat) + " ms  records="@ + text::decimal_of(
        s.records_read as nat,
    ) + "  threads="@ + text::decimal_of(s.threads as nat) + "  peak="@ + report::human_text(
        s.peak_working_set_bytes as int,
    ) + "  index="@ + report::human_text(s.index_bytes as int) + "  complete="@ + text::yes_no(
        s.complete,
    ) + "  errors="@ + text::decimal_of(s.errors as nat) + "\n"@
}

fn stats(s: &ScanStats) -> (r: String)
    ensures
        r@ == stats_of(*s),
{
    let mut out: String = "扫描/汇总=".to_owned();
    out.append(&text::decimal(s.elapsed_ms));
    out.append(" ms  records=");
    out.append(&text::decimal(s.records_read));
    out.append("  threads=");
    out.append(&text::decimal(s.threads as u64));
    out.append("  peak=");
    out.append(&report::human(s.peak_working_set_bytes));
    out.append("  index=");
    out.append(&report::human(s.index_bytes));
    out.append("  complete=");
    out.append(text::word(s.complete));
    out.append("  errors=");
    out.append(&text::decimal(s.errors));
    out.append("\n");
    out
}

pub open spec fn used_bytes(v: VolumeInfo) -> int {
    if v.free_bytes <= v.total_bytes {
        v.total_bytes - v.free_bytes
    } else {
        0
    }
}

pub open spec fn volume_of(v: VolumeInfo, ready: Option<u64>) -> Seq<char> {
    "volume: total="@ + report::human_text(v.total_bytes as int) + "  used="@ + report::human_text(
        used_bytes(v),
    ) + "  free="@ + report::human_text(v.free_bytes as int) + " | 报告就绪="@ + (match ready {
        Some(ms) => text::decimal_of(ms as nat) + " ms"@,
        None => "未计时"@,
    }) + "（含索引 I/O、Git；不含最终格式化/终端输出）\n"@
}

fn volume(v: &VolumeInfo, ready: Option<u64>) -> (r: String)
    ensures
        r@ == volume_of(*v, ready),
{
    let mut out: String = "volume: total=".to_owned();
    out.append(&report::human(v.total_bytes));
    out.append("  used=");
    out.append(&report::human(v.total_bytes.saturating_sub(v.free_bytes)));
    out.append("  free=");
    out.append(&report::human(v.free_bytes));
    out.append(" | 报告就绪=");
    let when: String = match ready {
        Some(ms) => text::glue(&text::decimal(ms), " ms"),
        None => "未计时".to_owned(),
    };
    out.append(&when);
    out.append("（含索引 I/O、Git；不含最终格式化/终端输出）\n");
    out
}

pub open spec fn column_heads() -> Seq<char> {
    "    ALLOCATED        LOGICAL  SCOPE%  SHARE           FILES  LATEST UTC (max)      OLDEST UTC (min)      TREE / EVIDENCE\n"@
}

pub open spec fn bar_of(bars: nat, ascii: bool) -> Seq<char> {
    text::repeated(
        if ascii {
            "#"@
        } else {
            "█"@
        },
        bars,
    ) + text::repeated("·"@, (10 - bars) as nat)
}

pub open spec fn mark_of(depth: nat, ascii: bool) -> Seq<char> {
    if depth == 0 {
        ""@
    } else if ascii {
        "+- "@
    } else {
        "├─ "@
    }
}

/// What stands behind the name of a row.
pub open spec fn evidence_of(r: Row) -> Seq<char> {
    let flags = if r.flags@.len() > 0 {
        " ["@ + text::joined_by(text::views(r.flags@), ","@) + "]"@
    } else {
        ""@
    };
    let folded = if r.kind == RowKind::Folded {
        " ("@ + text::decimal_of(r.files as nat) + " files, "@ + text::decimal_of(r.dirs as nat)
            + " dirs; use detail)"@
    } else if r.folded_children > 0 {
        " [+"@ + text::decimal_of(r.folded_children as nat) + " children; use detail]"@
    } else {
        ""@
    };
    let git = match r.git {
        Some(g) => " {"@ + report::safe_of(g@) + "}"@,
        None => ""@,
    };
    flags + folded + git
}

fn evidence(r: &Row) -> (e: String)
    ensures
        e@ == evidence_of(*r),
{
    let mut flags: String = "".to_owned();
    if r.flags.len() > 0 {
        flags = " [".to_owned();
        flags.append(&text::join_by(&r.flags, ","));
        flags.append("]");
    }
    let mut folded: String = "".to_owned();
    match r.kind {
        RowKind::Folded => {
            folded = " (".to_owned();
            folded.append(&text::decimal(r.files));
            folded.append(" files, ");
            folded.append(&text::decimal(r.dirs));
            folded.append(" dirs; use detail)");
        },
        _ => {
            if r.folded_children > 0 {
                folded = " [+".to_owned();
                folded.append(&text::decimal(r.folded_children as u64));
                folded.append(" children; use detail]");
            }
        },
    }
    let mut git: String = "".to_owned();
    if let Some(g) = &r.git {
        git = " {".to_owned();
        git.append(&report::safe_text(g));
        git.append("}");
    }
    flags.append(&folded);
    flags.append(&git);
    flags
}

/// One row as a line of columns.
pub open spec fn row_of(r: Row, share: Share, ascii: bool) -> Seq<char> {
    text::right_aligned(report::human_text(r.allocated_bytes as int), 13) + "  "@
        + text::right_aligned(report::human_text(r.logical_bytes as int), 13) + "  "@
        + text::right_aligned(percent_of(share), 5) + "%  "@ + bar_of(bars_of(share), ascii) + "  "@
        + text::right_aligned(text::decimal_of(r.files as nat), 9) + "  "@ + text::left_aligned(
        report::column_of(report::text_view(r.latest_modified_utc), r.modified_complete),
        20,
    ) + "  "@ + text::left_aligned(
        report::column_of(report::text_view(r.oldest_modified_utc), r.modified_complete),
        20,
    ) + "  "@ + text::repeated("  "@, r.depth as nat) + mark_of(r.depth as nat, ascii)
        + report::safe_of(r.name@) + (if r.kind == RowKind::Directory {
        "/"@
    } else {
        ""@
    }) + evidence_of(r) + "\n"@
}

fn as_text(s: &Option<String>) -> (r: Option<&str>)
    ensures
        match (r, *s) {
            (Some(a), Some(b)) => a@ == b@,
            (None, None) => true,
            _ => false,
        },
{
    match s {
        Some(t) => Some(t.as_str()),
        None => None,
    }
}

fn row(r: &Row, share: &Share, ascii: bool) -> (e: String)
    requires
        treemap::times_dateable(*r),
    ensures
        e@ == row_of(*r, *share, ascii),
{
    let mut out: String = text::align_right(&report::human(r.allocated_bytes), 13);
    out.append("  ");
    out.append(&text::align_right(&report::human(r.logical_bytes), 13));
    out.append("  ");
    out.append(&text::align_right(&percent(share), 5));
    out.append("%  ");
    let bars: usize = if share.bars < 10 {
        share.bars
    } else {
        10
    };
    let mut bar: String = text::repeat(
        if ascii {
            "#"
        } else {
            "█"
        },
        bars,
    );
    bar.append(&text::repeat("·", 10 - bars));
    out.append(&bar);
    out.append("  ");
    out.append(&text::align_right(&text::decimal(r.files), 9));
    out.append("  ");
    out.append(
        &text::align_left(
            &report::date_column(as_text(&r.latest_modified_utc), r.modified_complete),
            20,
        ),
    );
    out.append("  ");
    out.append(
        &text::align_left(
            &report::date_column(as_text(&r.oldest_modified_utc), r.modified_complete),
            20,
        ),
    );
    out.append("  ");
    out.append(&text::repeat("  ", r.depth));
    out.append(
        if r.depth == 0 {
            ""
        } else if ascii {
            "+- "
        } else {
            "├─ "
        },
    );
    out.append(&report::safe_text(&r.name));
    out.append(
        if matches!(r.kind, RowKind::Directory) {
            "/"
        } else {
            ""
        },
    );
    out.append(&evidence(r));
    out.append("\n");
    out
}

pub open spec fn rows_of(rows: Seq<Row>, shares: Seq<Share>, ascii: bool) -> Seq<char>
    decreases rows.len(),
{
    if rows.len() == 0 {
        Seq::empty()
    } else {
        rows_of(rows.drop_last(), shares, ascii) + row_of(
            rows.last(),
            shares[rows.len() - 1],
            ascii,
        )
    }
}

#[verifier::spinoff_prover]
#[verifier::rlimit(40)]
fn add_rows(out: &mut String, rows: &Vec<Row>, shares: &[Share], ascii: bool)
    requires
        shares@.len() == rows@.len(),
        forall|i: int| 0 <= i < rows@.len() ==> treemap::times_dateable(#[trigger] rows@[i]),
    ensures
        final(out)@ == old(out)@ + rows_of(rows@, shares@, ascii),
{
    let ghost had = out@;
    let mut i: usize = 0;
    assert(rows@.subrange(0, 0) =~= Seq::<Row>::empty());
    assert(had + Seq::<char>::empty() =~= had);
    while i < rows.len()
        invariant
            i <= rows@.len(),
            shares@.len() == rows@.len(),
            forall|k: int| 0 <= k < rows@.len() ==> treemap::times_dateable(#[trigger] rows@[k]),
            out@ == had + rows_of(rows@.subrange(0, i as int), shares@, ascii),
        decreases rows@.len() - i,
    {
        let line: String = row(&rows[i], &shares[i], ascii);
        out.append(&line);
        i += 1;
        proof {
            let now = rows@.subrange(0, i as int);
            assert(now.drop_last() =~= rows@.subrange(0, i - 1));
            assert(now.last() == rows@[i - 1]);
            assert(rows_of(now, shares@, ascii) == rows_of(now.drop_last(), shares@, ascii)
                + line@);
            assert(out@ =~= had + rows_of(now, shares@, ascii));
        }
    }
    assert(rows@.subrange(0, i as int) =~= rows@);
}

pub open spec fn notes_of(notes: Seq<Seq<char>>) -> Seq<char>
    decreases notes.len(),
{
    if notes.len() == 0 {
        Seq::empty()
    } else {
        notes_of(notes.drop_last()) + "NOTE: "@ + report::safe_of(notes.last()) + "\n"@
    }
}

fn add_notes(out: &mut String, notes: &Vec<String>, n: usize)
    requires
        n <= notes@.len(),
    ensures
        final(out)@ == old(out)@ + notes_of(text::views(notes@).subrange(0, n as int)),
{
    let ghost had = out@;
    let ghost all = text::views(notes@);
    let mut i: usize = 0;
    assert(all.subrange(0, 0) =~= Seq::<Seq<char>>::empty());
    assert(had + Seq::<char>::empty() =~= had);
    while i < n
        invariant
            i <= n <= notes@.len(),
            all == text::views(notes@),
            out@ == had + notes_of(all.subrange(0, i as int)),
        decreases n - i,
    {
        out.append("NOTE: ");
        out.append(&report::safe_text(&notes[i]));
        out.append("\n");
        i += 1;
        proof {
            let now = all.subrange(0, i as int);
            assert(now.drop_last() =~= all.subrange(0, i - 1));
            assert(now.last() == notes@[i - 1]@);
            assert(out@ =~= had + notes_of(now));
        }
    }
}

pub open spec fn warnings_of(w: Seq<Seq<char>>) -> Seq<char> {
    if w.len() > 4 {
        notes_of(w.subrange(0, 4)) + "NOTE: "@ + text::decimal_of((w.len() - 4) as nat)
            + " additional diagnostics in --json/snapshot\n"@
    } else {
        notes_of(w)
    }
}

fn add_warnings(out: &mut String, warnings: &Vec<String>)
    ensures
        final(out)@ == old(out)@ + warnings_of(text::views(warnings@)),
{
    let ghost before = out@;
    let ghost w = text::views(warnings@);
    let n: usize = warnings.len();
    if n > 4 {
        add_notes(out, warnings, 4);
        out.append("NOTE: ");
        out.append(&text::decimal((n - 4) as u64));
        out.append(" additional diagnostics in --json/snapshot\n");
        assert(out@ =~= before + warnings_of(w));
    } else {
        add_notes(out, warnings, n);
        assert(w.subrange(0, n as int) =~= w);
    }
}

/// The whole report.
pub open spec fn text_of(v: TreeView<'_>, options: ViewOptions, shares: Seq<Share>) -> Seq<char> {
    head_of(v.scope@, v.volume.filesystem@, v.stats.backend@) + stats_of(*v.stats) + volume_of(
        *v.volume,
        v.report_ready_ms,
    ) + column_heads() + rows_of(v.rows@, shares, options.ascii) + notes_of(
        text::views(v.notes@),
    ) + warnings_of(text::views(v.stats.warnings@))
}

/// The report on a view; `shares` gives the share of each row.
pub fn text(view: &TreeView<'_>, options: &ViewOptions, shares: &[Share]) -> (r: String)
    requires
        shares@.len() == view.rows@.len(),
        forall|i: int| 0 <= i < view.rows@.len() ==> treemap::times_dateable(#[trigger] view.rows@[i]),
    ensures
        r@ == text_of(*view, *options, shares@),
{
    let mut out: String = head(&view.scope, &view.volume.filesystem, &view.stats.backend);
    out.append(&stats(view.stats));
    out.append(&volume(view.volume, view.report_ready_ms));
    out.append("    ALLOCATED        LOGICAL  SCOPE%  SHARE           FILES  LATEST UTC (max)      OLDEST UTC (min)      TREE / EVIDENCE\n");
    add_rows(&mut out, &view.rows, shares, options.ascii);
    add_notes(&mut out, &view.notes, view.notes.len());
    proof {
        let all = text::views(view.notes@);
        assert(all.subrange(0, view.notes@.len() as int) =~= all);
    }
    add_warnings(&mut out, &view.stats.warnings);
    out
}

/// What is used of a volume is what is not free.
pub proof fn law_used_and_free_make_the_volume(v: VolumeInfo)
    ensures
        v.free_bytes <= v.total_bytes ==> used_bytes(v) + v.free_bytes == v.total_bytes,
        v.free_bytes > v.total_bytes ==> used_bytes(v) == 0,
{
}

/// A bar is always ten wide, with as many marks as the share has tenths.
pub proof fn law_bars_are_ten_wide(share: Share, ascii: bool)
    ensures
        bar_of(bars_of(share), ascii).len() == 10,
        bars_of(share) <= 10,
        share.bars <= 10 ==> bars_of(share) == share.bars,
{
    let n = bars_of(share);
    reveal_strlit("#");
    reveal_strlit("█");
    reveal_strlit("·");
    lemma_repeated_once("#"@, n);
    lemma_repeated_once("█"@, n);
    lemma_repeated_once("·"@, (10 - n) as nat);
}

proof fn lemma_repeated_once(s: Seq<char>, n: nat)
    requires
        s.len() == 1,
    ensures
        text::repeated(s, n).len() == n,
    decreases n,
{
    if n > 0 {
        lemma_repeated_once(s, (n - 1) as nat);
    }
}

/// A percentage of so many whole and so many tenths is shown as both, with a point between.
pub proof fn law_percentages_are_shown_in_tenths(share: Share, whole: nat, tenth: nat)
    requires
        share.tenths == 10 * whole + tenth,
        tenth < 10,
    ensures
        percent_of(share) == text::decimal_of(whole) + "."@ + text::decimal_of(tenth),
{
    assert(share.tenths as nat / 10 == whole);
    assert(share.tenths as nat % 10 == tenth);
}

/// The columns of a row up to the number of files.
proof fn lemma_first_columns(
    allocated: Seq<char>,
    logical: Seq<char>,
    percent: Seq<char>,
    bar: Seq<char>,
    files: Seq<char>,
) -> (s: Seq<char>)
    ensures
        s == allocated + "  "@ + logical + "  "@ + percent + "%  "@ + bar + "  "@ + files,
        allocated.is_prefix_of(s),
        text::holds(s, "  "@ + logical),
        text::holds(s, percent + "%  "@),
        text::holds(s, bar),
        text::holds(s, files),
{
    let none = Seq::<char>::empty();
    let gap = "  "@;
    let a = allocated + gap + logical;
    let b = a + gap;
    let c = b + percent + "%  "@;
    let d = c + bar;
    let e = d + gap;
    let f = e + files;
    assert(f.subrange(0, allocated.len() as int) =~= allocated);
    assert(text::holds(f, gap + logical)) by {
        assert(a =~= allocated + (gap + logical));
        text::lemma_holds_self(allocated, gap + logical, none);
        text::lemma_holds(none, a, gap, gap + logical);
        text::lemma_holds(none, b, percent, gap + logical);
        text::lemma_holds(none, b + percent, "%  "@, gap + logical);
        text::lemma_holds(none, c, bar, gap + logical);
        text::lemma_holds(none, d, gap, gap + logical);
        text::lemma_holds(none, e, files, gap + logical);
    }
    assert(text::holds(f, percent + "%  "@)) by {
        let part = percent + "%  "@;
        assert(c =~= b + part);
        text::lemma_holds_self(b, part, none);
        text::lemma_holds(none, c, bar, part);
        text::lemma_holds(none, d, gap, part);
        text::lemma_holds(none, e, files, part);
    }
    assert(text::holds(f, bar)) by {
        text::lemma_holds_self(c, bar, none);
        text::lemma_holds(none, d, gap, bar);
        text::lemma_holds(none, e, files, bar);
    }
    text::lemma_holds_self(e, files, none);
    f
}

/// A row begins with the space that its entry takes, and tells its length, its share, the
/// number of its files, its name and all evidence of it.
#[verifier::rlimit(40)]
pub proof fn law_rows_are_told_in_full(r: Row, share: Share, ascii: bool)
    ensures
        ({
            let s = row_of(r, share, ascii);
            &&& text::right_aligned(report::human_text(r.allocated_bytes as int), 13).is_prefix_of(s)
            &&& text::holds(
                s,
                "  "@ + text::right_aligned(report::human_text(r.logical_bytes as int), 13),
            )
            &&& text::holds(s, text::right_aligned(percent_of(share), 5) + "%  "@)
            &&& text::holds(s, bar_of(bars_of(share), ascii))
            &&& text::holds(s, text::right_aligned(text::decimal_of(r.files as nat), 9))
            &&& text::holds(s, report::safe_of(r.name@))
            &&& text::holds(s, evidence_of(r))
        }),
{
    let none = Seq::<char>::empty();
    let gap = "  "@;
    let allocated = text::right_aligned(report::human_text(r.allocated_bytes as int), 13);
    let logical = text::right_aligned(report::human_text(r.logical_bytes as int), 13);
    let percent = text::right_aligned(percent_of(share), 5);
    let bar = bar_of(bars_of(share), ascii);
    let files = text::right_aligned(text::decimal_of(r.files as nat), 9);
    let latest = text::left_aligned(
        report::column_of(report::text_view(r.latest_modified_utc), r.modified_complete),
        20,
    );
    let oldest = text::left_aligned(
        report::column_of(report::text_view(r.oldest_modified_utc), r.modified_complete),
        20,
    );
    let shift = text::repeated("  "@, r.depth as nat);
    let mark = mark_of(r.depth as nat, ascii);
    let name = report::safe_of(r.name@);
    let slash = if r.kind == RowKind::Directory {
        "/"@
    } else {
        ""@
    };
    let f = lemma_first_columns(allocated, logical, percent, bar, files);
    lemma_last_columns(f, latest, oldest, shift, mark, name, slash, evidence_of(r), gap + logical);
    lemma_last_columns(
        f,
        latest,
        oldest,
        shift,
        mark,
        name,
        slash,
        evidence_of(r),
        percent + "%  "@,
    );
    lemma_last_columns(f, latest, oldest, shift, mark, name, slash, evidence_of(r), bar);
    lemma_last_columns(f, latest, oldest, shift, mark, name, slash, evidence_of(r), files);
    let s = row_of(r, share, ascii);
    assert(s == f + gap + latest + gap + oldest + gap + shift + mark + name + slash + evidence_of(r)
        + "\n"@);
    assert(s.subrange(0, allocated.len() as int) =~= f.subrange(0, allocated.len() as int));
}

proof fn lemma_last_columns(
    f: Seq<char>,
    latest: Seq<char>,
    oldest: Seq<char>,
    shift: Seq<char>,
    mark: Seq<char>,
    name: Seq<char>,
    slash: Seq<char>,
    evidence: Seq<char>,
    part: Seq<char>,
)
    requires
        text::holds(f, part),
    ensures
        ({
            let s = f + "  "@ + latest + "  "@ + oldest + "  "@ + shift + mark + name + slash
                + evidence + "\n"@;
            &&& text::holds(s, part)
            &&& text::holds(s, name)
            &&& text::holds(s, evidence)
            &&& s.len() >= f.len()
            &&& s.subrange(0, f.len() as int) == f
        }),
{
    let none = Seq::<char>::empty();
    let gap = "  "@;
    let a = f + gap + latest;
    let b = a + gap + oldest;
    let c = b + gap + shift + mark;
    let d = c + name;
    let e = d + slash;
    let g = e + evidence;
    let s = g + "\n"@;
    assert(text::holds(s, part)) by {
        text::lemma_holds(none, f, gap, part);
        text::lemma_holds(none, f + gap, latest, part);
        text::lemma_holds(none, a, gap, part);
        text::lemma_holds(none, a + gap, oldest, part);
        text::lemma_holds(none, b, gap, part);
        text::lemma_holds(none, b + gap, shift, part);
        text::lemma_holds(none, b + gap + shift, mark, part);
        text::lemma_holds(none, c, name, part);
        text::lemma_holds(none, d, slash, part);
        text::lemma_holds(none, e, evidence, part);
        text::lemma_holds(none, g, "\n"@, part);
    }
    assert(text::holds(s, name)) by {
        text::lemma_holds_self(c, name, none);
        text::lemma_holds(none, d, slash, name);
        text::lemma_holds(none, e, evidence, name);
        text::lemma_holds(none, g, "\n"@, name);
    }
    assert(text::holds(s, evidence)) by {
        text::lemma_holds_self(e, evidence, none);
        text::lemma_holds(none, g, "\n"@, evidence);
    }
    assert(s.subrange(0, f.len() as int) =~= f);
}

#[verifier::spinoff_prover]
#[verifier::rlimit(80)]
proof fn lemma_rows_of(rows: Seq<Row>, shares: Seq<Share>, ascii: bool, i: int)
    requires
        0 <= i < rows.len(),
    ensures
        text::holds(rows_of(rows, shares, ascii), row_of(rows[i], shares[i], ascii)),
    decreases rows.len(),
{
    let none = Seq::<char>::empty();
    let before = rows_of(rows.drop_last(), shares, ascii);
    let own = row_of(rows.last(), shares[rows.len() - 1], ascii);
    if i < rows.len() - 1 {
        lemma_rows_of(rows.drop_last(), shares, ascii, i);
        text::lemma_holds(none, before, own, row_of(rows[i], shares[i], ascii));
    } else {
        text::lemma_holds_self(before, own, none);
    }
}

proof fn lemma_notes_of(notes: Seq<Seq<char>>, i: int)
    requires
        0 <= i < notes.len(),
    ensures
        text::holds(notes_of(notes), report::safe_of(notes[i])),
    decreases notes.len(),
{
    let none = Seq::<char>::empty();
    let before = notes_of(notes.drop_last());
    let own = report::safe_of(notes.last());
    let part = report::safe_of(notes[i]);
    if i < notes.len() - 1 {
        lemma_notes_of(notes.drop_last(), i);
        text::lemma_holds(none, before, "NOTE: "@, part);
        text::lemma_holds(none, before + "NOTE: "@, own, part);
        text::lemma_holds(none, before + "NOTE: "@ + own, "\n"@, part);
    } else {
        text::lemma_holds_self(before + "NOTE: "@, own, "\n"@);
    }
}

/// What any part of the report holds, the report holds.
proof fn lemma_in_report(
    head: Seq<char>,
    rows: Seq<char>,
    notes: Seq<char>,
    warnings: Seq<char>,
    part: Seq<char>,
)
    ensures
        text::holds(rows, part) ==> text::holds(head + rows + notes + warnings, part),
        text::holds(notes, part) ==> text::holds(head + rows + notes + warnings, part),
        text::holds(warnings, part) ==> text::holds(head + rows + notes + warnings, part),
{
    let none = Seq::<char>::empty();
    if text::holds(rows, part) {
        text::lemma_holds(head, rows, notes, part);
        text::lemma_holds(none, head + rows + notes, warnings, part);
    }
    if text::holds(notes, part) {
        text::lemma_holds(head + rows, notes, warnings, part);
    }
    if text::holds(warnings, part) {
        text::lemma_holds(head + rows + notes, warnings, none, part);
    }
}

proof fn lemma_warnings_of(w: Seq<Seq<char>>, i: int)
    ensures
        0 <= i < w.len() && i < 4 ==> text::holds(warnings_of(w), report::safe_of(w[i])),
        w.len() > 4 ==> text::holds(
            warnings_of(w),
            text::decimal_of((w.len() - 4) as nat)
                + " additional diagnostics in --json/snapshot\n"@,
        ),
{
    let none = Seq::<char>::empty();
    if 0 <= i < w.len() && w.len() <= 4 {
        lemma_notes_of(w, i);
    }
    if w.len() > 4 {
        let four = w.subrange(0, 4);
        let front = notes_of(four);
        let rest = text::decimal_of((w.len() - 4) as nat);
        let end = " additional diagnostics in --json/snapshot\n"@;
        if 0 <= i < 4 {
            let part = report::safe_of(w[i]);
            lemma_notes_of(four, i);
            assert(four[i] == w[i]);
            text::lemma_holds(none, front, "NOTE: "@, part);
            text::lemma_holds(none, front + "NOTE: "@, rest, part);
            text::lemma_holds(none, front + "NOTE: "@ + rest, end, part);
        }
        text::lemma_holds_self(front + "NOTE: "@, rest + end, none);
        assert(warnings_of(w) =~= front + "NOTE: "@ + (rest + end));
    }
}

/// The report shows every row, every note, the first four warnings, and how many more there
/// are.
#[verifier::spinoff_prover]
#[verifier::rlimit(80)]
pub proof fn law_the_report_shows_everything(
    v: TreeView<'_>,
    options: ViewOptions,
    shares: Seq<Share>,
    i: int,
)
    ensures
        ({
            let s = text_of(v, options, shares);
            let more = v.stats.warnings@.len() - 4;
            &&& 0 <= i < v.rows@.len() ==> text::holds(
                s,
                row_of(v.rows@[i], shares[i], options.ascii),
            )
            &&& 0 <= i < v.notes@.len() ==> text::holds(s, report::safe_of(v.notes@[i]@))
            &&& 0 <= i < v.stats.warnings@.len() && i < 4 ==> text::holds(
                s,
                report::safe_of(v.stats.warnings@[i]@),
            )
            &&& more > 0 ==> text::holds(
                s,
                text::decimal_of(more as nat) + " additional diagnostics in --json/snapshot\n"@,
            )
        }),
{
    let s = text_of(v, options, shares);
    let head = head_of(v.scope@, v.volume.filesystem@, v.stats.backend@) + stats_of(*v.stats)
        + volume_of(*v.volume, v.report_ready_ms) + column_heads();
    let rows = rows_of(v.rows@, shares, options.ascii);
    let notes = notes_of(text::views(v.notes@));
    let w = text::views(v.stats.warnings@);
    let warnings = warnings_of(w);
    assert(s == head + rows + notes + warnings);
    if 0 <= i < v.rows@.len() {
        lemma_rows_of(v.rows@, shares, options.ascii, i);
        lemma_in_report(head, rows, notes, warnings, row_of(v.rows@[i], shares[i], options.ascii));
    }
    if 0 <= i < v.notes@.len() {
        lemma_notes_of(text::views(v.notes@), i);
        lemma_in_report(head, rows, notes, warnings, report::safe_of(v.notes@[i]@));
    }
    lemma_warnings_of(w, i);
    if 0 <= i < w.len() {
        lemma_in_report(head, rows, notes, warnings, report::safe_of(w[i]));
    }
    lemma_in_report(
        head,
        rows,
        notes,
        warnings,
        text::decimal_of((w.len() - 4) as nat) + " additional diagnostics in --json/snapshot\n"@,
    );
}

/// What stands behind a name tells every flag of the entry, what is folded away, and the
/// state of its repository.
pub proof fn law_evidence_tells_every_flag(r: Row, i: int)
    ensures
        0 <= i < r.flags@.len() ==> text::holds(evidence_of(r), r.flags@[i]@),
        r.git matches Some(g) ==> text::holds(evidence_of(r), report::safe_of(g@)),
        r.kind != RowKind::Folded && r.folded_children > 0 ==> text::holds(
            evidence_of(r),
            text::decimal_of(r.folded_children as nat),
        ),
        r.kind == RowKind::Folded ==> text::holds(
            evidence_of(r),
            text::decimal_of(r.files as nat),
        ) && text::holds(evidence_of(r), text::decimal_of(r.dirs as nat)),
{
    let none = Seq::<char>::empty();
    let names = text::joined_by(text::views(r.flags@), ","@);
    let flags = if r.flags@.len() > 0 {
        " ["@ + names + "]"@
    } else {
        ""@
    };
    let files = text::decimal_of(r.files as nat);
    let dirs = text::decimal_of(r.dirs as nat);
    let children = text::decimal_of(r.folded_children as nat);
    let folded = if r.kind == RowKind::Folded {
        " ("@ + files + " files, "@ + dirs + " dirs; use detail)"@
    } else if r.folded_children > 0 {
        " [+"@ + children + " children; use detail]"@
    } else {
        ""@
    };
    let git = match r.git {
        Some(g) => " {"@ + report::safe_of(g@) + "}"@,
        None => ""@,
    };
    assert(evidence_of(r) == flags + folded + git);
    if 0 <= i < r.flags@.len() {
        text::lemma_joined_holds(text::views(r.flags@), ","@, i);
        text::lemma_holds(" ["@, names, "]"@, r.flags@[i]@);
        text::lemma_holds(none, flags, folded, r.flags@[i]@);
        text::lemma_holds(none, flags + folded, git, r.flags@[i]@);
    }
    if r.git is Some {
        let part = report::safe_of(r.git->0@);
        text::lemma_holds_self(" {"@, part, "}"@);
        text::lemma_holds(flags + folded, git, none, part);
    }
    if r.kind == RowKind::Folded {
        text::lemma_holds_self(" ("@, files, " files, "@);
        text::lemma_holds(none, " ("@ + files + " files, "@, dirs, files);
        text::lemma_holds(none, " ("@ + files + " files, "@ + dirs, " dirs; use detail)"@, files);
        text::lemma_holds_self(" ("@ + files + " files, "@, dirs, " dirs; use detail)"@);
        text::lemma_holds(flags, folded, git, files);
        text::lemma_holds(flags, folded, git, dirs);
    } else if r.folded_children > 0 {
        text::lemma_holds_self(" [+"@, children, " children; use detail]"@);
        text::lemma_holds(flags, folded, git, children);
    }
}

} // verus!
