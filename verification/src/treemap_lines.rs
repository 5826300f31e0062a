//! How many lines a report has.
use crate::model::ScanStats;
use crate::platform::VolumeInfo;
use crate::report;
use crate::text;
use crate::treemap;
use crate::treemap::{Line, Row, RowKind, Table, TreeView, ViewOptions};
use crate::treemap_text;
use crate::treemap_text::Share;
use vstd::prelude::*;
use vstd::string::*;

verus! {

/// A text without a line end.
#[verifier::opaque]
pub open spec fn plain(s: Seq<char>) -> bool {
    forall|i: int| 0 <= i < s.len() ==> #[trigger] s[i] != '\n'
}

/// A text that ends in a line end and holds no other.
pub open spec fn one_line(s: Seq<char>) -> bool {
    &&& s.len() > 0
    &&& s.last() == '\n'
    &&& plain(s.drop_last())
}

/// A text that stops at a line end.
pub open spec fn ended(s: Seq<char>) -> bool {
    s.len() == 0 || s.last() == '\n'
}

broadcast proof fn lemma_plain_add(a: Seq<char>, b: Seq<char>)
    requires
        plain(a),
        plain(b),
    ensures
        #[trigger] plain(a + b),
{
    reveal(plain);
}

proof fn lemma_line_add(a: Seq<char>, b: Seq<char>)
    requires
        plain(a),
        one_line(b),
    ensures
        one_line(a + b),
{
    assert((a + b).drop_last() =~= a + b.drop_last());
    lemma_plain_add(a, b.drop_last());
}

proof fn lemma_end_is_line()
    ensures
        one_line("\n"@),
{
    reveal(plain);
    reveal_strlit("\n");
}

proof fn lemma_plain_empty()
    ensures
        plain(Seq::<char>::empty()),
        plain(""@),
{
    reveal(plain);
    reveal_strlit("");
}

proof fn lemma_digit_plain(d: int)
    requires
        0 <= d < 10,
    ensures
        text::digit(d) != '\n',
{
    assert(48 + d < 256);
}

proof fn lemma_decimal_plain(n: nat)
    ensures
        plain(text::decimal_of(n)),
    decreases n,
{
    reveal(plain);
    if n < 10 {
        lemma_digit_plain(n as int);
    } else {
        lemma_decimal_plain(n / 10);
        lemma_digit_plain((n % 10) as int);
    }
}

proof fn lemma_repeated_plain(s: Seq<char>, n: nat)
    requires
        plain(s),
    ensures
        plain(text::repeated(s, n)),
    decreases n,
{
    lemma_plain_empty();
    if n > 0 {
        lemma_repeated_plain(s, (n - 1) as nat);
        lemma_plain_add(text::repeated(s, (n - 1) as nat), s);
    }
}

proof fn lemma_aligned_plain(s: Seq<char>, width: nat)
    requires
        plain(s),
    ensures
        plain(text::right_aligned(s, width)),
        plain(text::left_aligned(s, width)),
{
    lemma_plain_empty();
    assert(plain(" "@)) by {
        reveal(plain);
        reveal_strlit(" ");
    }
    if s.len() < width {
        lemma_repeated_plain(" "@, (width - s.len()) as nat);
    }
    lemma_plain_add(text::spaces(s.len(), width), s);
    lemma_plain_add(s, text::spaces(s.len(), width));
}

proof fn lemma_joined_plain(v: Seq<Seq<char>>, sep: Seq<char>)
    requires
        plain(sep),
        forall|i: int| 0 <= i < v.len() ==> plain(#[trigger] v[i]),
    ensures
        plain(text::joined_by(v, sep)),
    decreases v.len(),
{
    lemma_plain_empty();
    if v.len() > 1 {
        let t = v.drop_last();
        assert forall|i: int| 0 <= i < t.len() implies plain(#[trigger] t[i]) by {
            assert(t[i] == v[i]);
        }
        lemma_joined_plain(t, sep);
        lemma_plain_add(text::joined_by(t, sep), sep);
        lemma_plain_add(text::joined_by(t, sep) + sep, v.last());
    }
}

proof fn lemma_safe_plain(s: Seq<char>)
    ensures
        plain(report::safe_of(s)),
{
    reveal(plain);
    assert forall|i: int| 0 <= i < report::safe_of(s).len() implies #[trigger] report::safe_of(s)[i]
        != '\n' by {
        report::law_safe_text_is_safe(s, i);
    }
}

proof fn lemma_human_plain(bytes: int)
    ensures
        plain(report::human_text(bytes)),
{
    let n = report::to_significant(bytes);
    let i = report::unit_of(n);
    lemma_decimal_plain(bytes as nat);
    assert(plain(" B"@) && plain("."@) && plain(" "@) && plain("KiB"@) && plain("MiB"@) && plain(
        "GiB"@,
    ) && plain("TiB"@) && plain("PiB"@)) by {
        reveal(plain);
        reveal_strlit(" B");
        reveal_strlit(".");
        reveal_strlit(" ");
        reveal_strlit("KiB");
        reveal_strlit("MiB");
        reveal_strlit("GiB");
        reveal_strlit("TiB");
        reveal_strlit("PiB");
    }
    broadcast use lemma_plain_add;

    if i != 0 {
        let h = report::nearest(n * 100, report::unit_size(i)) as nat;
        let pair = seq![text::digit((h / 10 % 10) as int), text::digit((h % 10) as int)];
        lemma_decimal_plain(h / 100);
        lemma_digit_plain((h / 10 % 10) as int);
        lemma_digit_plain((h % 10) as int);
        assert(plain(pair)) by {
            reveal(plain);
        }
        assert(plain(report::hundredths(h)));
    }
}

proof fn lemma_column_plain(value: Option<Seq<char>>, complete: bool)
    requires
        value matches Some(s) ==> report::time_shaped(s),
    ensures
        plain(report::column_of(value, complete)),
{
    assert(plain("—"@) && plain("?"@)) by {
        reveal(plain);
        reveal_strlit("—");
        reveal_strlit("?");
    }
    if let Some(s) = value {
        let cut = text::swapped(s.subrange(0, 19), 'T', ' ');
        assert(plain(cut)) by {
            reveal(plain);
            assert forall|i: int| 0 <= i < cut.len() implies #[trigger] cut[i] != '\n' by {
                assert(s.subrange(0, 19)[i] == s[i]);
            }
        }
        lemma_plain_add(cut, "?"@);
    } else {
        lemma_plain_add("—"@, "?"@);
    }
}

proof fn lemma_head_is_line(scope: Seq<char>, filesystem: Seq<char>, backend: Seq<char>)
    requires
        plain(filesystem),
        plain(backend),
    ensures
        one_line(treemap_text::head_of(scope, filesystem, backend)),
{
    assert(plain("DISK-CLEANER TREE v3 | scope="@) && plain(" | fs="@) && plain(" | backend="@))
        by {
        reveal(plain);
        reveal_strlit("DISK-CLEANER TREE v3 | scope=");
        reveal_strlit(" | fs=");
        reveal_strlit(" | backend=");
    }
    lemma_safe_plain(scope);
    lemma_end_is_line();
    broadcast use lemma_plain_add;

    let front = "DISK-CLEANER TREE v3 | scope="@ + report::safe_of(scope) + " | fs="@ + filesystem
        + " | backend="@ + backend;
    assert(plain(front));
    lemma_line_add(front, "\n"@);
}

proof fn lemma_stats_is_line(s: ScanStats)
    ensures
        one_line(treemap_text::stats_of(s)),
{
    assert(plain("扫描/汇总="@) && plain(" ms  records="@) && plain("  threads="@) && plain(
        "  peak="@,
    ) && plain("  index="@) && plain("  complete="@) && plain("  errors="@) && plain("true"@)
        && plain("false"@)) by {
        reveal(plain);
        reveal_strlit("扫描/汇总=");
        reveal_strlit(" ms  records=");
        reveal_strlit("  threads=");
        reveal_strlit("  peak=");
        reveal_strlit("  index=");
        reveal_strlit("  complete=");
        reveal_strlit("  errors=");
        reveal_strlit("true");
        reveal_strlit("false");
    }
    lemma_decimal_plain(s.elapsed_ms as nat);
    lemma_decimal_plain(s.records_read as nat);
    lemma_decimal_plain(s.threads as nat);
    lemma_decimal_plain(s.errors as nat);
    lemma_human_plain(s.peak_working_set_bytes as int);
    lemma_human_plain(s.index_bytes as int);
    lemma_end_is_line();
    broadcast use lemma_plain_add;

    let front = "扫描/汇总="@ + text::decimal_of(s.elapsed_ms as nat) + " ms  records="@
        + text::decimal_of(s.records_read as nat) + "  threads="@ + text::decimal_of(
        s.threads as nat,
    ) + "  peak="@ + report::human_text(s.peak_working_set_bytes as int) + "  index="@
        + report::human_text(s.index_bytes as int) + "  complete="@ + text::yes_no(s.complete)
        + "  errors="@ + text::decimal_of(s.errors as nat);
    assert(plain(front));
    lemma_line_add(front, "\n"@);
}

proof fn lemma_volume_is_line(v: VolumeInfo, ready: Option<u64>)
    ensures
        one_line(treemap_text::volume_of(v, ready)),
{
    assert(plain("volume: total="@) && plain("  used="@) && plain("  free="@) && plain(
        " | 报告就绪="@,
    ) && plain(" ms"@) && plain("未计时"@)) by {
        reveal(plain);
        reveal_strlit("volume: total=");
        reveal_strlit("  used=");
        reveal_strlit("  free=");
        reveal_strlit(" | 报告就绪=");
        reveal_strlit(" ms");
        reveal_strlit("未计时");
    }
    let tail = "（含索引 I/O、Git；不含最终格式化/终端输出）\n"@;
    assert(one_line(tail)) by {
        reveal(plain);
        reveal_strlit("（含索引 I/O、Git；不含最终格式化/终端输出）\n");
    }
    lemma_human_plain(v.total_bytes as int);
    lemma_human_plain(treemap_text::used_bytes(v));
    lemma_human_plain(v.free_bytes as int);
    broadcast use lemma_plain_add;

    let when = match ready {
        Some(ms) => {
            lemma_decimal_plain(ms as nat);
            text::decimal_of(ms as nat) + " ms"@
        },
        None => "未计时"@,
    };
    assert(plain(when));
    let front = "volume: total="@ + report::human_text(v.total_bytes as int) + "  used="@
        + report::human_text(treemap_text::used_bytes(v)) + "  free="@ + report::human_text(
        v.free_bytes as int,
    ) + " | 报告就绪="@ + when;
    assert(plain(front));
    lemma_line_add(front, tail);
    assert(treemap_text::volume_of(v, ready) == front + tail);
}

proof fn lemma_heads_are_line()
    ensures
        one_line(treemap_text::column_heads()),
{
    reveal(plain);
    reveal_strlit(
        "    ALLOCATED        LOGICAL  SCOPE%  SHARE           FILES  LATEST UTC (max)      OLDEST UTC (min)      TREE / EVIDENCE\n",
    );
}

/// A row whose times and flags hold no line end.
pub open spec fn row_plain(r: Row) -> bool {
    &&& treemap::times_shaped(r)
    &&& forall|i: int| 0 <= i < r.flags@.len() ==> plain((#[trigger] r.flags@[i])@)
}

proof fn lemma_evidence_plain(r: Row)
    requires
        row_plain(r),
    ensures
        plain(treemap_text::evidence_of(r)),
{
    assert(plain(" ["@) && plain(","@) && plain("]"@) && plain(" ("@) && plain(" files, "@)
        && plain(" dirs; use detail)"@) && plain(" [+"@) && plain(" children; use detail]"@)
        && plain(" {"@) && plain("}"@)) by {
        reveal(plain);
        reveal_strlit(" [");
        reveal_strlit(",");
        reveal_strlit("]");
        reveal_strlit(" (");
        reveal_strlit(" files, ");
        reveal_strlit(" dirs; use detail)");
        reveal_strlit(" [+");
        reveal_strlit(" children; use detail]");
        reveal_strlit(" {");
        reveal_strlit("}");
    }
    let names = text::views(r.flags@);
    assert forall|i: int| 0 <= i < names.len() implies plain(#[trigger] names[i]) by {
        assert(names[i] == r.flags@[i]@);
    }
    lemma_joined_plain(names, ","@);
    lemma_decimal_plain(r.files as nat);
    lemma_decimal_plain(r.dirs as nat);
    lemma_decimal_plain(r.folded_children as nat);
    lemma_plain_empty();
    if let Some(g) = r.git {
        lemma_safe_plain(g@);
    }
    broadcast use lemma_plain_add;

    let flags = if r.flags@.len() > 0 {
        " ["@ + text::joined_by(names, ","@) + "]"@
    } else {
        ""@
    };
    assert(plain(flags));
    let folded = if r.kind == RowKind::Folded {
        " ("@ + text::decimal_of(r.files as nat) + " files, "@ + text::decimal_of(r.dirs as nat)
            + " dirs; use detail)"@
    } else if r.folded_children > 0 {
        " [+"@ + text::decimal_of(r.folded_children as nat) + " children; use detail]"@
    } else {
        ""@
    };
    assert(plain(folded));
    let git = match r.git {
        Some(g) => " {"@ + report::safe_of(g@) + "}"@,
        None => ""@,
    };
    assert(plain(git));
    assert(treemap_text::evidence_of(r) == flags + folded + git);
}

proof fn lemma_percent_plain(share: Share)
    ensures
        plain(treemap_text::percent_of(share)),
{
    assert(plain("."@)) by {
        reveal(plain);
        reveal_strlit(".");
    }
    lemma_decimal_plain(share.tenths as nat / 10);
    lemma_decimal_plain(share.tenths as nat % 10);
    broadcast use lemma_plain_add;

}

proof fn lemma_row_is_line(r: Row, share: Share, ascii: bool)
    requires
        row_plain(r),
    ensures
        one_line(treemap_text::row_of(r, share, ascii)),
{
    assert(plain("  "@) && plain("%  "@) && plain("#"@) && plain("█"@) && plain("·"@) && plain(
        "+- "@,
    ) && plain("├─ "@) && plain("/"@)) by {
        reveal(plain);
        reveal_strlit("  ");
        reveal_strlit("%  ");
        reveal_strlit("#");
        reveal_strlit("█");
        reveal_strlit("·");
        reveal_strlit("+- ");
        reveal_strlit("├─ ");
        reveal_strlit("/");
    }
    let latest = report::column_of(
        report::text_view(r.latest_modified_utc),
        r.modified_complete,
    );
    let oldest = report::column_of(
        report::text_view(r.oldest_modified_utc),
        r.modified_complete,
    );
    lemma_plain_empty();
    lemma_human_plain(r.allocated_bytes as int);
    lemma_aligned_plain(report::human_text(r.allocated_bytes as int), 13);
    lemma_human_plain(r.logical_bytes as int);
    lemma_aligned_plain(report::human_text(r.logical_bytes as int), 13);
    lemma_percent_plain(share);
    lemma_aligned_plain(treemap_text::percent_of(share), 5);
    lemma_repeated_plain(
        if ascii {
            "#"@
        } else {
            "█"@
        },
        treemap_text::bars_of(share),
    );
    lemma_repeated_plain("·"@, (10 - treemap_text::bars_of(share)) as nat);
    lemma_decimal_plain(r.files as nat);
    lemma_aligned_plain(text::decimal_of(r.files as nat), 9);
    lemma_column_plain(report::text_view(r.latest_modified_utc), r.modified_complete);
    lemma_column_plain(report::text_view(r.oldest_modified_utc), r.modified_complete);
    lemma_aligned_plain(latest, 20);
    lemma_aligned_plain(oldest, 20);
    lemma_repeated_plain("  "@, r.depth as nat);
    lemma_safe_plain(r.name@);
    lemma_evidence_plain(r);
    lemma_end_is_line();
    broadcast use lemma_plain_add;

    let bar = treemap_text::bar_of(treemap_text::bars_of(share), ascii);
    assert(plain(bar));
    let front = text::right_aligned(report::human_text(r.allocated_bytes as int), 13) + "  "@
        + text::right_aligned(report::human_text(r.logical_bytes as int), 13) + "  "@
        + text::right_aligned(treemap_text::percent_of(share), 5) + "%  "@ + bar + "  "@ + text::right_aligned(
        text::decimal_of(r.files as nat),
        9,
    ) + "  "@ + text::left_aligned(latest, 20) + "  "@ + text::left_aligned(oldest, 20) + "  "@
        + text::repeated("  "@, r.depth as nat) + treemap_text::mark_of(r.depth as nat, ascii)
        + report::safe_of(r.name@) + (if r.kind == RowKind::Directory {
        "/"@
    } else {
        ""@
    }) + treemap_text::evidence_of(r);
    assert(plain(front));
    lemma_line_add(front, "\n"@);
    assert(treemap_text::row_of(r, share, ascii) == front + "\n"@);
}

proof fn lemma_found_end(s: Seq<char>)
    ensures
        text::line_end(s) <= s.len(),
        forall|i: int| 0 <= i < text::line_end(s) ==> #[trigger] s[i] != '\n',
        text::line_end(s) < s.len() ==> s[text::line_end(s) as int] == '\n',
    decreases s.len(),
{
    if s.len() > 0 && s[0] != '\n' {
        let t = s.skip(1);
        lemma_found_end(t);
        assert forall|i: int| 0 <= i < text::line_end(s) implies #[trigger] s[i] != '\n' by {
            if i > 0 {
                assert(t[i - 1] == s[i]);
            }
        }
        if text::line_end(s) < s.len() {
            assert(t[text::line_end(t) as int] == s[text::line_end(s) as int]);
        }
    }
}

/// Behind a line end, lines add up.
proof fn lemma_lines_add(a: Seq<char>, b: Seq<char>)
    requires
        ended(a),
    ensures
        text::lines_of(a + b).len() == text::lines_of(a).len() + text::lines_of(b).len(),
        ended(b) ==> ended(a + b),
    decreases a.len(),
{
    let all = a + b;
    if a.len() == 0 {
        assert(all =~= b);
    } else {
        let e = text::line_end(a) as int;
        lemma_found_end(a);
        assert(a[a.len() - 1] == '\n');
        assert(e < a.len());
        assert forall|i: int| 0 <= i < e implies all[i] != '\n' by {
            assert(all[i] == a[i]);
        }
        text::lemma_line_end(all, e);
        let rest = a.skip(e + 1);
        if rest.len() > 0 {
            assert(rest.last() == a.last());
        }
        assert(all.skip(e + 1) =~= rest + b);
        lemma_lines_add(rest, b);
    }
}

proof fn lemma_one_line(s: Seq<char>)
    requires
        one_line(s),
    ensures
        text::lines_of(s).len() == 1,
        ended(s),
{
    reveal(plain);
    let n = s.len() - 1;
    assert forall|i: int| 0 <= i < n implies s[i] != '\n' by {
        assert(s.drop_last()[i] == s[i]);
    }
    text::lemma_line_end(s, n);
    assert(s.skip(n + 1) =~= Seq::<char>::empty());
    reveal_with_fuel(text::lines_of, 2);
}

proof fn lemma_rows_count(rows: Seq<Row>, shares: Seq<Share>, ascii: bool)
    requires
        rows.len() <= shares.len(),
        forall|i: int| 0 <= i < rows.len() ==> row_plain(#[trigger] rows[i]),
    ensures
        text::lines_of(treemap_text::rows_of(rows, shares, ascii)).len() == rows.len(),
        ended(treemap_text::rows_of(rows, shares, ascii)),
    decreases rows.len(),
{
    if rows.len() > 0 {
        let fore = rows.drop_last();
        let line = treemap_text::row_of(rows.last(), shares[rows.len() - 1], ascii);
        assert forall|i: int| 0 <= i < fore.len() implies row_plain(#[trigger] fore[i]) by {
            assert(fore[i] == rows[i]);
        }
        lemma_rows_count(fore, shares, ascii);
        lemma_row_is_line(rows.last(), shares[rows.len() - 1], ascii);
        lemma_one_line(line);
        lemma_lines_add(treemap_text::rows_of(fore, shares, ascii), line);
    }
}

proof fn lemma_notes_count(notes: Seq<Seq<char>>)
    ensures
        text::lines_of(treemap_text::notes_of(notes)).len() == notes.len(),
        ended(treemap_text::notes_of(notes)),
    decreases notes.len(),
{
    if notes.len() > 0 {
        let fore = treemap_text::notes_of(notes.drop_last());
        let safe = report::safe_of(notes.last());
        lemma_notes_count(notes.drop_last());
        assert(plain("NOTE: "@)) by {
            reveal(plain);
            reveal_strlit("NOTE: ");
        }
        lemma_safe_plain(notes.last());
        lemma_end_is_line();
        lemma_plain_add("NOTE: "@, safe);
        lemma_line_add("NOTE: "@ + safe, "\n"@);
        lemma_one_line("NOTE: "@ + safe + "\n"@);
        lemma_lines_add(fore, "NOTE: "@ + safe + "\n"@);
        assert(treemap_text::notes_of(notes) =~= fore + ("NOTE: "@ + safe + "\n"@));
    }
}

/// The lines that a number of warnings takes: up to four, and one for the rest.
pub open spec fn warning_lines(n: nat) -> nat {
    if n > 4 {
        5
    } else {
        n
    }
}

proof fn lemma_warnings_count(w: Seq<Seq<char>>)
    ensures
        text::lines_of(treemap_text::warnings_of(w)).len() == warning_lines(w.len()),
        ended(treemap_text::warnings_of(w)),
{
    if w.len() > 4 {
        let fore = treemap_text::notes_of(w.subrange(0, 4));
        let more = text::decimal_of((w.len() - 4) as nat);
        let tail = " additional diagnostics in --json/snapshot\n"@;
        lemma_notes_count(w.subrange(0, 4));
        assert(plain("NOTE: "@)) by {
            reveal(plain);
            reveal_strlit("NOTE: ");
        }
        assert(one_line(tail)) by {
            reveal(plain);
            reveal_strlit(" additional diagnostics in --json/snapshot\n");
        }
        lemma_decimal_plain((w.len() - 4) as nat);
        lemma_plain_add("NOTE: "@, more);
        lemma_line_add("NOTE: "@ + more, tail);
        lemma_one_line("NOTE: "@ + more + tail);
        lemma_lines_add(fore, "NOTE: "@ + more + tail);
        assert(treemap_text::warnings_of(w) =~= fore + ("NOTE: "@ + more + tail));
    } else {
        lemma_notes_count(w);
    }
}

/// A report has four lines at its head, one for every row and every note, and at most five
/// for the warnings.
pub proof fn law_report_has_a_line_per_row(
    v: TreeView<'_>,
    options: ViewOptions,
    shares: Seq<Share>,
)
    requires
        plain(v.volume.filesystem@),
        plain(v.stats.backend@),
        shares.len() == v.rows@.len(),
        forall|i: int| 0 <= i < v.rows@.len() ==> row_plain(#[trigger] v.rows@[i]),
    ensures
        text::lines_of(treemap_text::text_of(v, options, shares)).len() == 4 + v.rows@.len()
            + v.notes@.len() + warning_lines(v.stats.warnings@.len()),
        ended(treemap_text::text_of(v, options, shares)),
{
    let a = treemap_text::head_of(v.scope@, v.volume.filesystem@, v.stats.backend@);
    let b = treemap_text::stats_of(*v.stats);
    let c = treemap_text::volume_of(*v.volume, v.report_ready_ms);
    let d = treemap_text::column_heads();
    let e = treemap_text::rows_of(v.rows@, shares, options.ascii);
    let f = treemap_text::notes_of(text::views(v.notes@));
    let g = treemap_text::warnings_of(text::views(v.stats.warnings@));
    lemma_head_is_line(v.scope@, v.volume.filesystem@, v.stats.backend@);
    lemma_stats_is_line(*v.stats);
    lemma_volume_is_line(*v.volume, v.report_ready_ms);
    lemma_heads_are_line();
    lemma_one_line(a);
    lemma_one_line(b);
    lemma_one_line(c);
    lemma_one_line(d);
    lemma_rows_count(v.rows@, shares, options.ascii);
    lemma_notes_count(text::views(v.notes@));
    lemma_warnings_count(text::views(v.stats.warnings@));
    lemma_lines_add(a, b);
    lemma_lines_add(a + b, c);
    lemma_lines_add(a + b + c, d);
    lemma_lines_add(a + b + c + d, e);
    lemma_lines_add(a + b + c + d + e, f);
    lemma_lines_add(a + b + c + d + e + f, g);
}

proof fn lemma_flag_names_plain(bits: u16)
    ensures
        forall|i: int|
            0 <= i < report::flag_names(bits).len() ==> plain(
                #[trigger] report::flag_names(bits)[i],
            ),
{
    assert(plain("reparse:not-followed"@) && plain("hardlink:allocation-once"@) && plain(
        "estimated"@,
    ) && plain("INCOMPLETE"@) && plain("unresolved:NOT-a-path"@)) by {
        reveal(plain);
        reveal_strlit("reparse:not-followed");
        reveal_strlit("hardlink:allocation-once");
        reveal_strlit("estimated");
        reveal_strlit("INCOMPLETE");
        reveal_strlit("unresolved:NOT-a-path");
    }
}

/// The rows are those lines, whatever version control has to say of them.
pub open spec fn show_noted(rows: Seq<Row>, lines: Seq<Line>) -> bool {
    &&& rows.len() == lines.len()
    &&& forall|i: int|
        0 <= i < rows.len() ==> treemap::shows(
            (Row { git: None, ..#[trigger] rows[i] }),
            lines[i],
        )
}

/// The report on a view, with or without notes on version control, has four lines at its
/// head, one for every row and note, and up to five for the warnings. It never has more
/// lines than were asked for, of which there are at least sixteen and at most two thousand.
pub proof fn law_report_stays_within_lines(
    v: TreeView<'_>,
    t: Table,
    options: ViewOptions,
    id: u32,
    shares: Seq<Share>,
)
    requires
        plain(v.volume.filesystem@),
        plain(v.stats.backend@),
        shares.len() == v.rows@.len(),
        show_noted(v.rows@, treemap::view_lines(t, options, id)),
        text::views(v.notes@) == treemap::view_notes(options.git),
    ensures
        text::lines_of(treemap_text::text_of(v, options, shares)).len() == 4 + v.rows@.len()
            + v.notes@.len() + warning_lines(v.stats.warnings@.len()),
        text::lines_of(treemap_text::text_of(v, options, shares)).len() <= (if options.max_lines
            < 16 {
            16
        } else if options.max_lines > 2000 {
            2000
        } else {
            options.max_lines as int
        }),
{
    let lines = treemap::view_lines(t, options, id);
    assert forall|i: int| 0 <= i < v.rows@.len() implies row_plain(#[trigger] v.rows@[i]) by {
        let r = v.rows@[i];
        assert(treemap::shows(Row { git: None, ..r }, lines[i]));
        lemma_flag_names_plain(lines[i].bits);
        assert forall|j: int| 0 <= j < r.flags@.len() implies plain((#[trigger] r.flags@[j])@) by {
            assert(text::views(r.flags@)[j] == r.flags@[j]@);
        }
    }
    treemap::law_lines_stay_within_budget(
        t,
        options,
        id,
        1,
        treemap::weight(t.nodes[id as int], options.metric) as nat,
        treemap::line_budget(options.max_lines as nat),
    );
    law_report_has_a_line_per_row(v, options, shares);
    assert(text::views(v.notes@).len() == v.notes@.len());
}

} // verus!
