use disk_cleaner::compare::compare;
use disk_cleaner::model::{FindError, Snapshot, DIR, HARDLINK, REPARSE, UNKNOWN_MTIME, VIRTUAL};
use disk_cleaner::platform::VolumeInfo;
use disk_cleaner::report::{date_column, flags, human, safe_text, size_parts, timestamp};
use disk_cleaner::treemap::{
    can_view, git_note, view, view_format, GitAnswer, Metric, RowKind, ViewOptions,
};
use disk_cleaner::text as texts;
use disk_cleaner::treemap_text::{text, Share};
use disk_cleaner::wide::Wide;

fn units(s: &str) -> Vec<u16> {
    s.encode_utf16().collect()
}

fn options() -> ViewOptions {
    ViewOptions {
        min_bytes: 0,
        git: false,
        ..ViewOptions::default()
    }
}

fn table() -> Snapshot {
    let mut s = Snapshot::new(Wide::of(r"C:\t"), VolumeInfo::default(), "test", 2, 0);
    let nested = s.push(0, &units("nested"), 0, 0, DIR).unwrap();
    let old = s.push(0, &units("old.txt"), 3, 4096, 0).unwrap();
    let new = s.push(nested, &units("new.txt"), 3, 4096, 0).unwrap();
    s.set_file_mtime(old, Some(946684800000));
    s.set_file_mtime(new, Some(1577836800000));
    s.finish().unwrap();
    s
}

fn shares(v: &disk_cleaner::treemap::TreeView<'_>) -> Vec<Share> {
    v.rows
        .iter()
        .map(|r| {
            let percent = if r.share_whole == 0 {
                0.0
            } else {
                100.0 * r.share_part as f64 / r.share_whole as f64
            };
            Share {
                tenths: format!("{percent:.1}").replace('.', "").parse().unwrap(),
                bars: (percent / 10.0).ceil().clamp(0.0, 10.0) as usize,
            }
        })
        .collect()
}

#[test]
fn ordinary_scan_reports_time_and_modification_semantics() {
    let mut s = Snapshot::new(Wide::of(r"C:\d"), VolumeInfo::default(), "fs-enumerate", 1, 0);
    let one = s.push(0, &units("one.txt"), 3, 3, 0).unwrap();
    s.set_file_mtime(one, Some(1_000_000));
    s.finish().unwrap();
    let v = view(&s, r"C:\d", &options()).unwrap();
    assert_eq!(
        v.rows[0].modified_semantics,
        "latest_descendant_file_last_write"
    );
    assert!(v.rows[0].latest_modified_utc.is_some());
    assert_eq!(v.rows[1].modified_semantics, "file_last_write");
    assert_eq!(v.rows[1].modified_utc, v.rows[1].latest_modified_utc);
    assert_eq!(
        v.rows[1].oldest_modified_utc,
        v.rows[1].latest_modified_utc
    );
}

#[test]
fn directory_and_folded_rows_report_latest_and_oldest_file_times_not_directory_time() {
    let s = table();
    let o = ViewOptions {
        min_bytes: 1 << 30,
        git: false,
        ..ViewOptions::default()
    };
    let v = view(&s, r"C:\t", &o).unwrap();
    for row in &v.rows {
        assert_eq!(
            row.oldest_modified_utc.as_deref(),
            Some("2000-01-01T00:00:00.000Z")
        );
        assert_eq!(
            row.latest_modified_utc.as_deref(),
            Some("2020-01-01T00:00:00.000Z")
        );
    }
    assert_eq!(v.rows[1].kind.label(), "folded");
    assert_eq!(v.rows[1].name, "[other 2 immediate entries]");
    assert_eq!((v.rows[1].files, v.rows[1].dirs), (2, 1));
    assert_eq!(v.rows[1].folded_children, 2);
}

#[test]
fn sizes_round_as_floats_do() {
    let reference = |bytes: u64| {
        const UNITS: [&str; 6] = ["B", "KiB", "MiB", "GiB", "TiB", "PiB"];
        let mut value = bytes as f64;
        let mut i = 0;
        while value >= 1024.0 && i < 5 {
            value /= 1024.0;
            i += 1;
        }
        if i == 0 {
            format!("{bytes} B")
        } else {
            format!("{value:.2} {}", UNITS[i])
        }
    };
    assert_eq!(human(0), "0 B");
    assert_eq!(human(1536), "1.50 KiB");
    for bytes in [
        1023,
        1024,
        1029,
        1048575,
        1048576,
        5368709120,
        (1 << 53) + 1,
        (1 << 54) + 2,
        (1 << 60) - 1,
        u64::MAX - 1024,
        u64::MAX,
    ] {
        assert_eq!(human(bytes), reference(bytes));
    }
    let mut n: u64 = 1;
    for _ in 0..2000 {
        n = n.wrapping_mul(6364136223846793005).wrapping_add(1442695040888963407);
        let bytes = n >> (n % 60);
        assert_eq!(human(bytes), reference(bytes));
    }
}

#[test]
fn control_and_direction_characters_are_escaped() {
    assert_eq!(safe_text("a\tb\n\r\0\u{7f}"), r"a\tb\n\r\u{0}\u{7f}");
    assert_eq!(safe_text("\u{202e}x\u{2066}"), r"\u{202e}x\u{2066}");
    assert_eq!(safe_text("中文 ok"), "中文 ok");
    let once = safe_text("\u{1b}[31m");
    assert_eq!(safe_text(&once), once);
}

#[test]
fn times_and_columns() {
    assert_eq!(timestamp(UNKNOWN_MTIME), None);
    assert_eq!(
        timestamp(1577836800123).as_deref(),
        Some("2020-01-01T00:00:00.123Z")
    );
    assert_eq!(timestamp(i64::MAX), None);
    assert_eq!(
        date_column(Some("2020-01-01T00:00:00.123Z"), true),
        "2020-01-01 00:00:00"
    );
    assert_eq!(date_column(None, false), "—?");
}

#[test]
fn flags_are_told_in_order() {
    assert_eq!(
        flags(REPARSE | HARDLINK | VIRTUAL),
        vec![
            "reparse:not-followed",
            "hardlink:allocation-once",
            "unresolved:NOT-a-path"
        ]
    );
    assert!(flags(DIR).is_empty());
}

#[test]
fn sizes_are_split_into_number_and_factor() {
    assert_eq!(size_parts("64MiB"), ("64".to_string(), Some(1048576)));
    assert_eq!(size_parts("1.5 gb"), ("1.5".to_string(), Some(1000000000)));
    assert_eq!(size_parts("7"), ("7".to_string(), Some(1)));
    assert_eq!(size_parts("3x").1, None);
    assert_eq!(size_parts("2TiB").1, Some(1099511627776));
}

#[test]
fn views_sort_by_size_and_fold_the_rest() {
    let mut s = Snapshot::new(Wide::of(r"C:\t"), VolumeInfo::default(), "test", 1, 0);
    for (name, size) in [("b", 10u64), ("a", 10), ("big", 100), ("c", 1)] {
        s.push(0, &units(name), size * 2, size, 0).unwrap();
    }
    s.finish().unwrap();
    let o = ViewOptions {
        top: 3,
        ..options()
    };
    let v = view(&s, r"c:\T", &o).unwrap();
    let names: Vec<&str> = v.rows.iter().map(|r| r.name.as_str()).collect();
    assert_eq!(
        names,
        vec![r"C:\t", "big", "a", "b", "[other 1 immediate entries]"]
    );
    assert_eq!(v.rows[4].kind, RowKind::Folded);
    assert_eq!(v.rows[4].allocated_bytes, 1);
    assert_eq!((v.rows[1].share_part, v.rows[1].share_whole), (100, 121));
    let l = ViewOptions {
        metric: Metric::Logical,
        ..o
    };
    let w = view(&s, r"C:\t", &l).unwrap();
    assert_eq!(w.rows[1].share_part, 200);
    assert_eq!(view(&s, r"D:\t", &o).unwrap_err(), FindError::Outside);
    assert!(can_view(&s));
    assert_eq!(view_format(), "disk-cleaner-tree/v3");
}

#[test]
fn a_view_keeps_to_its_lines() {
    let mut s = Snapshot::new(Wide::of(r"C:\t"), VolumeInfo::default(), "test", 1, 0);
    for i in 0..40 {
        s.push(0, &units(&format!("f{i}")), 1, 1, 0).unwrap();
    }
    s.finish().unwrap();
    let o = ViewOptions {
        top: 100,
        max_lines: 20,
        ..options()
    };
    let v = view(&s, r"C:\t", &o).unwrap();
    assert_eq!(v.rows.len(), 7);
    let listed: u64 = v.rows[1..].iter().map(|r| r.allocated_bytes).sum();
    assert_eq!(listed, 40);
    assert_eq!(v.rows.last().unwrap().folded_children, 35);
}

#[test]
fn the_first_row_is_the_scope_whatever_is_asked_for() {
    let s = table();
    for depth in [0, 1, 3] {
        for min_bytes in [0, 1 << 30] {
            for metric in [Metric::Allocated, Metric::Logical] {
                let o = ViewOptions {
                    depth,
                    min_bytes,
                    metric,
                    max_lines: 0,
                    ..options()
                };
                let v = view(&s, r"C:\t", &o).unwrap();
                let first = &v.rows[0];
                assert_eq!(
                    (first.logical_bytes, first.allocated_bytes, first.files, first.dirs),
                    (6, 8192, 2, 2)
                );
                assert_eq!(first.share_part, first.share_whole);
                assert!(v.rows.len() <= 3);
                for r in &v.rows {
                    assert_eq!(r.modified_utc, r.latest_modified_utc);
                    assert_eq!(r.modified_semantics, r.kind.modified_semantics());
                    if r.kind == RowKind::File {
                        assert_eq!(r.oldest_modified_utc, r.latest_modified_utc);
                    }
                }
            }
        }
    }
}

#[test]
fn a_report_has_a_line_per_row_note_and_warning() {
    for count in [0, 3, 4, 5, 30] {
        let mut s = Snapshot::new(Wide::of(r"C:\t"), VolumeInfo::default(), "test", 1, 0);
        for i in 0..40 {
            s.push(0, &units(&format!("f\n{i}")), 1, 1, 0).unwrap();
        }
        s.finish().unwrap();
        for i in 0..count {
            s.stats.warnings.push(format!("first\nsecond {i}"));
        }
        for (max_lines, limit) in [(0, 16), (20, 20), (9000, 2000)] {
            let o = ViewOptions {
                top: 100,
                max_lines,
                git: true,
                ..options()
            };
            let v = view(&s, r"C:\t", &o).unwrap();
            let t = text(&v, &o, &shares(&v));
            let told = count.min(4) + usize::from(count > 4);
            assert_eq!(t.lines().count(), 4 + v.rows.len() + v.notes.len() + told);
            assert_eq!(texts::lines(&t).len(), t.lines().count());
            assert!(t.lines().count() <= limit);
            assert!(t.ends_with('\n'));
        }
    }
}

#[test]
fn the_text_report_has_its_columns() {
    let mut s = table();
    for i in 0..6 {
        s.stats.warnings.push(format!("w{i}\t"));
    }
    s.stats.elapsed_ms = 5;
    let o = ViewOptions {
        ascii: true,
        ..options()
    };
    let mut v = view(&s, r"C:\t", &o).unwrap();
    v.report_ready_ms = Some(9);
    let sh = shares(&v);
    let t = text(&v, &o, &sh);
    let lines: Vec<&str> = t.lines().collect();
    assert_eq!(
        lines[0],
        r"DISK-CLEANER TREE v3 | scope=C:\t | fs= | backend=test"
    );
    assert!(lines[1].starts_with("扫描/汇总=5 ms  records=0  threads=2  peak=0 B  index="));
    assert_eq!(
        lines[2],
        "volume: total=0 B  used=0 B  free=0 B | 报告就绪=9 ms（含索引 I/O、Git；不含最终格式化/终端输出）"
    );
    assert_eq!(
        lines[3],
        format!(
            "{:>13}  {:>13}  {:>6}  {:10}  {:>9}  {:<20}  {:<20}  TREE / EVIDENCE",
            "ALLOCATED", "LOGICAL", "SCOPE%", "SHARE", "FILES", "LATEST UTC (max)", "OLDEST UTC (min)"
        )
    );
    assert_eq!(
        lines[4],
        format!(
            "{:>13}  {:>13}  {:>5.1}%  {}  {:>9}  {:<20}  {:<20}  {}",
            "8.00 KiB",
            "6 B",
            100.0,
            "##########",
            2,
            "2020-01-01 00:00:00",
            "2000-01-01 00:00:00",
            r"C:\t/"
        )
    );
    assert!(lines[5].contains("  +- nested/"));
    assert!(lines.contains(&r"NOTE: w3\t"));
    assert!(!t.contains("w4"));
    assert_eq!(
        *lines.last().unwrap(),
        "NOTE: 2 additional diagnostics in --json/snapshot"
    );
}

#[test]
fn git_answers_become_notes() {
    assert_eq!(git_note(&GitAnswer::Outside), None);
    assert_eq!(git_note(&GitAnswer::Failed).as_deref(), Some("git:UNKNOWN"));
    assert_eq!(
        git_note(&GitAnswer::Repository(None)).as_deref(),
        Some("git:UNKNOWN")
    );
    assert_eq!(
        git_note(&GitAnswer::Repository(Some("git:covered".to_string()))).as_deref(),
        Some("git:covered")
    );
    assert_eq!(
        git_note(&GitAnswer::Inside("ignored".to_string())).as_deref(),
        Some("git:ignored")
    );
}

#[test]
fn equal_scans_compare_equal_and_differences_are_told() {
    let a = table();
    let b = table();
    let same = compare(&a, &b, r"C:\t").unwrap();
    assert!(same.equal);
    assert_eq!((same.left_nodes, same.differences), (4, 0));
    let mut c = Snapshot::new(Wide::of(r"C:\t"), VolumeInfo::default(), "test", 2, 0);
    let nested = c.push(0, &units("nested"), 0, 0, DIR).unwrap();
    let old = c.push(0, &units("old.txt"), 4, 4096, 0).unwrap();
    let other = c.push(nested, &units("other.txt"), 3, 4096, 0).unwrap();
    c.set_file_mtime(old, Some(946684800000));
    c.set_file_mtime(other, Some(1577836800000));
    c.finish().unwrap();
    let d = compare(&a, &c, r"C:\t").unwrap();
    assert!(!d.equal && !d.root_logical_equal && d.root_allocated_equal);
    assert!(d.examples.contains(&r"only left: nested\new.txt".to_string()));
    assert!(d.examples.contains(&r"only right: nested\other.txt".to_string()));
    let expected = "old.txt: left=Entry { oldest_modified_ms: 946684800000, latest_modified_ms: 946684800000, logical: 3, allocated: 4096, is_dir: false, hardlink: false }; right=Entry { oldest_modified_ms: 946684800000, latest_modified_ms: 946684800000, logical: 4, allocated: 4096, is_dir: false, hardlink: false }";
    assert!(d.examples.contains(&expected.to_string()));
    assert_eq!(d.examples.len() as u64, d.differences);
    let e = compare(&c, &a, r"C:\t").unwrap();
    assert!(!e.equal);
    assert_eq!((d.left_nodes, d.right_nodes), (e.right_nodes, e.left_nodes));
    assert_eq!(d.differences, e.differences);
    assert_eq!(compare(&a, &b, r"D:\").unwrap_err(), FindError::Outside);
}

#[test]
fn at_most_forty_differences_are_shown() {
    let many = |size: u64| {
        let mut s = Snapshot::new(Wide::of(r"C:\t"), VolumeInfo::default(), "test", 1, 0);
        for i in 0..50 {
            s.push(0, &units(&format!("f{i}")), size, 1, 0).unwrap();
        }
        s.finish().unwrap();
        s
    };
    let c = compare(&many(1), &many(2), r"C:\t").unwrap();
    assert_eq!(c.examples.len(), 40);
    assert!(c.differences >= 50);
    assert_eq!(
        compare(&many(2), &many(1), r"C:\t").unwrap().differences,
        c.differences
    );
}

#[test]
fn the_space_of_shared_files_is_no_difference() {
    let shared = |space: u64, flags: u16| {
        let mut s = Snapshot::new(Wide::of(r"C:\t"), VolumeInfo::default(), "test", 1, 0);
        s.push(0, &units("f"), 3, space, flags).unwrap();
        s.finish().unwrap();
        s
    };
    let c = compare(&shared(8, HARDLINK), &shared(0, HARDLINK), r"C:\t").unwrap();
    assert_eq!(c.differences, 0);
    let d = compare(&shared(8, 0), &shared(0, 0), r"C:\t").unwrap();
    assert_eq!(d.differences, 1);
}
