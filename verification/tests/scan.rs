use disk_cleaner::bytes::{idat, u16at, u32at, u64at, units};
use disk_cleaner::enumeration::{beyond, walk_bytes, saturating_product, Entry, FsIndex};
use disk_cleaner::growth::{add_item, add_remark, add_warning};
use disk_cleaner::ntfs_index::table_bytes;
use disk_cleaner::refs_index::{exceeds_budget, metadata_bytes};
use disk_cleaner::model::{PushError, Snapshot, DIR, HARDLINK, INCOMPLETE, REPARSE};
use disk_cleaner::order::{distinct, indices, keys_below, units_below};
use disk_cleaner::path_order::place;
use disk_cleaner::platform::{is_absolute, join, pieces, Identity, VolumeInfo};
use disk_cleaner::scanning::{
    after_failure, batch_bytes, eq_ignore_case, needs_administrator, record_effort, select_backend,
    volume_backend, AfterFailure, Backend, ScanOptions,
};
use disk_cleaner::text;
use disk_cleaner::volume::{
    drives, identity_of, link_path, read_window, record_reply, stream_step, stream_totals,
    volume_of, ReadFault, ReplyFault, StreamFault, StreamStep, Window, HANDLE_EOF, MORE_DATA,
};
use disk_cleaner::wide::Wide;

fn wide(s: &str) -> Vec<u16> {
    s.encode_utf16().collect()
}

fn file(id: u8, links: u32) -> Identity {
    Identity {
        volume: 1,
        id: [id; 16],
        length: 10,
        allocated: 16,
        modified: 116444736000000000,
        attributes: 0x20,
        links,
    }
}

fn entry(name: &str, identity: Identity) -> Entry {
    Entry {
        name: wide(name),
        identity,
    }
}

#[test]
fn walking_indexes_entries_and_enters_only_real_directories() {
    let start = Identity {
        attributes: 0x10,
        ..Identity::default()
    };
    let mut index = FsIndex::new(
        Wide::of(r"C:\r"),
        VolumeInfo::default(),
        2,
        0,
        &start,
        true,
    );
    let dir = Identity {
        attributes: 0x10,
        length: 0,
        allocated: 0,
        ..file(3, 1)
    };
    let junction = Identity {
        attributes: 0x410,
        ..dir
    };
    let jobs = index
        .take_batch(
            0,
            &Wide::of(r"C:\r"),
            &vec![
                entry("a", file(1, 2)),
                entry("b", file(1, 2)),
                entry("d", dir),
                entry("j", junction),
            ],
        )
        .unwrap();
    assert_eq!(jobs.len(), 1);
    assert_eq!(jobs[0].path, Wide::of(r"C:\r\d"));
    assert_eq!(jobs[0].parent, 3);
    assert_eq!(index.over_budget(u64::MAX), None);
    assert!(index.over_budget(1).is_some());
    index.warn("denied".to_string());
    let (mut s, kept) = index.close();
    assert_eq!(kept.len(), 5);
    s.finish().unwrap();
    s.validate().unwrap();
    assert_eq!((s.nodes[1].allocated, s.nodes[2].allocated), (16, 0));
    assert_eq!(s.nodes[1].flags & HARDLINK, HARDLINK);
    assert_eq!(s.nodes[4].flags & REPARSE, REPARSE);
    assert_eq!(s.nodes[0].flags & INCOMPLETE, INCOMPLETE);
    assert_eq!(s.nodes[0].latest_modified_ms, 0);
    assert_eq!(s.stats.errors, 1);
}

#[test]
fn overlong_names_end_a_batch() {
    let start = Identity::default();
    let mut index = FsIndex::new(
        Wide::of(r"C:\r"),
        VolumeInfo::default(),
        1,
        0,
        &start,
        false,
    );
    let long = Entry {
        name: vec![97; 70000],
        identity: file(1, 1),
    };
    assert_eq!(
        index.take_batch(0, &Wide::of(r"C:\r"), &vec![long]).unwrap_err(),
        PushError::OverlongName
    );
    assert_eq!(saturating_product(u64::MAX, 2), u64::MAX);
    assert_eq!(saturating_product(3, 4), 12);
}

#[test]
fn items_and_remarks_grow_a_scan() {
    let mut s = Snapshot::new(Wide::of("C:/"), VolumeInfo::default(), "test", 1, 0);
    let id = add_item(&mut s, 0, &wide("x"), 1, 2, 0, Some(9)).unwrap();
    assert_eq!(s.nodes[id as usize].latest_modified_ms, 9);
    add_remark(&mut s, "just so");
    assert_eq!((s.stats.errors, s.stats.complete), (0, true));
    add_warning(&mut s, "bad".to_string());
    assert_eq!((s.stats.errors, s.stats.complete), (1, false));
    assert_eq!(s.stats.warnings, vec!["just so", "bad"]);
    assert!(add_item(&mut s, 0, &wide("d"), 0, 0, DIR, None).is_ok());
}

#[test]
fn backends_fit_their_filesystem_and_never_give_way() {
    assert_eq!(select_backend(Backend::Auto, "ntfs"), Ok(Backend::Ntfs));
    assert_eq!(select_backend(Backend::Auto, "REFS"), Ok(Backend::Refs));
    assert_eq!(select_backend(Backend::Auto, "FAT32"), Ok(Backend::Fs));
    assert_eq!(select_backend(Backend::Fs, "NTFS"), Ok(Backend::Fs));
    assert_eq!(
        select_backend(Backend::Ntfs, "FAT32").unwrap_err(),
        "--backend ntfs requires NTFS; detected FAT32"
    );
    assert_eq!(
        select_backend(Backend::Refs, "NTFS").unwrap_err(),
        "--backend refs requires ReFS; detected NTFS"
    );
    assert_eq!(volume_backend("NTFS"), Ok(Backend::Ntfs));
    assert_eq!(volume_backend("FAT").unwrap_err(), "no raw backend for FAT");
    assert!(needs_administrator(Backend::Auto, "NTFS"));
    assert!(!needs_administrator(Backend::Auto, "FAT32"));
    assert!(!needs_administrator(Backend::Fs, "NTFS"));
    assert!(needs_administrator(Backend::Refs, "FAT32"));
    assert!(matches!(
        after_failure(Backend::Auto, "boom"),
        AfterFailure::Fallback(t) if t == "FAST BACKEND FAILED; fs fallback: boom"
    ));
    assert!(matches!(
        after_failure(Backend::Ntfs, "boom"),
        AfterFailure::Stop("strict Ntfs backend failed; no silent fallback")
    ));
    assert!(eq_ignore_case("NtFs", "nTfS") && !eq_ignore_case("a", "ab"));
}

#[test]
fn options_have_bounds() {
    let o = ScanOptions::usual(Some(100));
    assert_eq!(o.backend, Backend::Auto);
    let many = ScanOptions { threads: 900, ..o };
    assert_eq!(many.workers(), 64);
    assert_eq!(ScanOptions { threads: 0, ..o }.workers(), 1);
    assert_eq!(
        ScanOptions {
            max_memory_mib: 3,
            ..o
        }
        .memory_limit(),
        3 << 20
    );
    let mut s = Snapshot::new(Wide::of("C:/"), VolumeInfo::default(), "test", 1, 0);
    record_effort(&mut s, 12, 34);
    assert_eq!((s.stats.elapsed_ms, s.stats.peak_working_set_bytes), (12, 34));
}

fn stream(next: u32, name: &str, size: i64, space: i64) -> Vec<u8> {
    let mut b = Vec::new();
    let units = wide(name);
    b.extend(next.to_le_bytes());
    b.extend(((units.len() * 2) as u32).to_le_bytes());
    b.extend(size.to_le_bytes());
    b.extend(space.to_le_bytes());
    for u in units {
        b.extend(u.to_le_bytes());
    }
    b
}

#[test]
fn only_data_streams_count() {
    let second = stream(0, ":ads:$DATA", 5, 8);
    let first = stream(38, "::$DATA", 10, 16);
    assert_eq!(first.len(), 38);
    let mut list = first.clone();
    list.extend(&second);
    assert_eq!(stream_totals(&list), Ok((15, 24)));
    assert_eq!(stream_totals(&stream(0, ":$I30:$INDEX", 5, 8)), Ok((0, 0)));
    assert_eq!(stream_totals(&stream(0, "::$DATA", -5, 8)), Ok((0, 8)));
    assert_eq!(stream_totals(&[0; 10]), Err(StreamFault::Entry));
    let mut name = stream(0, "::$DATA", 1, 1);
    name[4] = 99;
    assert_eq!(stream_totals(&name), Err(StreamFault::Name));
    assert_eq!(
        stream_totals(&stream(8, "::$DATA", 1, 1)),
        Err(StreamFault::Next)
    );
    let mut big = stream(38, "::$DATA", i64::MAX, 0);
    big.extend(stream(38, "::$DATA", i64::MAX, 0));
    big.extend(stream(0, "::$DATA", 2, 0));
    assert_eq!(stream_totals(&big), Err(StreamFault::SizeOverflow));
    let mut wide_list = stream(38, "::$DATA", 0, i64::MAX);
    wide_list.extend(stream(38, "::$DATA", 0, i64::MAX));
    wide_list.extend(stream(0, "::$DATA", 0, 2));
    assert_eq!(
        stream_totals(&wide_list),
        Err(StreamFault::AllocationOverflow)
    );
    assert_eq!(StreamFault::Next.message(), "invalid stream-info next offset");
}

#[test]
fn stream_lists_are_asked_for_with_more_room() {
    assert_eq!(stream_step(true, 0, false, 1024), StreamStep::Read);
    assert_eq!(stream_step(false, HANDLE_EOF, true, 1024), StreamStep::Empty);
    assert_eq!(
        stream_step(false, HANDLE_EOF, false, 1024),
        StreamStep::Fail(HANDLE_EOF)
    );
    assert_eq!(
        stream_step(false, MORE_DATA, false, 1024),
        StreamStep::Grow(2048)
    );
    assert_eq!(
        stream_step(false, MORE_DATA, false, 1 << 20),
        StreamStep::Fail(MORE_DATA)
    );
}

#[test]
fn identities_and_volumes_come_from_what_the_system_tells() {
    let plain = identity_of(1, [2; 16], (-4, 9), (5, 6), 7, 0x20, 1);
    assert_eq!((plain.length, plain.allocated), (5, 6));
    let link = identity_of(1, [2; 16], (-4, 9), (5, 6), 7, 0x400, 1);
    assert_eq!((link.length, link.allocated), (0, 9));
    let mut root = wide(r"C:\");
    root.extend([0, 65]);
    let v = volume_of(
        &root,
        &wide("NTFS"),
        &wide(r"\\?\Volume{x}\"),
        3,
        100,
        40,
        8,
        512,
    );
    assert_eq!(v.root, r"C:\");
    assert_eq!(v.device, r"\\?\Volume{x}");
    assert_eq!((v.cluster_bytes, v.total_bytes, v.free_bytes), (4096, 100, 40));
    let large = volume_of(&root, &[], &[], 0, 0, 0, u32::MAX, u32::MAX);
    assert_eq!(large.cluster_bytes, u32::MAX);
    assert_eq!(drives(0b1101), vec![r"A:\", r"C:\", r"D:\"]);
    assert_eq!(link_path(r"C:\", &wide(r"\a\b")).to_text(), r"C:\a\b");
}

#[test]
fn raw_reads_are_aligned() {
    assert_eq!(read_window(5, 0, 8192, 512), Ok(None));
    assert_eq!(
        read_window(600, 100, 8192, 512),
        Ok(Some(Window {
            start: 512,
            end: 1024,
        }))
    );
    assert_eq!(
        read_window(u64::MAX, 2, 8192, 512),
        Err(ReadFault::Overflow)
    );
    let outside = read_window(8000, 500, 8192, 512).unwrap_err();
    assert_eq!(
        outside,
        ReadFault::Outside {
            offset: 8000,
            len: 500,
        }
    );
    assert!(outside.message().contains("8000"));
}

#[test]
fn record_replies_hold_the_record_asked_for() {
    let mut out = 9u64.to_le_bytes().to_vec();
    out.extend(4u32.to_le_bytes());
    out.extend([1, 2, 3, 4]);
    assert_eq!(record_reply(&out, 16, 9, 4), Ok(vec![1, 2, 3, 4]));
    assert_eq!(record_reply(&out, 16, 8, 4), Err(ReplyFault::Different(8)));
    assert_eq!(record_reply(&out, 16, 9, 8), Err(ReplyFault::Length));
    assert_eq!(record_reply(&out, 15, 9, 4), Err(ReplyFault::Length));
    assert!(ReplyFault::Different(9).message().contains('9'));
}

#[test]
fn numbers_are_little_endian() {
    let b = [1, 2, 3, 4, 5, 6, 7, 8, 9, 10, 11, 12, 13, 14, 15, 16];
    assert_eq!(u16at(&b, 14), Some(0x100f));
    assert_eq!(u16at(&b, 15), None);
    assert_eq!(u32at(&b, 0), Some(0x04030201));
    assert_eq!(u64at(&b, 8), Some(0x100f0e0d0c0b0a09));
    assert_eq!(u64at(&b, usize::MAX), None);
    assert_eq!(idat(&b, 0), Some(u128::from_le_bytes(b)));
    assert_eq!(units(&b[..5]), vec![0x0201, 0x0403]);
}

#[test]
fn texts_are_cut_joined_and_aligned() {
    assert_eq!(text::decimal(0), "0");
    assert_eq!(text::decimal(u64::MAX), "18446744073709551615");
    assert_eq!(text::hex(255), "ff");
    assert_eq!(text::signed(i64::MIN), "-9223372036854775808");
    assert_eq!(text::glue("a", "b"), "ab");
    assert_eq!(text::repeat("ab", 3), "ababab");
    assert_eq!(text::align_right("中", 3), "  中");
    assert_eq!(text::align_left("abcd", 3), "abcd");
    assert_eq!(
        text::join_by(&vec!["a".to_string(), "b".to_string()], ", "),
        "a, b"
    );
    assert_eq!(text::utf16("a𝄞"), vec![97, 0xd834, 0xdd1e]);
    assert_eq!(text::nul_text(&[97, 0, 98]), "a");
    assert!(text::starts("abc", "ab") && text::has("abc", "bc") && !text::has("abc", "d"));
    assert_eq!(text::lines("a\r\nb\n"), vec!["a", "b"]);
    assert_eq!(text::lines(""), Vec::<String>::new());
}

#[test]
fn paths_have_pieces_and_names() {
    assert_eq!(join(r"C:\a", "b"), r"C:\a\b");
    assert_eq!(join(r"C:\", "b"), r"C:\b");
    assert!(is_absolute(r"C:\a") && !is_absolute(r"a\b"));
    assert!(is_absolute(r"\\srv\data") && is_absolute(r"\\?\C:") && is_absolute(r"\\.\COM1"));
    assert!(!is_absolute("C:a") && !is_absolute(r"\\srv") && !is_absolute(r"\a"));
    assert_eq!(pieces(r"C:\a\b").last().map(String::as_str), Some("b"));
}

#[test]
fn orders_are_those_of_their_parts() {
    assert!(units_below(&[1], &[1, 0]) && !units_below(&[2], &[1, 9]));
    assert!(keys_below(&[1], &[1, 0]) && !keys_below(&[1], &[1]));
    assert_eq!(indices(3), vec![0, 1, 2]);
    assert_eq!(distinct(&vec![vec![2], vec![1], vec![2]]), vec![1, 0]);
}

#[test]
fn paths_stand_in_the_order_of_their_parts() {
    let at = |p: &str| place(&Wide::of(p).units);
    let before = |a: &str, b: &str| keys_below(&at(a), &at(b)) && !keys_below(&at(b), &at(a));
    assert_eq!(at("c:/a//b/."), at(r"C:\a\b"));
    assert_eq!(at(r"\\?\c:\a"), at(r"\\?\C:\a"));
    assert_ne!(at(r"\\?\C:\a"), at(r"C:\a"));
    assert_ne!(at(r"C:\A"), at(r"C:\a"));
    assert_ne!(at("C:a"), at(r"C:\a"));
    assert_ne!(at("a"), at("./a"));
    assert_ne!(at(r"C:\a\.."), at(r"C:\"));
    assert_eq!(at(r"C:\a"), vec![1, 6, 67, 0, 2, 0, 5, 98, 0]);
    assert!(before(r"C:\a", r"C:\a\b") && before(r"C:\a\z", r"C:\ab"));
    assert!(before(r"\\?\x\a", r"\\?\UNC\s\t") && before(r"\\?\UNC\s\t", r"\\?\C:\"));
    assert!(before(r"\\?\C:\", r"\\.\COM1") && before(r"\\.\COM1", r"\\s\t"));
    assert!(before(r"\\s\t", r"A:\") && before(r"a:\", r"B:\"));
    assert!(before(r"\\s\t", r"\\sa\b") && before(r"C:\\..", r"C:\a"));
    assert_eq!(at(r"\\s\t"), at("//s/t/"));
    assert!(keys_below(&place(&[0xdfff]), &place(&[0xe000])));
    assert!(keys_below(&place(&[0xffff]), &place(&[0xd800, 0xdc00])));
}

#[test]
fn memory_is_counted_by_room() {
    let each = std::mem::size_of::<Identity>() as u64;
    assert_eq!(walk_bytes(1000, 3, 2), 1000 + 3 * each + 96);
    assert_eq!(walk_bytes(u64::MAX - 1, 0, 1), u64::MAX);
    assert_eq!(table_bytes(1000, 2, 3, 4096), 1000 + 32 + 72 + 4096);
    assert_eq!(table_bytes(0, u64::MAX, 0, 0), u64::MAX);
    assert_eq!(metadata_bytes(1000, 1, 2, 3), Some(1000 + 32 + 192 + 72));
    assert_eq!(metadata_bytes(u64::MAX, 0, 0, 0), Some(u64::MAX));
    assert_eq!(metadata_bytes(u64::MAX, 0, 0, 1), None);
    assert!(!exceeds_budget(1000, 1, 2, 3, 1296));
    assert!(exceeds_budget(1000, 1, 2, 3, 1295));
    assert!(exceeds_budget(u64::MAX, 0, 0, 1, u64::MAX));
    assert_eq!(beyond(5, 5), None);
    assert_eq!(beyond(6, 5), Some(6));
}

#[test]
fn whole_records_are_read_at_a_time() {
    assert_eq!(batch_bytes(8, 1024), 8 << 20);
    assert_eq!(batch_bytes(0, 4096), 1 << 20);
    assert_eq!(batch_bytes(1000, 3000), (64 << 20) / 3000 * 3000);
    assert_eq!(batch_bytes(1, 2 << 20), 2 << 20);
}
