use disk_cleaner::frame::{frame, is_snapshot_magic, judge, unframe, FrameError, Schema};
use disk_cleaner::legacy::{LegacyNodeV2, LegacySnapshotV2, UpgradeError};
use disk_cleaner::links::SnapshotError;
use disk_cleaner::model::{
    latest_known, oldest_known, FindError, Node, PushError, Snapshot, DIR, NONE, UNKNOWN_MTIME,
};
use disk_cleaner::platform::{self, VolumeInfo};
use disk_cleaner::rollup::IndexError;
use disk_cleaner::stored::{LoadError, OldRow, OldScanRow, SaveError};
use disk_cleaner::wide::{file_name, push, Wide};

fn tree() -> Snapshot {
    let mut s = Snapshot::new(
        Wide::of(r"C:\test"),
        VolumeInfo::default(),
        "test",
        2,
        7,
    );
    let a = s.push(0, &[65], 0, 0, DIR).unwrap();
    s.push(a, &[98], 10, 4096, 0).unwrap();
    s.push(0, &[99], 20, 8192, 0).unwrap();
    s.finish().unwrap();
    s
}

#[test]
fn exact_rollup() {
    let s = tree();
    assert_eq!(s.nodes[0].logical, 30);
    assert_eq!(s.nodes[0].allocated, 12288);
    assert_eq!(s.nodes[0].files, 2);
    assert_eq!(s.nodes[0].dirs, 2);
    s.validate().unwrap();
}

#[test]
fn totals_are_those_of_the_whole_subtree_in_any_order() {
    let build = |late: bool| {
        let mut s = Snapshot::new(Wide::of(r"C:\t"), VolumeInfo::default(), "test", 1, 0);
        let (a, b) = if late { (3, 1) } else { (1, 3) };
        let mut put = |id: u32, parent: u32, size: u64, flags: u16, time: i64| {
            assert_eq!(s.push(parent, &[64 + id as u16], size, size, flags).unwrap(), id);
            s.set_file_mtime(id, Some(time));
        };
        if late {
            put(b, 2, 5, 0, 50);
            put(2, a, 0, DIR, 0);
            put(a, 0, 0, DIR, 0);
        } else {
            put(a, 0, 0, DIR, 0);
            put(2, a, 0, DIR, 0);
            put(b, 2, 5, 0, 50);
        }
        put(4, a, 7, 0, 70);
        s.finish().unwrap();
        s
    };
    let early = build(false);
    let late = build(true);
    for (s, top) in [(&early, 1), (&late, 3)] {
        let n = s.nodes[top];
        assert_eq!((n.logical, n.files, n.dirs), (12, 2, 2));
        assert_eq!((n.oldest_modified_ms, n.latest_modified_ms), (50, 70));
        let mut kids = s.child_ids(top as u32);
        kids.sort();
        assert_eq!(kids, vec![2, 4]);
        assert_eq!(s.nodes[2].parent, top as u32);
    }
    assert_eq!(early.nodes[0].logical, late.nodes[0].logical);
    assert_eq!(early.nodes[0].flags, late.nodes[0].flags);
}

#[test]
fn unpaired_surrogates_stay_in_unit_paths() {
    let mut s = Snapshot::new(Wide::of(r"C:\t"), VolumeInfo::default(), "test", 1, 0);
    let d = s.push(0, &[0xd800], 0, 0, DIR).unwrap();
    let f = s.push(d, &[0xdc00, 97], 1, 1, 0).unwrap();
    s.finish().unwrap();
    let mut expected: Vec<u16> = r"C:\t\".encode_utf16().collect();
    expected.extend([0xd800, 92, 0xdc00, 97]);
    assert_eq!(s.path(f).units, expected);
    assert_eq!(s.path(f).to_text(), "C:\\t\\\u{fffd}\\\u{fffd}a");
    assert_eq!(s.path(f), platform::decode_name(&expected));
}

fn pushed(base: &str, name: &str) -> String {
    Wide::of(base).join(&Wide::of(name).units).to_text()
}

#[test]
fn names_are_pushed_as_the_system_pushes_them() {
    assert_eq!(pushed(r"C:\a", "b"), r"C:\a\b");
    assert_eq!(pushed(r"C:\", "b"), r"C:\b");
    assert_eq!(pushed("C:/a/", "b"), "C:/a/b");
    assert_eq!(pushed("C:", "b"), "C:b");
    assert_eq!(pushed("", "b"), "b");
    assert_eq!(pushed(r"C:\a", r"\b"), r"C:\b");
    assert_eq!(pushed(r"C:\a", "/b"), "C:/b");
    assert_eq!(pushed(r"C:\a", "D:b"), "D:b");
    assert_eq!(pushed(r"C:\a", r"D:\b"), r"D:\b");
    assert_eq!(pushed(r"C:\a", r"\\server\share"), r"\\server\share");
    assert_eq!(pushed(r"\\server\share\x", r"\b"), r"\\server\share\b");
    assert_eq!(pushed(r"\\?\C:\a", r"..\b"), r"\\?\C:\b");
    assert_eq!(pushed(r"\\?\C:\a", r".\b/c"), r"\\?\C:\a\b\c");
    assert_eq!(pushed(r"\\?\C:\a", r"\b"), r"\\?\C:\b");
    assert_eq!(pushed(r"\\?\C:/a", "b"), r"\\?\C:\a\b");
    assert_eq!(pushed(r"\\?\UNC\server\share", "b"), r"\\?\UNC\server\share\b");
    assert_eq!(pushed(r"C:\a", r"..\b"), r"C:\a\..\b");
    assert_eq!(push(&[99, 58, 92], &[97]), vec![99, 58, 92, 97]);
    assert_eq!(push(&[], &[0xd800]), vec![0xd800]);
}

#[test]
fn a_node_path_follows_what_its_names_say() {
    let mut s = Snapshot::new(Wide::of(r"C:\t"), VolumeInfo::default(), "test", 1, 0);
    let d = s.push(0, &Wide::of("E:x").units, 0, 0, DIR).unwrap();
    let f = s.push(d, &[97], 1, 1, 0).unwrap();
    s.finish().unwrap();
    assert_eq!(s.path(f).to_text(), r"E:x\a");
}

#[test]
fn the_last_name_stands_behind_the_prefix() {
    let last = |p: &str| String::from_utf16_lossy(&file_name(&Wide::of(p).units));
    assert_eq!(last(r"C:\a\b"), "b");
    assert_eq!(last("C:/a/b/"), "b");
    assert_eq!(last(r"C:\a\."), "a");
    assert_eq!(last(r"C:\a\.."), "");
    assert_eq!(last(r"C:\"), "");
    assert_eq!(last(r"\\server\share"), "");
    assert_eq!(last(r"\\server\share\x"), "x");
    assert_eq!(last(r"\\?\C:\a/b"), "a/b");
    assert_eq!(file_name(&[99, 58, 92, 0xdc00]), vec![0xdc00]);
}

#[test]
fn ascii_case_and_separators_do_not_part_paths() {
    assert_eq!(platform::path_key(r"C:\Users\ANN/"), r"c:\users\ann");
    assert!(platform::within(r"c:\users\ann\X", "C:/USERS/Ann"));
    assert!(!platform::within(r"C:\users\anna", r"C:\users\ann"));
}

#[test]
fn min_max_file_timestamps_ignore_directory_and_order() {
    let mut s = Snapshot::new(
        Wide::of(r"C:\test"),
        VolumeInfo::default(),
        "test",
        1,
        0,
    );
    let dir = s.push(0, &[97], 0, 0, DIR).unwrap();
    let empty = s.push(dir, &[101], 0, 0, DIR).unwrap();
    let newer = s.push(dir, &[98], 1, 1, 0).unwrap();
    let older = s.push(dir, &[99], 1, 1, 0).unwrap();
    s.set_file_mtime(dir, Some(1));
    s.set_file_mtime(newer, Some(20000));
    s.set_file_mtime(older, Some(10000));
    s.finish().unwrap();
    assert_eq!(s.nodes[empty as usize].oldest_modified_ms, UNKNOWN_MTIME);
    assert_eq!(s.nodes[empty as usize].latest_modified_ms, UNKNOWN_MTIME);
    assert_eq!(s.nodes[dir as usize].oldest_modified_ms, 10000);
    assert_eq!(s.nodes[0].oldest_modified_ms, 10000);
    assert_eq!(s.nodes[dir as usize].latest_modified_ms, 20000);
    assert_eq!(s.nodes[0].latest_modified_ms, 20000);
    assert_eq!(
        s.nodes[older as usize].oldest_modified_ms,
        s.nodes[older as usize].latest_modified_ms
    );
}

#[test]
fn compact_nodes() {
    assert!(std::mem::size_of::<Node>() <= 64);
}

#[test]
fn roundtrip_and_corruption() {
    let s = tree();
    let mut file = s.save().unwrap();
    let t = Snapshot::load(&file).unwrap();
    assert_eq!(t.nodes[0].logical, 30);
    assert_eq!((t.version, &t.root, &t.names), (s.version, &s.root, &s.names));
    assert_eq!(t.save().unwrap(), file);
    file.extend_from_slice(b"bad");
    assert_eq!(
        Snapshot::load(&file).unwrap_err(),
        LoadError::Frame(FrameError::ChecksumMismatch)
    );
}

#[test]
fn a_framed_payload_is_read_back() {
    let payload: Vec<u8> = tree().nodes[0].logical.to_le_bytes().to_vec();
    let file = frame(&payload);
    let (schema, back) = unframe(&file).unwrap();
    assert_eq!(schema, Schema::V3);
    assert_eq!(back, &30u64.to_le_bytes()[..]);
}

#[test]
fn fields_are_stored_in_their_full_width() {
    let mut s = Snapshot::new(Wide::of(r"C:\t"), VolumeInfo::default(), "x", 3, 9);
    s.push(0, &[97], 5, 6, 0).unwrap();
    s.finish().unwrap();
    s.stats.warnings.push("w".to_string());
    let file = s.save().unwrap();
    let (_, payload) = unframe(&file).unwrap();
    assert_eq!(&payload[..16], b"\x03\0\0\0\x04\0\0\0\0\0\0\0C:\\t");
    // A volume of three empty texts and its numbers, the figures, the nodes, the names.
    let nodes_at = 16 + (24 + 24) + (9 + 48 + 1 + 16 + 8 + 9);
    assert_eq!(&payload[nodes_at..nodes_at + 8], &2u64.to_le_bytes());
    assert_eq!(payload.len(), nodes_at + 8 + 2 * 60 + 8 + 2);
    let t = Snapshot::load(&file).unwrap();
    assert_eq!((t.stats.threads, t.stats.started_unix), (3, 9));
    assert_eq!((t.stats.backend, t.stats.warnings), ("x".to_string(), vec!["w".to_string()]));
    assert_eq!((t.nodes[1].logical, t.nodes[1].allocated, t.nodes[1].parent), (5, 6, 0));
}

#[test]
fn faulty_files_are_told_apart() {
    assert_eq!(
        Snapshot::load(b"DCSCAN03").unwrap_err(),
        LoadError::Frame(FrameError::InvalidLength)
    );
    assert_eq!(Snapshot::load(&frame(b"short")).unwrap_err(), LoadError::Unreadable);
    let mut cyclic = tree();
    cyclic.nodes[1].next_sibling = 1;
    let file = cyclic.save().unwrap();
    assert!(matches!(Snapshot::load(&file).unwrap_err(), LoadError::Invalid(_)));
    let mut odd = tree();
    odd.root.units.push(0xd800);
    assert_eq!(odd.save().unwrap_err(), SaveError::ImproperPath);
    assert_eq!(LoadError::TooLarge.message(), "scan index exceeds 32-bit compact limits");
}

#[test]
fn rejects_cycles() {
    let mut s = tree();
    s.nodes[1].next_sibling = 1;
    assert!(s.validate().is_err());
}

#[test]
fn component_boundary() {
    assert!(!platform::within(r"C:\foobar", r"C:\foo"));
    assert!(platform::within(r"C:\foo\bar", r"C:\foo"));
    assert!(platform::within("c:/FOO/", r"C:\foo"));
}

#[test]
fn v2_cache_migration_derives_max_from_files() {
    let mut s = tree();
    s.set_file_mtime(2, Some(100));
    s.set_file_mtime(3, Some(900));
    let nodes: Vec<OldRow> = s
        .nodes
        .iter()
        .map(|n| {
            (
                n.logical,
                n.allocated,
                n.oldest_modified_ms,
                n.parent,
                n.first_child,
                n.next_sibling,
                n.name_start,
                n.name_len,
                n.flags,
                n.files,
                n.dirs,
            )
        })
        .collect();
    let old: OldScanRow = (
        2,
        s.root.to_text(),
        (
            s.volume.root.clone(),
            s.volume.device.clone(),
            s.volume.filesystem.clone(),
            s.volume.serial,
            s.volume.total_bytes,
            s.volume.free_bytes,
            s.volume.cluster_bytes,
        ),
        (
            s.stats.backend.clone(),
            s.stats.started_unix,
            s.stats.elapsed_ms,
            s.stats.threads as u64,
            s.stats.records_read,
            s.stats.raw_bytes_read,
            s.stats.errors,
            s.stats.complete,
            s.stats.peak_working_set_bytes,
            s.stats.index_bytes,
            s.stats.warnings.clone(),
        ),
        nodes,
        s.names.clone(),
    );
    let data = bincode::serialize(&old).unwrap();
    let mut bytes = b"DCSCAN02".to_vec();
    bytes.extend_from_slice(blake3::hash(&data).as_bytes());
    bytes.extend(data);
    assert_eq!(unframe(&bytes).unwrap().0, Schema::V2);
    let loaded = Snapshot::load(&bytes).unwrap();
    assert_eq!(loaded.nodes[0].logical, 30);
    assert_eq!(loaded.nodes[0].oldest_modified_ms, 100);
    assert_eq!(loaded.nodes[0].latest_modified_ms, 900);
    assert_eq!(loaded.version, 3);
    let wrong: OldScanRow = (3, old.1, old.2, old.3, old.4, old.5);
    let data = bincode::serialize(&wrong).unwrap();
    let mut bytes = b"DCSCAN02".to_vec();
    bytes.extend_from_slice(blake3::hash(&data).as_bytes());
    bytes.extend(data);
    assert_eq!(
        Snapshot::load(&bytes).unwrap_err(),
        LoadError::Upgrade(UpgradeError::InvalidSchema)
    );
}

#[test]
fn unknown_time_is_not_an_epoch_or_extreme_value() {
    assert_eq!(latest_known(UNKNOWN_MTIME, 10), 10);
    assert_eq!(oldest_known(10, UNKNOWN_MTIME), 10);
    assert_eq!(latest_known(UNKNOWN_MTIME, UNKNOWN_MTIME), UNKNOWN_MTIME);
}

#[test]
fn only_the_second_format_is_brought_forward() {
    let s = tree();
    let old = LegacySnapshotV2 {
        version: 1,
        root: s.root.clone(),
        volume: s.volume.clone(),
        stats: tree().stats,
        nodes: Vec::new(),
        names: Vec::new(),
    };
    assert_eq!(old.upgrade().unwrap_err(), UpgradeError::InvalidSchema);
    let empty = LegacySnapshotV2 {
        version: 2,
        root: s.root.clone(),
        volume: s.volume.clone(),
        stats: tree().stats,
        nodes: Vec::new(),
        names: Vec::new(),
    };
    assert_eq!(
        empty.upgrade().unwrap_err(),
        UpgradeError::Invalid(SnapshotError::Unsupported)
    );
}

#[test]
fn frames_are_judged_by_length_magic_and_sum() {
    let file = frame(b"payload");
    assert_eq!(&file[..8], b"DCSCAN03");
    assert_eq!(&file[8..40], blake3::hash(b"payload").as_bytes());
    assert!(is_snapshot_magic(b"DCSCAN01"));
    assert!(is_snapshot_magic(b"DCSCAN03"));
    assert!(!is_snapshot_magic(b"DCSCAN04"));
    assert_eq!(unframe(&file[..39]).unwrap_err(), FrameError::InvalidLength);
    let mut first = file.clone();
    first[7] = b'1';
    assert_eq!(unframe(&first).unwrap_err(), FrameError::TimelessFormat);
    first[7] = b'9';
    assert_eq!(unframe(&first).unwrap_err(), FrameError::Unsupported);
    let mut torn = file.clone();
    torn[45] ^= 1;
    assert_eq!(unframe(&torn).unwrap_err(), FrameError::ChecksumMismatch);
    let sum = blake3::hash(b"payload");
    assert_eq!(
        judge(u64::MAX, &file[..40], sum.as_bytes()).unwrap_err(),
        FrameError::InvalidLength
    );
}

#[test]
fn every_fault_of_a_node_is_told() {
    let mut s = tree();
    s.version = 2;
    assert_eq!(s.validate().unwrap_err(), SnapshotError::Unsupported);
    let mut s = tree();
    s.nodes[2].oldest_modified_ms = 5;
    assert_eq!(s.validate().unwrap_err(), SnapshotError::InvalidTimes(2));
    let mut s = tree();
    s.nodes[2].oldest_modified_ms = 5;
    s.nodes[2].latest_modified_ms = 6;
    assert_eq!(
        s.validate().unwrap_err(),
        SnapshotError::InconsistentFileTimes(2)
    );
    let mut s = tree();
    s.nodes[3].name_len = 9;
    assert_eq!(s.validate().unwrap_err(), SnapshotError::InvalidName(3));
    let mut s = tree();
    s.nodes[3].parent = 77;
    assert_eq!(s.validate().unwrap_err(), SnapshotError::InvalidIndex(3));
    let mut s = tree();
    s.nodes[0].first_child = NONE;
    assert_eq!(s.validate().unwrap_err(), SnapshotError::Unreachable);
    let mut s = tree();
    s.nodes[1].first_child = 3;
    assert_eq!(s.validate().unwrap_err(), SnapshotError::CorruptChildChain);
}

#[test]
fn finishing_refuses_strangers_and_cycles() {
    let mut s = tree();
    s.nodes[2].parent = 9;
    assert_eq!(s.finish().unwrap_err(), IndexError::InvalidParent(2));
    let mut s = Snapshot::new(Wide::of("C:/x"), VolumeInfo::default(), "test", 1, 0);
    s.push(2, &[97], 0, 0, DIR).unwrap();
    s.push(1, &[98], 0, 0, DIR).unwrap();
    assert_eq!(s.finish().unwrap_err(), IndexError::Cycle);
}

fn unfinished() -> Snapshot {
    let mut s = Snapshot::new(Wide::of(r"C:\x"), VolumeInfo::default(), "test", 1, 0);
    s.push(0, &[97], 1, 1, 0).unwrap();
    s.push(0, &[98], 2, 2, 0).unwrap();
    s
}

#[test]
fn figures_past_their_fields_are_refused() {
    let mut s = unfinished();
    s.nodes[1].logical = u64::MAX - 2;
    s.finish().unwrap();
    assert_eq!(s.nodes[0].logical, u64::MAX);
    let mut s = unfinished();
    s.nodes[1].logical = u64::MAX - 1;
    assert_eq!(s.finish().unwrap_err(), IndexError::LogicalOverflow);
    let mut s = unfinished();
    s.nodes[1].allocated = u64::MAX;
    assert_eq!(s.finish().unwrap_err(), IndexError::AllocatedOverflow);
    let mut s = unfinished();
    s.nodes[1].files = u32::MAX;
    assert_eq!(s.finish().unwrap_err(), IndexError::FileOverflow);
    let mut s = unfinished();
    s.nodes[1].dirs = u32::MAX;
    assert_eq!(s.finish().unwrap_err(), IndexError::DirectoryOverflow);
}

#[test]
fn the_first_fault_on_the_way_counts() {
    let mut s = tree();
    s.nodes[2].parent = 0;
    assert_eq!(s.validate().unwrap_err(), SnapshotError::CorruptChildChain);
    let mut s = tree();
    s.nodes[0].first_child = NONE;
    assert_eq!(s.validate().unwrap_err(), SnapshotError::Unreachable);
    let mut s = tree();
    s.nodes[1].first_child = 0;
    s.nodes[0].parent = 1;
    assert_eq!(s.validate().unwrap_err(), SnapshotError::DuplicateLink);
    // Children pass their totals up in the order in which they are free to.
    let mut s = unfinished();
    s.nodes[1].allocated = u64::MAX;
    s.nodes[2].allocated = u64::MAX;
    s.nodes[2].logical = u64::MAX;
    assert_eq!(s.finish().unwrap_err(), IndexError::LogicalOverflow);
    let mut s = unfinished();
    s.nodes[0].allocated = 1;
    s.nodes[1].allocated = u64::MAX;
    s.nodes[2].logical = u64::MAX;
    assert_eq!(s.finish().unwrap_err(), IndexError::AllocatedOverflow);
}

#[test]
fn overlong_names_are_refused() {
    let mut s = tree();
    let long = vec![97u16; 70000];
    assert_eq!(
        s.push(0, &long, 0, 0, 0).unwrap_err(),
        PushError::OverlongName
    );
    assert_eq!(s.nodes.len(), 4);
}

#[test]
fn paths_are_found_by_name_and_by_loose_name() {
    let s = tree();
    assert_eq!(s.find(r"C:\test\A\b"), Ok(2));
    assert_eq!(s.find("c:/TEST/a/B"), Ok(2));
    assert_eq!(s.find(r"C:\test"), Ok(0));
    assert_eq!(s.find(r"C:\test\missing"), Err(FindError::NotFound));
    assert_eq!(s.find(r"D:\test"), Err(FindError::Outside));
    assert_eq!(s.path(2).to_text(), r"C:\test\A\b");
    assert_eq!(s.name(3), "c");
}

#[test]
fn warnings_are_counted_and_kept_up_to_a_limit() {
    let mut s = tree();
    for i in 0..30 {
        s.warn(format!("w{i}"));
    }
    assert_eq!(s.stats.errors, 30);
    assert_eq!(s.stats.warnings.len(), 24);
    assert!(!s.stats.complete);
}

#[test]
fn the_index_is_counted_at_least_by_its_contents() {
    let s = tree();
    assert!(s.index_bytes() >= 4 * std::mem::size_of::<Node>() as u64 + 6);
}

#[test]
fn names_go_through_utf16() {
    let units = platform::encode_name(&Wide::of("中𝄞"));
    assert_eq!(units, vec![0x4e2d, 0xd834, 0xdd1e]);
    assert_eq!(platform::decode_name(&units), Wide::of("中𝄞"));
    assert_eq!(platform::decode_name(&[0xd834]).units, vec![0xd834]);
    assert_eq!(platform::decode_name(&[0xd834]).to_text(), "\u{fffd}");
    assert_eq!(platform::path_key(r"\\?\C:\Ä/B\"), r"c:\ä\b");
    assert_eq!(platform::display_path(r"\\?\UNC\srv\x"), r"\\srv\x");
}

#[test]
fn windows_times_become_unix_times() {
    assert_eq!(platform::modified_unix_ms(116444736000000000), Some(0));
    assert_eq!(platform::modified_unix_ms(0), None);
    assert_eq!(platform::modified_unix_ms(-5), None);
    assert_eq!(platform::portable_unix_ms(12), Some(12000));
    assert_eq!(platform::portable_unix_ms(i64::MAX), None);
}

#[test]
fn faults_are_told_in_words() {
    assert_eq!(
        IndexError::InvalidParent(7).message(),
        "invalid/cyclic parent in scan index at 7"
    );
    assert_eq!(
        IndexError::Cycle.message(),
        "cycle in filesystem parent graph; refusing a misleading snapshot"
    );
    assert_eq!(SnapshotError::InvalidName(3).message(), "invalid name range at 3");
    assert_eq!(
        SnapshotError::InconsistentFileTimes(3).message(),
        "file has inconsistent last-write times"
    );
    assert_eq!(
        UpgradeError::Invalid(SnapshotError::Unreachable).message(),
        "unreachable nodes in scan cache"
    );
    assert_eq!(UpgradeError::InvalidSchema.message(), "invalid v2 snapshot schema");
    assert_eq!(
        PushError::TooLarge.message(),
        "scan index exceeds 32-bit compact limits"
    );
    assert_eq!(FrameError::ChecksumMismatch.message(), "snapshot checksum mismatch");
    assert_eq!(
        FindError::Outside.message("E:/a", "D:/"),
        "E:/a is outside snapshot root D:/"
    );
    assert_eq!(
        FindError::NotFound.message("D:/a", "D:/"),
        "path not found or ambiguous in snapshot: D:/a (scan may be stale)"
    );
}
