use disk_cleaner::model::{DIR, ESTIMATED, HARDLINK, REPARSE, UNKNOWN_MTIME, VIRTUAL};
use disk_cleaner::ntfs::{attributes, fixup, resident, runs, Geometry, NtfsError, Run};
use disk_cleaner::ntfs_index::{describe, MftIndex};
use disk_cleaner::ntfs_record::{merge, parse_record, Name, Record};
use disk_cleaner::ntfs_stream::{
    extension, first_extents, needed_records, plan_reads, reply_is_marked, settle_extents,
    ListPlace, Part,
};
use disk_cleaner::platform::VolumeInfo;

fn put(b: &mut [u8], at: usize, bytes: &[u8]) {
    b[at..at + bytes.len()].copy_from_slice(bytes);
}

fn boot() -> Vec<u8> {
    let mut b = vec![0; 512];
    put(&mut b, 3, b"NTFS    ");
    put(&mut b, 11, &512u16.to_le_bytes());
    b[13] = 8;
    put(&mut b, 48, &4u64.to_le_bytes());
    b[64] = 0xf6;
    b
}

#[test]
fn geometry_comes_from_the_boot_sector() {
    assert_eq!(
        Geometry::parse(&boot()),
        Ok(Geometry {
            sector: 512,
            cluster: 4096,
            record: 1024,
            mft_offset: 16384,
        })
    );
    let mut clusters = boot();
    clusters[64] = 2;
    assert_eq!(Geometry::parse(&clusters).unwrap().record, 8192);
    assert_eq!(Geometry::parse(&[0; 100]), Err(NtfsError::BootSignature));
    let mut odd = boot();
    odd[13] = 3;
    assert_eq!(Geometry::parse(&odd), Err(NtfsError::Geometry));
    let mut large = boot();
    large[64] = 0xe0;
    assert!(matches!(
        Geometry::parse(&large),
        Err(NtfsError::RecordSize(_))
    ));
    let mut shift = boot();
    shift[64] = 0xc0;
    assert_eq!(Geometry::parse(&shift), Err(NtfsError::RecordShift));
    let mut far = boot();
    put(&mut far, 48, &u64::MAX.to_le_bytes());
    assert_eq!(Geometry::parse(&far), Err(NtfsError::MftOffset));
}

fn nonresident(last: u64, mapping: &[u8]) -> Vec<u8> {
    let len = (64 + mapping.len()).div_ceil(8) * 8;
    let mut a = vec![0; len];
    put(&mut a, 0, &0x80u32.to_le_bytes());
    put(&mut a, 4, &(len as u32).to_le_bytes());
    a[8] = 1;
    put(&mut a, 24, &last.to_le_bytes());
    put(&mut a, 32, &64u16.to_le_bytes());
    put(&mut a, 64, mapping);
    a
}

#[test]
fn runs_are_decoded_relative_to_each_other() {
    let a = nonresident(6, &[0x11, 4, 10, 0x01, 1, 0x11, 2, 0xfe, 0]);
    assert_eq!(
        runs(&a),
        Ok(vec![
            Run {
                vcn: 0,
                clusters: 4,
                lcn: Some(10),
            },
            Run {
                vcn: 4,
                clusters: 1,
                lcn: None,
            },
            Run {
                vcn: 5,
                clusters: 2,
                lcn: Some(8),
            },
        ])
    );
    let fails = |last: u64, m: &[u8]| runs(&nonresident(last, m)).unwrap_err();
    assert_eq!(runs(&[0; 64]), Err(NtfsError::NotNonresident));
    assert_eq!(fails(0, &[0x19, 1, 1, 0]), NtfsError::RunWidths);
    assert_eq!(fails(0, &[0x11, 0, 1, 0]), NtfsError::EmptyRun);
    assert_eq!(fails(0, &[0x11, 1, 0xff, 0]), NtfsError::NegativeLcn);
    assert_eq!(fails(0, &[0x11, 2, 1, 0]), NtfsError::RunRange);
    assert_eq!(fails(3, &[0x11, 2, 1, 0]), NtfsError::IncompleteRuns);
    let full = [0x11, 1, 1, 0x11, 1, 1, 0x11, 0x22];
    assert_eq!(fails(9, &full), NtfsError::TruncatedRun);
    let open = [0x11, 1, 1, 0x11, 1, 1, 0x01, 1];
    assert_eq!(fails(9, &open), NtfsError::UnterminatedRuns);
    let mut offset = nonresident(0, &[0]);
    put(&mut offset, 32, &200u16.to_le_bytes());
    assert_eq!(runs(&offset), Err(NtfsError::RunOffset));
    let mut high = nonresident(u64::MAX - 1, &[0x11, 2, 1, 0]);
    put(&mut high, 16, &(u64::MAX - 1).to_le_bytes());
    assert_eq!(runs(&high), Err(NtfsError::VcnOverflow));
    let mut wide = vec![0x81, 1];
    wide.extend(i64::MAX.to_le_bytes());
    wide.extend([0x11, 1, 1, 0]);
    assert_eq!(fails(1, &wide), NtfsError::LcnOverflow);
}

fn value(kind: u32, v: &[u8]) -> Vec<u8> {
    let len = (24 + v.len()).div_ceil(8) * 8;
    let mut a = vec![0; len];
    put(&mut a, 0, &kind.to_le_bytes());
    put(&mut a, 4, &(len as u32).to_le_bytes());
    put(&mut a, 16, &(v.len() as u32).to_le_bytes());
    put(&mut a, 20, &24u16.to_le_bytes());
    put(&mut a, 24, v);
    a
}

fn name(parent: u64, text: &str, space: u8) -> Vec<u8> {
    let units: Vec<u16> = text.encode_utf16().collect();
    let mut v = vec![0; 66];
    put(&mut v, 0, &parent.to_le_bytes());
    put(&mut v, 40, &4096u64.to_le_bytes());
    put(&mut v, 48, &77u64.to_le_bytes());
    v[64] = units.len() as u8;
    v[65] = space;
    for u in units {
        v.extend(u.to_le_bytes());
    }
    value(0x30, &v)
}

fn information(modified: u64, attributes: u32) -> Vec<u8> {
    let mut v = vec![0; 48];
    put(&mut v, 8, &modified.to_le_bytes());
    put(&mut v, 32, &attributes.to_le_bytes());
    value(0x10, &v)
}

fn record(sequence: u16, flags: u16, base: u64, attrs: &[Vec<u8>]) -> Vec<u8> {
    let mut r = vec![0; 1024];
    put(&mut r, 0, b"FILE");
    put(&mut r, 4, &48u16.to_le_bytes());
    put(&mut r, 6, &3u16.to_le_bytes());
    put(&mut r, 16, &sequence.to_le_bytes());
    put(&mut r, 20, &56u16.to_le_bytes());
    put(&mut r, 22, &flags.to_le_bytes());
    put(&mut r, 32, &base.to_le_bytes());
    let mut at = 56;
    for a in attrs {
        put(&mut r, at, a);
        at += a.len();
    }
    put(&mut r, at, &[0xff; 4]);
    put(&mut r, 24, &((at + 8) as u32).to_le_bytes());
    put(&mut r, 48, &[7, 7]);
    let (one, two) = ([r[510], r[511]], [r[1022], r[1023]]);
    put(&mut r, 50, &one);
    put(&mut r, 52, &two);
    put(&mut r, 510, &[7, 7]);
    put(&mut r, 1022, &[7, 7]);
    r
}

const DAY: u64 = 116444736000000000 + 864000000000;

#[test]
fn records_are_fixed_up_and_parsed() {
    let mut r = record(
        3,
        1,
        0,
        &[
            information(DAY, 0x400),
            name(5, "a.txt", 1),
            name(5, "A~1.TXT", 2),
            value(0x80, b"hello"),
        ],
    );
    let p = parse_record(&mut r, 40, 512).unwrap().unwrap();
    assert_eq!(p.frn, 40 | (3 << 48));
    assert_eq!(p.modified_ms, 86400000);
    assert_eq!(p.flags, REPARSE);
    assert_eq!(p.names.len(), 1);
    assert_eq!(p.names[0].text, "a.txt".encode_utf16().collect::<Vec<_>>());
    assert_eq!((p.logical, p.allocated, p.has_data), (5, 8, true));
    assert_eq!(p.fallback, (77, 4096));
    assert!(parse_record(&mut vec![0; 1024], 1, 512).unwrap().is_none());
    assert_eq!(
        parse_record(&mut vec![1; 1024], 9, 512).unwrap_err(),
        NtfsError::NotFile(9)
    );
    let mut unused = record(1, 0, 0, &[]);
    assert!(parse_record(&mut unused, 1, 512).unwrap().is_none());
    let mut torn = record(1, 1, 0, &[]);
    torn[1022] = 0;
    assert_eq!(
        parse_record(&mut torn, 1, 512).unwrap_err(),
        NtfsError::TornRecord
    );
}

#[test]
fn broken_records_are_told_apart() {
    let parse = |r: &mut Vec<u8>| parse_record(r, 1, 512).unwrap_err();
    let mut sequence = record(1, 1, 0, &[]);
    put(&mut sequence, 6, &9u16.to_le_bytes());
    assert_eq!(parse(&mut sequence), NtfsError::UpdateSequence);
    let mut used = record(1, 1, 0, &[]);
    put(&mut used, 24, &5000u32.to_le_bytes());
    assert_eq!(parse(&mut used), NtfsError::UsedLength);
    let mut first = record(1, 1, 0, &[]);
    put(&mut first, 20, &10u16.to_le_bytes());
    assert_eq!(parse(&mut first), NtfsError::FirstAttribute);
    let mut length = record(1, 1, 0, &[value(0x10, &[0; 48])]);
    put(&mut length, 60, &20u32.to_le_bytes());
    assert_eq!(parse(&mut length), NtfsError::AttributeLength);
    let mut open = record(1, 1, 0, &[value(0x50, &[0; 8])]);
    let used_now = u32::from_le_bytes(open[24..28].try_into().unwrap());
    put(&mut open, 24, &(used_now - 8).to_le_bytes());
    assert_eq!(parse(&mut open), NtfsError::NoTerminator);
    let mut short = record(1, 1, 0, &[value(0x30, &[0; 60])]);
    assert_eq!(parse(&mut short), NtfsError::ShortName);
    let mut cut = vec![0; 66];
    cut[64] = 9;
    let mut cut = record(1, 1, 0, &[value(0x30, &cut)]);
    assert_eq!(parse(&mut cut), NtfsError::TruncatedName);
    let mut brief = record(1, 1, 0, &[value(0x10, &[0; 4])]);
    assert_eq!(parse(&mut brief), NtfsError::TruncatedU64);
    let mut partial = record(1, 1, 0, &[value(0x10, &[0; 24])]);
    assert_eq!(parse(&mut partial), NtfsError::TruncatedU32);
    let mut stub = b"FILE".to_vec();
    assert_eq!(parse(&mut stub), NtfsError::TruncatedU16);
    assert_eq!(NtfsError::TruncatedU16.message(), "truncated u16");
    let mut outside = value(0x10, &[0; 48]);
    put(&mut outside, 16, &900u32.to_le_bytes());
    assert_eq!(resident(&outside), Err(NtfsError::ResidentValue));
    put(&mut outside, 20, &8u16.to_le_bytes());
    assert_eq!(resident(&outside), Err(NtfsError::ResidentOffset));
    assert_eq!(resident(&nonresident(0, &[0])), Err(NtfsError::NotResident));
    assert_eq!(
        fixup(&mut b"FAIL".to_vec(), 512),
        Err(NtfsError::RecordSignature)
    );
    assert_eq!(attributes(&[0; 10]), Err(NtfsError::TruncatedU32));
    let huge = |at: usize| {
        let mut a = nonresident(0, &[0]);
        put(&mut a, at, &u64::MAX.to_le_bytes());
        a
    };
    let mut size = record(1, 1, 0, &[value(0x80, b"x"), huge(48)]);
    assert_eq!(parse(&mut size), NtfsError::SizeOverflow);
    let mut space = record(1, 1, 0, &[value(0x80, b"x"), huge(40)]);
    assert_eq!(parse(&mut space), NtfsError::AllocationOverflow);
}

fn plain(frn: u64, names: Vec<Name>, flags: u16) -> Record {
    Record {
        modified_ms: UNKNOWN_MTIME,
        frn,
        base: 0,
        flags,
        complex: false,
        names,
        logical: 10,
        allocated: 16,
        has_data: true,
        fallback: (0, 0),
    }
}

fn called(parent: u64, text: &str) -> Name {
    Name {
        parent,
        text: text.encode_utf16().collect(),
    }
}

#[test]
fn extension_records_merge_into_their_base() {
    let mut a = plain(1, vec![called(5, "a")], 0);
    let b = plain(2, vec![called(5, "b")], REPARSE);
    merge(&mut a, b).unwrap();
    assert_eq!((a.logical, a.allocated, a.names.len()), (20, 32, 2));
    assert_eq!(a.flags, REPARSE);
    let mut full = plain(1, Vec::new(), 0);
    full.logical = u64::MAX;
    assert_eq!(
        merge(&mut full, plain(2, Vec::new(), 0)).unwrap_err(),
        NtfsError::ExtensionSize
    );
    let mut space = plain(1, Vec::new(), 0);
    space.allocated = u64::MAX;
    assert_eq!(
        merge(&mut space, plain(2, Vec::new(), 0)).unwrap_err(),
        NtfsError::ExtensionAllocation
    );
}

fn volume() -> VolumeInfo {
    VolumeInfo {
        root: r"C:\".to_string(),
        ..VolumeInfo::default()
    }
}

#[test]
fn the_index_links_names_to_their_directories() {
    let root = 5 | (5 << 48);
    let mut index = MftIndex::new(&volume(), 4, 11);
    index.take(Ok(Some(plain(root, vec![called(root, ".")], DIR)))).unwrap();
    let mut dir = plain(30, vec![called(root, "dir")], DIR);
    (dir.logical, dir.allocated, dir.has_data) = (0, 0, false);
    index.take(Ok(Some(plain(40, vec![called(30, "x"), called(root, "y")], 0)))).unwrap();
    index.take(Ok(Some(dir))).unwrap();
    index.take(Ok(Some(plain(41, vec![called(99, "lost")], 0)))).unwrap();
    let mut stale = plain(42, vec![called(root, "stale")], 0);
    stale.has_data = false;
    (stale.logical, stale.allocated) = (0, 0);
    stale.fallback = (7, 8);
    index.take(Ok(Some(stale))).unwrap();
    index.take(Ok(None)).unwrap();
    index.take(Err(NtfsError::TornRecord)).unwrap();
    index.count(6);
    let mut s = index.close(6144).unwrap();
    s.finish().unwrap();
    s.validate().unwrap();
    assert_eq!(s.stats.records_read, 6);
    assert_eq!(s.stats.raw_bytes_read, 6144);
    assert_eq!(s.stats.backend, "ntfs-mft");
    let x = s.find(r"C:\dir\x").unwrap() as usize;
    let y = s.find(r"C:\y").unwrap() as usize;
    assert_eq!(s.nodes[x].flags & HARDLINK, HARDLINK);
    assert_eq!(s.nodes[x].allocated + s.nodes[y].allocated, 16);
    let lost = s.find(r"C:\[unresolved metadata]\lost").unwrap();
    let home = s.nodes[lost as usize].parent as usize;
    assert_eq!(s.nodes[home].flags & VIRTUAL, VIRTUAL);
    let stale = s.find(r"C:\stale").unwrap() as usize;
    assert_eq!(s.nodes[stale].flags & ESTIMATED, ESTIMATED);
    assert_eq!((s.nodes[stale].logical, s.nodes[stale].allocated), (7, 8));
    assert!(s
        .stats
        .warnings
        .iter()
        .any(|w| w.starts_with("1 metadata names have missing/stale parent")));
    assert_eq!(s.stats.errors, 3);
}

#[test]
fn extension_records_wait_for_each_other() {
    let root = 5 | (5 << 48);
    let mut index = MftIndex::new(&volume(), 1, 0);
    index.take(Ok(Some(plain(root, vec![called(root, ".")], DIR)))).unwrap();
    let mut ext = plain(51, vec![called(root, "big")], 0);
    ext.base = 50;
    index.take(Ok(Some(ext))).unwrap();
    let mut base = plain(50, Vec::new(), 0);
    base.complex = true;
    index.take(Ok(Some(base))).unwrap();
    let mut s = index.close(0).unwrap();
    s.finish().unwrap();
    let big = s.find(r"C:\big").unwrap() as usize;
    assert_eq!(s.nodes[big].logical, 20);
}

#[test]
fn names_with_separators_end_the_scan() {
    let mut index = MftIndex::new(&volume(), 1, 0);
    assert_eq!(
        index.take(Ok(Some(plain(40, vec![called(5, r"a\b")], 0)))),
        Err(NtfsError::NameComponent)
    );
    let long = Name {
        parent: 5,
        text: vec![97; 70000],
    };
    let mut other = MftIndex::new(&volume(), 1, 0);
    assert_eq!(
        other.take(Ok(Some(plain(40, vec![long], 0)))),
        Err(NtfsError::OverlongName)
    );
    assert_eq!(describe(NtfsError::NotFile(9)), "non-FILE MFT record 9");
}

#[test]
fn an_index_over_budget_is_told() {
    let index = MftIndex::new(&volume(), 1, 0);
    assert_eq!(index.over_budget(1024, u64::MAX), None);
    assert!(index.over_budget(1 << 30, 1 << 20).unwrap() >= 1 << 30);
}

fn run(vcn: u64, clusters: u64, lcn: Option<u64>) -> Run {
    Run { vcn, clusters, lcn }
}

#[test]
fn reads_are_split_at_runs() {
    let extents = vec![run(0, 2, Some(10)), run(2, 1, None), run(3, 4, Some(50))];
    assert_eq!(
        plan_reads(&extents, 4096, 4096, 4096 * 3),
        Ok(vec![
            Part {
                at: Some(11 * 4096),
                len: 4096,
            },
            Part {
                at: None,
                len: 4096,
            },
            Part {
                at: Some(50 * 4096),
                len: 4096,
            },
        ])
    );
    assert_eq!(plan_reads(&extents, 4096, 0, 0), Ok(Vec::new()));
    assert_eq!(
        plan_reads(&extents, 4096, 4096 * 7, 1),
        Err(NtfsError::MissingExtent)
    );
    assert_eq!(
        plan_reads(&vec![run(0, 1, Some(u64::MAX))], 4096, 0, 1),
        Err(NtfsError::PhysicalOverflow)
    );
}

fn geometry() -> Geometry {
    Geometry {
        sector: 512,
        cluster: 4096,
        record: 1024,
        mft_offset: 0,
    }
}

fn stream(length: u64) -> Vec<u8> {
    let mut a = nonresident(3, &[0x11, 4, 10, 0]);
    put(&mut a, 48, &length.to_le_bytes());
    a
}

#[test]
fn the_first_record_tells_where_the_table_lies() {
    let mut r = record(1, 1, 0, &[stream(16384)]);
    let f = first_extents(&mut r, &geometry()).unwrap();
    assert_eq!(f.extents, vec![run(0, 4, Some(10))]);
    assert_eq!(f.length, 16384);
    assert!(matches!(f.list, ListPlace::Nowhere));
    let mut listed = record(1, 1, 0, &[value(0x20, b"list"), stream(16384)]);
    assert!(matches!(
        first_extents(&mut listed, &geometry()).unwrap().list,
        ListPlace::Here(v) if v == b"list"
    ));
    let mut away = stream(100);
    put(&mut away, 0, &0x20u32.to_le_bytes());
    let mut there = record(1, 1, 0, &[away.clone(), stream(16384)]);
    assert!(matches!(
        first_extents(&mut there, &geometry()).unwrap().list,
        ListPlace::There(100, _)
    ));
    put(&mut away, 48, &(1u64 << 40).to_le_bytes());
    let mut excessive = record(1, 1, 0, &[away, stream(16384)]);
    assert_eq!(
        first_extents(&mut excessive, &geometry()).unwrap_err(),
        NtfsError::ExcessiveList
    );
    let mut inside = record(1, 1, 0, &[value(0x80, b"x")]);
    assert_eq!(
        first_extents(&mut inside, &geometry()).unwrap_err(),
        NtfsError::ResidentMft
    );
    let mut odd = record(1, 1, 0, &[stream(100)]);
    assert_eq!(
        first_extents(&mut odd, &geometry()).unwrap_err(),
        NtfsError::MftData
    );
}

fn list_entry(kind: u32, vcn: u64, frn: u64) -> Vec<u8> {
    let mut e = vec![0; 32];
    put(&mut e, 0, &kind.to_le_bytes());
    put(&mut e, 4, &32u16.to_le_bytes());
    put(&mut e, 8, &vcn.to_le_bytes());
    put(&mut e, 16, &frn.to_le_bytes());
    e
}

#[test]
fn further_records_are_listed_in_order_once() {
    let mut list = Vec::new();
    for (vcn, frn) in [(8, 20u64), (4, 10), (0, 0), (12, 10)] {
        list.extend(list_entry(0x80, vcn, frn));
    }
    list.extend(list_entry(0x30, 0, 99));
    assert_eq!(needed_records(&list), Ok(vec![10, 20]));
    let mut broken = list_entry(0x80, 0, 1);
    put(&mut broken, 4, &8u16.to_le_bytes());
    assert_eq!(needed_records(&broken), Err(NtfsError::ListEntry));
}

#[test]
fn extents_have_to_join_and_suffice() {
    let found = vec![run(4, 2, Some(30)), run(0, 4, Some(10)), run(4, 2, Some(30))];
    assert_eq!(
        settle_extents(&found, 4096, 6 * 4096),
        Ok(vec![run(0, 4, Some(10)), run(4, 2, Some(30))])
    );
    assert_eq!(
        settle_extents(&found, 4096, 7 * 4096),
        Err(NtfsError::ShortExtents)
    );
    assert_eq!(
        settle_extents(&vec![run(1, 1, Some(3))], 4096, 1),
        Err(NtfsError::ExtentGap)
    );
    assert_eq!(
        settle_extents(&vec![run(0, 1, None)], 4096, 1),
        Err(NtfsError::ExtentGap)
    );
}

#[test]
fn extension_records_carry_their_sequence() {
    let r = record(7, 1, 0, &[stream(0)]);
    assert_eq!(reply_is_marked(&r, 512), Ok(true));
    let mut fixed = r.clone();
    fixup(&mut fixed, 512).unwrap();
    assert_eq!(
        extension(&fixed, 9 | (7 << 48)),
        Ok(vec![run(0, 4, Some(10))])
    );
    assert_eq!(
        extension(&fixed, 9 | (6 << 48)),
        Err(NtfsError::ReusedRecord)
    );
}
