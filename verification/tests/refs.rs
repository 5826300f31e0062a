use disk_cleaner::crc64::{crc64, crc64_tables, crc64_with};
use disk_cleaner::model::{DIR, HARDLINK, INCOMPLETE, REPARSE};
use disk_cleaner::platform::VolumeInfo;
use disk_cleaner::refs::{
    boot_checksum, check_layout, checkpoint_usable, has_named_stream, newest_checkpoint, node, open_boot,
    read_superblock, verify_self, BlockRef, Boot, Checkpoint, RefsError,
};
use disk_cleaner::refs_index::{directory_warning, entry, Answer, Entry, RefsIndex};
use disk_cleaner::refs_tree::{
    check_page, check_tables, directory_id, page_parts, root_directory, Containers, Objects,
    PagePart, Walk,
};
use disk_cleaner::wide::Wide;

fn put(b: &mut [u8], at: usize, bytes: &[u8]) {
    b[at..at + bytes.len()].copy_from_slice(bytes);
}

#[test]
fn crc64_nvme_vector() {
    assert_eq!(crc64(b"123456789"), 0xae8b14860a799888);
}

#[test]
fn rejects_truncated_nodes_without_panics() {
    for n in 0..256 {
        let b = vec![0xff; n];
        assert!(node(&b, 0).is_err());
    }
}

#[test]
fn root_object_is_full_128_bit_id() {
    let id = directory_id(0x600);
    assert_eq!(&id[..8], &[0; 8]);
    assert_eq!(u64::from_le_bytes(id[8..].try_into().unwrap()), 0x600);
    assert_eq!(root_directory(), u128::from_le_bytes(id));
}

#[test]
fn the_sum_is_the_same_by_bit_and_by_table() {
    let slow = |data: &[u8]| {
        let mut c = u64::MAX;
        for &b in data {
            c ^= b as u64;
            for _ in 0..8 {
                c = if c & 1 != 0 {
                    (c >> 1) ^ 0x9a6c9329ac4bc9b5
                } else {
                    c >> 1
                };
            }
        }
        c ^ u64::MAX
    };
    let tables = crc64_tables();
    for n in [0usize, 1, 7, 8, 9, 31, 64, 100] {
        let data: Vec<u8> = (0..n).map(|i| (i * 37) as u8).collect();
        assert_eq!(crc64(&data), slow(&data));
        assert_eq!(crc64_with(&tables, &data), slow(&data));
    }
}

fn reference(lcns: [u64; 4], kind: u8, hash: u64) -> Vec<u8> {
    let mut b = vec![0; 48];
    for (i, n) in lcns.iter().enumerate() {
        put(&mut b, i * 8, &n.to_le_bytes());
    }
    b[34] = kind;
    b[35] = 8;
    b[36] = if kind == 1 { 4 } else { 8 };
    put(&mut b, 40, &hash.to_le_bytes());
    b
}

#[test]
fn references_name_their_pages_and_sums() {
    let r = BlockRef::parse(&reference([3, 4, 0, 0], 2, 9)).unwrap();
    assert_eq!((r.kind, r.hash), (2, 9));
    assert_eq!(r.lcns, (3, 4, 0, 0));
    assert_eq!(
        BlockRef::parse(&[0; 47]).unwrap_err(),
        RefsError::ShortReference
    );
    assert_eq!(
        BlockRef::parse(&reference([0; 4], 2, 0)).unwrap_err(),
        RefsError::EmptyReference
    );
    assert_eq!(
        BlockRef::parse(&reference([1, 0, 0, 0], 3, 0)).unwrap_err(),
        RefsError::ChecksumDescriptor
    );
}

/// A node whose rows lie behind its header.
fn leaf(base: usize, branch: bool, rows: &[(Vec<u8>, Vec<u8>)]) -> Vec<u8> {
    let mut b = vec![0; base + 8 + 32];
    put(&mut b, base, &8u32.to_le_bytes());
    let at = base + 8;
    b[at + 13] = branch as u8;
    put(&mut b, at + 20, &(rows.len() as u32).to_le_bytes());
    let mut offsets = Vec::new();
    for (key, value) in rows {
        offsets.push((b.len() - at) as u32);
        let mut row = vec![0; 16];
        let length = 16 + key.len() + value.len();
        put(&mut row, 0, &(length as u32).to_le_bytes());
        put(&mut row, 4, &16u16.to_le_bytes());
        put(&mut row, 6, &(key.len() as u16).to_le_bytes());
        put(&mut row, 10, &((16 + key.len()) as u16).to_le_bytes());
        put(&mut row, 12, &(value.len() as u32).to_le_bytes());
        row.extend(key);
        row.extend(value);
        b.extend(row);
    }
    let array = (b.len() - at) as u32;
    put(&mut b, at + 16, &array.to_le_bytes());
    for o in offsets {
        b.extend(o.to_le_bytes());
    }
    b
}

#[test]
fn nodes_list_their_rows() {
    let b = leaf(4, false, &[(b"key".to_vec(), b"value".to_vec())]);
    let n = node(&b, 4).unwrap();
    assert!(!n.branch);
    let r = n.rows[0];
    assert_eq!(&b[r.key..r.key_end], b"key");
    assert_eq!(&b[r.value..r.value_end], b"value");
    let at = 12;
    let row = at + 32;
    let broken = |place: usize, bytes: &[u8]| {
        let mut c = b.clone();
        put(&mut c, place, bytes);
        node(&c, 4).unwrap_err()
    };
    assert_eq!(broken(4, &2u32.to_le_bytes()), RefsError::NodeHeader);
    assert_eq!(broken(at + 20, &9u32.to_le_bytes()), RefsError::SlotArray);
    assert_eq!(broken(row, &9000u32.to_le_bytes()), RefsError::RowLength);
    assert_eq!(broken(row + 4, &3u16.to_le_bytes()), RefsError::RowOverlap);
    assert_eq!(broken(row + 6, &90u16.to_le_bytes()), RefsError::KeyOutside);
    assert_eq!(broken(row + 12, &90u32.to_le_bytes()), RefsError::ValueOutside);
    let mut gone = b.clone();
    gone[row + 8] = 4;
    assert!(node(&gone, 4).unwrap().rows.is_empty());
    let branch = leaf(0, true, &[]);
    assert_eq!(has_named_stream(&branch), Ok(true));
    let mut key = vec![0; 16];
    assert_eq!(
        has_named_stream(&leaf(0, false, &[(key.clone(), Vec::new())])),
        Ok(false)
    );
    key[12] = 0xb0;
    assert_eq!(
        has_named_stream(&leaf(0, false, &[(key, Vec::new())])),
        Ok(true)
    );
}

fn anchored(signature: &[u8; 4], size: usize, place: usize, kind: u8) -> Vec<u8> {
    let mut p = vec![0; size];
    put(&mut p, 0, signature);
    put(&mut p, place, &reference([30, 0, 0, 0], kind, 0));
    p
}

fn seal(p: &mut [u8], place: usize, cluster: usize, kind: u8) {
    let mut bytes = p[..cluster].to_vec();
    bytes[place..place + 48].fill(0);
    let sum = if kind == 1 {
        librefs::checksum::crc32c(&bytes) as u64
    } else {
        crc64(&bytes)
    };
    put(p, place + 40, &sum.to_le_bytes());
}

#[test]
fn anchors_hold_their_own_sum() {
    for kind in [1u8, 2] {
        let mut p = anchored(b"SUPB", 16384, 0x100, kind);
        seal(&mut p, 0x100, 4096, kind);
        assert_eq!(verify_self(&p, 0x100, 48, 4096), Ok(()));
        p[9] ^= 1;
        let expected = if kind == 1 {
            RefsError::AnchorCrc32c
        } else {
            RefsError::AnchorCrc64
        };
        assert_eq!(verify_self(&p, 0x100, 48, 4096), Err(expected));
        assert_eq!(
            verify_self(&p, 0x100, 40, 4096),
            Err(RefsError::SelfDescriptor)
        );
    }
}

fn superblock() -> Vec<u8> {
    let mut p = anchored(b"SUPB", 16384, 0x100, 2);
    put(&mut p, 0x78, &0x100u32.to_le_bytes());
    put(&mut p, 0x7c, &48u32.to_le_bytes());
    put(&mut p, 0x70, &0x200u32.to_le_bytes());
    put(&mut p, 0x74, &2u32.to_le_bytes());
    put(&mut p, 0x200, &70u64.to_le_bytes());
    put(&mut p, 0x208, &80u64.to_le_bytes());
    seal(&mut p, 0x100, 4096, 2);
    p
}

#[test]
fn the_superblock_names_two_checkpoints() {
    assert_eq!(read_superblock(&superblock(), 4096), Ok((70 * 4096, 80 * 4096)));
    assert_eq!(
        read_superblock(&[0; 4096], 4096),
        Err(RefsError::Superblock)
    );
    let mut three = superblock();
    put(&mut three, 0x74, &3u32.to_le_bytes());
    seal(&mut three, 0x100, 4096, 2);
    assert_eq!(
        read_superblock(&three, 4096),
        Err(RefsError::CheckpointTable)
    );
    let mut far = superblock();
    put(&mut far, 0x200, &u64::MAX.to_le_bytes());
    seal(&mut far, 0x100, 4096, 2);
    assert_eq!(
        read_superblock(&far, 4096),
        Err(RefsError::CheckpointOffset)
    );
}

fn checkpoint(number: u64) -> Vec<u8> {
    let mut p = anchored(b"CHKP", 16384, 0x100, 2);
    put(&mut p, 0x58, &0x100u32.to_le_bytes());
    put(&mut p, 0x5c, &48u32.to_le_bytes());
    put(&mut p, 0x60, &number.to_le_bytes());
    put(&mut p, 0x90, &8u32.to_le_bytes());
    put(&mut p, 0x94, &0x400u32.to_le_bytes());
    for i in 0..8usize {
        let at = 0x800 + i * 48;
        put(&mut p, 0x400 + i * 4, &(at as u32).to_le_bytes());
        put(&mut p, at, &reference([100 + i as u64, 0, 0, 0], 2, 1));
    }
    seal(&mut p, 0x100, 4096, 2);
    p
}

#[test]
fn the_newest_usable_checkpoint_counts() {
    let torn = {
        let mut p = checkpoint(9);
        p[0x61] ^= 1;
        p
    };
    assert!(checkpoint_usable(&checkpoint(5), 4096));
    assert!(!checkpoint_usable(&torn, 4096));
    let pages = vec![checkpoint(5), checkpoint(7)];
    assert_eq!(newest_checkpoint(&pages, 4096), Ok(1));
    assert_eq!(newest_checkpoint(&vec![checkpoint(5), torn], 4096), Ok(0));
    assert_eq!(
        newest_checkpoint(&vec![vec![0; 4096]], 4096),
        Err(RefsError::NoCheckpoint)
    );
    let c = Checkpoint::parse(&checkpoint(5)).unwrap();
    assert_eq!((c.number, c.roots.len()), (5, 8));
    assert_eq!(c.roots[7].lcns.0, 107);
    let mut few = checkpoint(5);
    put(&mut few, 0x90, &7u32.to_le_bytes());
    assert_eq!(Checkpoint::parse(&few).unwrap_err(), RefsError::RootArray);
    let mut out = checkpoint(5);
    put(&mut out, 0x400, &16380u32.to_le_bytes());
    assert_eq!(Checkpoint::parse(&out).unwrap_err(), RefsError::RootOutside);
}

#[test]
fn only_the_known_layout_is_read() {
    let boot = Boot {
        cluster: 4096,
        major: 3,
        minor: 14,
    };
    assert_eq!(check_layout(Ok(boot), Ok(())), Ok(4096));
    assert_eq!(
        check_layout(Err(RefsError::BootSector), Ok(())),
        Err(RefsError::BootSector)
    );
    assert_eq!(
        check_layout(Ok(boot), Err(RefsError::BootChecksum(1, 2))),
        Err(RefsError::BootChecksum(1, 2))
    );
    assert_eq!(
        check_layout(Ok(Boot { minor: 4, ..boot }), Ok(())),
        Err(RefsError::Version(3, 4))
    );
    assert_eq!(
        check_layout(
            Ok(Boot {
                cluster: 65536,
                ..boot
            }),
            Ok(())
        ),
        Err(RefsError::ClusterSize(65536))
    );
    assert_eq!(RefsError::BootSector.message(), "librefs boot sector");
    assert!(RefsError::Version(3, 4).message().contains("detected 3.4"));
    assert!(RefsError::ClusterSize(65536).message().contains("detected 65536"));
}

fn boot_sector() -> Vec<u8> {
    let mut b = vec![0; 512];
    put(&mut b, 3, b"ReFS");
    put(&mut b, 16, b"FSRS");
    put(&mut b, 32, &512u32.to_le_bytes());
    put(&mut b, 36, &8u32.to_le_bytes());
    b[40] = 3;
    b[41] = 14;
    let mut v: u16 = 0;
    for (i, byte) in b.iter().enumerate().skip(3) {
        if i != 22 && i != 23 {
            v = v.wrapping_shl(15).wrapping_add(*byte as u16).wrapping_add(v >> 1);
        }
    }
    put(&mut b, 22, &v.to_le_bytes());
    b
}

#[test]
fn boot_sectors_are_read_and_their_sum_is_checked() {
    let good = boot_sector();
    assert_eq!(open_boot(&good, &good), Ok(4096));
    let mut torn = good.clone();
    torn[100] = 1;
    let stored = u16::from_le_bytes([good[22], good[23]]);
    assert_eq!(boot_checksum(&good), stored);
    let found = boot_checksum(&torn);
    assert_ne!(found, stored);
    assert_eq!(
        open_boot(&good, &torn),
        Err(RefsError::BootChecksum(stored, found))
    );
    let cause = librefs::boot::BootSector::parse(&good)
        .unwrap()
        .verify_checksum(&torn)
        .unwrap_err();
    assert_eq!(
        RefsError::BootChecksum(stored, found).message(),
        format!("librefs boot checksum: {cause}")
    );
    assert_eq!(
        open_boot(&good, &good[..500]),
        Err(RefsError::BootSumShort(500))
    );
    let cause = librefs::boot::BootSector::parse(&good)
        .unwrap()
        .verify_checksum(&good[..500])
        .unwrap_err();
    assert_eq!(
        RefsError::BootSumShort(500).message(),
        format!("librefs boot checksum: {cause}")
    );
    let mut older = good.clone();
    older[41] = 4;
    assert_eq!(open_boot(&older, &older), Err(RefsError::Version(3, 4)));
    let mut wide = good.clone();
    put(&mut wide, 36, &128u32.to_le_bytes());
    assert_eq!(open_boot(&wide, &wide), Err(RefsError::ClusterSize(65536)));
}

#[test]
fn refused_boot_sectors_say_why() {
    let good = boot_sector();
    let mut unnamed = good.clone();
    put(&mut unnamed, 3, b"NTFS");
    let mut unmarked = good.clone();
    put(&mut unmarked, 16, b"FSRX");
    for sector in [&good[..100], &unnamed[..], &unmarked[..]] {
        let cause = librefs::boot::BootSector::parse(sector).unwrap_err();
        assert_eq!(
            open_boot(sector, &good).unwrap_err().message(),
            format!("librefs boot sector: {cause}")
        );
    }
    assert_eq!(open_boot(&good[..100], &good), Err(RefsError::BootShort(100)));
    assert_eq!(
        open_boot(&unnamed, &good),
        Err(RefsError::BootName(0x4e54_4653))
    );
    assert_eq!(
        open_boot(&unmarked, &good),
        Err(RefsError::BootMark(0x5852_5346))
    );
}

#[test]
fn short_sums_are_castagnoli_sums() {
    let tables = crc64_tables();
    let known = BlockRef::parse(&reference([5, 0, 0, 0], 1, 0)).unwrap();
    assert_eq!(known.sum_with(&tables, b"123456789"), 0xe306_9283);
    assert_eq!(known.sum_with(&tables, b""), 0);
}

fn container(id: u64, physical: u64, size: u64) -> (Vec<u8>, Vec<u8>) {
    let mut key = vec![0; 16];
    put(&mut key, 0, &id.to_le_bytes());
    let mut value = vec![0; 160];
    put(&mut value, 144, &physical.to_le_bytes());
    put(&mut value, 152, &size.to_le_bytes());
    (key, value)
}

#[test]
fn containers_translate_addresses() {
    let mut c = Containers::new();
    assert!(c.is_empty());
    let (k, v) = container(2, 1000, 16);
    c.add_row(&k, &v).unwrap();
    assert!(!c.is_empty());
    assert_eq!(c.translate(2 * 32 + 5), Ok(1005));
    assert_eq!(
        c.translate(7 * 32),
        Err(RefsError::UnmappedContainer(7))
    );
    assert_eq!(c.add_row(&k, &v), Err(RefsError::ContainerTwice));
    let (k2, v2) = container(3, 1000, 32);
    assert_eq!(c.add_row(&k2, &v2), Err(RefsError::ContainerMix));
    let (k3, v3) = container(3, 1000, 12);
    assert_eq!(c.add_row(&k3, &v3), Err(RefsError::ContainerSize));
    assert_eq!(c.add_row(&k3, &[]), Err(RefsError::ContainerRow));
    let (k4, v4) = container(4, u64::MAX, 16);
    c.add_row(&k4, &v4).unwrap();
    assert_eq!(c.translate(4 * 32 + 1), Err(RefsError::PhysicalLcn));
}

#[test]
fn pages_are_read_in_as_few_parts_as_possible() {
    let parts = |lcns: [u64; 4]| {
        let r = BlockRef::parse(&reference(lcns, 2, 0)).unwrap();
        page_parts(None, &r, 4096)
    };
    assert_eq!(
        parts([5, 6, 7, 8]),
        Ok(vec![PagePart {
            offset: 5 * 4096,
            len: 16384,
        }])
    );
    assert_eq!(
        parts([5, 9, 0, 0]),
        Ok(vec![
            PagePart {
                offset: 5 * 4096,
                len: 4096,
            },
            PagePart {
                offset: 9 * 4096,
                len: 4096,
            },
        ])
    );
    assert_eq!(parts([5, 0, 7, 0]), Err(RefsError::SlotGap));
    assert_eq!(
        parts([u64::MAX, 0, 0, 0]),
        Err(RefsError::PhysicalOffset)
    );
    let r = BlockRef::parse(&reference([5, 0, 0, 0], 2, 0)).unwrap();
    assert_eq!(page_parts(None, &r, 512), Err(RefsError::PageLength));
}

fn page(lcns: [u64; 4], branch: bool, rows: &[(Vec<u8>, Vec<u8>)]) -> Vec<u8> {
    let mut p = leaf(0x50, branch, rows);
    p.resize(4096, 0);
    put(&mut p, 0, b"MSB+");
    for (i, n) in lcns.iter().enumerate() {
        put(&mut p, 32 + i * 8, &n.to_le_bytes());
    }
    p
}

#[test]
fn pages_are_checked_against_their_reference() {
    let tables = crc64_tables();
    let p = page([5, 0, 0, 0], false, &[]);
    let good = BlockRef::parse(&reference([5, 0, 0, 0], 2, crc64(&p))).unwrap();
    assert_eq!(check_page(&tables, &good, &p), Ok(()));
    let short = librefs::checksum::crc32c(&p) as u64;
    let other = BlockRef::parse(&reference([5, 0, 0, 0], 1, short)).unwrap();
    assert_eq!(check_page(&tables, &other, &p), Ok(()));
    let wrong = BlockRef::parse(&reference([5, 0, 0, 0], 2, 1)).unwrap();
    assert_eq!(
        check_page(&tables, &wrong, &p),
        Err(RefsError::PageCrc64(5, 0, 0, 0))
    );
    assert_eq!(
        RefsError::PageCrc64(0x1f, 5, 0, 0).message(),
        format!("ReFS page CRC64 mismatch at {:x?}", [0x1fu64, 5, 0, 0])
    );
    let wrong = BlockRef::parse(&reference([5, 0, 0, 0], 1, short ^ 1)).unwrap();
    assert_eq!(check_page(&tables, &wrong, &p), Err(RefsError::PageCrc32c));
    let moved = BlockRef::parse(&reference([6, 0, 0, 0], 2, crc64(&p))).unwrap();
    assert_eq!(
        check_page(&tables, &moved, &p),
        Err(RefsError::PageIdentity)
    );
    assert_eq!(
        check_page(&tables, &good, &[0; 4096]),
        Err(RefsError::PageSignature(5, 0, 0, 0))
    );
}

#[test]
fn walks_go_depth_first_and_meet_no_page_twice() {
    let root = BlockRef::parse(&reference([1, 0, 0, 0], 2, 0)).unwrap();
    let mut w = Walk::new(&root);
    let first = w.next().unwrap().unwrap();
    assert_eq!((first.reference.lcns.0, first.depth), (1, 0));
    let children = [
        (Vec::new(), reference([2, 0, 0, 0], 2, 0)),
        (Vec::new(), reference([3, 0, 0, 0], 2, 0)),
        (Vec::new(), reference([2, 0, 0, 0], 2, 0)),
    ];
    let rows = w.open(first.depth, &page([1, 0, 0, 0], true, &children)).unwrap();
    assert!(rows.is_empty());
    assert_eq!(w.next().unwrap().unwrap().reference.lcns.0, 2);
    let leaf_page = page([2, 0, 0, 0], false, &[(b"k".to_vec(), b"v".to_vec())]);
    assert_eq!(w.open(1, &leaf_page).unwrap().len(), 1);
    assert_eq!(w.next().unwrap().unwrap().depth, 1);
    assert_eq!(w.next().unwrap_err(), RefsError::RepeatedPage);
}

#[test]
fn object_rows_name_roots() {
    let mut o = Objects::new();
    let key = directory_id(0x600).to_vec();
    let mut value = vec![0; 80];
    put(&mut value, 32, &reference([11, 0, 0, 0], 2, 0));
    let mut c = Containers::new();
    assert_eq!(check_tables(&c, &o), Err(RefsError::NoContainers));
    let (k, v) = container(0, 0, 16);
    c.add_row(&k, &v).unwrap();
    assert_eq!(check_tables(&c, &o), Err(RefsError::NoRoot));
    o.add_row(&key, &value).unwrap();
    assert_eq!(check_tables(&c, &o), Ok(()));
    assert_eq!(o.root(root_directory()).unwrap().lcns.0, 11);
    assert_eq!(o.root(7).unwrap_err(), RefsError::NoDirectory);
    assert_eq!(o.add_row(&key, &value), Err(RefsError::ObjectTwice));
    assert_eq!(o.add_row(&key, &[]), Err(RefsError::ObjectRow));
}

fn file_key(kind: u16, name: &str) -> Vec<u8> {
    let mut k = vec![0x30, 0];
    k.extend(kind.to_le_bytes());
    for u in name.encode_utf16() {
        k.extend(u.to_le_bytes());
    }
    k
}

fn short_entry(file_id: u64, directory: u64, attributes: u32) -> Vec<u8> {
    let mut v = vec![0; 72];
    put(&mut v, 0, &file_id.to_le_bytes());
    put(&mut v, 8, &directory.to_le_bytes());
    put(&mut v, 24, &116444736000010000u64.to_le_bytes());
    put(&mut v, 48, &100u64.to_le_bytes());
    put(&mut v, 56, &4096u64.to_le_bytes());
    put(&mut v, 64, &attributes.to_le_bytes());
    v
}

#[test]
fn short_entries_are_directories_or_links() {
    let d = entry(&file_key(2, "dir"), &short_entry(0, 0x700, 0x10000000), 1)
        .unwrap()
        .unwrap();
    assert_eq!(d.name, "dir".encode_utf16().collect::<Vec<_>>());
    assert_eq!((d.flags, d.kernel_check), (DIR, false));
    assert_eq!(d.object, 0x700u128 << 64);
    assert_eq!((d.logical, d.allocated, d.mtime), (100, 4096, Some(1)));
    let l = entry(&file_key(2, "link"), &short_entry(9, 0x600, 0x400), 1)
        .unwrap()
        .unwrap();
    assert_eq!((l.flags, l.kernel_check), (HARDLINK | REPARSE, true));
    let fails = |k: Vec<u8>, v: Vec<u8>| entry(&k, &v, 1).unwrap_err();
    assert!(entry(&[0x10, 0, 0, 0], &[], 1).unwrap().is_none());
    let mut odd = file_key(2, "x");
    odd.push(0);
    assert_eq!(fails(odd, Vec::new()), RefsError::OddName);
    assert_eq!(fails(file_key(2, ""), Vec::new()), RefsError::FileName);
    assert_eq!(fails(file_key(2, "a/b"), Vec::new()), RefsError::FileName);
    assert_eq!(fails(file_key(2, "a"), vec![0; 10]), RefsError::ShortEntry);
    assert_eq!(
        fails(file_key(2, "a"), short_entry(0, 1, 0)),
        RefsError::EntryType
    );
    assert_eq!(fails(file_key(9, "a"), Vec::new()), RefsError::EntryKind(9));
    assert_eq!(
        fails(file_key(1, "a"), vec![0; 200]),
        RefsError::InformationBounds
    );
}

/// A long entry: its node comes behind the standard information.
fn long_entry(attributes: u32, stream: bool) -> Vec<u8> {
    let mut key = vec![0; 16];
    if stream {
        key[12] = 0xb0;
    }
    let tail = leaf(0, false, &[(key, Vec::new())]);
    let end = 8 + 128;
    let mut v = vec![0; end];
    put(&mut v, 0, &(end as u32).to_le_bytes());
    put(&mut v, 4, &8u16.to_le_bytes());
    put(&mut v, 8 + 8, &116444736000020000u64.to_le_bytes());
    put(&mut v, 8 + 32, &attributes.to_le_bytes());
    put(&mut v, 8 + 48, &321u64.to_le_bytes());
    put(&mut v, 8 + 56, &4096u64.to_le_bytes());
    put(&mut v, 8 + 96, &77u64.to_le_bytes());
    v.extend(&tail[8..]);
    v
}

#[test]
fn long_entries_hold_standard_information() {
    let parent = (0x600u128 << 64) | 5;
    let e = entry(&file_key(1, "f.txt"), &long_entry(0x400, false), parent)
        .unwrap()
        .unwrap();
    assert_eq!((e.logical, e.allocated, e.mtime), (321, 4096, Some(2)));
    assert_eq!(e.object, (0x600u128 << 64) | 77);
    assert_eq!((e.flags, e.kernel_check), (REPARSE, false));
    let s = entry(&file_key(1, "f.txt"), &long_entry(0, true), parent)
        .unwrap()
        .unwrap();
    assert_eq!((s.flags, s.kernel_check), (0, true));
}

fn found(name: &str, object: u128, flags: u16, check: bool) -> Entry {
    Entry {
        name: name.encode_utf16().collect(),
        object,
        logical: 10,
        allocated: 16,
        mtime: Some(5),
        flags,
        kernel_check: check,
    }
}

fn nothing() -> Answer {
    Answer::Unknown(String::new())
}

#[test]
fn batches_grow_the_index() {
    let volume = VolumeInfo {
        root: r"E:\".to_string(),
        ..VolumeInfo::default()
    };
    let mut index = RefsIndex::new(Wide::of(r"E:\"), volume, 2, 0);
    let entries = vec![
        found("d", 70, DIR, false),
        found("a", 71, HARDLINK, true),
        found("b", 71, HARDLINK, true),
        found("j", 72, DIR | REPARSE, false),
    ];
    let answers = vec![
        nothing(),
        Answer::Known {
            length: 33,
            allocated: 64,
            modified: 116444736000070000,
        },
        Answer::Unknown("gone".to_string()),
        nothing(),
    ];
    let jobs = index.take_batch(0, &entries, &answers).unwrap();
    assert_eq!(jobs.len(), 1);
    assert_eq!((jobs[0].parent, jobs[0].object), (1, 70));
    assert_eq!(index.path(2).to_text(), r"E:\a");
    let again = vec![found("e", 70, DIR, false)];
    assert_eq!(
        index.take_batch(0, &again, &vec![nothing()]).unwrap_err(),
        RefsError::DirectoryTwice
    );
    assert!(!index.over_budget(0, 0, u64::MAX));
    assert!(index.over_budget(0, 0, 0));
    let s = index.close(512, 7);
    assert_eq!((s.nodes[2].logical, s.nodes[2].allocated), (33, 64));
    assert_eq!(s.nodes[2].latest_modified_ms, 7);
    assert_eq!(s.nodes[3].allocated, 0);
    assert_eq!(s.nodes[3].flags & INCOMPLETE, INCOMPLETE);
    assert!(s
        .stats
        .warnings
        .iter()
        .any(|w| w == r"complex stream metadata E:\b: gone"));
    assert!(s.stats.warnings.iter().any(|w| w.starts_with("ReFS 3.14 checkpoint 7:")));
    assert_eq!(s.stats.raw_bytes_read, 512);
}

#[test]
fn directory_warnings_show_the_identity() {
    let w = directory_warning(0x600u128 << 64, "boom");
    assert_eq!(
        w,
        "ReFS directory [0, 0, 0, 0, 0, 0, 0, 0, 0, 6, 0, 0, 0, 0, 0, 0]: boom"
    );
}

#[test]
fn an_empty_index_is_a_whole_scan_of_nothing() {
    let index = RefsIndex::new(Wide::of(r"E:\"), VolumeInfo::default(), 2, 8);
    let mut s = index.close(0, 0);
    assert_eq!((s.nodes.len(), s.names.len()), (1, 0));
    assert_eq!((s.nodes[0].logical, s.nodes[0].allocated), (0, 0));
    assert_eq!((s.nodes[0].files, s.nodes[0].dirs), (0, 1));
    assert_eq!((s.stats.errors, s.stats.complete), (0, true));
    assert_eq!((s.stats.records_read, s.stats.raw_bytes_read), (0, 0));
    assert_eq!(s.stats.warnings.len(), 2);
    s.finish().unwrap();
    assert_eq!(s.nodes[0].allocated, 0);
}
