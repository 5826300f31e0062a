//! File records of an NTFS volume: what one record tells of a file.
use crate::bytes;
use crate::model;
use crate::model::{oldest_known, DIR, REPARSE, UNKNOWN_MTIME};
use crate::ntfs;
use crate::ntfs::NtfsError;
use crate::platform;
use vstd::prelude::*;

verus! {

/// A name of a file, and the directory in which it stands.
#[derive(Debug)]
pub struct Name {
    pub parent: u64,
    pub text: Vec<u16>,
}

/// What the records of one file tell.
#[derive(Debug)]
pub struct Record {
    pub modified_ms: i64,
    pub frn: u64,
    pub base: u64,
    pub flags: u16,
    pub complex: bool,
    pub names: Vec<Name>,
    pub logical: u64,
    pub allocated: u64,
    pub has_data: bool,
    pub fallback: (u64, u64),
}

/// A name as such.
pub struct NameV {
    pub parent: u64,
    pub text: Seq<u16>,
}

/// A record as such.
#[verifier::ext_equal]
pub struct RecordV {
    pub modified_ms: i64,
    pub frn: u64,
    pub base: u64,
    pub flags: u16,
    pub complex: bool,
    pub names: Seq<NameV>,
    pub logical: u64,
    pub allocated: u64,
    pub has_data: bool,
    pub fallback: (u64, u64),
}

pub open spec fn name_views(v: Seq<Name>) -> Seq<NameV> {
    v.map_values(|n: Name| NameV { parent: n.parent, text: n.text@ })
}

impl View for Record {
    type V = RecordV;

    open spec fn view(&self) -> RecordV {
        RecordV {
            modified_ms: self.modified_ms,
            frn: self.frn,
            base: self.base,
            flags: self.flags,
            complex: self.complex,
            names: name_views(self.names@),
            logical: self.logical,
            allocated: self.allocated,
            has_data: self.has_data,
            fallback: self.fallback,
        }
    }
}

/// The time of a stored file time.
pub open spec fn stored_time(raw: u64) -> i64 {
    if raw > i64::MAX {
        UNKNOWN_MTIME
    } else {
        match platform::unix_ms(raw as i64) {
            Some(t) => t,
            None => UNKNOWN_MTIME,
        }
    }
}

/// Standard information: the last write, and whether the file leads elsewhere.
pub open spec fn with_standard(r: RecordV, a: Seq<u8>) -> Result<RecordV, NtfsError> {
    match ntfs::resident_of(a) {
        Err(e) => Err(e),
        Ok(v) => if v.len() < 16 {
            Err(NtfsError::TruncatedU64)
        } else if v.len() < 36 {
            Err(NtfsError::TruncatedU32)
        } else {
            Ok(
                RecordV {
                    modified_ms: stored_time(bytes::le_of(v, 8, 8) as u64),
                    flags: if bytes::le_of(v, 32, 4) as u32 & 0x400 != 0 {
                        r.flags | REPARSE
                    } else {
                        r.flags
                    },
                    ..r
                },
            )
        },
    }
}

/// A name that is not only for old programs, and the sizes kept beside it.
pub open spec fn with_name(r: RecordV, a: Seq<u8>) -> Result<RecordV, NtfsError> {
    match ntfs::resident_of(a) {
        Err(e) => Err(e),
        Ok(v) => if v.len() < 66 {
            Err(NtfsError::ShortName)
        } else if 66 + v[64] * 2 > v.len() {
            Err(NtfsError::TruncatedName)
        } else if v[65] == 2 {
            Ok(r)
        } else {
            Ok(
                RecordV {
                    names: r.names.push(
                        NameV {
                            parent: bytes::le_of(v, 0, 8) as u64,
                            text: bytes::units_of(v.subrange(66, 66 + v[64] * 2)),
                        },
                    ),
                    fallback: (bytes::le_of(v, 48, 8) as u64, bytes::le_of(v, 40, 8) as u64),
                    ..r
                },
            )
        },
    }
}

/// What a stream takes: its length, and its space; nothing for the later parts of a stream
/// that is described in parts.
pub open spec fn stream_sizes(a: Seq<u8>) -> Result<Option<(u64, u64)>, NtfsError> {
    if a[8] == 0 {
        match ntfs::resident_of(a) {
            Err(e) => Err(e),
            Ok(v) => Ok(Some((v.len() as u64, ((v.len() + 7) / 8 * 8) as u64))),
        }
    } else if bytes::le_of(a, 16, 8) != 0 {
        Ok(None)
    } else {
        let flags = bytes::le_of(a, 12, 2) as u16;
        let packed = flags & 0x8001 != 0 && a.len() >= 72 && bytes::le_of(a, 32, 2) >= 72;
        if a.len() < 56 {
            Err(NtfsError::TruncatedU64)
        } else {
            Ok(
                Some(
                    (
                        bytes::le_of(a, 48, 8) as u64,
                        if packed {
                            bytes::le_of(a, 64, 8) as u64
                        } else {
                            bytes::le_of(a, 40, 8) as u64
                        },
                    ),
                ),
            )
        }
    }
}

pub open spec fn with_data(r: RecordV, a: Seq<u8>) -> Result<RecordV, NtfsError> {
    match stream_sizes(a) {
        Err(e) => Err(e),
        Ok(None) => Ok(r),
        Ok(Some((logical, allocated))) => if r.logical + logical > u64::MAX {
            Err(NtfsError::SizeOverflow)
        } else if r.allocated + allocated > u64::MAX {
            Err(NtfsError::AllocationOverflow)
        } else {
            Ok(
                RecordV {
                    logical: (r.logical + logical) as u64,
                    allocated: (r.allocated + allocated) as u64,
                    has_data: true,
                    ..r
                },
            )
        },
    }
}

/// What an attribute adds to what is known.
pub open spec fn with_attribute(r: RecordV, a: Seq<u8>) -> Result<RecordV, NtfsError> {
    let kind = bytes::le_of(a, 0, 4);
    if kind == 0x10 {
        with_standard(r, a)
    } else if kind == 0x20 {
        Ok(RecordV { complex: true, ..r })
    } else if kind == 0x30 {
        with_name(r, a)
    } else if kind == 0x80 {
        with_data(r, a)
    } else if kind == 0xc0 {
        Ok(RecordV { flags: r.flags | REPARSE, ..r })
    } else {
        Ok(r)
    }
}

pub open spec fn attribute_at(b: Seq<u8>, at: (usize, usize)) -> Seq<u8> {
    b.subrange(at.0 as int, at.0 + at.1)
}

/// What the first `n` attributes tell.
pub open spec fn with_attributes(r: RecordV, b: Seq<u8>, v: Seq<(usize, usize)>, n: nat) -> Result<
    RecordV,
    NtfsError,
>
    decreases n,
{
    if n == 0 {
        Ok(r)
    } else {
        match with_attributes(r, b, v, (n - 1) as nat) {
            Err(e) => Err(e),
            Ok(before) => with_attribute(before, attribute_at(b, v[n - 1])),
        }
    }
}

/// What is known from the head of a record alone.
pub open spec fn bare_record(b: Seq<u8>, index: u64) -> RecordV {
    RecordV {
        modified_ms: UNKNOWN_MTIME,
        frn: index | ((bytes::le_of(b, 16, 2) as u64) << 48),
        base: bytes::le_of(b, 32, 8) as u64,
        flags: if bytes::le_of(b, 22, 2) as u16 & 2 != 0 {
            DIR
        } else {
            0
        },
        complex: false,
        names: Seq::empty(),
        logical: 0,
        allocated: 0,
        has_data: false,
        fallback: (0, 0),
    }
}

pub open spec fn all_zero(b: Seq<u8>) -> bool {
    forall|i: int| 0 <= i < b.len() ==> #[trigger] b[i] == 0
}

/// What the record of number `index` tells; nothing of a record not in use.
pub open spec fn record_of(b: Seq<u8>, index: u64, sector: int) -> Result<
    Option<RecordV>,
    NtfsError,
> {
    if all_zero(b) {
        Ok(None)
    } else if !ntfs::file_signature(b) {
        Err(NtfsError::NotFile(index))
    } else if b.len() < 24 {
        Err(NtfsError::TruncatedU16)
    } else if bytes::le_of(b, 22, 2) as u16 & 1 == 0 {
        Ok(None)
    } else {
        match ntfs::restored(b, sector) {
            Err(e) => Err(e),
            Ok(c) => match ntfs::attributes_of(c) {
                Err(e) => Err(e),
                Ok(v) => match with_attributes(bare_record(c, index), c, v, v.len()) {
                    Err(e) => Err(e),
                    Ok(r) => Ok(Some(r)),
                },
            },
        }
    }
}

fn time_of(raw: u64) -> (r: i64)
    ensures
        r == stored_time(raw),
{
    if raw > 0x7fff_ffff_ffff_ffff {
        UNKNOWN_MTIME
    } else {
        match platform::modified_unix_ms(raw as i64) {
            Some(t) => t,
            None => UNKNOWN_MTIME,
        }
    }
}

fn add_standard(r: &mut Record, a: &[u8]) -> (e: Result<(), NtfsError>)
    ensures
        match (e, with_standard(old(r)@, a@)) {
            (Ok(_), Ok(v)) => final(r)@ == v,
            (Err(x), Err(y)) => x == y,
            _ => false,
        },
{
    let v: &[u8] = match ntfs::resident(a) {
        Ok(v) => v,
        Err(x) => {
            return Err(x);
        },
    };
    if v.len() < 16 {
        return Err(NtfsError::TruncatedU64);
    }
    if v.len() < 36 {
        return Err(NtfsError::TruncatedU32);
    }
    proof {
        bytes::lemma_spans();
        bytes::lemma_le_bound(v@, 32, 4);
    }
    r.modified_ms = time_of(bytes::le(v, 8, 8));
    if bytes::le(v, 32, 4) as u32 & 0x400 != 0 {
        r.flags = r.flags | REPARSE;
    }
    Ok(())
}

fn add_name(r: &mut Record, a: &[u8]) -> (e: Result<(), NtfsError>)
    ensures
        match (e, with_name(old(r)@, a@)) {
            (Ok(_), Ok(v)) => final(r)@ == v,
            (Err(x), Err(y)) => x == y,
            _ => false,
        },
{
    let v: &[u8] = match ntfs::resident(a) {
        Ok(v) => v,
        Err(x) => {
            return Err(x);
        },
    };
    if v.len() < 66 {
        return Err(NtfsError::ShortName);
    }
    let n: usize = v[64] as usize;
    if 66 + n * 2 > v.len() {
        return Err(NtfsError::TruncatedName);
    }
    if v[65] != 2 {
        let end: usize = 66 + n * 2;
        let text: Vec<u16> = bytes::units(&v[66..end]);
        let ghost had = name_views(r.names@);
        let name = Name { parent: bytes::le(v, 0, 8), text };
        r.names.push(name);
        assert(name_views(r.names@) =~= had.push(NameV { parent: name.parent, text: name.text@ }));
        r.fallback = (bytes::le(v, 48, 8), bytes::le(v, 40, 8));
    }
    Ok(())
}

fn stream_of(a: &[u8]) -> (e: Result<Option<(u64, u64)>, NtfsError>)
    requires
        a@.len() >= 24,
    ensures
        e == stream_sizes(a@),
{
    if a[8] == 0 {
        match ntfs::resident(a) {
            Err(x) => Err(x),
            Ok(v) => {
                let len: u64 = v.len() as u64;
                proof {
                    bytes::lemma_spans();
                    bytes::lemma_le_bound(a@, 16, 4);
                    assert(v@.len() == bytes::le_of(a@, 16, 4));
                }
                Ok(Some((len, (len + 7) / 8 * 8)))
            },
        }
    } else if bytes::le(a, 16, 8) != 0 {
        Ok(None)
    } else {
        proof {
            bytes::lemma_spans();
            bytes::lemma_le_bound(a@, 12, 2);
        }
        let flags: u16 = bytes::le(a, 12, 2) as u16;
        let packed: bool = flags & 0x8001 != 0 && a.len() >= 72 && bytes::le(a, 32, 2) >= 72;
        if a.len() < 56 {
            return Err(NtfsError::TruncatedU64);
        }
        let space: u64 = if packed {
            bytes::le(a, 64, 8)
        } else {
            bytes::le(a, 40, 8)
        };
        Ok(Some((bytes::le(a, 48, 8), space)))
    }
}

fn add_data(r: &mut Record, a: &[u8]) -> (e: Result<(), NtfsError>)
    requires
        a@.len() >= 24,
    ensures
        match (e, with_data(old(r)@, a@)) {
            (Ok(_), Ok(v)) => final(r)@ == v,
            (Err(x), Err(y)) => x == y,
            _ => false,
        },
{
    match stream_of(a) {
        Err(x) => Err(x),
        Ok(None) => Ok(()),
        Ok(Some((logical, allocated))) => {
            let sum: u64 = match r.logical.checked_add(logical) {
                Some(n) => n,
                None => {
                    return Err(NtfsError::SizeOverflow);
                },
            };
            let space: u64 = match r.allocated.checked_add(allocated) {
                Some(n) => n,
                None => {
                    return Err(NtfsError::AllocationOverflow);
                },
            };
            r.logical = sum;
            r.allocated = space;
            r.has_data = true;
            Ok(())
        },
    }
}

fn add_attribute(r: &mut Record, a: &[u8]) -> (e: Result<(), NtfsError>)
    requires
        a@.len() >= 24,
    ensures
        match (e, with_attribute(old(r)@, a@)) {
            (Ok(_), Ok(v)) => final(r)@ == v,
            (Err(x), Err(y)) => x == y,
            _ => false,
        },
{
    let kind: u64 = bytes::le(a, 0, 4);
    if kind == 0x10 {
        add_standard(r, a)
    } else if kind == 0x20 {
        r.complex = true;
        Ok(())
    } else if kind == 0x30 {
        add_name(r, a)
    } else if kind == 0x80 {
        add_data(r, a)
    } else if kind == 0xc0 {
        r.flags = r.flags | REPARSE;
        Ok(())
    } else {
        Ok(())
    }
}

fn is_zero(b: &Vec<u8>) -> (r: bool)
    ensures
        r == all_zero(b@),
{
    let mut i: usize = 0;
    while i < b.len()
        invariant
            i <= b@.len(),
            forall|k: int| 0 <= k < i ==> #[trigger] b@[k] == 0,
        decreases b@.len() - i,
    {
        if b[i] != 0 {
            return false;
        }
        i += 1;
    }
    true
}

proof fn lemma_attributes_stop(
    r: RecordV,
    b: Seq<u8>,
    v: Seq<(usize, usize)>,
    m: nat,
    n: nat,
)
    requires
        m <= n,
        with_attributes(r, b, v, m) is Err,
    ensures
        with_attributes(r, b, v, n) == with_attributes(r, b, v, m),
    decreases n,
{
    if m < n {
        lemma_attributes_stop(r, b, v, m, (n - 1) as nat);
    }
}

/// Reads the record of number `index`, restoring its bytes on the way.
pub fn parse_record(record: &mut Vec<u8>, index: u64, sector: usize) -> (r: Result<
    Option<Record>,
    NtfsError,
>)
    requires
        sector >= 2,
    ensures
        final(record)@.len() == old(record)@.len(),
        match (r, record_of(old(record)@, index, sector as int)) {
            (Ok(Some(a)), Ok(Some(b))) => a@ == b,
            (Ok(None), Ok(None)) => true,
            (Err(e), Err(f)) => e == f,
            _ => false,
        },
        sector >= 512 ==> (r matches Ok(Some(a)) ==> (a.flags & 1 != 0) == (old(record)@[22] % 4
            >= 2)),
{
    proof {
        if sector >= 512 && record_of(record@, index, sector as int) matches Ok(Some(_)) {
            law_records_are_what_their_head_says(record@, index, sector as int);
        }
    }
    if is_zero(record) {
        return Ok(None);
    }
    if !(record.len() >= 4 && record[0] == 70 && record[1] == 73 && record[2] == 76 && record[3]
        == 69) {
        return Err(NtfsError::NotFile(index));
    }
    if record.len() < 24 {
        return Err(NtfsError::TruncatedU16);
    }
    proof {
        bytes::lemma_spans();
        bytes::lemma_le_bound(record@, 22, 2);
    }
    if bytes::le(record, 22, 2) as u16 & 1 == 0 {
        return Ok(None);
    }
    if let Err(e) = ntfs::fixup(record, sector) {
        return Err(e);
    }
    let ghost c = record@;
    let spans: Vec<(usize, usize)> = match ntfs::attributes(record) {
        Ok(v) => v,
        Err(e) => {
            return Err(e);
        },
    };
    proof {
        lemma_attributes_len(c);
        bytes::lemma_spans();
        bytes::lemma_le_bound(record@, 22, 2);
        bytes::lemma_le_bound(record@, 16, 2);
    }
    let mut out = Record {
        modified_ms: UNKNOWN_MTIME,
        frn: index | ((bytes::le(record, 16, 2)) << 48),
        base: bytes::le(record, 32, 8),
        flags: if bytes::le(record, 22, 2) as u16 & 2 != 0 {
            DIR
        } else {
            0
        },
        complex: false,
        names: Vec::new(),
        logical: 0,
        allocated: 0,
        has_data: false,
        fallback: (0, 0),
    };
    let ghost bare = bare_record(c, index);
    assert(out@ =~= bare);
    let mut i: usize = 0;
    while i < spans.len()
        invariant
            i <= spans@.len(),
            record@ == c,
            c.len() == old(record)@.len(),
            ntfs::inside(spans@, c.len()),
            with_attributes(bare, c, spans@, i as nat) == Ok::<RecordV, NtfsError>(out@),
            record_of(old(record)@, index, sector as int) == (match with_attributes(
                bare,
                c,
                spans@,
                spans@.len(),
            ) {
                Err(e) => Err::<Option<RecordV>, NtfsError>(e),
                Ok(r) => Ok(Some(r)),
            }),
        decreases spans@.len() - i,
    {
        let at: (usize, usize) = spans[i];
        let total: usize = record.len();
        assert(total == c.len());
        assert(spans@[i as int].0 + spans@[i as int].1 <= c.len());
        let end: usize = at.0 + at.1;
        let a: &[u8] = &record.as_slice()[at.0..end];
        assert(a@ =~= attribute_at(c, at));
        if let Err(e) = add_attribute(&mut out, a) {
            proof {
                lemma_attributes_stop(bare, c, spans@, (i + 1) as nat, spans@.len());
            }
            return Err(e);
        }
        i += 1;
    }
    Ok(Some(out))
}

proof fn lemma_attributes_len(b: Seq<u8>)
    ensures
        ntfs::attributes_of(b) is Ok ==> b.len() >= 48,
{
}

/// What two parts of one file tell together.
pub open spec fn merged(base: RecordV, other: RecordV) -> Result<RecordV, NtfsError> {
    if base.logical + other.logical > u64::MAX {
        Err(NtfsError::ExtensionSize)
    } else if base.allocated + other.allocated > u64::MAX {
        Err(NtfsError::ExtensionAllocation)
    } else {
        Ok(
            RecordV {
                modified_ms: model::oldest_of(base.modified_ms, other.modified_ms),
                flags: base.flags | other.flags,
                names: base.names + other.names,
                logical: (base.logical + other.logical) as u64,
                allocated: (base.allocated + other.allocated) as u64,
                has_data: base.has_data || other.has_data,
                ..base
            },
        )
    }
}

/// Adds what another record tells of the same file.
pub fn merge(base: &mut Record, other: Record) -> (r: Result<(), NtfsError>)
    ensures
        match (r, merged(old(base)@, other@)) {
            (Ok(_), Ok(v)) => final(base)@ == v,
            (Err(e), Err(f)) => e == f,
            _ => false,
        },
{
    let logical: u64 = match base.logical.checked_add(other.logical) {
        Some(n) => n,
        None => {
            return Err(NtfsError::ExtensionSize);
        },
    };
    let allocated: u64 = match base.allocated.checked_add(other.allocated) {
        Some(n) => n,
        None => {
            return Err(NtfsError::ExtensionAllocation);
        },
    };
    let ghost had = base.names@;
    let mut more: Vec<Name> = other.names;
    let ghost added = more@;
    base.names.append(&mut more);
    assert(name_views(base.names@) =~= name_views(had) + name_views(added));
    base.modified_ms = oldest_known(base.modified_ms, other.modified_ms);
    base.flags = base.flags | other.flags;
    base.logical = logical;
    base.allocated = allocated;
    base.has_data = base.has_data || other.has_data;
    Ok(())
}

proof fn lemma_head_bits(n: u16, low: u8)
    requires
        n as int % 256 == low,
    ensures
        (n & 2 != 0) == (low % 4 >= 2),
        (n & 1 != 0) == (low % 2 == 1),
{
    assert((n & 2 != 0) == (n % 4 >= 2) && (n & 1 != 0) == (n % 2 == 1)) by (bit_vector);
    assert(n % 4 == low % 4 && n % 2 == low % 2) by (bit_vector)
        requires
            n % 256 == low,
    ;
}

/// An attribute says that the file leads elsewhere: it is a reparse point, or standard
/// information with that bit.
pub open spec fn says_reparse(a: Seq<u8>) -> bool {
    ||| bytes::le_of(a, 0, 4) == 0xc0
    ||| bytes::le_of(a, 0, 4) == 0x10 && {
        let at = a[20] + 0x100 * a[21];
        (a[at + 33] / 4) % 2 == 1
    }
}

/// How attributes leave their mark in the flags: a directory stays one, and nothing else
/// becomes one; a file leads elsewhere if some attribute says so.
proof fn lemma_flags_of_attributes(r: RecordV, b: Seq<u8>, v: Seq<(usize, usize)>, n: nat)
    requires
        n <= v.len(),
        with_attributes(r, b, v, n) is Ok,
    ensures
        ({
            let s = with_attributes(r, b, v, n)->Ok_0;
            &&& (s.flags & 1 != 0) == (r.flags & 1 != 0)
            &&& (s.flags & 2 != 0) == (r.flags & 2 != 0 || exists|i: int|
                0 <= i < n && says_reparse(attribute_at(b, #[trigger] v[i])))
            &&& s.frn == r.frn
            &&& s.base == r.base
        }),
    decreases n,
{
    if n > 0 {
        let m = (n - 1) as nat;
        lemma_flags_of_attributes(r, b, v, m);
        let before = with_attributes(r, b, v, m)->Ok_0;
        let a = attribute_at(b, v[n - 1]);
        let s = with_attributes(r, b, v, n)->Ok_0;
        model::lemma_single_flags();
        model::lemma_flags(before.flags, 2);
        let kind = bytes::le_of(a, 0, 4);
        if kind == 0x10 {
            ntfs::law_resident_values_are_where_the_head_says(a);
            let w = ntfs::resident_of(a)->Ok_0;
            bytes::lemma_reparse_byte(w, 32);
            assert(w[33] == a[a[20] + 0x100 * a[21] + 33]);
        }
        assert((s.flags & 2 != 0) == (before.flags & 2 != 0 || says_reparse(a)));
        if s.flags & 2 != 0 && r.flags & 2 == 0 {
            if says_reparse(a) {
                assert(says_reparse(attribute_at(b, v[m as int])));
            }
        }
        if exists|i: int| 0 <= i < n && says_reparse(attribute_at(b, #[trigger] v[i])) {
            let i = choose|i: int| 0 <= i < n && says_reparse(attribute_at(b, #[trigger] v[i]));
            if i < m {
                assert(0 <= i < m && says_reparse(attribute_at(b, v[i])));
            }
        }
    }
}

/// A record that is read stands for a directory exactly if bit one of the flags in its head
/// is set, for a file that leads elsewhere exactly if an attribute says so, and it is in use.
/// Its number, with the times it was used before above it, and that of the record it
/// belongs to are those of its head.
pub proof fn law_records_are_what_their_head_says(b: Seq<u8>, index: u64, sector: int)
    requires
        sector >= 512,
        record_of(b, index, sector) matches Ok(Some(_)),
    ensures
        ({
            let r = record_of(b, index, sector)->Ok_0->0;
            let c = ntfs::restored(b, sector)->Ok_0;
            let v = ntfs::attributes_of(c)->Ok_0;
            &&& (r.flags & 1 != 0) == (b[22] % 4 >= 2)
            &&& (r.flags & 2 != 0) == exists|i: int|
                0 <= i < v.len() && says_reparse(attribute_at(c, #[trigger] v[i]))
            &&& b[22] % 2 == 1
            &&& index < 0x1_0000_0000_0000 ==> r.frn == index + 0x1_0000_0000_0000 * (b[16] + 0x100
                * b[17])
            &&& r.base == bytes::le_of(b, 32, 8)
            &&& b[0] == 0x46 && b[1] == 0x49 && b[2] == 0x4c && b[3] == 0x45
        }),
{
    let c = ntfs::restored(b, sector)->Ok_0;
    let v = ntfs::attributes_of(c)->Ok_0;
    assert forall|k: int| 0 <= k < 48 implies c[k] == #[trigger] b[k] by {
        ntfs::law_restoring_keeps_the_head(b, sector, k);
    }
    ntfs::law_restoring_keeps_the_head(b, sector, 0);
    bytes::law_low_bytes_come_first(b, 22);
    bytes::law_low_bytes_come_first(c, 22);
    bytes::law_low_bytes_come_first(c, 16);
    bytes::law_low_bytes_come_first(b, 32);
    bytes::law_low_bytes_come_first(c, 32);
    lemma_head_bits(bytes::le_of(b, 22, 2) as u16, b[22]);
    lemma_head_bits(bytes::le_of(c, 22, 2) as u16, c[22]);
    let bare = bare_record(c, index);
    model::lemma_single_flags();
    lemma_flags_of_attributes(bare, c, v, v.len());
    let seq = bytes::le_of(c, 16, 2) as u64;
    if index < 0x1_0000_0000_0000 {
        assert(index | (seq << 48) == index + 0x1_0000_0000_0000 * seq) by (bit_vector)
            requires
                index < 0x1_0000_0000_0000,
                seq < 0x1_0000,
        ;
    }
    bytes::lemma_spans();
    bytes::lemma_le_bound(c, 32, 8);
}

/// Nothing is told of a record exactly if it is blank or bit zero of the flags in its head
/// is clear: no record in use is passed over.
pub proof fn law_records_in_use_are_not_passed_over(b: Seq<u8>, index: u64, sector: int)
    requires
        b.len() >= 24,
        b[0] == 0x46 && b[1] == 0x49 && b[2] == 0x4c && b[3] == 0x45,
    ensures
        record_of(b, index, sector) matches Ok(None) <==> b[22] % 2 == 0,
{
    bytes::law_low_bytes_come_first(b, 22);
    lemma_head_bits(bytes::le_of(b, 22, 2) as u16, b[22]);
    assert(!all_zero(b)) by {
        assert(b[0] != 0);
    }
}

/// The attribute holds a name that is not only for old programs.
pub open spec fn holds_name(a: Seq<u8>) -> bool {
    bytes::le_of(a, 0, 4) == 0x30 && a[a[20] + 0x100 * a[21] + 65] != 2
}

/// A name is the one that the attribute holds: its folder, and its text in units of two
/// bytes.
pub open spec fn stands_in(n: NameV, a: Seq<u8>) -> bool {
    let at = a[20] + 0x100 * a[21];
    &&& n.parent == bytes::le_of(a, at, 8)
    &&& n.text.len() == a[at + 64]
    &&& forall|u: int|
        0 <= u < n.text.len() ==> #[trigger] n.text[u] == a[at + 66 + 2 * u] + 0x100 * a[at + 67 + 2
            * u]
}

proof fn lemma_names_of_attributes(r: RecordV, b: Seq<u8>, v: Seq<(usize, usize)>, n: nat, i: int)
    requires
        n <= v.len(),
        0 <= i < n,
        with_attributes(r, b, v, n) is Ok,
        holds_name(attribute_at(b, v[i])),
    ensures
        exists|k: int|
            0 <= k < with_attributes(r, b, v, n)->Ok_0.names.len() && stands_in(
                #[trigger] with_attributes(r, b, v, n)->Ok_0.names[k],
                attribute_at(b, v[i]),
            ),
    decreases n,
{
    let m = (n - 1) as nat;
    let before = with_attributes(r, b, v, m)->Ok_0;
    let s = with_attributes(r, b, v, n)->Ok_0;
    let a = attribute_at(b, v[i]);
    let at = a[20] + 0x100 * a[21];
    if i == m {
        ntfs::law_resident_values_are_where_the_head_says(a);
        let w = ntfs::resident_of(a)->Ok_0;
        assert(w[65] == a[at + 65] && w[64] == a[at + 64]);
        let k = before.names.len() as int;
        lemma_same_number(w, a, at, 0);
        bytes::lemma_spans();
        bytes::lemma_le_bound(w, 0, 8);
        let part = w.subrange(66, 66 + w[64] * 2);
        let text = s.names[k].text;
        assert(text == bytes::units_of(part));
        assert forall|u: int| 0 <= u < text.len() implies #[trigger] text[u] == a[at + 66 + 2 * u]
            + 0x100 * a[at + 67 + 2 * u] by {
            bytes::law_low_bytes_come_first(part, 2 * u);
            assert(part[2 * u] == w[66 + 2 * u] && part[2 * u + 1] == w[67 + 2 * u]);
            assert(w[66 + 2 * u] == a[at + (66 + 2 * u)] && w[67 + 2 * u] == a[at + (67 + 2 * u)]);
        }
        assert(stands_in(s.names[k], a));
    } else {
        lemma_names_of_attributes(r, b, v, m, i);
        let k = choose|k: int|
            0 <= k < before.names.len() && stands_in(#[trigger] before.names[k], a);
        assert(s.names[k] == before.names[k]);
    }
}

/// Every name of a file, but those for old programs, is told with its folder and its full
/// text.
pub proof fn law_every_name_is_told(b: Seq<u8>, index: u64, sector: int, i: int)
    requires
        record_of(b, index, sector) matches Ok(Some(_)),
        0 <= i < ntfs::attributes_of(ntfs::restored(b, sector)->Ok_0)->Ok_0.len(),
        ({
            let c = ntfs::restored(b, sector)->Ok_0;
            holds_name(attribute_at(c, ntfs::attributes_of(c)->Ok_0[i]))
        }),
    ensures
        ({
            let r = record_of(b, index, sector)->Ok_0->0;
            let c = ntfs::restored(b, sector)->Ok_0;
            exists|k: int|
                0 <= k < r.names.len() && stands_in(
                    #[trigger] r.names[k],
                    attribute_at(c, ntfs::attributes_of(c)->Ok_0[i]),
                )
        }),
{
    let c = ntfs::restored(b, sector)->Ok_0;
    let v = ntfs::attributes_of(c)->Ok_0;
    let all = with_attributes(bare_record(c, index), c, v, v.len());
    lemma_names_of_attributes(bare_record(c, index), c, v, v.len(), i);
    let r = record_of(b, index, sector)->Ok_0->0;
    assert(r == all->Ok_0);
    let k = choose|k: int|
        0 <= k < all->Ok_0.names.len() && stands_in(
            #[trigger] all->Ok_0.names[k],
            attribute_at(c, v[i]),
        );
    assert(stands_in(r.names[k], attribute_at(c, v[i])));
}

/// What a stream counts: its length and space where it lies in the record, rounded up to
/// eight; else those of its head, where a packed or sparse stream takes the space it fills;
/// nothing where only a later part of it is described.
pub proof fn law_streams_count_by_their_head(a: Seq<u8>)
    requires
        stream_sizes(a) is Ok,
    ensures
        ({
            let s = stream_sizes(a)->Ok_0;
            &&& a[8] == 0 ==> s is Some && (s->0).0 == bytes::le_of(a, 16, 4) && (s->0).0 <= (s->0).1
                < (s->0).0 + 8 && (s->0).1 % 8 == 0
            &&& a[8] != 0 ==> (s is None <==> bytes::le_of(a, 16, 8) != 0)
            &&& a[8] != 0 && s is Some ==> (s->0).0 == bytes::le_of(a, 48, 8)
            &&& a[8] != 0 && s is Some && a[12] % 2 == 0 && a[13] < 128 ==> (s->0).1 == bytes::le_of(
                a,
                40,
                8,
            )
            &&& a[8] != 0 && s is Some && (a[12] % 2 == 1 || a[13] >= 128) && a.len() >= 72
                && bytes::le_of(a, 32, 2) >= 72 ==> (s->0).1 == bytes::le_of(a, 64, 8)
        }),
{
    bytes::lemma_spans();
    bytes::lemma_le_bound(a, 16, 4);
    bytes::lemma_le_bound(a, 48, 8);
    bytes::lemma_le_bound(a, 40, 8);
    bytes::lemma_le_bound(a, 64, 8);
    bytes::law_low_bytes_come_first(a, 12);
    let n = bytes::le_of(a, 12, 2) as u16;
    let low = a[12];
    let high = a[13];
    assert((n & 0x8001 != 0) == (low % 2 == 1 || high >= 128)) by (bit_vector)
        requires
            n == low + 0x100 * high,
    ;
    if a[8] == 0 {
        ntfs::law_resident_values_are_where_the_head_says(a);
        bytes::law_low_bytes_come_first(a, 16);
    }
}

/// What an attribute changes: a stream adds its length and space, standard information gives
/// the last write, an attribute list makes the record one of several, and a name adds a name
/// and what is kept beside it; nothing else changes anything but whether the file leads
/// elsewhere.
pub proof fn law_attributes_change_what_they_tell(r: RecordV, a: Seq<u8>)
    requires
        with_attribute(r, a) is Ok,
    ensures
        ({
            let s = with_attribute(r, a)->Ok_0;
            let kind = a[0] + 0x100 * a[1] + 0x1_0000 * a[2] + 0x100_0000 * a[3];
            let at = a[20] + 0x100 * a[21];
            let told = kind == 0x80 && (a[8] == 0 || bytes::le_of(a, 16, 8) == 0);
            let written = bytes::le_of(a, at + 8, 8);
            &&& s.frn == r.frn && s.base == r.base
            &&& s.complex == (r.complex || kind == 0x20)
            &&& s.has_data == (r.has_data || told)
            &&& !told ==> s.logical == r.logical && s.allocated == r.allocated
            &&& told && a[8] == 0 ==> s.logical == r.logical + bytes::le_of(a, 16, 4)
            &&& told && a[8] != 0 ==> s.logical == r.logical + bytes::le_of(a, 48, 8)
            &&& told && a[8] != 0 && a[12] % 2 == 0 && a[13] < 128 ==> s.allocated == r.allocated
                + bytes::le_of(a, 40, 8)
            &&& kind != 0x10 ==> s.modified_ms == r.modified_ms
            &&& kind == 0x10 && 0 < written <= i64::MAX ==> s.modified_ms == written as int / 10_000
                - 11_644_473_600_000
            &&& kind == 0x10 && !(0 < written <= i64::MAX) ==> s.modified_ms == i64::MIN
            &&& !holds_name(a) ==> s.names == r.names && s.fallback == r.fallback
            &&& holds_name(a) ==> s.names.len() == r.names.len() + 1 && s.fallback == (
                bytes::le_of(a, at + 48, 8) as u64,
                bytes::le_of(a, at + 40, 8) as u64,
            )
        }),
{
    let kind = bytes::le_of(a, 0, 4);
    bytes::law_low_bytes_come_first(a, 0);
    bytes::lemma_spans();
    let at = a[20] + 0x100 * a[21];
    if kind == 0x80 {
        law_streams_count_by_their_head(a);
    } else if kind == 0x10 || kind == 0x30 {
        ntfs::law_resident_values_are_where_the_head_says(a);
        let w = ntfs::resident_of(a)->Ok_0;
        if kind == 0x10 {
            lemma_same_number(w, a, at, 8);
            bytes::lemma_le_bound(w, 8, 8);
        } else {
            assert(w[65] == a[at + 65]);
            lemma_same_number(w, a, at, 48);
            lemma_same_number(w, a, at, 40);
        }
    }
}

proof fn lemma_same_number(w: Seq<u8>, a: Seq<u8>, at: int, p: int)
    requires
        0 <= p,
        p + 8 <= w.len(),
        forall|k: int| 0 <= k < w.len() ==> #[trigger] w[k] == a[at + k],
    ensures
        bytes::le_of(w, p, 8) == bytes::le_of(a, at + p, 8),
{
    bytes::law_low_bytes_come_first(w, p);
    bytes::law_low_bytes_come_first(a, at + p);
    assert(w[p] == a[at + p] && w[p + 1] == a[at + (p + 1)] && w[p + 2] == a[at + (p + 2)] && w[p
        + 3] == a[at + (p + 3)] && w[p + 4] == a[at + (p + 4)] && w[p + 5] == a[at + (p + 5)] && w[p
        + 6] == a[at + (p + 6)] && w[p + 7] == a[at + (p + 7)]);
}

/// Two parts of one file tell together what each tells: sizes add up, the older of the known
/// times holds, and every name and flag stays.
pub proof fn law_parts_of_a_file_add_up(base: RecordV, other: RecordV)
    requires
        merged(base, other) is Ok,
    ensures
        ({
            let m = merged(base, other)->Ok_0;
            &&& m.logical == base.logical + other.logical
            &&& m.allocated == base.allocated + other.allocated
            &&& m.names.len() == base.names.len() + other.names.len()
            &&& forall|i: int| 0 <= i < base.names.len() ==> #[trigger] m.names[i] == base.names[i]
            &&& forall|i: int|
                0 <= i < other.names.len() ==> #[trigger] m.names[base.names.len() + i]
                    == other.names[i]
            &&& m.frn == base.frn && m.base == base.base
            &&& m.flags & 1 != 0 <==> base.flags & 1 != 0 || other.flags & 1 != 0
            &&& m.flags & 2 != 0 <==> base.flags & 2 != 0 || other.flags & 2 != 0
            &&& m.has_data <==> base.has_data || other.has_data
            &&& base.modified_ms == i64::MIN ==> m.modified_ms == other.modified_ms
            &&& other.modified_ms == i64::MIN ==> m.modified_ms == base.modified_ms
            &&& base.modified_ms != i64::MIN && other.modified_ms != i64::MIN ==> m.modified_ms <= (
            base.modified_ms) && m.modified_ms <= other.modified_ms && (m.modified_ms
                == base.modified_ms || m.modified_ms == other.modified_ms)
        }),
{
    model::lemma_flags(base.flags, other.flags);
}

/// The parts of a file are put together unless a sum does not fit.
pub proof fn law_parts_are_refused_only_if_they_do_not_fit(base: RecordV, other: RecordV)
    ensures
        merged(base, other) is Ok <==> base.logical + other.logical < 0x1_0000_0000_0000_0000
            && base.allocated + other.allocated < 0x1_0000_0000_0000_0000,
        merged(base, other) == Err::<RecordV, NtfsError>(NtfsError::ExtensionSize) <==> base.logical
            + other.logical >= 0x1_0000_0000_0000_0000,
{
}

/// A record tells nothing exactly if it is blank or not in use; what else does not begin as a
/// file's record is refused.
pub proof fn law_only_files_in_use_tell_something(b: Seq<u8>, index: u64, sector: int)
    requires
        b.len() >= 24,
    ensures
        ({
            let file = b[0] == 'F' as u8 && b[1] == 'I' as u8 && b[2] == 'L' as u8 && b[3]
                == 'E' as u8;
            let blank = forall|i: int| 0 <= i < b.len() ==> #[trigger] b[i] == 0;
            let r = record_of(b, index, sector);
            &&& r == Ok::<Option<RecordV>, NtfsError>(None) <==> blank || (file && b[22] % 2 == 0)
            &&& !file && !blank ==> r == Err::<Option<RecordV>, NtfsError>(
                NtfsError::NotFile(index),
            )
        }),
{
    bytes::law_low_bytes_come_first(b, 22);
    lemma_head_bits(bytes::le_of(b, 22, 2) as u16, b[22]);
    if b[0] != 0 {
        assert(!all_zero(b));
    }
}

} // verus!
