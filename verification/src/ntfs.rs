//! NTFS metadata: geometry, data runs, file records.
use crate::bytes;
use vstd::prelude::*;
use vstd::string::*;

verus! {

/// Why NTFS metadata is refused.
#[derive(Clone, Copy, Debug, PartialEq, Eq, Structural)]
pub enum NtfsError {
    TruncatedU16,
    TruncatedU32,
    TruncatedU64,
    BootSignature,
    Geometry,
    RecordShift,
    RecordSize(u64),
    MftOffset,
    NotNonresident,
    RunOffset,
    UnterminatedRuns,
    RunWidths,
    TruncatedRun,
    EmptyRun,
    LcnOverflow,
    NegativeLcn,
    VcnOverflow,
    RunRange,
    IncompleteRuns,
    RecordSignature,
    UpdateSequence,
    TornRecord,
    UsedLength,
    FirstAttribute,
    AttributeLength,
    NoTerminator,
    NotResident,
    ResidentOffset,
    ResidentValue,
    MissingExtent,
    PhysicalOverflow,
    ResidentMft,
    ExcessiveList,
    MftData,
    ListEntry,
    ReusedRecord,
    ExtentGap,
    ShortExtents,
    NotFile(u64),
    ShortName,
    TruncatedName,
    SizeOverflow,
    AllocationOverflow,
    ExtensionSize,
    ExtensionAllocation,
    NameComponent,
    TooLarge,
    OverlongName,
}

impl NtfsError {
    pub fn message(self) -> (r: &'static str)
        ensures
            r@ == self.words(),
    {
        match self {
            NtfsError::TruncatedU16 => "truncated u16",
            NtfsError::TruncatedU32 => "truncated u32",
            NtfsError::TruncatedU64 => "truncated u64",
            NtfsError::BootSignature => "NTFS boot signature missing",
            NtfsError::Geometry => "invalid NTFS geometry",
            NtfsError::RecordShift => "record shift overflow",
            NtfsError::RecordSize(_) => "invalid MFT record size",
            NtfsError::MftOffset => "MFT offset overflow",
            NtfsError::NotNonresident => "invalid nonresident attribute",
            NtfsError::RunOffset => "invalid data-run offset",
            NtfsError::UnterminatedRuns => "unterminated data runs",
            NtfsError::RunWidths => "invalid data-run widths",
            NtfsError::TruncatedRun => "truncated data run",
            NtfsError::EmptyRun => "zero-length data run",
            NtfsError::LcnOverflow => "LCN delta overflow",
            NtfsError::NegativeLcn => "negative physical LCN",
            NtfsError::VcnOverflow => "VCN overflow",
            NtfsError::RunRange => "run exceeds attribute VCN range",
            NtfsError::IncompleteRuns => "incomplete data runs",
            NtfsError::RecordSignature => "invalid FILE record signature",
            NtfsError::UpdateSequence => "invalid update sequence array",
            NtfsError::TornRecord => "torn/live-changing MFT record (USA mismatch)",
            NtfsError::UsedLength => "invalid record used length",
            NtfsError::FirstAttribute => "invalid first attribute offset",
            NtfsError::AttributeLength => "invalid attribute length",
            NtfsError::NoTerminator => "missing attribute terminator",
            NtfsError::NotResident => "not a resident attribute",
            NtfsError::ResidentOffset => "invalid resident offset",
            NtfsError::ResidentValue => "truncated resident value",
            NtfsError::MissingExtent => "MFT stream has a missing extent",
            NtfsError::PhysicalOverflow => "physical offset overflow",
            NtfsError::ResidentMft => "MFT DATA must be nonresident",
            NtfsError::ExcessiveList => "excessive MFT attribute list",
            NtfsError::MftData => "missing/invalid MFT data stream",
            NtfsError::ListEntry => "invalid MFT attribute-list entry",
            NtfsError::ReusedRecord => "reused MFT extent record",
            NtfsError::ExtentGap => "MFT extent gap/overlap/sparse run",
            NtfsError::ShortExtents => "MFT extents shorter than data length",
            NtfsError::NotFile(_) => "non-FILE MFT record",
            NtfsError::ShortName => "short FILE_NAME",
            NtfsError::TruncatedName => "truncated FILE_NAME",
            NtfsError::SizeOverflow => "stream size overflow",
            NtfsError::AllocationOverflow => "stream allocation overflow",
            NtfsError::ExtensionSize => "extension size overflow",
            NtfsError::ExtensionAllocation => "extension allocation overflow",
            NtfsError::NameComponent => "invalid NTFS filename component",
            NtfsError::TooLarge => "scan index exceeds 32-bit compact limits",
            NtfsError::OverlongName => "invalid overlong filename",
        }
    }

    pub open spec fn words(self) -> Seq<char> {
        match self {
            NtfsError::TruncatedU16 => "truncated u16"@,
            NtfsError::TruncatedU32 => "truncated u32"@,
            NtfsError::TruncatedU64 => "truncated u64"@,
            NtfsError::BootSignature => "NTFS boot signature missing"@,
            NtfsError::Geometry => "invalid NTFS geometry"@,
            NtfsError::RecordShift => "record shift overflow"@,
            NtfsError::RecordSize(_) => "invalid MFT record size"@,
            NtfsError::MftOffset => "MFT offset overflow"@,
            NtfsError::NotNonresident => "invalid nonresident attribute"@,
            NtfsError::RunOffset => "invalid data-run offset"@,
            NtfsError::UnterminatedRuns => "unterminated data runs"@,
            NtfsError::RunWidths => "invalid data-run widths"@,
            NtfsError::TruncatedRun => "truncated data run"@,
            NtfsError::EmptyRun => "zero-length data run"@,
            NtfsError::LcnOverflow => "LCN delta overflow"@,
            NtfsError::NegativeLcn => "negative physical LCN"@,
            NtfsError::VcnOverflow => "VCN overflow"@,
            NtfsError::RunRange => "run exceeds attribute VCN range"@,
            NtfsError::IncompleteRuns => "incomplete data runs"@,
            NtfsError::RecordSignature => "invalid FILE record signature"@,
            NtfsError::UpdateSequence => "invalid update sequence array"@,
            NtfsError::TornRecord => "torn/live-changing MFT record (USA mismatch)"@,
            NtfsError::UsedLength => "invalid record used length"@,
            NtfsError::FirstAttribute => "invalid first attribute offset"@,
            NtfsError::AttributeLength => "invalid attribute length"@,
            NtfsError::NoTerminator => "missing attribute terminator"@,
            NtfsError::NotResident => "not a resident attribute"@,
            NtfsError::ResidentOffset => "invalid resident offset"@,
            NtfsError::ResidentValue => "truncated resident value"@,
            NtfsError::MissingExtent => "MFT stream has a missing extent"@,
            NtfsError::PhysicalOverflow => "physical offset overflow"@,
            NtfsError::ResidentMft => "MFT DATA must be nonresident"@,
            NtfsError::ExcessiveList => "excessive MFT attribute list"@,
            NtfsError::MftData => "missing/invalid MFT data stream"@,
            NtfsError::ListEntry => "invalid MFT attribute-list entry"@,
            NtfsError::ReusedRecord => "reused MFT extent record"@,
            NtfsError::ExtentGap => "MFT extent gap/overlap/sparse run"@,
            NtfsError::ShortExtents => "MFT extents shorter than data length"@,
            NtfsError::NotFile(_) => "non-FILE MFT record"@,
            NtfsError::ShortName => "short FILE_NAME"@,
            NtfsError::TruncatedName => "truncated FILE_NAME"@,
            NtfsError::SizeOverflow => "stream size overflow"@,
            NtfsError::AllocationOverflow => "stream allocation overflow"@,
            NtfsError::ExtensionSize => "extension size overflow"@,
            NtfsError::ExtensionAllocation => "extension allocation overflow"@,
            NtfsError::NameComponent => "invalid NTFS filename component"@,
            NtfsError::TooLarge => "scan index exceeds 32-bit compact limits"@,
            NtfsError::OverlongName => "invalid overlong filename"@,
        }
    }
}

/// The layout of a volume.
#[derive(Clone, Copy, Debug, PartialEq, Eq, Structural)]
pub struct Geometry {
    pub sector: usize,
    pub cluster: u64,
    pub record: usize,
    pub mft_offset: u64,
}

pub open spec fn sector_size(n: int) -> bool {
    n == 512 || n == 1024 || n == 2048 || n == 4096
}

pub open spec fn cluster_sectors(n: int) -> bool {
    n == 1 || n == 2 || n == 4 || n == 8 || n == 16 || n == 32 || n == 64 || n == 128
}

/// The bytes of a file record: a power of two if the stored number is negative, else
/// so many clusters.
pub open spec fn record_bytes(c: int, cluster: int) -> Result<int, NtfsError> {
    if c < 0 {
        if c <= -64 {
            Err(NtfsError::RecordShift)
        } else {
            Ok(power_of_two((-c) as nat))
        }
    } else {
        Ok(cluster * c)
    }
}

pub open spec fn power_of_two(n: nat) -> int
    decreases n,
{
    if n == 0 {
        1
    } else {
        2 * power_of_two((n - 1) as nat)
    }
}

pub open spec fn signature(b: Seq<u8>) -> bool {
    b.subrange(3, 11) == seq![78u8, 84, 70, 83, 32, 32, 32, 32]
}

pub open spec fn signed_byte(b: u8) -> int {
    if b >= 128 {
        b - 256
    } else {
        b as int
    }
}

pub open spec fn record_ok(record: int, sector: int) -> bool {
    512 <= record <= 65536 && record % sector == 0
}

/// What a boot sector says.
pub open spec fn geometry_of(boot: Seq<u8>) -> Result<Geometry, NtfsError> {
    let sector = bytes::le_of(boot, 11, 2) as int;
    let spc = boot[13] as int;
    let cluster = sector * spc;
    if !(boot.len() >= 512 && signature(boot)) {
        Err(NtfsError::BootSignature)
    } else if !(sector_size(sector) && cluster_sectors(spc)) {
        Err(NtfsError::Geometry)
    } else {
        match record_bytes(signed_byte(boot[64]), cluster) {
            Err(e) => Err(e),
            Ok(record) => if !record_ok(record, sector) {
                Err(NtfsError::RecordSize(record as u64))
            } else if bytes::le_of(boot, 48, 8) * cluster > u64::MAX {
                Err(NtfsError::MftOffset)
            } else {
                Ok(
                    Geometry {
                        sector: sector as usize,
                        cluster: cluster as u64,
                        record: record as usize,
                        mft_offset: (bytes::le_of(boot, 48, 8) * cluster) as u64,
                    },
                )
            },
        }
    }
}

impl Geometry {
    /// A layout as a boot sector can give it.
    pub open spec fn sound(&self) -> bool {
        &&& sector_size(self.sector as int)
        &&& 512 <= self.cluster <= 524288
        &&& record_ok(self.record as int, self.sector as int)
    }

    pub fn parse(boot: &[u8]) -> (r: Result<Geometry, NtfsError>)
        ensures
            r == geometry_of(boot@),
            r matches Ok(g) ==> g.sound(),
    {
        if boot.len() < 512 {
            return Err(NtfsError::BootSignature);
        }
        let signed: bool = boot[3] == 78 && boot[4] == 84 && boot[5] == 70 && boot[6] == 83
            && boot[7] == 32 && boot[8] == 32 && boot[9] == 32 && boot[10] == 32;
        proof {
            let want = seq![78u8, 84, 70, 83, 32, 32, 32, 32];
            let have = boot@.subrange(3, 11);
            assert(have[0] == boot@[3] && have[1] == boot@[4] && have[2] == boot@[5] && have[3]
                == boot@[6] && have[4] == boot@[7] && have[5] == boot@[8] && have[6] == boot@[9]
                && have[7] == boot@[10]);
            if signed {
                assert(have =~= want);
            } else {
                assert(want[0] == 78 && want[1] == 84 && want[2] == 70 && want[3] == 83 && want[4]
                    == 32 && want[5] == 32 && want[6] == 32 && want[7] == 32);
                assert(have != want);
            }
        }
        if !signed {
            return Err(NtfsError::BootSignature);
        }
        proof {
            bytes::lemma_spans();
            bytes::lemma_le_bound(boot@, 11, 2);
        }
        let sector: u64 = bytes::le(boot, 11, 2);
        let spc: u64 = boot[13] as u64;
        if !((sector == 512 || sector == 1024 || sector == 2048 || sector == 4096) && (spc == 1
            || spc == 2 || spc == 4 || spc == 8 || spc == 16 || spc == 32 || spc == 64 || spc
            == 128)) {
            return Err(NtfsError::Geometry);
        }
        assert(512 <= sector * spc <= 524288) by (nonlinear_arith)
            requires
                512 <= sector <= 4096,
                1 <= spc <= 128,
        ;
        let cluster: u64 = sector * spc;
        let c: u8 = boot[64];
        let record: u64 = if c >= 128 {
            let shift: u64 = 256 - c as u64;
            if shift >= 64 {
                return Err(NtfsError::RecordShift);
            }
            two_to(shift)
        } else {
            assert(0 <= cluster * c <= 524288 * 127) by (nonlinear_arith)
                requires
                    0 <= cluster <= 524288,
                    0 <= c <= 127,
            ;
            cluster * c as u64
        };
        if !(512 <= record && record <= 65536 && record % sector == 0) {
            return Err(NtfsError::RecordSize(record));
        }
        let first: u64 = bytes::le(boot, 48, 8);
        match first.checked_mul(cluster) {
            None => Err(NtfsError::MftOffset),
            Some(mft_offset) => Ok(
                Geometry { sector: sector as usize, cluster, record: record as usize, mft_offset },
            ),
        }
    }
}

fn two_to(n: u64) -> (r: u64)
    requires
        n < 64,
    ensures
        r == power_of_two(n as nat),
        1 <= r <= 0x8000_0000_0000_0000,
{
    let mut r: u64 = 1;
    let mut i: u64 = 0;
    assert(power_of_two(63) == 0x8000_0000_0000_0000) by {
        reveal_with_fuel(power_of_two, 64);
    }
    while i < n
        invariant
            i <= n < 64,
            r == power_of_two(i as nat),
            1 <= r,
            r * power_of_two((63 - i) as nat) == 0x8000_0000_0000_0000,
        decreases n - i,
    {
        proof {
            let rest = power_of_two((62 - i) as nat);
            assert(power_of_two((63 - i) as nat) == 2 * rest);
            lemma_power_positive((62 - i) as nat);
            assert(r * (2 * rest) == (2 * r) * rest) by (nonlinear_arith);
            assert(2 * r <= 0x8000_0000_0000_0000) by (nonlinear_arith)
                requires
                    (2 * r) * rest == 0x8000_0000_0000_0000,
                    rest >= 1,
                    r >= 1,
            ;
        }
        r = 2 * r;
        i += 1;
    }
    proof {
        lemma_power_positive((63 - n) as nat);
        let rest = power_of_two((63 - n) as nat);
        assert(r <= 0x8000_0000_0000_0000) by (nonlinear_arith)
            requires
                r * rest == 0x8000_0000_0000_0000,
                rest >= 1,
                r >= 1,
        ;
    }
    r
}

proof fn lemma_power_positive(n: nat)
    ensures
        power_of_two(n) >= 1,
    decreases n,
{
    if n > 0 {
        lemma_power_positive((n - 1) as nat);
    }
}

/// A stretch of a stream: where it stands in the stream, how long it is, and where it lies
/// on the volume, if anywhere. All in clusters.
#[derive(Clone, Copy, Debug, PartialEq, Eq, Structural)]
pub struct Run {
    pub vcn: u64,
    pub clusters: u64,
    pub lcn: Option<u64>,
}

/// The runs from byte `pos` on, where `out` has been read, ending at cluster `vcn` of the
/// stream and at `lcn` of the volume; `last` is the last cluster of the stream.
pub open spec fn runs_from(
    attr: Seq<u8>,
    pos: int,
    vcn: int,
    lcn: int,
    last: int,
    out: Seq<Run>,
) -> Result<Seq<Run>, NtfsError>
    decreases attr.len() - pos,
{
    if !(0 <= pos < attr.len()) {
        Err(NtfsError::UnterminatedRuns)
    } else if attr[pos] == 0 {
        if last < u64::MAX && vcn == last + 1 || out.len() == 0 && last == 0 {
            Ok(out)
        } else {
            Err(NtfsError::IncompleteRuns)
        }
    } else {
        let n = attr[pos] as int % 16;
        let m = attr[pos] as int / 16;
        let clusters = bytes::le_of(attr, pos + 1, n as nat) as int;
        let there = lcn + bytes::signed_le_of(attr, pos + 1 + n, m as nat);
        if !(1 <= n <= 8 && m <= 8) {
            Err(NtfsError::RunWidths)
        } else if pos + 1 + n + m > attr.len() {
            Err(NtfsError::TruncatedRun)
        } else if clusters == 0 {
            Err(NtfsError::EmptyRun)
        } else if m > 0 && !(i64::MIN <= there <= i64::MAX) {
            Err(NtfsError::LcnOverflow)
        } else if m > 0 && there < 0 {
            Err(NtfsError::NegativeLcn)
        } else if vcn + clusters > u64::MAX || last + 1 > u64::MAX {
            Err(NtfsError::VcnOverflow)
        } else if vcn + clusters > last + 1 {
            Err(NtfsError::RunRange)
        } else {
            let run = Run {
                vcn: vcn as u64,
                clusters: clusters as u64,
                lcn: if m == 0 {
                    None
                } else {
                    Some(there as u64)
                },
            };
            runs_from(
                attr,
                pos + 1 + n + m,
                vcn + clusters,
                if m == 0 {
                    lcn
                } else {
                    there
                },
                last,
                out.push(run),
            )
        }
    }
}

/// The runs of an attribute whose value lies outside its record.
pub open spec fn runs_of(attr: Seq<u8>) -> Result<Seq<Run>, NtfsError> {
    let pos = bytes::le_of(attr, 32, 2) as int;
    if !(attr.len() >= 64 && attr[8] == 1) {
        Err(NtfsError::NotNonresident)
    } else if !(64 <= pos < attr.len()) {
        Err(NtfsError::RunOffset)
    } else {
        runs_from(
            attr,
            pos,
            bytes::le_of(attr, 16, 8) as int,
            0,
            bytes::le_of(attr, 24, 8) as int,
            Seq::empty(),
        )
    }
}

/// Each run begins where the one before ends, and none is empty.
pub open spec fn runs_chained(runs: Seq<Run>) -> bool {
    &&& forall|i: int|
        0 <= i < runs.len() ==> (#[trigger] runs[i]).clusters > 0 && runs[i].vcn + runs[i].clusters
            <= u64::MAX
    &&& forall|i: int|
        0 < i < runs.len() ==> (#[trigger] runs[i]).vcn == runs[i - 1].vcn + runs[i - 1].clusters
}

pub fn runs(attr: &[u8]) -> (r: Result<Vec<Run>, NtfsError>)
    ensures
        match (r, runs_of(attr@)) {
            (Ok(v), Ok(s)) => v@ == s && runs_chained(s),
            (Err(e), Err(f)) => e == f,
            _ => false,
        },
{
    let total: usize = attr.len();
    if !(total >= 64 && attr[8] == 1) {
        return Err(NtfsError::NotNonresident);
    }
    proof {
        bytes::lemma_spans();
        bytes::lemma_le_bound(attr@, 32, 2);
    }
    let start: u64 = bytes::le(attr, 32, 2);
    if !(64 <= start && start < total as u64) {
        return Err(NtfsError::RunOffset);
    }
    let mut pos: usize = start as usize;
    let mut vcn: u64 = bytes::le(attr, 16, 8);
    let last: u64 = bytes::le(attr, 24, 8);
    let mut lcn: i64 = 0;
    let mut out: Vec<Run> = Vec::new();
    let ghost want = runs_of(attr@);
    loop
        invariant
            total == attr@.len(),
            pos <= total,
            want == runs_of(attr@),
            want == runs_from(attr@, pos as int, vcn as int, lcn as int, last as int, out@),
            runs_chained(out@),
            out@.len() > 0 ==> vcn == out@.last().vcn + out@.last().clusters,
            lcn >= 0,
        decreases total - pos,
    {
        if pos >= total {
            return Err(NtfsError::UnterminatedRuns);
        }
        let h: u8 = attr[pos];
        if h == 0 {
            if (last < 0xffff_ffff_ffff_ffff && vcn == last + 1) || (out.len() == 0 && last == 0) {
                return Ok(out);
            }
            return Err(NtfsError::IncompleteRuns);
        }
        let n: usize = (h % 16) as usize;
        let m: usize = (h / 16) as usize;
        if !(1 <= n && n <= 8 && m <= 8) {
            return Err(NtfsError::RunWidths);
        }
        if n + m > total - pos - 1 {
            return Err(NtfsError::TruncatedRun);
        }
        let clusters: u64 = bytes::le(attr, pos + 1, n);
        if clusters == 0 {
            return Err(NtfsError::EmptyRun);
        }
        let mut there: Option<u64> = None;
        let mut lcn2: i64 = lcn;
        if m > 0 {
            let delta: i64 = bytes::signed_le(attr, pos + 1 + n, m);
            let sum: i128 = lcn as i128 + delta as i128;
            if sum > 0x7fff_ffff_ffff_ffff || sum < -0x8000_0000_0000_0000 {
                return Err(NtfsError::LcnOverflow);
            }
            if sum < 0 {
                return Err(NtfsError::NegativeLcn);
            }
            lcn2 = sum as i64;
            there = Some(lcn2 as u64);
        }
        let next: u64 = match vcn.checked_add(clusters) {
            Some(v) => v,
            None => {
                return Err(NtfsError::VcnOverflow);
            },
        };
        if last == 0xffff_ffff_ffff_ffff {
            return Err(NtfsError::VcnOverflow);
        }
        if next > last + 1 {
            return Err(NtfsError::RunRange);
        }
        let ghost had = out@;
        let run = Run { vcn, clusters, lcn: there };
        out.push(run);
        proof {
            assert forall|i: int| 0 < i < out@.len() implies (#[trigger] out@[i]).vcn == out@[i
                - 1].vcn + out@[i - 1].clusters by {
                if i < had.len() {
                    assert(out@[i] == had[i]);
                    assert(out@[i - 1] == had[i - 1]);
                } else {
                    assert(out@[i - 1] == had.last());
                }
            }
        }
        vcn = next;
        lcn = lcn2;
        pos = pos + 1 + n + m;
    }
}

pub open spec fn file_signature(b: Seq<u8>) -> bool {
    b.len() >= 4 && b[0] == 70 && b[1] == 73 && b[2] == 76 && b[3] == 69
}

/// Puts back what the update sequence displaced at the ends of the sectors `i` and up.
/// Each of them must end in the two bytes `mark`.
pub open spec fn restored_from(
    b: Seq<u8>,
    sector: int,
    offset: int,
    count: int,
    mark: (u8, u8),
    i: int,
) -> Result<Seq<u8>, NtfsError>
    decreases count - i,
{
    let tail = i * sector - 2;
    if i >= count {
        Ok(b)
    } else if !(b[tail] == mark.0 && b[tail + 1] == mark.1) {
        Err(NtfsError::TornRecord)
    } else {
        restored_from(
            b.update(tail, b[offset + 2 * i]).update(tail + 1, b[offset + 2 * i + 1]),
            sector,
            offset,
            count,
            mark,
            i + 1,
        )
    }
}

/// A file record as it was before its sectors were marked.
pub open spec fn restored(b: Seq<u8>, sector: int) -> Result<Seq<u8>, NtfsError> {
    let offset = bytes::le_of(b, 4, 2) as int;
    let count = bytes::le_of(b, 6, 2) as int;
    if !(b.len() >= 48 && file_signature(b)) {
        Err(NtfsError::RecordSignature)
    } else if !(count == b.len() as int / sector + 1 && offset >= 8 && offset + count * 2
        <= b.len()) {
        Err(NtfsError::UpdateSequence)
    } else {
        restored_from(b, sector, offset, count, (b[offset], b[offset + 1]), 1)
    }
}

/// Restores a file record in place.
pub fn fixup(record: &mut Vec<u8>, sector: usize) -> (r: Result<(), NtfsError>)
    requires
        sector >= 2,
    ensures
        final(record)@.len() == old(record)@.len(),
        match (r, restored(old(record)@, sector as int)) {
            (Ok(_), Ok(b)) => final(record)@ == b,
            (Err(e), Err(f)) => e == f,
            _ => false,
        },
{
    let total: usize = record.len();
    if !(total >= 48 && record[0] == 70 && record[1] == 73 && record[2] == 76 && record[3] == 69) {
        return Err(NtfsError::RecordSignature);
    }
    proof {
        bytes::lemma_spans();
        bytes::lemma_le_bound(record@, 4, 2);
        bytes::lemma_le_bound(record@, 6, 2);
    }
    let offset: usize = bytes::le(record, 4, 2) as usize;
    let count: usize = bytes::le(record, 6, 2) as usize;
    assert(total as int / sector as int <= total as int / 2) by (nonlinear_arith)
        requires
            sector >= 2,
    ;
    if !(count == total / sector + 1 && offset >= 8 && offset + count * 2 <= total) {
        return Err(NtfsError::UpdateSequence);
    }
    let mark: (u8, u8) = (record[offset], record[offset + 1]);
    let ghost want = restored(record@, sector as int);
    let mut i: usize = 1;
    while i < count
        invariant
            1 <= i <= count,
            sector >= 2,
            count == total / sector + 1,
            offset + count * 2 <= total,
            record@.len() == total,
            total == old(record)@.len(),
            want == restored(old(record)@, sector as int),
            want == restored_from(
                record@,
                sector as int,
                offset as int,
                count as int,
                mark,
                i as int,
            ),
        decreases count - i,
    {
        proof {
            let t = total as int;
            let s = sector as int;
            let k = i as int;
            assert(k <= t / s);
            assert(2 <= k * s && k * s <= t) by (nonlinear_arith)
                requires
                    1 <= k <= t / s,
                    s >= 2,
                    t >= 0,
            ;
        }
        let tail: usize = i * sector - 2;
        if !(record[tail] == mark.0 && record[tail + 1] == mark.1) {
            return Err(NtfsError::TornRecord);
        }
        let a: u8 = record[offset + 2 * i];
        let b: u8 = record[offset + 2 * i + 1];
        record.set(tail, a);
        record.set(tail + 1, b);
        i += 1;
    }
    Ok(())
}

/// Where the attributes of a record lie from `p` on.
pub open spec fn attributes_from(b: Seq<u8>, p: int, used: int, out: Seq<(usize, usize)>) -> Result<
    Seq<(usize, usize)>,
    NtfsError,
>
    decreases used - p,
{
    let len = bytes::le_of(b, p + 4, 4) as int;
    if p + 4 > used {
        Err(NtfsError::NoTerminator)
    } else if bytes::le_of(b, p, 4) == 0xffff_ffff {
        Ok(out)
    } else if p + 8 > b.len() {
        Err(NtfsError::TruncatedU32)
    } else if !(len >= 24 && len % 8 == 0 && p + len <= used) {
        Err(NtfsError::AttributeLength)
    } else {
        attributes_from(b, p + len, used, out.push((p as usize, len as usize)))
    }
}

pub open spec fn attributes_of(b: Seq<u8>) -> Result<Seq<(usize, usize)>, NtfsError> {
    let used = bytes::le_of(b, 24, 4) as int;
    let p = bytes::le_of(b, 20, 2) as int;
    if b.len() < 28 {
        Err(NtfsError::TruncatedU32)
    } else if !(used <= b.len() && used >= 48) {
        Err(NtfsError::UsedLength)
    } else if !(p >= 42 && p < used) {
        Err(NtfsError::FirstAttribute)
    } else {
        attributes_from(b, p, used, Seq::empty())
    }
}

/// The places lie inside so many bytes, and each holds an attribute's header.
pub open spec fn inside(v: Seq<(usize, usize)>, n: nat) -> bool {
    forall|i: int|
        0 <= i < v.len() ==> (#[trigger] v[i]).0 + v[i].1 <= n && v[i].1 >= 24
}

/// Where the attributes of a record lie: offsets and lengths.
pub fn attributes(record: &[u8]) -> (r: Result<Vec<(usize, usize)>, NtfsError>)
    ensures
        match (r, attributes_of(record@)) {
            (Ok(v), Ok(s)) => v@ == s && inside(s, record@.len()),
            (Err(e), Err(f)) => e == f,
            _ => false,
        },
{
    let total: usize = record.len();
    if total < 28 {
        return Err(NtfsError::TruncatedU32);
    }
    proof {
        bytes::lemma_spans();
        bytes::lemma_le_bound(record@, 24, 4);
        bytes::lemma_le_bound(record@, 20, 2);
    }
    let limit: u64 = bytes::le(record, 24, 4);
    if !(limit <= total as u64 && limit >= 48) {
        return Err(NtfsError::UsedLength);
    }
    let used: usize = limit as usize;
    let mut p: usize = bytes::le(record, 20, 2) as usize;
    if !(p >= 42 && p < used) {
        return Err(NtfsError::FirstAttribute);
    }
    let mut out: Vec<(usize, usize)> = Vec::new();
    let ghost want = attributes_of(record@);
    while used - p >= 4
        invariant
            total == record@.len(),
            p <= used <= total,
            want == attributes_of(record@),
            want == attributes_from(record@, p as int, used as int, out@),
            inside(out@, total as nat),
        decreases used - p,
    {
        proof {
            bytes::lemma_spans();
            bytes::lemma_le_bound(record@, p as int, 4);
            bytes::lemma_le_bound(record@, p + 4, 4);
        }
        if bytes::le(record, p, 4) == 0xffff_ffff {
            return Ok(out);
        }
        if total - p < 8 {
            return Err(NtfsError::TruncatedU32);
        }
        let len: u64 = bytes::le(record, p + 4, 4);
        if !(len >= 24 && len % 8 == 0 && len <= (used - p) as u64) {
            return Err(NtfsError::AttributeLength);
        }
        out.push((p, len as usize));
        p = p + len as usize;
    }
    Err(NtfsError::NoTerminator)
}

/// The value of an attribute that lies in its record.
pub open spec fn resident_of(attr: Seq<u8>) -> Result<Seq<u8>, NtfsError> {
    let start = bytes::le_of(attr, 20, 2) as int;
    let len = bytes::le_of(attr, 16, 4) as int;
    if !(attr.len() >= 24 && attr[8] == 0) {
        Err(NtfsError::NotResident)
    } else if start < 24 {
        Err(NtfsError::ResidentOffset)
    } else if start + len > attr.len() {
        Err(NtfsError::ResidentValue)
    } else {
        Ok(attr.subrange(start, start + len))
    }
}

pub fn resident(attr: &[u8]) -> (r: Result<&[u8], NtfsError>)
    ensures
        match (r, resident_of(attr@)) {
            (Ok(v), Ok(s)) => v@ == s,
            (Err(e), Err(f)) => e == f,
            _ => false,
        },
{
    let total: usize = attr.len();
    if !(total >= 24 && attr[8] == 0) {
        return Err(NtfsError::NotResident);
    }
    proof {
        bytes::lemma_spans();
        bytes::lemma_le_bound(attr@, 20, 2);
        bytes::lemma_le_bound(attr@, 16, 4);
    }
    let start: usize = bytes::le(attr, 20, 2) as usize;
    let len: u64 = bytes::le(attr, 16, 4);
    if start < 24 {
        return Err(NtfsError::ResidentOffset);
    }
    if start > total || len > (total - start) as u64 {
        return Err(NtfsError::ResidentValue);
    }
    let end: usize = start + len as usize;
    Ok(&attr[start..end])
}

proof fn lemma_restored_from(
    b: Seq<u8>,
    sector: int,
    offset: int,
    count: int,
    mark: (u8, u8),
    i: int,
)
    requires
        sector >= 2,
        1 <= i,
        count >= 1,
        (count - 1) * sector <= b.len(),
        restored_from(b, sector, offset, count, mark, i) is Ok,
    ensures
        ({
            let c = restored_from(b, sector, offset, count, mark, i)->Ok_0;
            &&& c.len() == b.len()
            &&& forall|k: int| 0 <= k < i * sector - 2 ==> #[trigger] c[k] == b[k]
        }),
    decreases count - i,
{
    if i < count {
        let tail = i * sector - 2;
        assert(0 <= tail && tail + 2 <= b.len() && tail < (i + 1) * sector - 2) by (nonlinear_arith)
            requires
                tail == i * sector - 2,
                sector >= 2,
                1 <= i <= count - 1,
                (count - 1) * sector <= b.len(),
        ;
        let next = b.update(tail, b[offset + 2 * i]).update(tail + 1, b[offset + 2 * i + 1]);
        lemma_restored_from(next, sector, offset, count, mark, i + 1);
    }
}

proof fn lemma_restored_tails(
    b: Seq<u8>,
    sector: int,
    offset: int,
    count: int,
    mark: (u8, u8),
    i: int,
    s: int,
)
    requires
        sector >= 2,
        1 <= i <= s < count,
        0 <= offset,
        offset + 2 * count <= sector - 2,
        (count - 1) * sector <= b.len(),
        restored_from(b, sector, offset, count, mark, i) is Ok,
    ensures
        ({
            let c = restored_from(b, sector, offset, count, mark, i)->Ok_0;
            &&& b[s * sector - 2] == mark.0 && b[s * sector - 1] == mark.1
            &&& c[s * sector - 2] == b[offset + 2 * s]
            &&& c[s * sector - 1] == b[offset + 2 * s + 1]
        }),
    decreases count - i,
{
    let tail = i * sector - 2;
    assert(sector - 2 <= tail && tail + 2 <= b.len()) by (nonlinear_arith)
        requires
            tail == i * sector - 2,
            sector >= 2,
            1 <= i <= count - 1,
            (count - 1) * sector <= b.len(),
    ;
    let next = b.update(tail, b[offset + 2 * i]).update(tail + 1, b[offset + 2 * i + 1]);
    if i == s {
        assert(tail + 1 < (i + 1) * sector - 2 || sector == 2) by (nonlinear_arith)
            requires
                tail == i * sector - 2,
                sector >= 2,
        ;
        assert(sector >= 4);
        assert((i + 1) * sector == i * sector + sector) by (nonlinear_arith);
        lemma_restored_from(next, sector, offset, count, mark, i + 1);
    } else {
        assert(tail + 2 <= s * sector - 2 && s * sector <= b.len()) by (nonlinear_arith)
            requires
                tail == i * sector - 2,
                sector >= 4,
                i < s <= count - 1,
                (count - 1) * sector <= b.len(),
        ;
        lemma_restored_tails(next, sector, offset, count, mark, i + 1, s);
    }
}

proof fn lemma_restored_inner(
    b: Seq<u8>,
    sector: int,
    offset: int,
    count: int,
    mark: (u8, u8),
    i: int,
    k: int,
)
    requires
        sector >= 2,
        1 <= i,
        count >= 1,
        (count - 1) * sector <= b.len(),
        0 <= k < b.len(),
        k % sector < sector - 2,
        restored_from(b, sector, offset, count, mark, i) is Ok,
    ensures
        restored_from(b, sector, offset, count, mark, i)->Ok_0[k] == b[k],
    decreases count - i,
{
    if i < count {
        let tail = i * sector - 2;
        assert(0 <= tail && tail + 2 <= b.len()) by (nonlinear_arith)
            requires
                tail == i * sector - 2,
                sector >= 2,
                1 <= i <= count - 1,
                (count - 1) * sector <= b.len(),
        ;
        assert(k != tail && k != tail + 1) by {
            if k == tail || k == tail + 1 {
                let d = k - (i - 1) * sector;
                assert((i - 1) * sector == i * sector - sector) by (nonlinear_arith);
                assert(k == d + (i - 1) * sector);
                vstd::arithmetic::div_mod::lemma_mod_multiples_vanish(i - 1, d, sector);
                assert(sector * (i - 1) + d == k) by (nonlinear_arith)
                    requires
                        k == d + (i - 1) * sector,
                ;
                vstd::arithmetic::div_mod::lemma_small_mod(d as nat, sector as nat);
            }
        }
        let next = b.update(tail, b[offset + 2 * i]).update(tail + 1, b[offset + 2 * i + 1]);
        lemma_restored_inner(next, sector, offset, count, mark, i + 1, k);
    }
}

/// A restored record differs from the stored one in the last two bytes of its sectors at
/// most, and every sector ended in the mark that stands at the head of the update sequence.
/// Where the sequence lies in the first sector, these bytes come from it.
pub proof fn law_restoring_puts_back_the_sector_ends(b: Seq<u8>, sector: int, s: int)
    requires
        sector >= 2,
        restored(b, sector) is Ok,
        1 <= s <= b.len() as int / sector,
    ensures
        ({
            let c = restored(b, sector)->Ok_0;
            let at = b[4] + 0x100 * b[5];
            &&& c.len() == b.len()
            &&& forall|k: int|
                0 <= k < b.len() && k % sector < sector - 2 ==> #[trigger] c[k] == b[k]
            &&& at + 2 * (b.len() as int / sector + 1) <= sector - 2 ==> {
                &&& b[s * sector - 2] == b[at] && b[s * sector - 1] == b[at + 1]
                &&& c[s * sector - 2] == b[at + 2 * s] && c[s * sector - 1] == b[at + 2 * s + 1]
            }
        }),
{
    bytes::law_low_bytes_come_first(b, 4);
    bytes::law_low_bytes_come_first(b, 6);
    let offset = bytes::le_of(b, 4, 2) as int;
    let count = bytes::le_of(b, 6, 2) as int;
    let mark = (b[offset], b[offset + 1]);
    let c = restored(b, sector)->Ok_0;
    vstd::arithmetic::div_mod::lemma_fundamental_div_mod(b.len() as int, sector);
    assert((count - 1) * sector <= b.len()) by (nonlinear_arith)
        requires
            count - 1 == b.len() as int / sector,
            b.len() as int == sector * (b.len() as int / sector) + b.len() as int % sector,
            0 <= b.len() as int % sector,
    ;
    lemma_restored_from(b, sector, offset, count, mark, 1);
    assert forall|k: int| 0 <= k < b.len() && k % sector < sector - 2 implies #[trigger] c[k]
        == b[k] by {
        lemma_restored_inner(b, sector, offset, count, mark, 1, k);
    }
    if offset + 2 * count <= sector - 2 {
        lemma_restored_tails(b, sector, offset, count, mark, 1, s);
    }
}

/// The head of a record, up to the end of its first sector, is as it is stored.
pub proof fn law_restoring_keeps_the_head(b: Seq<u8>, sector: int, k: int)
    requires
        sector >= 2,
        restored(b, sector) is Ok,
        0 <= k < sector - 2,
        k < b.len(),
    ensures
        restored(b, sector)->Ok_0.len() == b.len(),
        restored(b, sector)->Ok_0[k] == b[k],
{
    let offset = bytes::le_of(b, 4, 2) as int;
    let count = bytes::le_of(b, 6, 2) as int;
    vstd::arithmetic::div_mod::lemma_fundamental_div_mod(b.len() as int, sector);
    assert((count - 1) * sector <= b.len()) by (nonlinear_arith)
        requires
            count - 1 == b.len() as int / sector,
            b.len() as int == sector * (b.len() as int / sector) + b.len() as int % sector,
            0 <= b.len() as int % sector,
    ;
    lemma_restored_from(b, sector, offset, count, (b[offset], b[offset + 1]), 1);
}

/// The attributes of a record follow each other without a gap: the first stands where the
/// head says, each is as long as it says itself and ends where the next begins, and behind
/// the last stands the end mark.
pub proof fn law_attributes_follow_each_other(b: Seq<u8>, i: int)
    requires
        attributes_of(b) is Ok,
        0 <= i < attributes_of(b)->Ok_0.len(),
    ensures
        ({
            let v = attributes_of(b)->Ok_0;
            let end = v[i].0 + v[i].1;
            &&& v[0].0 == b[20] + 0x100 * b[21]
            &&& v[i].1 == b[v[i].0 + 4] + 0x100 * b[v[i].0 + 5] + 0x1_0000 * b[v[i].0 + 6]
                + 0x100_0000 * b[v[i].0 + 7]
            &&& i + 1 < v.len() ==> v[i + 1].0 == end
            &&& i + 1 == v.len() ==> b[end] == 0xff && b[end + 1] == 0xff && b[end + 2] == 0xff
                && b[end + 3] == 0xff
            &&& end + 4 <= b.len()
        }),
{
    let used = bytes::le_of(b, 24, 4) as int;
    let p = bytes::le_of(b, 20, 2) as int;
    bytes::lemma_spans();
    bytes::lemma_le_bound(b, 20, 2);
    bytes::lemma_le_bound(b, 24, 4);
    bytes::law_low_bytes_come_first(b, 20);
    lemma_attributes_chain(b, p, used, Seq::empty());
    let v = attributes_of(b)->Ok_0;
    bytes::law_low_bytes_come_first(b, v[i].0 + 4);
    assert(followed(b, used, v, i));
}

spec fn followed(b: Seq<u8>, used: int, v: Seq<(usize, usize)>, i: int) -> bool {
    let end = v[i].0 + v[i].1;
    &&& v[i].1 == bytes::le_of(b, v[i].0 + 4, 4)
    &&& i + 1 < v.len() ==> v[i + 1].0 == end
    &&& i + 1 == v.len() ==> b[end] == 0xff && b[end + 1] == 0xff && b[end + 2] == 0xff && b[end
        + 3] == 0xff
    &&& end + 4 <= used
}

proof fn lemma_attributes_chain(b: Seq<u8>, p: int, used: int, out: Seq<(usize, usize)>)
    requires
        0 <= p <= used <= b.len(),
        used <= u32::MAX,
        attributes_from(b, p, used, out) is Ok,
        out.len() > 0 ==> out.last().0 + out.last().1 == p,
        forall|i: int| 0 <= i < out.len() - 1 ==> #[trigger] followed(b, used, out, i),
        out.len() > 0 ==> out.last().1 == bytes::le_of(b, out.last().0 + 4, 4),
    ensures
        ({
            let v = attributes_from(b, p, used, out)->Ok_0;
            &&& v.len() >= out.len()
            &&& out.len() > 0 ==> v[0] == out[0]
            &&& out.len() == 0 && v.len() > 0 ==> v[0].0 == p
            &&& forall|i: int| 0 <= i < v.len() ==> #[trigger] followed(b, used, v, i)
        }),
    decreases used - p,
{
    let len = bytes::le_of(b, p + 4, 4) as int;
    bytes::lemma_spans();
    bytes::lemma_le_bound(b, p + 4, 4);
    if bytes::le_of(b, p, 4) == 0xffff_ffff {
        bytes::law_low_bytes_come_first(b, p);
        if out.len() > 0 {
            assert(followed(b, used, out, out.len() - 1));
        }
        assert forall|i: int| 0 <= i < out.len() implies #[trigger] followed(b, used, out, i) by {}
    } else {
        let more = out.push((p as usize, len as usize));
        assert forall|i: int| 0 <= i < more.len() - 1 implies #[trigger] followed(
            b,
            used,
            more,
            i,
        ) by {
            if i < out.len() - 1 {
                assert(followed(b, used, out, i));
                assert(more[i] == out[i] && more[i + 1] == out[i + 1]);
            } else {
                assert(more[i] == out.last());
            }
        }
        lemma_attributes_chain(b, p + len, used, more);
    }
}

/// The value of an attribute that lies in its record is the bytes that its head names.
pub proof fn law_resident_values_are_where_the_head_says(a: Seq<u8>)
    requires
        resident_of(a) is Ok,
    ensures
        ({
            let v = resident_of(a)->Ok_0;
            let at = a[20] + 0x100 * a[21];
            &&& a[8] == 0
            &&& v.len() == a[16] + 0x100 * a[17] + 0x1_0000 * a[18] + 0x100_0000 * a[19]
            &&& at >= 24
            &&& at + v.len() <= a.len()
            &&& forall|k: int| 0 <= k < v.len() ==> #[trigger] v[k] == a[at + k]
        }),
{
    bytes::law_low_bytes_come_first(a, 20);
    bytes::law_low_bytes_come_first(a, 16);
}

/// The layout of a volume stands in its boot sector: the bytes of a sector, the sectors of a
/// cluster, where the file table begins, and how long its records are.
pub proof fn law_layouts_stand_in_the_boot_sector(boot: Seq<u8>)
    requires
        geometry_of(boot) is Ok,
    ensures
        ({
            let g = geometry_of(boot)->Ok_0;
            let first = bytes::le_of(boot, 48, 8);
            &&& boot[3] == 0x4e && boot[4] == 0x54 && boot[5] == 0x46 && boot[6] == 0x53
            &&& g.sector == boot[11] + 0x100 * boot[12]
            &&& g.cluster == g.sector * boot[13]
            &&& g.mft_offset == first * g.cluster
            &&& boot[64] < 128 ==> g.record == g.cluster * boot[64]
            &&& boot[64] == 0xf6 ==> g.record == 1024
            &&& boot[64] == 0xf4 ==> g.record == 4096
            &&& 512 <= g.record <= 65536
            &&& g.record % g.sector == 0
        }),
{
    bytes::law_low_bytes_come_first(boot, 11);
    let name = boot.subrange(3, 11);
    assert(name[0] == boot[3] && name[1] == boot[4] && name[2] == boot[5] && name[3] == boot[6]);
    assert(power_of_two(10) == 1024 && power_of_two(12) == 4096) by {
        reveal_with_fuel(power_of_two, 13);
    }
    let sector = bytes::le_of(boot, 11, 2) as int;
    let spc = boot[13] as int;
    assert(512 <= sector * spc <= 524288) by (nonlinear_arith)
        requires
            512 <= sector <= 4096,
            1 <= spc <= 128,
    ;
    assert(0 <= bytes::le_of(boot, 48, 8) * (sector * spc)) by (nonlinear_arith)
        requires
            sector * spc >= 512,
            bytes::le_of(boot, 48, 8) >= 0,
    ;
}

proof fn lemma_runs_end(attr: Seq<u8>, pos: int, vcn: int, lcn: int, last: int, out: Seq<Run>)
    requires
        0 <= vcn <= u64::MAX,
        0 <= lcn <= i64::MAX,
        0 <= last <= u64::MAX,
        runs_from(attr, pos, vcn, lcn, last, out) is Ok,
    ensures
        ({
            let v = runs_from(attr, pos, vcn, lcn, last, out)->Ok_0;
            &&& v.len() >= out.len()
            &&& forall|i: int| 0 <= i < out.len() ==> #[trigger] v[i] == out[i]
            &&& v.len() == out.len() ==> attr[pos] == 0 && (vcn == last + 1 || out.len() == 0
                && last == 0)
            &&& v.len() > out.len() ==> v[out.len() as int].vcn == vcn && v.last().vcn
                + v.last().clusters == last + 1
            &&& forall|i: int|
                out.len() < i < v.len() ==> (#[trigger] v[i]).vcn == v[i - 1].vcn + v[i
                    - 1].clusters
        }),
    decreases attr.len() - pos,
{
    if attr[pos] != 0 {
        let n = attr[pos] as int % 16;
        let m = attr[pos] as int / 16;
        let clusters = bytes::le_of(attr, pos + 1, n as nat) as int;
        let there = lcn + bytes::signed_le_of(attr, pos + 1 + n, m as nat);
        let run = Run {
            vcn: vcn as u64,
            clusters: clusters as u64,
            lcn: if m == 0 {
                None
            } else {
                Some(there as u64)
            },
        };
        let more = out.push(run);
        let next = if m == 0 {
            lcn
        } else {
            there
        };
        lemma_runs_end(attr, pos + 1 + n + m, vcn + clusters, next, last, more);
        let v = runs_from(attr, pos, vcn, lcn, last, out)->Ok_0;
        assert(v[out.len() as int] == more[out.len() as int]);
        assert forall|i: int| 0 <= i < out.len() implies #[trigger] v[i] == out[i] by {
            assert(v[i] == more[i]);
        }
        assert forall|i: int| out.len() < i < v.len() implies (#[trigger] v[i]).vcn == v[i - 1].vcn
            + v[i - 1].clusters by {
            if i == out.len() + 1 {
                assert(v[i - 1] == run);
            }
        }
    }
}

/// The runs of a stream cover it from its first cluster to its last, one after the other.
pub proof fn law_runs_cover_the_stream(attr: Seq<u8>)
    requires
        runs_of(attr) is Ok,
    ensures
        ({
            let v = runs_of(attr)->Ok_0;
            let first = bytes::le_of(attr, 16, 8);
            let last = bytes::le_of(attr, 24, 8);
            &&& v.len() > 0 ==> v[0].vcn == first && v.last().vcn + v.last().clusters == last + 1
            &&& v.len() == 0 ==> first == last + 1 || last == 0
            &&& forall|i: int|
                0 < i < v.len() ==> (#[trigger] v[i]).vcn == v[i - 1].vcn + v[i - 1].clusters
        }),
{
    bytes::lemma_spans();
    bytes::lemma_le_bound(attr, 16, 8);
    bytes::lemma_le_bound(attr, 24, 8);
    lemma_runs_end(
        attr,
        bytes::le_of(attr, 32, 2) as int,
        bytes::le_of(attr, 16, 8) as int,
        0,
        bytes::le_of(attr, 24, 8) as int,
        Seq::empty(),
    );
}

/// A run is stored as a byte that gives two widths, the number of its clusters, and how far
/// it lies from the run before; a run without the latter lies nowhere.
pub proof fn law_runs_are_stored_as_distances(
    attr: Seq<u8>,
    pos: int,
    vcn: int,
    lcn: int,
    last: int,
    out: Seq<Run>,
)
    requires
        0 <= pos < attr.len(),
        attr[pos] != 0,
        0 <= vcn <= u64::MAX,
        0 <= lcn <= i64::MAX,
        0 <= last <= u64::MAX,
        runs_from(attr, pos, vcn, lcn, last, out) is Ok,
    ensures
        ({
            let v = runs_from(attr, pos, vcn, lcn, last, out)->Ok_0;
            let r = v[out.len() as int];
            let low = (attr[pos] as int) % 16;
            let high = (attr[pos] as int) / 16;
            let moved = bytes::signed_le_of(attr, pos + 1 + low, high as nat);
            &&& v.len() > out.len()
            &&& r.vcn == vcn
            &&& r.clusters == bytes::le_of(attr, pos + 1, low as nat)
            &&& r.lcn is None <==> high == 0
            &&& r.lcn is Some ==> r.lcn->0 == lcn + moved
            &&& attr[pos] == 0x11 ==> r.clusters == attr[pos + 1] && r.lcn == Some(
                (lcn + (if attr[pos + 2] < 128 {
                    attr[pos + 2] as int
                } else {
                    attr[pos + 2] - 0x100
                })) as u64,
            )
        }),
{
    let n = attr[pos] as int % 16;
    let m = attr[pos] as int / 16;
    let clusters = bytes::le_of(attr, pos + 1, n as nat) as int;
    let there = lcn + bytes::signed_le_of(attr, pos + 1 + n, m as nat);
    bytes::lemma_spans();
    bytes::lemma_le_bound(attr, pos + 1, n as nat);
    let run = Run {
        vcn: vcn as u64,
        clusters: clusters as u64,
        lcn: if m == 0 {
            None
        } else {
            Some(there as u64)
        },
    };
    let next = if m == 0 {
        lcn
    } else {
        there
    };
    lemma_runs_end(attr, pos + 1 + n + m, vcn + clusters, next, last, out.push(run));
    let v = runs_from(attr, pos, vcn, lcn, last, out)->Ok_0;
    assert(v[out.len() as int] == out.push(run)[out.len() as int]);
    bytes::law_low_bytes_come_first(attr, pos + 1);
    bytes::law_low_bytes_come_first(attr, pos + 2);
}

/// A boot sector with a usual layout is accepted.
pub proof fn law_usual_layouts_are_accepted(boot: Seq<u8>)
    requires
        boot.len() >= 512,
        boot.subrange(3, 11) == seq![0x4eu8, 0x54, 0x46, 0x53, 0x20, 0x20, 0x20, 0x20],
        boot[11] == 0,
        boot[12] == 2 || boot[12] == 4 || boot[12] == 8 || boot[12] == 16,
        boot[13] == 1 || boot[13] == 2 || boot[13] == 4 || boot[13] == 8 || boot[13] == 16
            || boot[13] == 32 || boot[13] == 64 || boot[13] == 128,
        boot[64] == 0xf6 && boot[12] <= 4 || boot[64] == 0xf4,
        bytes::le_of(boot, 48, 8) < 0x1000_0000_0000,
    ensures
        geometry_of(boot) is Ok,
{
    bytes::law_low_bytes_come_first(boot, 11);
    assert(power_of_two(10) == 1024 && power_of_two(12) == 4096) by {
        reveal_with_fuel(power_of_two, 13);
    }
    let sector = bytes::le_of(boot, 11, 2) as int;
    let spc = boot[13] as int;
    let first = bytes::le_of(boot, 48, 8) as int;
    assert(512 <= sector * spc <= 524288) by (nonlinear_arith)
        requires
            512 <= sector <= 4096,
            1 <= spc <= 128,
    ;
    let cluster = sector * spc;
    assert(first * cluster <= 0x1000_0000_0000 * 524288) by (nonlinear_arith)
        requires
            0 <= first < 0x1000_0000_0000,
            0 <= cluster <= 524288,
    ;
}

proof fn lemma_restored_if_marked(
    b: Seq<u8>,
    sector: int,
    offset: int,
    count: int,
    mark: (u8, u8),
    i: int,
)
    requires
        2 <= sector,
        1 <= i,
    ensures
        restored_from(b, sector, offset, count, mark, i) is Ok || restored_from(
            b,
            sector,
            offset,
            count,
            mark,
            i,
        ) == Err::<Seq<u8>, NtfsError>(NtfsError::TornRecord),
        (count - 1) * sector <= b.len() && (forall|k: int|
            i <= k < count ==> b[#[trigger] (k * sector) - 2] == mark.0 && b[k * sector - 1]
                == mark.1) ==> restored_from(b, sector, offset, count, mark, i) is Ok,
    decreases count - i,
{
    let tail = i * sector - 2;
    if i < count {
        let next = b.update(tail, b[offset + 2 * i]).update(tail + 1, b[offset + 2 * i + 1]);
        lemma_restored_if_marked(next, sector, offset, count, mark, i + 1);
        if (count - 1) * sector <= b.len() && (forall|k: int|
            i <= k < count ==> b[#[trigger] (k * sector) - 2] == mark.0 && b[k * sector - 1]
                == mark.1) {
            assert(b[(i * sector) - 2] == mark.0 && b[i * sector - 1] == mark.1);
            assert(sector <= i * sector <= (count - 1) * sector) by (nonlinear_arith)
                requires
                    1 <= i <= count - 1,
                    2 <= sector,
            ;
            assert forall|k: int| i + 1 <= k < count implies next[#[trigger] (k * sector) - 2]
                == mark.0 && next[k * sector - 1] == mark.1 by {
                assert(k * sector >= i * sector + sector && k * sector <= (count - 1) * sector)
                    by (nonlinear_arith)
                    requires
                        i + 1 <= k <= count - 1,
                        2 <= sector,
                ;
                assert(i * sector >= sector) by (nonlinear_arith)
                    requires
                        1 <= i,
                        2 <= sector,
                ;
                assert(b[(k * sector) - 2] == mark.0 && b[k * sector - 1] == mark.1);
            }
            assert(restored_from(b, sector, offset, count, mark, i) == restored_from(
                next,
                sector,
                offset,
                count,
                mark,
                i + 1,
            ));
        }
    }
}

/// A record is restored exactly if it is a file's, its update sequence has an entry for each
/// sector and lies within it, and every sector ends in the mark.
pub proof fn law_marked_records_are_restored(b: Seq<u8>, sector: int)
    requires
        2 <= sector,
    ensures
        ({
            let offset = b[4] + 0x100 * b[5];
            let count = b[6] + 0x100 * b[7];
            let file = b.len() >= 48 && b[0] == 'F' as u8 && b[1] == 'I' as u8 && b[2] == 'L' as u8
                && b[3] == 'E' as u8;
            let room = count == b.len() as int / sector + 1 && offset >= 8 && offset + 2 * count
                <= b.len();
            let r = restored(b, sector);
            &&& r == Err::<Seq<u8>, NtfsError>(NtfsError::RecordSignature) <==> !file
            &&& r == Err::<Seq<u8>, NtfsError>(NtfsError::UpdateSequence) <==> file && !room
            &&& file && room && (forall|k: int|
                1 <= k < count ==> b[#[trigger] (k * sector) - 2] == b[offset] && b[k * sector - 1]
                    == b[offset + 1]) ==> r is Ok
        }),
{
    bytes::law_low_bytes_come_first(b, 4);
    bytes::law_low_bytes_come_first(b, 6);
    let offset = b[4] + 0x100 * b[5];
    let count = b[6] + 0x100 * b[7];
    lemma_restored_if_marked(b, sector, offset, count, (b[offset], b[offset + 1]), 1);
    if count == b.len() as int / sector + 1 {
        let n = b.len() as int;
        assert(n / sector * sector <= n) by (nonlinear_arith)
            requires
                0 <= n,
                2 <= sector,
        ;
    }
}

/// The value of an attribute is taken exactly if it is resident and lies behind the head and
/// within the attribute.
pub proof fn law_values_are_refused_for_cause(a: Seq<u8>)
    ensures
        ({
            let start = a[20] + 0x100 * a[21];
            let len = a[16] + 0x100 * a[17] + 0x1_0000 * a[18] + 0x100_0000 * a[19];
            let resident = a.len() >= 24 && a[8] == 0;
            let r = resident_of(a);
            &&& r is Ok <==> resident && start >= 24 && start + len <= a.len()
            &&& r == Err::<Seq<u8>, NtfsError>(NtfsError::NotResident) <==> !resident
            &&& r == Err::<Seq<u8>, NtfsError>(NtfsError::ResidentOffset) <==> resident && start
                < 24
        }),
{
    bytes::law_low_bytes_come_first(a, 20);
    bytes::law_low_bytes_come_first(a, 16);
}

/// The attributes of a record end at the terminator; one that is cut off, too short, not
/// aligned or too long is refused.
pub proof fn law_attributes_end_at_the_terminator(
    b: Seq<u8>,
    p: int,
    used: int,
    out: Seq<(usize, usize)>,
)
    requires
        0 <= p,
        used <= b.len(),
    ensures
        ({
            let ended = b[p] == 255 && b[p + 1] == 255 && b[p + 2] == 255 && b[p + 3] == 255;
            let len = b[p + 4] + 0x100 * b[p + 5] + 0x1_0000 * b[p + 6] + 0x100_0000 * b[p + 7];
            let r = attributes_from(b, p, used, out);
            &&& p + 4 > used ==> r == Err::<Seq<(usize, usize)>, NtfsError>(
                NtfsError::NoTerminator,
            )
            &&& p + 4 <= used && ended ==> r == Ok::<Seq<(usize, usize)>, NtfsError>(out)
            &&& p + 8 <= used && !ended && (len < 24 || len % 8 != 0 || p + len > used) ==> r
                == Err::<Seq<(usize, usize)>, NtfsError>(NtfsError::AttributeLength)
            &&& p + 4 <= used && !ended && p + 8 > b.len() ==> r == Err::<
                Seq<(usize, usize)>,
                NtfsError,
            >(NtfsError::TruncatedU32)
            &&& p + 8 <= used && !ended && len >= 24 && len % 8 == 0 && p + len <= used ==> r
                == attributes_from(b, p + len, used, out.push((p as usize, len as usize)))
        }),
{
    bytes::law_low_bytes_come_first(b, p);
    bytes::law_low_bytes_come_first(b, p + 4);
}

} // verus!
