//! ReFS metadata: block references, B+tree nodes, checksums and the way from the boot sector
//! to the tables.
use crate::bytes;
use crate::crc64;
use crate::keyed::Page;
use crate::text;
use vstd::prelude::*;
use vstd::string::*;

verus! {

/// Why ReFS metadata is refused.
#[derive(Clone, Copy, Debug, PartialEq, Eq, Structural)]
pub enum RefsError {
    TruncatedU16,
    TruncatedU32,
    TruncatedU64,
    TruncatedId,
    ShortReference,
    EmptyReference,
    ChecksumDescriptor,
    NodeHeader,
    SlotArray,
    RowLength,
    RowOverlap,
    KeyOutside,
    ValueOutside,
    SelfDescriptor,
    AnchorCrc32c,
    AnchorCrc64,
    PhysicalLcn,
    SlotGap,
    PageLength,
    PhysicalOffset,
    PageSignature(u64, u64, u64, u64),
    PageIdentity,
    PageCrc32c,
    PageCrc64(u64, u64, u64, u64),
    TooDeep,
    RepeatedPage,
    ExcessiveTree,
    BootSector,
    Superblock,
    CheckpointTable,
    CheckpointOffset,
    NoCheckpoint,
    RootArray,
    RootOutside,
    ContainerRow,
    ContainerSize,
    ContainerMix,
    ContainerTwice,
    NoContainers,
    ObjectRow,
    ObjectTwice,
    NoRoot,
    NoDirectory,
    OddName,
    FileName,
    ShortEntry,
    EntryType,
    InformationBounds,
    StandardInformation,
    DirectoryTwice,
    TooLarge,
    OverlongName,
    Version(u8, u8),
    ClusterSize(u64),
    BootShort(u64),
    BootName(u32),
    BootMark(u32),
    BootSumShort(u64),
    BootChecksum(u16, u16),
    UnmappedContainer(u64),
    EntryKind(u16),
}

/// The cluster numbers of a page, as a list.
pub open spec fn page_words(p: Page) -> Seq<char> {
    "["@ + text::hex_of(p.0 as nat) + ", "@ + text::hex_of(p.1 as nat) + ", "@ + text::hex_of(
        p.2 as nat,
    ) + ", "@ + text::hex_of(p.3 as nat) + "]"@
}

fn page_text(p: Page) -> (r: String)
    ensures
        r@ == page_words(p),
{
    let mut out: String = "[".to_owned();
    out.append(&text::hex(p.0));
    out.append(", ");
    out.append(&text::hex(p.1));
    out.append(", ");
    out.append(&text::hex(p.2));
    out.append(", ");
    out.append(&text::hex(p.3));
    out.append("]");
    out
}

impl RefsError {
    /// What there is to say of it.
    pub open spec fn words(self) -> Seq<char> {
        match self {
            RefsError::TruncatedU16 => "truncated ReFS u16"@,
            RefsError::TruncatedU32 => "truncated ReFS u32"@,
            RefsError::TruncatedU64 => "truncated ReFS u64"@,
            RefsError::TruncatedId => "truncated ReFS 128-bit ID"@,
            RefsError::ShortReference => "short ReFS block reference"@,
            RefsError::EmptyReference => "empty ReFS block reference"@,
            RefsError::ChecksumDescriptor => "unsupported ReFS block checksum descriptor"@,
            RefsError::NodeHeader => "ReFS node header outside metadata page"@,
            RefsError::SlotArray => "ReFS node slot array outside page"@,
            RefsError::RowLength => "invalid ReFS row length"@,
            RefsError::RowOverlap => "ReFS row payload overlaps header"@,
            RefsError::KeyOutside => "ReFS key outside row"@,
            RefsError::ValueOutside => "ReFS value outside row"@,
            RefsError::SelfDescriptor => "unsupported ReFS self-checksum descriptor"@,
            RefsError::AnchorCrc32c => "ReFS anchor CRC32C mismatch"@,
            RefsError::AnchorCrc64 => "ReFS anchor CRC64 mismatch"@,
            RefsError::PhysicalLcn => "physical ReFS LCN overflow"@,
            RefsError::SlotGap => "non-contiguous block-reference slots"@,
            RefsError::PageLength => "unsupported ReFS metadata page length"@,
            RefsError::PhysicalOffset => "physical offset overflow"@,
            RefsError::PageIdentity => "ReFS page identity changed or mismatched"@,
            RefsError::PageCrc32c => "ReFS page CRC32C mismatch"@,
            RefsError::TooDeep => "ReFS metadata B+tree too deep"@,
            RefsError::RepeatedPage => "cycle/duplicate page in ReFS B+tree"@,
            RefsError::ExcessiveTree => "excessive ReFS metadata tree"@,
            RefsError::BootSector => "librefs boot sector"@,
            RefsError::Superblock => "ReFS superblock signature missing"@,
            RefsError::CheckpointTable => "unsupported ReFS checkpoint reference table"@,
            RefsError::CheckpointOffset => "checkpoint offset overflow"@,
            RefsError::NoCheckpoint => "no readable ReFS checkpoint"@,
            RefsError::RootArray => "unsupported ReFS checkpoint root array"@,
            RefsError::RootOutside => "checkpoint table root out of bounds"@,
            RefsError::ContainerRow => "unsupported ReFS container row"@,
            RefsError::ContainerSize => "invalid ReFS container size"@,
            RefsError::ContainerMix => "mixed ReFS container geometries unsupported"@,
            RefsError::ContainerTwice => "duplicate ReFS container ID"@,
            RefsError::NoContainers => "empty ReFS container map"@,
            RefsError::ObjectRow => "unsupported ReFS object-table row"@,
            RefsError::ObjectTwice => "duplicate ReFS object ID"@,
            RefsError::NoRoot => "ReFS root directory object missing"@,
            RefsError::NoDirectory => "ReFS directory not in object table"@,
            RefsError::OddName => "odd UTF-16 filename length"@,
            RefsError::FileName => "invalid ReFS filename component"@,
            RefsError::ShortEntry => "short ReFS directory/hardlink entry"@,
            RefsError::EntryType => "unknown ReFS short-entry object type"@,
            RefsError::InformationBounds => "invalid ReFS standard information bounds"@,
            RefsError::StandardInformation => "librefs standard information"@,
            RefsError::DirectoryTwice => "duplicate/cyclic ReFS directory object"@,
            RefsError::TooLarge => "scan index exceeds 32-bit compact limits"@,
            RefsError::OverlongName => "invalid overlong filename"@,
            RefsError::Version(major, minor) => {
                "raw ReFS backend currently validated only for 3.14, detected "@
                    + text::decimal_of(major as nat) + "."@ + text::decimal_of(minor as nat)
                    + "; use explicit --backend fs"@
            },
            RefsError::ClusterSize(cluster) => {
                "raw ReFS 3.14 scan is currently validated for 4KiB clusters; detected "@
                    + text::decimal_of(cluster as nat)
                    + "; use explicit --backend fs for other layouts"@
            },
            RefsError::UnmappedContainer(container) => "unmapped ReFS container "@
                + text::hex_of(container as nat),
            RefsError::PageSignature(a, b, c, d) => "invalid ReFS metadata signature at "@
                + page_words((a, b, c, d)),
            RefsError::PageCrc64(a, b, c, d) => "ReFS page CRC64 mismatch at "@ + page_words(
                (a, b, c, d),
            ),
            RefsError::BootShort(n) => "librefs boot sector: boot sector too small: "@
                + text::decimal_of(n as nat) + " bytes, need >= 512"@,
            RefsError::BootName(got) => {
                "librefs boot sector: bad magic at boot sector OEM: expected [52, 65, 46, 53], got 0x"@
                    + text::hex_padded_of(got as nat, 8)
            },
            RefsError::BootMark(got) => {
                "librefs boot sector: bad magic at boot sector signature: expected [46, 53, 52, 53], got 0x"@
                    + text::hex_padded_of(got as nat, 8)
            },
            RefsError::BootSumShort(n) => "librefs boot checksum: boot sector checksum too small: "@
                + text::decimal_of(n as nat) + " bytes, need >= 512"@,
            RefsError::BootChecksum(want, got) => {
                "librefs boot checksum: checksum mismatch for boot sector: expected "@
                    + text::hex_padded_of(want as nat, 4) + ", got "@ + text::hex_padded_of(
                    got as nat,
                    4,
                )
            },
            RefsError::EntryKind(kind) => "unsupported ReFS file-entry kind "@
                + text::decimal_of(kind as nat) + "; not dropping it silently"@,
        }
    }

    pub fn message(self) -> (r: String)
        ensures
            r@ == self.words(),
    {
        let fixed: &str = match self {
            RefsError::TruncatedU16 => "truncated ReFS u16",
            RefsError::TruncatedU32 => "truncated ReFS u32",
            RefsError::TruncatedU64 => "truncated ReFS u64",
            RefsError::TruncatedId => "truncated ReFS 128-bit ID",
            RefsError::ShortReference => "short ReFS block reference",
            RefsError::EmptyReference => "empty ReFS block reference",
            RefsError::ChecksumDescriptor => "unsupported ReFS block checksum descriptor",
            RefsError::NodeHeader => "ReFS node header outside metadata page",
            RefsError::SlotArray => "ReFS node slot array outside page",
            RefsError::RowLength => "invalid ReFS row length",
            RefsError::RowOverlap => "ReFS row payload overlaps header",
            RefsError::KeyOutside => "ReFS key outside row",
            RefsError::ValueOutside => "ReFS value outside row",
            RefsError::SelfDescriptor => "unsupported ReFS self-checksum descriptor",
            RefsError::AnchorCrc32c => "ReFS anchor CRC32C mismatch",
            RefsError::AnchorCrc64 => "ReFS anchor CRC64 mismatch",
            RefsError::PhysicalLcn => "physical ReFS LCN overflow",
            RefsError::SlotGap => "non-contiguous block-reference slots",
            RefsError::PageLength => "unsupported ReFS metadata page length",
            RefsError::PhysicalOffset => "physical offset overflow",
            RefsError::PageIdentity => "ReFS page identity changed or mismatched",
            RefsError::PageCrc32c => "ReFS page CRC32C mismatch",
            RefsError::TooDeep => "ReFS metadata B+tree too deep",
            RefsError::RepeatedPage => "cycle/duplicate page in ReFS B+tree",
            RefsError::ExcessiveTree => "excessive ReFS metadata tree",
            RefsError::BootSector => "librefs boot sector",
            RefsError::Superblock => "ReFS superblock signature missing",
            RefsError::CheckpointTable => "unsupported ReFS checkpoint reference table",
            RefsError::CheckpointOffset => "checkpoint offset overflow",
            RefsError::NoCheckpoint => "no readable ReFS checkpoint",
            RefsError::RootArray => "unsupported ReFS checkpoint root array",
            RefsError::RootOutside => "checkpoint table root out of bounds",
            RefsError::ContainerRow => "unsupported ReFS container row",
            RefsError::ContainerSize => "invalid ReFS container size",
            RefsError::ContainerMix => "mixed ReFS container geometries unsupported",
            RefsError::ContainerTwice => "duplicate ReFS container ID",
            RefsError::NoContainers => "empty ReFS container map",
            RefsError::ObjectRow => "unsupported ReFS object-table row",
            RefsError::ObjectTwice => "duplicate ReFS object ID",
            RefsError::NoRoot => "ReFS root directory object missing",
            RefsError::NoDirectory => "ReFS directory not in object table",
            RefsError::OddName => "odd UTF-16 filename length",
            RefsError::FileName => "invalid ReFS filename component",
            RefsError::ShortEntry => "short ReFS directory/hardlink entry",
            RefsError::EntryType => "unknown ReFS short-entry object type",
            RefsError::InformationBounds => "invalid ReFS standard information bounds",
            RefsError::StandardInformation => "librefs standard information",
            RefsError::DirectoryTwice => "duplicate/cyclic ReFS directory object",
            RefsError::TooLarge => "scan index exceeds 32-bit compact limits",
            RefsError::OverlongName => "invalid overlong filename",
            RefsError::Version(major, minor) => {
                let head: String = text::glue(
                    "raw ReFS backend currently validated only for 3.14, detected ",
                    &text::decimal(major as u64),
                );
                let tail: String = text::glue(".", &text::decimal(minor as u64));
                let r: String = text::glue(
                    &text::glue(&head, &tail),
                    "; use explicit --backend fs",
                );
                assert(r@ =~= self.words());
                return r;
            },
            RefsError::ClusterSize(cluster) => {
                return text::glue(
                    &text::glue(
                        "raw ReFS 3.14 scan is currently validated for 4KiB clusters; detected ",
                        &text::decimal(cluster),
                    ),
                    "; use explicit --backend fs for other layouts",
                );
            },
            RefsError::UnmappedContainer(container) => {
                return text::glue("unmapped ReFS container ", &text::hex(container));
            },
            RefsError::PageSignature(a, b, c, d) => {
                return text::glue(
                    "invalid ReFS metadata signature at ",
                    &page_text((a, b, c, d)),
                );
            },
            RefsError::PageCrc64(a, b, c, d) => {
                return text::glue("ReFS page CRC64 mismatch at ", &page_text((a, b, c, d)));
            },
            RefsError::BootShort(n) => {
                return text::glue(
                    &text::glue(
                        "librefs boot sector: boot sector too small: ",
                        &text::decimal(n),
                    ),
                    " bytes, need >= 512",
                );
            },
            RefsError::BootName(got) => {
                return text::glue(
                    "librefs boot sector: bad magic at boot sector OEM: expected [52, 65, 46, 53], got 0x",
                    &text::hex_padded(got as u64, 8),
                );
            },
            RefsError::BootMark(got) => {
                return text::glue(
                    "librefs boot sector: bad magic at boot sector signature: expected [46, 53, 52, 53], got 0x",
                    &text::hex_padded(got as u64, 8),
                );
            },
            RefsError::BootSumShort(n) => {
                return text::glue(
                    &text::glue(
                        "librefs boot checksum: boot sector checksum too small: ",
                        &text::decimal(n),
                    ),
                    " bytes, need >= 512",
                );
            },
            RefsError::BootChecksum(want, got) => {
                let head: String = text::glue(
                    "librefs boot checksum: checksum mismatch for boot sector: expected ",
                    &text::hex_padded(want as u64, 4),
                );
                return text::glue(
                    &text::glue(&head, ", got "),
                    &text::hex_padded(got as u64, 4),
                );
            },
            RefsError::EntryKind(kind) => {
                return text::glue(
                    &text::glue("unsupported ReFS file-entry kind ", &text::decimal(kind as u64)),
                    "; not dropping it silently",
                );
            },
        };
        fixed.to_owned()
    }
}

/// A reference to a metadata page: where its up to four clusters lie, how it is summed, and
/// the number in the eight bytes kept for the sum.
#[derive(Clone, Copy, Debug)]
pub struct BlockRef {
    pub lcns: Page,
    pub kind: u8,
    pub hash: u64,
}

/// The four cluster numbers from `at` on.
pub open spec fn page_of(b: Seq<u8>, at: int) -> Page {
    (
        bytes::le_of(b, at, 8) as u64,
        bytes::le_of(b, at + 8, 8) as u64,
        bytes::le_of(b, at + 16, 8) as u64,
        bytes::le_of(b, at + 24, 8) as u64,
    )
}

/// The kinds of sum that are known: four bytes of CRC-32C, eight bytes of CRC-64.
pub open spec fn known_sum(b: Seq<u8>) -> bool {
    let width = bytes::le_of(b, 36, 2);
    b[35] == 8 && ((b[34] == 1 && width == 4) || (b[34] == 2 && width == 8))
}

/// The reference that the first 48 bytes hold.
pub open spec fn reference_of(b: Seq<u8>) -> Result<BlockRef, RefsError> {
    if b.len() < 48 {
        Err(RefsError::ShortReference)
    } else if page_of(b, 0).0 == 0 {
        Err(RefsError::EmptyReference)
    } else if !known_sum(b) {
        Err(RefsError::ChecksumDescriptor)
    } else {
        Ok(BlockRef { lcns: page_of(b, 0), kind: b[34], hash: bytes::le_of(b, 40, 8) as u64 })
    }
}

fn read_page_numbers(b: &[u8], at: usize) -> (r: Page)
    requires
        bytes::within(b@, at as int, 32),
    ensures
        r == page_of(b@, at as int),
{
    let total: usize = b.len();
    assert(at + 32 <= total);
    (bytes::le(b, at, 8), bytes::le(b, at + 8, 8), bytes::le(b, at + 16, 8), bytes::le(b, at + 24, 8))
}

impl BlockRef {
    /// A reference as it can be parsed.
    pub open spec fn sound(self) -> bool {
        self.lcns.0 != 0 && (self.kind == 1 || self.kind == 2)
    }

    pub fn parse(b: &[u8]) -> (r: Result<BlockRef, RefsError>)
        ensures
            r == reference_of(b@),
            r matches Ok(f) ==> f.sound(),
    {
        if b.len() < 48 {
            return Err(RefsError::ShortReference);
        }
        let lcns: Page = read_page_numbers(b, 0);
        if lcns.0 == 0 {
            return Err(RefsError::EmptyReference);
        }
        let kind: u8 = b[34];
        let width: u64 = bytes::le(b, 36, 2);
        if !(b[35] == 8 && ((kind == 1 && width == 4) || (kind == 2 && width == 8))) {
            return Err(RefsError::ChecksumDescriptor);
        }
        Ok(BlockRef { lcns, kind, hash: bytes::le(b, 40, 8) })
    }
}

/// Where the key and the value of a row lie in a page.
#[derive(Clone, Copy, Debug, PartialEq, Eq, Structural)]
pub struct Row {
    pub key: usize,
    pub key_end: usize,
    pub value: usize,
    pub value_end: usize,
}

impl Row {
    pub open spec fn inside(self, b: Seq<u8>) -> bool {
        self.key <= self.key_end <= b.len() && self.value <= self.value_end <= b.len()
    }

    pub open spec fn key_in(self, b: Seq<u8>) -> Seq<u8> {
        b.subrange(self.key as int, self.key_end as int)
    }

    pub open spec fn value_in(self, b: Seq<u8>) -> Seq<u8> {
        b.subrange(self.value as int, self.value_end as int)
    }
}

/// The row that starts at `start`, none if it is marked as deleted.
pub open spec fn row_at(b: Seq<u8>, start: int) -> Result<Option<Row>, RefsError> {
    let length = bytes::le_of(b, start, 4) as int;
    let key = bytes::le_of(b, start + 4, 2) as int;
    let key_len = bytes::le_of(b, start + 6, 2) as int;
    let value = bytes::le_of(b, start + 10, 2) as int;
    let value_len = bytes::le_of(b, start + 12, 4) as int;
    if !bytes::within(b, start, 4) {
        Err(RefsError::TruncatedU32)
    } else if length < 16 || start + length > b.len() {
        Err(RefsError::RowLength)
    } else if deleted_row(bytes::le_of(b, start + 8, 2) as u16) {
        Ok(None)
    } else if !((key_len == 0 || key >= 16) && (value_len == 0 || value >= 16)) {
        Err(RefsError::RowOverlap)
    } else if key + key_len > length {
        Err(RefsError::KeyOutside)
    } else if value + value_len > length {
        Err(RefsError::ValueOutside)
    } else {
        Ok(
            Some(
                Row {
                    key: (start + key) as usize,
                    key_end: (start + key + key_len) as usize,
                    value: (start + value) as usize,
                    value_end: (start + value + value_len) as usize,
                },
            ),
        )
    }
}

pub open spec fn deleted_row(flags: u16) -> bool {
    flags & 4 != 0
}

/// The rows of the first `n` slots of the node at `at`, whose slots start at `array`.
pub open spec fn rows_of(b: Seq<u8>, at: int, array: int, n: nat) -> Result<Seq<Row>, RefsError>
    decreases n,
{
    if n == 0 {
        Ok(Seq::empty())
    } else {
        match rows_of(b, at, array, (n - 1) as nat) {
            Err(e) => Err(e),
            Ok(rows) => {
                let slot = bytes::le_of(b, array + (n - 1) * 4, 4);
                match row_at(b, at + (slot % 0x1_0000) as int) {
                    Err(e) => Err(e),
                    Ok(None) => Ok(rows),
                    Ok(Some(row)) => Ok(rows.push(row)),
                }
            },
        }
    }
}

/// A node of a B+tree.
#[derive(Debug)]
pub struct Node {
    pub branch: bool,
    pub rows: Vec<Row>,
}

#[verifier::ext_equal]
pub struct NodeV {
    pub branch: bool,
    pub rows: Seq<Row>,
}

impl View for Node {
    type V = NodeV;

    open spec fn view(&self) -> NodeV {
        NodeV { branch: self.branch, rows: self.rows@ }
    }
}

pub open spec fn branch_mark(b: u8) -> bool {
    b & 1 != 0
}

/// The node whose offset is stored at `base`.
pub open spec fn node_of(b: Seq<u8>, base: int) -> Result<NodeV, RefsError> {
    let at = base + bytes::le_of(b, base, 4);
    let count = bytes::le_of(b, at + 20, 4);
    let array = at + bytes::le_of(b, at + 16, 4);
    if !bytes::within(b, base, 4) {
        Err(RefsError::TruncatedU32)
    } else if !(at >= base + 4 && at + 32 <= b.len()) {
        Err(RefsError::NodeHeader)
    } else if !(count <= b.len() / 4 && array >= at + 32 && array + count * 4 <= b.len()) {
        Err(RefsError::SlotArray)
    } else {
        match rows_of(b, at, array, count) {
            Err(e) => Err(e),
            Ok(rows) => Ok(NodeV { branch: branch_mark(b[at + 13]), rows }),
        }
    }
}

pub open spec fn rows_inside(rows: Seq<Row>, b: Seq<u8>) -> bool {
    forall|i: int| 0 <= i < rows.len() ==> (#[trigger] rows[i]).inside(b)
}

fn read_row(b: &[u8], start: usize) -> (r: Result<Option<Row>, RefsError>)
    ensures
        r == row_at(b@, start as int),
        r matches Ok(Some(row)) ==> row.inside(b@),
{
    let total: usize = b.len();
    if start > total || total - start < 4 {
        return Err(RefsError::TruncatedU32);
    }
    proof {
        bytes::lemma_spans();
        bytes::lemma_le_bound(b@, start as int, 4);
    }
    let length: usize = bytes::le(b, start, 4) as usize;
    if length < 16 || total - start < length {
        return Err(RefsError::RowLength);
    }
    proof {
        bytes::lemma_le_bound(b@, start + 4, 2);
        bytes::lemma_le_bound(b@, start + 6, 2);
        bytes::lemma_le_bound(b@, start + 8, 2);
        bytes::lemma_le_bound(b@, start + 10, 2);
        bytes::lemma_le_bound(b@, start + 12, 4);
    }
    let flags: u16 = bytes::le(b, start + 8, 2) as u16;
    if flags & 4 != 0 {
        return Ok(None);
    }
    let key: u64 = bytes::le(b, start + 4, 2);
    let key_len: u64 = bytes::le(b, start + 6, 2);
    let value: u64 = bytes::le(b, start + 10, 2);
    let value_len: u64 = bytes::le(b, start + 12, 4);
    if !((key_len == 0 || key >= 16) && (value_len == 0 || value >= 16)) {
        return Err(RefsError::RowOverlap);
    }
    if key + key_len > length as u64 {
        return Err(RefsError::KeyOutside);
    }
    if value + value_len > length as u64 {
        return Err(RefsError::ValueOutside);
    }
    Ok(
        Some(
            Row {
                key: start + key as usize,
                key_end: start + (key + key_len) as usize,
                value: start + value as usize,
                value_end: start + (value + value_len) as usize,
            },
        ),
    )
}

proof fn lemma_rows_stop(b: Seq<u8>, at: int, array: int, m: nat, n: nat)
    requires
        m <= n,
        rows_of(b, at, array, m) is Err,
    ensures
        rows_of(b, at, array, n) == rows_of(b, at, array, m),
    decreases n,
{
    if m < n {
        lemma_rows_stop(b, at, array, m, (n - 1) as nat);
    }
}

/// Reads the node whose offset is stored at `base`.
pub fn node(b: &[u8], base: usize) -> (r: Result<Node, RefsError>)
    ensures
        match (r, node_of(b@, base as int)) {
            (Ok(n), Ok(v)) => n@ == v && rows_inside(n.rows@, b@),
            (Err(e), Err(f)) => e == f,
            _ => false,
        },
{
    let total: usize = b.len();
    if base > total || total - base < 4 {
        return Err(RefsError::TruncatedU32);
    }
    proof {
        bytes::lemma_spans();
        bytes::lemma_le_bound(b@, base as int, 4);
    }
    let skip: u64 = bytes::le(b, base, 4);
    if skip < 4 || skip > (total - base) as u64 || (total - base) as u64 - skip < 32 {
        return Err(RefsError::NodeHeader);
    }
    let at: usize = base + skip as usize;
    proof {
        bytes::lemma_le_bound(b@, at + 16, 4);
        bytes::lemma_le_bound(b@, at + 20, 4);
    }
    let count: u64 = bytes::le(b, at + 20, 4);
    let to_array: u64 = bytes::le(b, at + 16, 4);
    if count > (total / 4) as u64 || to_array < 32 || to_array > (total - at) as u64 || (total
        - at) as u64 - to_array < count * 4 {
        return Err(RefsError::SlotArray);
    }
    let array: usize = at + to_array as usize;
    let slots: usize = count as usize;
    let mut rows: Vec<Row> = Vec::new();
    let mut i: usize = 0;
    while i < slots
        invariant
            i <= slots,
            total == b@.len(),
            at <= total,
            array + slots * 4 <= total,
            rows_of(b@, at as int, array as int, i as nat) == Ok::<Seq<Row>, RefsError>(rows@),
            rows_inside(rows@, b@),
            node_of(b@, base as int) == (match rows_of(
                b@,
                at as int,
                array as int,
                slots as nat,
            ) {
                Err(e) => Err::<NodeV, RefsError>(e),
                Ok(q) => Ok(NodeV { branch: branch_mark(b@[at + 13]), rows: q }),
            }),
        decreases slots - i,
    {
        proof {
            bytes::lemma_spans();
            bytes::lemma_le_bound(b@, array + i * 4, 4);
        }
        let slot: u64 = bytes::le(b, array + i * 4, 4);
        let offset: usize = (slot % 0x1_0000) as usize;
        let found: Result<Option<Row>, RefsError> = if offset > total - at {
            Err(RefsError::TruncatedU32)
        } else {
            read_row(b, at + offset)
        };
        match found {
            Err(e) => {
                proof {
                    lemma_rows_stop(b@, at as int, array as int, (i + 1) as nat, slots as nat);
                }
                return Err(e);
            },
            Ok(None) => {},
            Ok(Some(row)) => {
                rows.push(row);
            },
        }
        i += 1;
    }
    Ok(Node { branch: b[at + 13] & 1 != 0, rows })
}

/// The row of a named stream.
pub open spec fn stream_row(key: Seq<u8>) -> bool {
    key.len() >= 16 && bytes::le_of(key, 12, 2) == 0xb0
}

/// Whether the table in the value of a file's row holds a named stream; what lies in other
/// pages may.
pub open spec fn named_stream(value: Seq<u8>) -> Result<bool, RefsError> {
    match node_of(value, 0) {
        Err(e) => Err(e),
        Ok(n) => Ok(
            n.branch || exists|i: int|
                0 <= i < n.rows.len() && stream_row((#[trigger] n.rows[i]).key_in(value)),
        ),
    }
}

pub fn has_named_stream(value: &[u8]) -> (r: Result<bool, RefsError>)
    ensures
        r == named_stream(value@),
{
    let n: Node = match node(value, 0) {
        Err(e) => {
            return Err(e);
        },
        Ok(n) => n,
    };
    if n.branch {
        return Ok(true);
    }
    let mut i: usize = 0;
    while i < n.rows.len()
        invariant
            i <= n.rows@.len(),
            rows_inside(n.rows@, value@),
            node_of(value@, 0) == Ok::<NodeV, RefsError>(n@),
            !n.branch,
            forall|k: int|
                0 <= k < i ==> !stream_row((#[trigger] n.rows@[k]).key_in(value@)),
        decreases n.rows@.len() - i,
    {
        let row: Row = n.rows[i];
        assert(n.rows@[i as int].inside(value@));
        let key: &[u8] = &value[row.key..row.key_end];
        if key.len() >= 16 && bytes::le(key, 12, 2) == 0xb0 {
            assert(n@.rows[i as int] == row);
            return Ok(true);
        }
        i += 1;
    }
    Ok(false)
}

/// One bit further in a CRC-32C sum; the polynomial has its lowest power in the highest bit.
pub open spec fn crc32c_bit(c: u32) -> u32 {
    if c & 1 != 0 {
        (c >> 1) ^ 0x82f6_3b78
    } else {
        c >> 1
    }
}

/// Eight bits further.
pub open spec fn crc32c_step(c: u32) -> u32 {
    let half = crc32c_bit(crc32c_bit(crc32c_bit(crc32c_bit(c))));
    crc32c_bit(crc32c_bit(crc32c_bit(crc32c_bit(half))))
}

/// The remainder after the first `n` bytes.
pub open spec fn crc32c_remainder(data: Seq<u8>, n: nat) -> u32
    decreases n,
{
    if n == 0 {
        u32::MAX
    } else {
        crc32c_step(crc32c_remainder(data, (n - 1) as nat) ^ data[n - 1] as u32)
    }
}

/// The CRC-32C sum of some bytes.
pub open spec fn crc32c_of(data: Seq<u8>) -> u32 {
    crc32c_remainder(data, data.len()) ^ u32::MAX
}

/// `librefs::checksum::crc32c`: the CRC-32C (Castagnoli) sum of the bytes, with all bits set
/// at the start and turned over at the end.
#[verifier::external_body]
fn crc32c(data: &[u8]) -> (r: u32)
    ensures
        r == crc32c_of(data@),
{
    librefs::checksum::crc32c(data)
}

/// Whether a sum is the one that the reference keeps. Of a sum of four bytes only the first
/// half of what is kept counts.
pub open spec fn agreed(f: BlockRef, sum: u64) -> bool {
    if f.kind == 1 {
        sum == f.hash % 0x1_0000_0000
    } else {
        sum == f.hash
    }
}

/// The sum that the reference asks for.
pub open spec fn sum_of(f: BlockRef, data: Seq<u8>) -> u64 {
    if f.kind == 1 {
        crc32c_of(data) as u64
    } else {
        crc64::checksum(data)
    }
}

impl BlockRef {
    /// Whether a sum is the one that the reference keeps.
    pub fn agrees(&self, sum: u64) -> (r: bool)
        ensures
            r == agreed(*self, sum),
    {
        if self.kind == 1 {
            sum == self.hash % 0x1_0000_0000
        } else {
            sum == self.hash
        }
    }

    /// The sum of some bytes, as the reference asks for it; `tables` are those of
    /// `crc64_tables`.
    pub fn sum_with(&self, tables: &Vec<u64>, data: &[u8]) -> (r: u64)
        requires
            crc64::tables_ok(tables@),
        ensures
            r == sum_of(*self, data@),
    {
        if self.kind == 1 {
            crc32c(data) as u64
        } else {
            crc64::crc64_with(tables, data)
        }
    }
}

/// The bytes before `end`, with 48 of them from `at` on set to zero.
pub open spec fn blanked(b: Seq<u8>, at: int, end: int) -> Seq<u8> {
    Seq::new(
        end as nat,
        |i: int|
            if at <= i < at + 48 {
                0u8
            } else {
                b[i]
            },
    )
}

/// Whether an anchor page carries the sum of itself at `offset`.
pub open spec fn self_fault(page: Seq<u8>, offset: int, length: int, cluster: int) -> Option<
    RefsError,
> {
    if !(length == 48 && offset + length <= cluster <= page.len()) {
        Some(RefsError::SelfDescriptor)
    } else {
        match reference_of(page.subrange(offset, offset + 48)) {
            Err(e) => Some(e),
            Ok(f) => if agreed(f, sum_of(f, blanked(page, offset, cluster))) {
                None
            } else if f.kind == 1 {
                Some(RefsError::AnchorCrc32c)
            } else {
                Some(RefsError::AnchorCrc64)
            },
        }
    }
}

/// Checks the sum that an anchor page carries of itself.
pub fn verify_self(page: &[u8], offset: usize, length: usize, cluster: usize) -> (r: Result<
    (),
    RefsError,
>)
    ensures
        r == (match self_fault(page@, offset as int, length as int, cluster as int) {
            None => Ok::<(), RefsError>(()),
            Some(e) => Err(e),
        }),
{
    if !(length == 48 && cluster <= page.len() && offset <= cluster && cluster - offset >= 48) {
        return Err(RefsError::SelfDescriptor);
    }
    let reference: BlockRef = match BlockRef::parse(&page[offset..offset + 48]) {
        Err(e) => {
            return Err(e);
        },
        Ok(f) => f,
    };
    let mut copy: Vec<u8> = Vec::new();
    let mut i: usize = 0;
    let ghost want = blanked(page@, offset as int, cluster as int);
    while i < cluster
        invariant
            i <= cluster <= page@.len(),
            offset + 48 <= cluster,
            want == blanked(page@, offset as int, cluster as int),
            copy@ == want.subrange(0, i as int),
        decreases cluster - i,
    {
        if offset <= i && i < offset + 48 {
            copy.push(0);
        } else {
            copy.push(page[i]);
        }
        i += 1;
        assert(copy@ =~= want.subrange(0, i as int));
    }
    assert(copy@ =~= want);
    let sum: u64 = if reference.kind == 1 {
        crc32c(&copy) as u64
    } else {
        crc64::crc64(&copy)
    };
    if reference.agrees(sum) {
        Ok(())
    } else if reference.kind == 1 {
        Err(RefsError::AnchorCrc32c)
    } else {
        Err(RefsError::AnchorCrc64)
    }
}

/// What a boot sector says.
#[derive(Clone, Copy, Debug, PartialEq, Eq, Structural)]
pub struct Boot {
    pub cluster: u64,
    pub major: u8,
    pub minor: u8,
}

/// Why a boot sector is none.
#[derive(Clone, Copy, Debug, PartialEq, Eq, Structural)]
pub enum BootFault {
    /// It has only so many bytes.
    Short(u64),
    /// It holds this in place of a mark.
    Magic(u32),
    /// Anything else.
    Other,
}

/// "ReFS" stands at offset 3.
pub open spec fn boot_named(b: Seq<u8>) -> bool {
    b[3] == 82 && b[4] == 101 && b[5] == 70 && b[6] == 83
}

/// "FSRS" stands at offset 16.
pub open spec fn boot_marked(b: Seq<u8>) -> bool {
    b[16] == 70 && b[17] == 83 && b[18] == 82 && b[19] == 83
}

/// What the bytes of a boot sector say.
pub open spec fn boot_of(b: Seq<u8>) -> Result<Boot, BootFault> {
    if b.len() < 512 {
        Err(BootFault::Short(b.len() as u64))
    } else if !boot_named(b) {
        Err(
            BootFault::Magic(
                (b[3] * 0x100_0000 + b[4] * 0x1_0000 + b[5] * 0x100 + b[6]) as u32,
            ),
        )
    } else if !boot_marked(b) {
        Err(BootFault::Magic(bytes::le_of(b, 16, 4) as u32))
    } else {
        Ok(
            Boot {
                cluster: (bytes::le_of(b, 32, 4) * bytes::le_of(b, 36, 4)) as u64,
                major: b[40],
                minor: b[41],
            },
        )
    }
}

/// `librefs::boot::BootSector::parse`, with its `cluster_size`, `version_major` and
/// `version_minor`: a sector of at least 512 bytes with both marks gives the product of
/// sector and cluster size, and the two version bytes. A shorter one is refused with its
/// length, one without a mark with what stands there, the first four bytes read from the
/// highest, the second from the lowest.
#[verifier::external_body]
fn read_boot(sector: &[u8]) -> (r: Result<Boot, BootFault>)
    ensures
        r == boot_of(sector@),
{
    match librefs::boot::BootSector::parse(sector) {
        Ok(b) => Ok(
            Boot { cluster: b.cluster_size(), major: b.version_major(), minor: b.version_minor() },
        ),
        Err(librefs::error::RefsError::TooSmall(len, _, _)) => Err(BootFault::Short(len)),
        Err(librefs::error::RefsError::BadMagic(_, got, _)) => Err(BootFault::Magic(got)),
        Err(_) => Err(BootFault::Other),
    }
}

/// The sum of a boot sector over the bytes from 3 up to `n`, without the two in which it is
/// kept: every byte is added to the sum so far, turned right by one bit.
pub open spec fn boot_sum(b: Seq<u8>, n: int) -> u16
    decreases n,
{
    if n <= 3 {
        0
    } else {
        let v = boot_sum(b, n - 1);
        if n == 23 || n == 24 {
            v
        } else {
            ((v % 2 * 0x8000 + v / 2 + b[n - 1]) % 0x1_0000) as u16
        }
    }
}

/// Whether the second reading of a boot sector has the sum that the first one tells.
pub open spec fn boot_agrees(first: Seq<u8>, again: Seq<u8>) -> bool {
    &&& boot_of(first) is Ok
    &&& again.len() >= 512
    &&& boot_sum(again, 512) == bytes::le_of(first, 22, 2)
}

/// `librefs::boot::BootSector::verify_checksum` on what the first reading gives: whether the
/// second reading has the sum that is stored at offset 22 of the first.
#[verifier::external_body]
fn verify_boot(first: &[u8], again: &[u8]) -> (r: bool)
    ensures
        r == boot_agrees(first@, again@),
{
    match librefs::boot::BootSector::parse(first) {
        Ok(b) => b.verify_checksum(again).is_ok(),
        Err(_) => false,
    }
}

/// The sum of a boot sector.
pub fn boot_checksum(b: &[u8]) -> (r: u16)
    requires
        b@.len() >= 512,
    ensures
        r == boot_sum(b@, 512),
{
    let mut v: u16 = 0;
    let mut i: usize = 3;
    while i < 512
        invariant
            3 <= i <= 512,
            b@.len() >= 512,
            v == boot_sum(b@, i as int),
        decreases 512 - i,
    {
        if i != 22 && i != 23 {
            let next: u32 = v as u32 % 2 * 0x8000 + v as u32 / 2 + b[i] as u32;
            v = (next % 0x1_0000) as u16;
        }
        i += 1;
    }
    v
}

/// The layouts that are read: version 3.14 with clusters of 4096 bytes, and with the right
/// sum.
pub open spec fn layout_of(boot: Result<Boot, RefsError>, sum: Result<(), RefsError>) -> Result<
    u64,
    RefsError,
> {
    match boot {
        Err(e) => Err(e),
        Ok(b) => if !(b.major == 3 && b.minor == 14) {
            Err(RefsError::Version(b.major, b.minor))
        } else if b.cluster != 4096 {
            Err(RefsError::ClusterSize(b.cluster))
        } else {
            match sum {
                Err(e) => Err(e),
                Ok(_) => Ok(4096),
            }
        },
    }
}

/// Decides on a boot sector by what it says and whether its sum is right.
pub fn check_layout(boot: Result<Boot, RefsError>, sum: Result<(), RefsError>) -> (r: Result<
    u64,
    RefsError,
>)
    ensures
        r == layout_of(boot, sum),
{
    match boot {
        Err(e) => Err(e),
        Ok(b) => if !(b.major == 3 && b.minor == 14) {
            Err(RefsError::Version(b.major, b.minor))
        } else if b.cluster != 4096 {
            Err(RefsError::ClusterSize(b.cluster))
        } else {
            match sum {
                Err(e) => Err(e),
                Ok(_) => Ok(b.cluster),
            }
        },
    }
}

/// What a boot sector says, or why it is none.
pub open spec fn boot_result(b: Seq<u8>) -> Result<Boot, RefsError> {
    match boot_of(b) {
        Ok(boot) => Ok(boot),
        Err(BootFault::Short(n)) => Err(RefsError::BootShort(n)),
        Err(BootFault::Magic(got)) => if boot_named(b) {
            Err(RefsError::BootMark(got))
        } else {
            Err(RefsError::BootName(got))
        },
        Err(BootFault::Other) => Err(RefsError::BootSector),
    }
}

/// Whether the sum is right that the second reading has.
pub open spec fn sum_result(first: Seq<u8>, again: Seq<u8>) -> Result<(), RefsError> {
    if boot_agrees(first, again) {
        Ok(())
    } else if again.len() < 512 {
        Err(RefsError::BootSumShort(again.len() as u64))
    } else {
        Err(
            RefsError::BootChecksum(bytes::le_of(first, 22, 2) as u16, boot_sum(again, 512)),
        )
    }
}

/// The cluster size of a volume, from two readings of its boot sector.
pub fn open_boot(first: &[u8], again: &[u8]) -> (r: Result<u64, RefsError>)
    ensures
        r == layout_of(boot_result(first@), sum_result(first@, again@)),
{
    let boot: Boot = match read_boot(first) {
        Ok(boot) => boot,
        Err(BootFault::Short(n)) => {
            return Err(RefsError::BootShort(n));
        },
        Err(BootFault::Magic(got)) => {
            return if first[3] == 82 && first[4] == 101 && first[5] == 70 && first[6] == 83 {
                Err(RefsError::BootMark(got))
            } else {
                Err(RefsError::BootName(got))
            };
        },
        Err(BootFault::Other) => {
            return Err(RefsError::BootSector);
        },
    };
    let sum: Result<(), RefsError> = if verify_boot(first, again) {
        Ok(())
    } else if again.len() < 512 {
        Err(RefsError::BootSumShort(again.len() as u64))
    } else {
        proof {
            bytes::lemma_spans();
            bytes::lemma_le_bound(first@, 22, 2);
        }
        Err(RefsError::BootChecksum(bytes::le(first, 22, 2) as u16, boot_checksum(again)))
    };
    check_layout(Ok(boot), sum)
}

/// The four bytes that start a page.
pub open spec fn marked(b: Seq<u8>, w: u8, x: u8, y: u8, z: u8) -> bool {
    b.len() >= 4 && b[0] == w && b[1] == x && b[2] == y && b[3] == z
}

fn is_marked(b: &[u8], w: u8, x: u8, y: u8, z: u8) -> (r: bool)
    ensures
        r == marked(b@, w, x, y, z),
{
    b.len() >= 4 && b[0] == w && b[1] == x && b[2] == y && b[3] == z
}

/// Where the two checkpoints lie, from the superblock "SUPB".
pub open spec fn checkpoints_of(sup: Seq<u8>, cluster: int) -> Result<(u64, u64), RefsError> {
    let array = bytes::le_of(sup, 0x70, 4) as int;
    let first = bytes::le_of(sup, array, 8) * cluster;
    let second = bytes::le_of(sup, array + 8, 8) * cluster;
    if !marked(sup, 83, 85, 80, 66) {
        Err(RefsError::Superblock)
    } else if !bytes::within(sup, 0x7c, 4) {
        Err(RefsError::TruncatedU32)
    } else {
        match self_fault(
            sup,
            bytes::le_of(sup, 0x78, 4) as int,
            bytes::le_of(sup, 0x7c, 4) as int,
            cluster,
        ) {
            Some(e) => Err(e),
            None => if !(bytes::le_of(sup, 0x74, 4) == 2 && array + 16 <= sup.len()) {
                Err(RefsError::CheckpointTable)
            } else if first > u64::MAX || second > u64::MAX {
                Err(RefsError::CheckpointOffset)
            } else {
                Ok((first as u64, second as u64))
            },
        }
    }
}

pub fn read_superblock(sup: &[u8], cluster: usize) -> (r: Result<(u64, u64), RefsError>)
    ensures
        r == checkpoints_of(sup@, cluster as int),
{
    if !is_marked(sup, 83, 85, 80, 66) {
        return Err(RefsError::Superblock);
    }
    if sup.len() < 0x80 {
        return Err(RefsError::TruncatedU32);
    }
    proof {
        bytes::lemma_spans();
        bytes::lemma_le_bound(sup@, 0x70, 4);
        bytes::lemma_le_bound(sup@, 0x74, 4);
        bytes::lemma_le_bound(sup@, 0x78, 4);
        bytes::lemma_le_bound(sup@, 0x7c, 4);
    }
    let offset: usize = bytes::le(sup, 0x78, 4) as usize;
    let length: usize = bytes::le(sup, 0x7c, 4) as usize;
    match verify_self(sup, offset, length, cluster) {
        Err(e) => {
            return Err(e);
        },
        Ok(_) => {},
    }
    let array: usize = bytes::le(sup, 0x70, 4) as usize;
    let total: usize = sup.len();
    if bytes::le(sup, 0x74, 4) != 2 || array > total || total - array < 16 {
        return Err(RefsError::CheckpointTable);
    }
    let first: Option<u64> = bytes::le(sup, array, 8).checked_mul(cluster as u64);
    let second: Option<u64> = bytes::le(sup, array + 8, 8).checked_mul(cluster as u64);
    match (first, second) {
        (Some(a), Some(b)) => Ok((a, b)),
        _ => Err(RefsError::CheckpointOffset),
    }
}

/// Whether a page is a checkpoint "CHKP" with the right sum.
pub open spec fn usable(page: Seq<u8>, cluster: int) -> bool {
    &&& marked(page, 67, 72, 75, 80)
    &&& bytes::within(page, 0x5c, 4)
    &&& self_fault(
        page,
        bytes::le_of(page, 0x58, 4) as int,
        bytes::le_of(page, 0x5c, 4) as int,
        cluster,
    ) is None
}

pub fn checkpoint_usable(page: &[u8], cluster: usize) -> (r: bool)
    ensures
        r == usable(page@, cluster as int),
{
    if !is_marked(page, 67, 72, 75, 80) || page.len() < 0x60 {
        return false;
    }
    proof {
        bytes::lemma_spans();
        bytes::lemma_le_bound(page@, 0x58, 4);
        bytes::lemma_le_bound(page@, 0x5c, 4);
    }
    let offset: usize = bytes::le(page, 0x58, 4) as usize;
    let length: usize = bytes::le(page, 0x5c, 4) as usize;
    verify_self(page, offset, length, cluster).is_ok()
}

/// The number of a checkpoint, zero if the page is too short to hold one.
pub open spec fn clock(page: Seq<u8>) -> u64 {
    match bytes::u64_of(page, 0x60) {
        Some(n) => n,
        None => 0,
    }
}

/// Which of the usable pages is the newest checkpoint; of two of the same number the first.
pub open spec fn is_newest(pages: Seq<Vec<u8>>, cluster: int, i: int) -> bool {
    &&& 0 <= i < pages.len()
    &&& usable(pages[i]@, cluster)
    &&& forall|k: int|
        0 <= k < pages.len() && usable((#[trigger] pages[k])@, cluster) ==> clock(pages[k]@) < clock(
            pages[i]@,
        ) || (clock(pages[k]@) == clock(pages[i]@) && i <= k)
}

pub fn newest_checkpoint(pages: &Vec<Vec<u8>>, cluster: usize) -> (r: Result<usize, RefsError>)
    ensures
        match r {
            Ok(i) => is_newest(pages@, cluster as int, i as int),
            Err(e) => e == RefsError::NoCheckpoint && forall|k: int|
                0 <= k < pages@.len() ==> !usable((#[trigger] pages@[k])@, cluster as int),
        },
{
    let mut best: Option<usize> = None;
    let mut most: u64 = 0;
    let mut i: usize = 0;
    while i < pages.len()
        invariant
            i <= pages@.len(),
            match best {
                None => forall|k: int|
                    0 <= k < i ==> !usable((#[trigger] pages@[k])@, cluster as int),
                Some(b) => {
                    &&& b < i
                    &&& most == clock(pages@[b as int]@)
                    &&& is_newest(pages@.subrange(0, i as int), cluster as int, b as int)
                },
            },
        decreases pages@.len() - i,
    {
        let ghost before = pages@.subrange(0, i as int);
        let ghost now = pages@.subrange(0, i + 1);
        assert(forall|k: int| 0 <= k < i ==> now[k] == before[k]);
        assert(now[i as int] == pages@[i as int]);
        if checkpoint_usable(&pages[i], cluster) {
            let n: u64 = match bytes::u64at(&pages[i], 0x60) {
                Some(n) => n,
                None => 0,
            };
            if best.is_none() || n > most {
                best = Some(i);
                most = n;
            }
        }
        proof {
            if let Some(b) = best {
                assert(now[b as int] == pages@[b as int]);
                assert forall|k: int|
                    0 <= k < now.len() && usable((#[trigger] now[k])@, cluster as int) implies clock(
                    now[k]@,
                ) < clock(now[b as int]@) || (clock(now[k]@) == clock(now[b as int]@) && b <= k) by {
                    if k < i {
                        assert(now[k] == before[k]);
                        assert(now[k] == pages@[k]);
                    }
                }
            }
        }
        i += 1;
    }
    match best {
        None => Err(RefsError::NoCheckpoint),
        Some(b) => {
            assert(pages@.subrange(0, i as int) =~= pages@);
            Ok(b)
        },
    }
}

/// The first `n` table roots of a checkpoint.
pub open spec fn roots_of(page: Seq<u8>, offset: int, n: nat) -> Result<Seq<BlockRef>, RefsError>
    decreases n,
{
    if n == 0 {
        Ok(Seq::empty())
    } else {
        match roots_of(page, offset, (n - 1) as nat) {
            Err(e) => Err(e),
            Ok(roots) => {
                let at = bytes::le_of(page, offset + (n - 1) * 4, 4) as int;
                if at + 48 > page.len() {
                    Err(RefsError::RootOutside)
                } else {
                    match reference_of(page.subrange(at, at + 48)) {
                        Err(e) => Err(e),
                        Ok(f) => Ok(roots.push(f)),
                    }
                }
            },
        }
    }
}

/// What a checkpoint tells: its number, and the roots of its tables.
pub open spec fn checkpoint_of(page: Seq<u8>) -> Result<(u64, Seq<BlockRef>), RefsError> {
    let n = bytes::le_of(page, 0x90, 4);
    let offset = bytes::le_of(page, 0x94, 4) as int;
    if !bytes::within(page, 0x60, 8) {
        Err(RefsError::TruncatedU64)
    } else if !bytes::within(page, 0x94, 4) {
        Err(RefsError::TruncatedU32)
    } else if !(8 <= n <= 64 && offset + n * 4 <= page.len()) {
        Err(RefsError::RootArray)
    } else {
        match roots_of(page, offset, n) {
            Err(e) => Err(e),
            Ok(roots) => Ok((clock(page), roots)),
        }
    }
}

proof fn lemma_roots_stop(page: Seq<u8>, offset: int, m: nat, n: nat)
    requires
        m <= n,
        roots_of(page, offset, m) is Err,
    ensures
        roots_of(page, offset, n) == roots_of(page, offset, m),
    decreases n,
{
    if m < n {
        lemma_roots_stop(page, offset, m, (n - 1) as nat);
    }
}

/// What a checkpoint tells.
#[derive(Debug)]
pub struct Checkpoint {
    pub number: u64,
    pub roots: Vec<BlockRef>,
}

impl Checkpoint {
    /// The roots of the two tables that are read.
    pub open spec fn sound(&self) -> bool {
        &&& self.roots@.len() >= 8
        &&& forall|i: int| 0 <= i < self.roots@.len() ==> (#[trigger] self.roots@[i]).sound()
    }

    pub fn parse(page: &[u8]) -> (r: Result<Checkpoint, RefsError>)
        ensures
            match (r, checkpoint_of(page@)) {
                (Ok(c), Ok(v)) => c.number == v.0 && c.roots@ == v.1 && c.sound(),
                (Err(e), Err(f)) => e == f,
                _ => false,
            },
    {
        let total: usize = page.len();
        if total < 0x68 {
            return Err(RefsError::TruncatedU64);
        }
        if total < 0x98 {
            return Err(RefsError::TruncatedU32);
        }
        proof {
            bytes::lemma_spans();
            bytes::lemma_le_bound(page@, 0x90, 4);
            bytes::lemma_le_bound(page@, 0x94, 4);
        }
        let number: u64 = bytes::le(page, 0x60, 8);
        let n: usize = bytes::le(page, 0x90, 4) as usize;
        let offset: usize = bytes::le(page, 0x94, 4) as usize;
        if n < 8 || n > 64 || offset > total || total - offset < n * 4 {
            return Err(RefsError::RootArray);
        }
        let mut roots: Vec<BlockRef> = Vec::new();
        let mut i: usize = 0;
        while i < n
            invariant
                i <= n <= 64,
                total == page@.len(),
                offset + n * 4 <= total,
                total >= 0x98,
                number == clock(page@),
                roots@.len() == i,
                roots_of(page@, offset as int, i as nat) == Ok::<Seq<BlockRef>, RefsError>(
                    roots@,
                ),
                forall|k: int| 0 <= k < roots@.len() ==> (#[trigger] roots@[k]).sound(),
                checkpoint_of(page@) == (match roots_of(page@, offset as int, n as nat) {
                    Err(e) => Err::<(u64, Seq<BlockRef>), RefsError>(e),
                    Ok(q) => Ok((number, q)),
                }),
            decreases n - i,
        {
            proof {
                bytes::lemma_spans();
                bytes::lemma_le_bound(page@, offset + i * 4, 4);
            }
            let at: usize = bytes::le(page, offset + i * 4, 4) as usize;
            let found: Result<BlockRef, RefsError> = if at > total || total - at < 48 {
                Err(RefsError::RootOutside)
            } else {
                BlockRef::parse(&page[at..at + 48])
            };
            match found {
                Err(e) => {
                    proof {
                        lemma_roots_stop(page@, offset as int, (i + 1) as nat, n as nat);
                    }
                    return Err(e);
                },
                Ok(f) => {
                    roots.push(f);
                },
            }
            i += 1;
        }
        Ok(Checkpoint { number, roots })
    }
}

/// A row of a node lies where its head says: behind the head, inside the row, its key and
/// its value as long as they are said to be. Only a row marked as deleted is passed over.
pub proof fn law_rows_lie_where_their_head_says(b: Seq<u8>, start: int)
    requires
        0 <= start,
        row_at(b, start) is Ok,
        b.len() <= usize::MAX,
    ensures
        ({
            let r = row_at(b, start)->Ok_0;
            &&& r is None <==> (b[start + 8] / 4) % 2 == 1
            &&& r matches Some(row) ==> {
                let length = bytes::le_of(b, start, 4);
                &&& row.key == start + b[start + 4] + 0x100 * b[start + 5]
                &&& row.key_end - row.key == b[start + 6] + 0x100 * b[start + 7]
                &&& row.value == start + b[start + 10] + 0x100 * b[start + 11]
                &&& row.value_end - row.value == bytes::le_of(b, start + 12, 4)
                &&& row.key_end <= start + length && row.value_end <= start + length
                &&& start + length <= b.len()
                &&& row.key < row.key_end ==> row.key >= start + 16
                &&& row.value < row.value_end ==> row.value >= start + 16
            }
        }),
{
    bytes::law_low_bytes_come_first(b, start + 4);
    bytes::law_low_bytes_come_first(b, start + 6);
    bytes::law_low_bytes_come_first(b, start + 8);
    bytes::law_low_bytes_come_first(b, start + 10);
    let n = bytes::le_of(b, start + 8, 2) as u16;
    let low = b[start + 8];
    let high = b[start + 9];
    assert((n & 4 != 0) == ((low / 4) % 2 == 1)) by (bit_vector)
        requires
            n == low + 0x100 * high,
    ;
}

proof fn lemma_rows(b: Seq<u8>, at: int, array: int, n: nat, i: int)
    requires
        0 <= i < n,
        rows_of(b, at, array, n) is Ok,
    ensures
        ({
            let slot = bytes::le_of(b, array + i * 4, 4);
            let r = row_at(b, at + (slot % 0x1_0000) as int);
            &&& r is Ok
            &&& r->Ok_0 is Some ==> rows_of(b, at, array, n)->Ok_0.contains(r->Ok_0->0)
        }),
    decreases n,
{
    let m = (n - 1) as nat;
    let before = rows_of(b, at, array, m)->Ok_0;
    let all = rows_of(b, at, array, n)->Ok_0;
    if i < m {
        lemma_rows(b, at, array, m, i);
        let slot = bytes::le_of(b, array + i * 4, 4);
        let r = row_at(b, at + (slot % 0x1_0000) as int);
        if r->Ok_0 is Some {
            let k = before.index_of(r->Ok_0->0);
            assert(all[k] == r->Ok_0->0);
        }
    } else {
        let slot = bytes::le_of(b, array + i * 4, 4);
        let r = row_at(b, at + (slot % 0x1_0000) as int);
        if r->Ok_0 is Some {
            assert(all[before.len() as int] == r->Ok_0->0);
        }
    }
}

/// Every slot of a node that is read leads to a row, and every row that is not deleted is
/// among the rows of the node.
pub proof fn law_no_row_is_passed_over(b: Seq<u8>, base: int, i: int)
    requires
        node_of(b, base) is Ok,
        0 <= i,
        ({
            let at = base + bytes::le_of(b, base, 4);
            i < bytes::le_of(b, at + 20, 4)
        }),
    ensures
        ({
            let at = base + bytes::le_of(b, base, 4);
            let place = at + bytes::le_of(b, at + 16, 4) + 4 * i;
            let row = row_at(b, at + b[place] + 0x100 * b[place + 1]);
            &&& row is Ok
            &&& row->Ok_0 is Some ==> node_of(b, base)->Ok_0.rows.contains(row->Ok_0->0)
            &&& node_of(b, base)->Ok_0.branch == (b[at + 13] % 2 == 1)
        }),
{
    let at = base + bytes::le_of(b, base, 4);
    let array = at + bytes::le_of(b, at + 16, 4);
    lemma_rows(b, at, array, bytes::le_of(b, at + 20, 4), i);
    let place = array + 4 * i;
    bytes::law_low_bytes_come_first(b, place);
    let slot = bytes::le_of(b, place, 4) as int;
    assert(slot % 0x1_0000 == b[place] + 0x100 * b[place + 1]);
    let mark = b[at + 13];
    assert((mark & 1 != 0) == (mark % 2 == 1)) by (bit_vector);
}

/// A reference to a page names four clusters and the checksum of what lies there.
pub proof fn law_references_name_clusters_and_sum(b: Seq<u8>)
    requires
        reference_of(b) is Ok,
    ensures
        ({
            let f = reference_of(b)->Ok_0;
            &&& f.lcns.0 == bytes::le_of(b, 0, 8) && f.lcns.0 != 0
            &&& f.lcns.1 == bytes::le_of(b, 8, 8)
            &&& f.lcns.2 == bytes::le_of(b, 16, 8)
            &&& f.lcns.3 == bytes::le_of(b, 24, 8)
            &&& f.kind == b[34] && (f.kind == 1 || f.kind == 2)
            &&& f.hash == bytes::le_of(b, 40, 8)
        }),
{
    bytes::lemma_spans();
    bytes::lemma_le_bound(b, 0, 8);
    bytes::lemma_le_bound(b, 8, 8);
    bytes::lemma_le_bound(b, 16, 8);
    bytes::lemma_le_bound(b, 24, 8);
    bytes::lemma_le_bound(b, 40, 8);
}

/// A page passes for the one that a reference names only if its checksum is the one named;
/// of a short checksum, the low half counts.
pub proof fn law_checksums_must_agree(f: BlockRef, sum: u64)
    ensures
        f.kind == 2 ==> (agreed(f, sum) <==> sum == f.hash),
        f.kind == 1 && agreed(f, sum) ==> sum < 0x1_0000_0000,
        f.kind == 1 && sum < 0x1_0000_0000 && f.hash < 0x1_0000_0000 ==> (agreed(f, sum) <==> sum
            == f.hash),
{
}

/// A page that describes its own checksum passes only if the checksum of its first cluster,
/// with that description blanked, is the one described.
pub proof fn law_anchors_carry_their_sum(page: Seq<u8>, offset: int, cluster: int, other: Seq<u8>)
    requires
        0 <= offset,
        offset + 48 <= cluster <= page.len(),
        other.len() == page.len(),
        self_fault(page, offset, 48, cluster) is None,
        forall|i: int| 0 <= i < cluster && !(offset <= i < offset + 48) ==> #[trigger] other[i]
            == page[i],
        other.subrange(offset, offset + 48) == page.subrange(offset, offset + 48),
    ensures
        self_fault(other, offset, 48, cluster) is None,
        ({
            let f = reference_of(page.subrange(offset, offset + 48))->Ok_0;
            f.kind == 2 ==> crc64::checksum(
                Seq::new(
                    cluster as nat,
                    |i: int|
                        if offset <= i < offset + 48 {
                            0u8
                        } else {
                            page[i]
                        },
                ),
            ) == f.hash
        }),
{
    assert(blanked(page, offset, cluster) =~= blanked(other, offset, cluster));
    assert(blanked(page, offset, cluster) =~= Seq::new(
        cluster as nat,
        |i: int|
            if offset <= i < offset + 48 {
                0u8
            } else {
                page[i]
            },
    ));
}

/// Only a volume of version 3.14 with clusters of 4096 bytes and an agreeing boot checksum
/// is read raw.
pub proof fn law_only_the_known_layout_is_read(boot: Result<Boot, RefsError>, sum: Result<
    (),
    RefsError,
>)
    ensures
        layout_of(boot, sum) is Ok <==> boot is Ok && boot->Ok_0.major == 3 && boot->Ok_0.minor
            == 14 && boot->Ok_0.cluster == 4096 && sum is Ok,
        layout_of(boot, sum) is Ok ==> layout_of(boot, sum)->Ok_0 == 4096,
{
}

/// A checkpoint has as many roots as it says, and its number stands in its head.
pub proof fn law_checkpoints_have_all_their_roots(page: Seq<u8>, i: int)
    requires
        checkpoint_of(page) is Ok,
        0 <= i < bytes::le_of(page, 0x90, 4),
    ensures
        ({
            let (number, roots) = checkpoint_of(page)->Ok_0;
            let offset = bytes::le_of(page, 0x94, 4) as int;
            let at = bytes::le_of(page, offset + 4 * i, 4) as int;
            &&& number == bytes::le_of(page, 0x60, 8)
            &&& roots.len() == bytes::le_of(page, 0x90, 4)
            &&& roots.len() >= 8
            &&& roots[i].lcns.0 == bytes::le_of(page, at, 8)
            &&& roots[i].hash == bytes::le_of(page, at + 40, 8)
        }),
{
    let offset = bytes::le_of(page, 0x94, 4) as int;
    let n = bytes::le_of(page, 0x90, 4);
    bytes::lemma_spans();
    bytes::lemma_le_bound(page, 0x60, 8);
    lemma_roots(page, offset, n, i);
    let at = bytes::le_of(page, offset + 4 * i, 4) as int;
    law_references_name_clusters_and_sum(page.subrange(at, at + 48));
    bytes::lemma_number_in_part(page, at, at + 48, 0, 8);
    bytes::lemma_number_in_part(page, at, at + 48, 40, 8);
}

proof fn lemma_roots(page: Seq<u8>, offset: int, n: nat, i: int)
    requires
        0 <= i < n,
        roots_of(page, offset, n) is Ok,
    ensures
        ({
            let roots = roots_of(page, offset, n)->Ok_0;
            let at = bytes::le_of(page, offset + 4 * i, 4) as int;
            &&& roots.len() == n
            &&& 0 <= at && at + 48 <= page.len()
            &&& reference_of(page.subrange(at, at + 48)) == Ok::<BlockRef, RefsError>(roots[i])
        }),
    decreases n,
{
    reveal_with_fuel(roots_of, 2);
    let m = (n - 1) as nat;
    if m > 0 {
        lemma_roots(page, offset, m, if i < m {
            i
        } else {
            0
        });
    }
}

/// The superblock leads to two checkpoints, in clusters from the start of the volume, and is
/// taken only with its mark and its own checksum.
pub proof fn law_the_superblock_leads_to_checkpoints(sup: Seq<u8>, cluster: int)
    requires
        cluster > 0,
        checkpoints_of(sup, cluster) is Ok,
    ensures
        ({
            let (first, second) = checkpoints_of(sup, cluster)->Ok_0;
            let array = bytes::le_of(sup, 0x70, 4) as int;
            &&& sup[0] == 0x53 && sup[1] == 0x55 && sup[2] == 0x50 && sup[3] == 0x42
            &&& first == bytes::le_of(sup, array, 8) * cluster
            &&& second == bytes::le_of(sup, array + 8, 8) * cluster
            &&& bytes::le_of(sup, 0x74, 4) == 2
            &&& self_fault(
                sup,
                bytes::le_of(sup, 0x78, 4) as int,
                bytes::le_of(sup, 0x7c, 4) as int,
                cluster,
            ) is None
        }),
{
    let array = bytes::le_of(sup, 0x70, 4) as int;
    let a = bytes::le_of(sup, array, 8) as int;
    let b = bytes::le_of(sup, array + 8, 8) as int;
    assert(0 <= a * cluster && 0 <= b * cluster) by (nonlinear_arith)
        requires
            a >= 0,
            b >= 0,
            cluster > 0,
    ;
}

/// Of the checkpoints that can be used, the newest counts: none that can be used has a higher
/// number.
pub proof fn law_the_newest_checkpoint_counts(
    pages: Seq<Vec<u8>>,
    cluster: int,
    i: int,
    k: int,
)
    requires
        is_newest(pages, cluster, i),
        0 <= k < pages.len(),
        usable(pages[k]@, cluster),
        pages[k]@.len() >= 0x68,
        pages[i]@.len() >= 0x68,
    ensures
        bytes::le_of(pages[k]@, 0x60, 8) <= bytes::le_of(pages[i]@, 0x60, 8),
        pages[i]@[0] == 0x43 && pages[i]@[1] == 0x48 && pages[i]@[2] == 0x4b && pages[i]@[3] == 0x50,
        self_fault(
            pages[i]@,
            bytes::le_of(pages[i]@, 0x58, 4) as int,
            bytes::le_of(pages[i]@, 0x5c, 4) as int,
            cluster,
        ) is None,
{
    bytes::lemma_spans();
    bytes::lemma_le_bound(pages[k]@, 0x60, 8);
    bytes::lemma_le_bound(pages[i]@, 0x60, 8);
}

/// A boot sector is taken only whole and with both of its names, and tells its version and
/// the size of a cluster, the product of sector size and sectors per cluster.
pub proof fn law_boot_sectors_carry_their_names(b: Seq<u8>)
    ensures
        boot_result(b) is Ok <==> b.len() >= 512 && b[3] == 'R' as u8 && b[4] == 'e' as u8 && b[5]
            == 'F' as u8 && b[6] == 'S' as u8 && b[16] == 'F' as u8 && b[17] == 'S' as u8 && b[18]
            == 'R' as u8 && b[19] == 'S' as u8,
        boot_result(b) matches Ok(boot) ==> {
            let sector = b[32] + 0x100 * b[33] + 0x1_0000 * b[34] + 0x100_0000 * b[35];
            let sectors = b[36] + 0x100 * b[37] + 0x1_0000 * b[38] + 0x100_0000 * b[39];
            &&& boot.cluster == sector * sectors
            &&& boot.major == b[40]
            &&& boot.minor == b[41]
        },
        b.len() < 512 ==> boot_result(b) == Err::<Boot, RefsError>(
            RefsError::BootShort(b.len() as u64),
        ),
{
    bytes::law_low_bytes_come_first(b, 32);
    bytes::law_low_bytes_come_first(b, 36);
    let x = bytes::le_of(b, 32, 4) as int;
    let y = bytes::le_of(b, 36, 4) as int;
    assert(0 <= x * y <= 0xffff_ffff * 0xffff_ffff) by (nonlinear_arith)
        requires
            0 <= x <= 0xffff_ffff,
            0 <= y <= 0xffff_ffff,
    ;
}

/// One step of the sum over a boot sector keeps different sums apart, and different bytes.
#[verifier::spinoff_prover]
proof fn lemma_boot_step(v: u16, w: u16, x: u8, y: u8)
    ensures
        (v % 2 * 0x8000 + v / 2 + x) % 0x1_0000 == (w % 2 * 0x8000 + w / 2 + x) % 0x1_0000 ==> v
            == w,
        (v % 2 * 0x8000 + v / 2 + x) % 0x1_0000 == (v % 2 * 0x8000 + v / 2 + y) % 0x1_0000 ==> x
            == y,
        0 <= (v % 2 * 0x8000 + v / 2 + x) % 0x1_0000 < 0x1_0000,
{
    let a: int = v % 2 * 0x8000 + v / 2;
    let b: int = w % 2 * 0x8000 + w / 2;
    assert(0 <= v / 2 < 0x8000 && 0 <= w / 2 < 0x8000);
    assert(v == 2 * (v / 2) + v % 2);
    assert(w == 2 * (w / 2) + w % 2);
    assert(v % 2 == 0 || v % 2 == 1);
    assert(w % 2 == 0 || w % 2 == 1);
    assert(0 <= a < 0x1_0000 && 0 <= b < 0x1_0000);
    if (a + x) % 0x1_0000 == (b + x) % 0x1_0000 {
        assert(a == b);
    }
    if (a + x) % 0x1_0000 == (a + y) % 0x1_0000 {
        assert(x == y);
    }
}

#[verifier::spinoff_prover]
proof fn lemma_boot_sum_apart(a: Seq<u8>, b: Seq<u8>, at: int, n: int)
    requires
        a.len() == b.len() >= 512,
        3 <= at < 512,
        at != 22 && at != 23,
        at < n <= 512,
        a[at] != b[at],
        forall|i: int| 0 <= i < 512 && i != at ==> a[i] == b[i],
    ensures
        boot_sum(a, n) != boot_sum(b, n),
    decreases n,
{
    let v = boot_sum(a, n - 1);
    let w = boot_sum(b, n - 1);
    lemma_boot_step(v, w, a[n - 1], b[n - 1]);
    lemma_boot_step(w, v, a[n - 1], b[n - 1]);
    if n - 1 == at {
        lemma_boot_sum_same(a, b, n - 1);
        assert(v == w);
    } else {
        lemma_boot_sum_apart(a, b, at, n - 1);
        assert(a[n - 1] == b[n - 1]);
        assert(v != w);
    }
}

#[verifier::spinoff_prover]
proof fn lemma_boot_sum_same(a: Seq<u8>, b: Seq<u8>, n: int)
    requires
        n <= 512,
        forall|i: int| 3 <= i < n && i != 22 && i != 23 ==> a[i] == b[i],
    ensures
        boot_sum(a, n) == boot_sum(b, n),
    decreases n,
{
    if n > 3 {
        lemma_boot_sum_same(a, b, n - 1);
    }
}

/// The sum over a boot sector shows every change of one byte, but for the three bytes before
/// its name and the two that hold the sum itself, which do not count.
pub proof fn law_a_changed_boot_byte_is_noticed(a: Seq<u8>, b: Seq<u8>, at: int)
    requires
        a.len() == b.len() >= 512,
        0 <= at < 512,
        a[at] != b[at],
        forall|i: int| 0 <= i < 512 && i != at ==> a[i] == b[i],
    ensures
        boot_sum(a, 512) == boot_sum(b, 512) <==> at < 3 || at == 22 || at == 23,
{
    if at < 3 || at == 22 || at == 23 {
        lemma_boot_sum_same(a, b, 512);
    } else {
        lemma_boot_sum_apart(a, b, at, 512);
    }
}

/// A boot sector that was read again stands only if its sum is the one that was told first.
pub proof fn law_boot_sectors_agree_with_their_sum(first: Seq<u8>, again: Seq<u8>)
    requires
        boot_of(first) is Ok,
    ensures
        sum_result(first, again) is Ok <==> again.len() >= 512 && boot_sum(again, 512) == first[22]
            + 0x100 * first[23],
{
    bytes::law_low_bytes_come_first(first, 22);
}

/// A reference is refused only if it is short, names no cluster, or names no known sum.
pub proof fn law_references_are_refused_for_cause(b: Seq<u8>)
    ensures
        reference_of(b) == Err::<BlockRef, RefsError>(RefsError::ShortReference) <==> b.len() < 48,
        reference_of(b) == Err::<BlockRef, RefsError>(RefsError::EmptyReference) <==> b.len() >= 48
            && bytes::le_of(b, 0, 8) == 0,
        reference_of(b) is Ok <==> b.len() >= 48 && bytes::le_of(b, 0, 8) != 0 && b[35] == 8
            && b[37] == 0 && (b[34] == 1 && b[36] == 4 || b[34] == 2 && b[36] == 8),
{
    bytes::law_low_bytes_come_first(b, 36);
    bytes::lemma_spans();
    bytes::lemma_le_bound(b, 0, 8);
}

/// A row is refused only if its length, its key or its value does not lie within it, behind
/// its head; a row that is marked as deleted is passed over.
pub proof fn law_rows_are_refused_for_cause(b: Seq<u8>, start: int)
    requires
        0 <= start,
        start + 4 <= b.len(),
    ensures
        ({
            let length = b[start] + 0x100 * b[start + 1] + 0x1_0000 * b[start + 2] + 0x100_0000
                * b[start + 3];
            let key = b[start + 4] + 0x100 * b[start + 5];
            let key_len = b[start + 6] + 0x100 * b[start + 7];
            let value = b[start + 10] + 0x100 * b[start + 11];
            let value_len = b[start + 12] + 0x100 * b[start + 13] + 0x1_0000 * b[start + 14]
                + 0x100_0000 * b[start + 15];
            let fits = length >= 16 && start + length <= b.len();
            let deleted = deleted_row(bytes::le_of(b, start + 8, 2) as u16);
            let apart = (key_len == 0 || key >= 16) && (value_len == 0 || value >= 16);
            let r = row_at(b, start);
            &&& r == Err::<Option<Row>, RefsError>(RefsError::RowLength) <==> !fits
            &&& r == Ok::<Option<Row>, RefsError>(None) <==> fits && deleted
            &&& r == Err::<Option<Row>, RefsError>(RefsError::RowOverlap) <==> fits && !deleted
                && !apart
            &&& r == Err::<Option<Row>, RefsError>(RefsError::KeyOutside) <==> fits && !deleted
                && apart && key + key_len > length
            &&& r == Err::<Option<Row>, RefsError>(RefsError::ValueOutside) <==> fits && !deleted
                && apart && key + key_len <= length && value + value_len > length
        }),
{
    bytes::law_low_bytes_come_first(b, start);
    bytes::law_low_bytes_come_first(b, start + 4);
    bytes::law_low_bytes_come_first(b, start + 6);
    bytes::law_low_bytes_come_first(b, start + 10);
    bytes::law_low_bytes_come_first(b, start + 12);
}

/// A volume is read exactly if its boot sector is sound, its version is the known one, its
/// clusters have the known size, and its sum agrees.
pub proof fn law_layouts_are_refused_for_cause(
    boot: Result<Boot, RefsError>,
    sum: Result<(), RefsError>,
)
    ensures
        layout_of(boot, sum) is Ok <==> boot is Ok && boot->Ok_0.major == 3 && boot->Ok_0.minor
            == 14 && boot->Ok_0.cluster == 0x1000 && sum is Ok,
        layout_of(boot, sum) matches Ok(n) ==> n == boot->Ok_0.cluster,
        boot is Err ==> layout_of(boot, sum) == Err::<u64, RefsError>(boot->Err_0),
{
}

/// A checkpoint is refused for its array of roots exactly if it has fewer than eight or more
/// than 64 of them, or the array does not lie within the page.
pub proof fn law_root_arrays_lie_within_the_page(page: Seq<u8>)
    requires
        page.len() >= 0x98,
    ensures
        ({
            let n = page[0x90] + 0x100 * page[0x91] + 0x1_0000 * page[0x92] + 0x100_0000
                * page[0x93];
            let offset = page[0x94] + 0x100 * page[0x95] + 0x1_0000 * page[0x96] + 0x100_0000
                * page[0x97];
            &&& n < 8 || n > 64 || offset + 4 * n > page.len() ==> checkpoint_of(page) == Err::<
                (u64, Seq<BlockRef>),
                RefsError,
            >(RefsError::RootArray)
            &&& checkpoint_of(page) is Ok ==> 8 <= n <= 64 && offset + 4 * n <= page.len()
        }),
{
    bytes::law_low_bytes_come_first(page, 0x90);
    bytes::law_low_bytes_come_first(page, 0x94);
}

} // verus!
