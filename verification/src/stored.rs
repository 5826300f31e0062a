//! Scans as they are written to a file, and read from one. The fields of a scan are encoded
//! one after the other, and the encoding is framed with its digest.
use crate::frame;
use crate::frame::{FrameError, Schema};
use crate::legacy;
use crate::legacy::{LegacyNodeV2, LegacySnapshotV2, UpgradeError};
use crate::links;
use crate::links::SnapshotError;
use crate::model;
use crate::model::{Node, ScanStats, Snapshot};
use crate::platform::VolumeInfo;
use crate::text;
use crate::wide::Wide;
use vstd::prelude::*;
use vstd::string::*;

verus! {

/// The fields of a node, in the order in which they are stored.
pub type NodeRow = (u64, u64, i64, i64, u32, u32, u32, u32, u16, u16, u32, u32);

/// The fields of a node of the second format.
pub type OldRow = (u64, u64, i64, u32, u32, u32, u32, u16, u16, u32, u32);

/// The fields of a volume.
pub type VolumeRow = (String, String, String, u32, u64, u64, u32);

/// The figures of a scan.
pub type StatsRow = (String, u64, u64, u64, u64, u64, u64, bool, u64, u64, Vec<String>);

/// The fields of a scan.
pub type ScanRow = (u32, String, VolumeRow, StatsRow, Vec<NodeRow>, Vec<u16>);

/// The fields of a scan of the second format.
pub type OldScanRow = (u32, String, VolumeRow, StatsRow, Vec<OldRow>, Vec<u16>);

/// The fields of a volume in mathematical terms.
pub type VolumeV = (Seq<char>, Seq<char>, Seq<char>, u32, u64, u64, u32);

/// The figures of a scan in mathematical terms.
pub type StatsV = (Seq<char>, u64, u64, u64, u64, u64, u64, bool, u64, u64, Seq<Seq<char>>);

/// The fields of a scan in mathematical terms.
pub type ScanV = (u32, Seq<char>, VolumeV, StatsV, Seq<NodeRow>, Seq<u16>);

/// The fields of a scan of the second format in mathematical terms.
pub type OldScanV = (u32, Seq<char>, VolumeV, StatsV, Seq<OldRow>, Seq<u16>);

pub open spec fn volume_row_v(r: VolumeRow) -> VolumeV {
    (r.0@, r.1@, r.2@, r.3, r.4, r.5, r.6)
}

pub open spec fn stats_row_v(r: StatsRow) -> StatsV {
    (r.0@, r.1, r.2, r.3, r.4, r.5, r.6, r.7, r.8, r.9, text::views(r.10@))
}

pub open spec fn scan_row_v(r: ScanRow) -> ScanV {
    (r.0, r.1@, volume_row_v(r.2), stats_row_v(r.3), r.4@, r.5@)
}

pub open spec fn old_scan_row_v(r: OldScanRow) -> OldScanV {
    (r.0, r.1@, volume_row_v(r.2), stats_row_v(r.3), r.4@, r.5@)
}

/// The encoding of a scan.
pub uninterp spec fn scan_payload(v: ScanV) -> Seq<u8>;

/// The scan that some bytes encode, if they encode one.
pub uninterp spec fn payload_scan(b: Seq<u8>) -> Option<ScanV>;

/// The scan of the second format that some bytes encode, if they encode one.
pub uninterp spec fn payload_old_scan(b: Seq<u8>) -> Option<OldScanV>;

/// `bincode::serialize`: the fields one after the other, numbers in their full width with
/// the lowest byte first, texts and lists after their lengths. It fails neither at a length,
/// which a text and a list have, nor at a limit or a write, since a vector takes any bytes;
/// and `bincode::deserialize` gives back what was encoded.
#[verifier::external_body]
fn encode(r: &ScanRow) -> (b: Option<Vec<u8>>)
    ensures
        b is Some,
        b->0@ == scan_payload(scan_row_v(*r)),
        payload_scan(b->0@) == Some(scan_row_v(*r)),
{
    bincode::serialize(r).ok()
}

/// `bincode::deserialize`: the fields of a scan from the front of the bytes. What follows
/// them is left unread.
#[verifier::external_body]
fn decode(b: &[u8]) -> (r: Option<ScanRow>)
    ensures
        r matches Some(row) ==> payload_scan(b@) == Some(scan_row_v(row)),
        r is None ==> payload_scan(b@) is None,
{
    bincode::deserialize(b).ok()
}

/// `bincode::deserialize`: the fields of a scan of the second format from the front of the
/// bytes.
#[verifier::external_body]
fn decode_old(b: &[u8]) -> (r: Option<OldScanRow>)
    ensures
        r matches Some(row) ==> payload_old_scan(b@) == Some(old_scan_row_v(row)),
        r is None ==> payload_old_scan(b@) is None,
{
    bincode::deserialize(b).ok()
}

pub open spec fn node_row(n: Node) -> NodeRow {
    (
        n.logical,
        n.allocated,
        n.oldest_modified_ms,
        n.latest_modified_ms,
        n.parent,
        n.first_child,
        n.next_sibling,
        n.name_start,
        n.name_len,
        n.flags,
        n.files,
        n.dirs,
    )
}

pub open spec fn row_node(r: NodeRow) -> Node {
    Node {
        logical: r.0,
        allocated: r.1,
        oldest_modified_ms: r.2,
        latest_modified_ms: r.3,
        parent: r.4,
        first_child: r.5,
        next_sibling: r.6,
        name_start: r.7,
        name_len: r.8,
        flags: r.9,
        files: r.10,
        dirs: r.11,
    }
}

pub open spec fn row_old_node(r: OldRow) -> LegacyNodeV2 {
    LegacyNodeV2 {
        logical: r.0,
        allocated: r.1,
        oldest_modified_ms: r.2,
        parent: r.3,
        first_child: r.4,
        next_sibling: r.5,
        name_start: r.6,
        name_len: r.7,
        flags: r.8,
        files: r.9,
        dirs: r.10,
    }
}

pub open spec fn rows_of(nodes: Seq<Node>) -> Seq<NodeRow> {
    nodes.map_values(|n: Node| node_row(n))
}

pub open spec fn nodes_of(rows: Seq<NodeRow>) -> Seq<Node> {
    rows.map_values(|r: NodeRow| row_node(r))
}

pub open spec fn old_nodes_of(rows: Seq<OldRow>) -> Seq<LegacyNodeV2> {
    rows.map_values(|r: OldRow| row_old_node(r))
}

/// The nodes of rows are what the rows were made of.
pub proof fn lemma_rows(nodes: Seq<Node>)
    ensures
        nodes_of(rows_of(nodes)) == nodes,
{
    assert(nodes_of(rows_of(nodes)) =~= nodes);
}

pub open spec fn volume_v(v: VolumeInfo) -> VolumeV {
    (
        v.root@,
        v.device@,
        v.filesystem@,
        v.serial,
        v.total_bytes,
        v.free_bytes,
        v.cluster_bytes,
    )
}

pub open spec fn stats_v(s: ScanStats) -> StatsV {
    (
        s.backend@,
        s.started_unix,
        s.elapsed_ms,
        s.threads as u64,
        s.records_read,
        s.raw_bytes_read,
        s.errors,
        s.complete,
        s.peak_working_set_bytes,
        s.index_bytes,
        text::views(s.warnings@),
    )
}

/// A scan in mathematical terms.
pub open spec fn scan_v(s: Snapshot) -> ScanV {
    (
        s.version,
        s.root.words(),
        volume_v(s.volume),
        stats_v(s.stats),
        rows_of(s.nodes@),
        s.names@,
    )
}

/// The units are those of a text: no surrogate stands alone.
pub open spec fn proper(w: Wide) -> bool {
    w@ == text::utf16_of(w.words())
}

/// Why a scan cannot be written.
#[derive(Clone, Copy, Debug, PartialEq, Eq, Structural)]
pub enum SaveError {
    /// A surrogate stands alone in the path of its root.
    ImproperPath,
}

impl SaveError {
    pub fn message(self) -> (r: &'static str)
        ensures
            r@ == "path contains invalid UTF-8 characters"@,
    {
        "path contains invalid UTF-8 characters"
    }
}

/// Why a file does not give a scan.
#[derive(Clone, Copy, Debug, PartialEq, Eq, Structural)]
pub enum LoadError {
    Frame(FrameError),
    /// The payload is not the encoding of a scan.
    Unreadable,
    /// More nodes than can be numbered.
    TooLarge,
    Upgrade(UpgradeError),
    Invalid(SnapshotError),
}

impl LoadError {
    pub open spec fn words(self) -> Seq<char> {
        match self {
            LoadError::Frame(e) => e.words(),
            LoadError::Unreadable => "the snapshot cannot be decoded"@,
            LoadError::TooLarge => "scan index exceeds 32-bit compact limits"@,
            LoadError::Upgrade(e) => e.words(),
            LoadError::Invalid(e) => e.words(),
        }
    }

    /// What is told of it.
    pub fn message(self) -> (r: String)
        ensures
            r@ == self.words(),
    {
        match self {
            LoadError::Frame(e) => e.message().to_owned(),
            LoadError::Unreadable => "the snapshot cannot be decoded".to_owned(),
            LoadError::TooLarge => "scan index exceeds 32-bit compact limits".to_owned(),
            LoadError::Upgrade(e) => e.message(),
            LoadError::Invalid(e) => e.message(),
        }
    }
}

/// The scan that a payload of the current format gives.
pub open spec fn payload_verdict(b: Seq<u8>) -> Result<ScanV, LoadError> {
    match payload_scan(b) {
        None => Err(LoadError::Unreadable),
        Some(v) => if v.3.3 > usize::MAX {
            Err(LoadError::Unreadable)
        } else if v.4.len() > u32::MAX {
            Err(LoadError::TooLarge)
        } else {
            match links::verdict(v.0, nodes_of(v.4), v.5.len()) {
                Err(e) => Err(LoadError::Invalid(e)),
                Ok(_) => Ok(v),
            }
        },
    }
}

/// The scan that a file of the current format gives.
pub open spec fn loaded(file: Seq<u8>) -> Result<ScanV, LoadError> {
    match frame::file_verdict(file) {
        Err(e) => Err(LoadError::Frame(e)),
        Ok(_) => payload_verdict(frame::payload_of(file)),
    }
}

/// `s` is the scan `v` of the second format brought forward; the size of its index is
/// counted anew.
pub open spec fn brought_forward(v: OldScanV, s: Snapshot) -> bool {
    &&& s.version == 3
    &&& s.root@ == text::utf16_of(v.1)
    &&& volume_v(s.volume) == v.2
    &&& stats_v(s.stats) == (
        v.3.0,
        v.3.1,
        v.3.2,
        v.3.3,
        v.3.4,
        v.3.5,
        v.3.6,
        v.3.7,
        v.3.8,
        s.stats.index_bytes,
        v.3.10,
    )
    &&& s.stats.index_bytes >= model::index_size_of(s.nodes@.len() as int, s.names@.len() as int)
    &&& legacy::redated(legacy::all_carried(old_nodes_of(v.4)), s.nodes@)
    &&& s.names@ == v.5
}

/// What comes of a file of the second format.
pub open spec fn old_outcome(b: Seq<u8>, r: Result<Snapshot, LoadError>) -> bool {
    match payload_old_scan(b) {
        None => r == Err::<Snapshot, LoadError>(LoadError::Unreadable),
        Some(v) => if v.3.3 > usize::MAX {
            r == Err::<Snapshot, LoadError>(LoadError::Unreadable)
        } else if v.4.len() > u32::MAX {
            r == Err::<Snapshot, LoadError>(LoadError::TooLarge)
        } else if v.0 != 2 {
            r == Err::<Snapshot, LoadError>(LoadError::Upgrade(UpgradeError::InvalidSchema))
        } else {
            let carried = legacy::all_carried(old_nodes_of(v.4));
            match links::verdict(3, carried, v.5.len()) {
                Err(e) => r == Err::<Snapshot, LoadError>(
                    LoadError::Upgrade(UpgradeError::Invalid(e)),
                ),
                Ok(_) => match r {
                    Ok(s) => brought_forward(v, s) && links::verdict(3, s.nodes@, v.5.len()) is Ok,
                    Err(e) => exists|nodes: Seq<Node>| #[trigger]
                        legacy::redated(carried, nodes) && (match links::verdict(
                            3,
                            nodes,
                            v.5.len(),
                        ) {
                            Err(f) => e == LoadError::Invalid(f),
                            Ok(_) => false,
                        }),
                },
            }
        },
    }
}

fn to_stats(s: &ScanStats) -> (r: StatsRow)
    ensures
        stats_row_v(r) == stats_v(*s),
{
    let mut warnings: Vec<String> = Vec::new();
    let mut i: usize = 0;
    while i < s.warnings.len()
        invariant
            i <= s.warnings@.len(),
            text::views(warnings@) == text::views(s.warnings@).subrange(0, i as int),
        decreases s.warnings@.len() - i,
    {
        let ghost had = warnings@;
        let one: String = s.warnings[i].clone();
        warnings.push(one);
        proof {
            assert(text::views(warnings@) =~= text::views(had).push(one@));
            assert(text::views(s.warnings@)[i as int] == one@);
            assert(text::views(warnings@) =~= text::views(s.warnings@).subrange(0, i + 1));
        }
        i += 1;
    }
    assert(text::views(s.warnings@).subrange(0, i as int) =~= text::views(s.warnings@));
    (
        s.backend.clone(),
        s.started_unix,
        s.elapsed_ms,
        s.threads as u64,
        s.records_read,
        s.raw_bytes_read,
        s.errors,
        s.complete,
        s.peak_working_set_bytes,
        s.index_bytes,
        warnings,
    )
}

fn to_rows(nodes: &Vec<Node>) -> (r: Vec<NodeRow>)
    ensures
        r@ == rows_of(nodes@),
{
    let mut out: Vec<NodeRow> = Vec::new();
    let mut i: usize = 0;
    while i < nodes.len()
        invariant
            i <= nodes@.len(),
            out@ == rows_of(nodes@.subrange(0, i as int)),
        decreases nodes@.len() - i,
    {
        let n: Node = nodes[i];
        out.push(
            (
                n.logical,
                n.allocated,
                n.oldest_modified_ms,
                n.latest_modified_ms,
                n.parent,
                n.first_child,
                n.next_sibling,
                n.name_start,
                n.name_len,
                n.flags,
                n.files,
                n.dirs,
            ),
        );
        i += 1;
        assert(out@ =~= rows_of(nodes@.subrange(0, i as int)));
    }
    assert(nodes@.subrange(0, i as int) =~= nodes@);
    out
}

fn to_nodes(rows: &Vec<NodeRow>) -> (r: Vec<Node>)
    ensures
        r@ == nodes_of(rows@),
{
    let mut out: Vec<Node> = Vec::new();
    let mut i: usize = 0;
    while i < rows.len()
        invariant
            i <= rows@.len(),
            out@ == nodes_of(rows@.subrange(0, i as int)),
        decreases rows@.len() - i,
    {
        let r: NodeRow = rows[i];
        out.push(
            Node {
                logical: r.0,
                allocated: r.1,
                oldest_modified_ms: r.2,
                latest_modified_ms: r.3,
                parent: r.4,
                first_child: r.5,
                next_sibling: r.6,
                name_start: r.7,
                name_len: r.8,
                flags: r.9,
                files: r.10,
                dirs: r.11,
            },
        );
        i += 1;
        assert(out@ =~= nodes_of(rows@.subrange(0, i as int)));
    }
    assert(rows@.subrange(0, i as int) =~= rows@);
    out
}

fn to_old_nodes(rows: &Vec<OldRow>) -> (r: Vec<LegacyNodeV2>)
    ensures
        r@ == old_nodes_of(rows@),
{
    let mut out: Vec<LegacyNodeV2> = Vec::new();
    let mut i: usize = 0;
    while i < rows.len()
        invariant
            i <= rows@.len(),
            out@ == old_nodes_of(rows@.subrange(0, i as int)),
        decreases rows@.len() - i,
    {
        let r: OldRow = rows[i];
        out.push(
            LegacyNodeV2 {
                logical: r.0,
                allocated: r.1,
                oldest_modified_ms: r.2,
                parent: r.3,
                first_child: r.4,
                next_sibling: r.5,
                name_start: r.6,
                name_len: r.7,
                flags: r.8,
                files: r.9,
                dirs: r.10,
            },
        );
        i += 1;
        assert(out@ =~= old_nodes_of(rows@.subrange(0, i as int)));
    }
    assert(rows@.subrange(0, i as int) =~= rows@);
    out
}

fn to_volume(r: VolumeRow) -> (v: VolumeInfo)
    ensures
        volume_v(v) == volume_row_v(r),
{
    VolumeInfo {
        root: r.0,
        device: r.1,
        filesystem: r.2,
        serial: r.3,
        total_bytes: r.4,
        free_bytes: r.5,
        cluster_bytes: r.6,
    }
}

fn from_stats(r: StatsRow) -> (s: ScanStats)
    requires
        r.3 <= usize::MAX,
    ensures
        stats_v(s) == stats_row_v(r),
{
    ScanStats {
        backend: r.0,
        started_unix: r.1,
        elapsed_ms: r.2,
        threads: r.3 as usize,
        records_read: r.4,
        raw_bytes_read: r.5,
        errors: r.6,
        complete: r.7,
        peak_working_set_bytes: r.8,
        index_bytes: r.9,
        warnings: r.10,
    }
}

impl Snapshot {
    /// The file of a scan. A scan that is sound is read back from it as it was, unless the
    /// file is too large to be read.
    pub fn save(&self) -> (r: Result<Vec<u8>, SaveError>)
        ensures
            match r {
                Err(_) => !proper(self.root),
                Ok(b) => {
                    &&& proper(self.root)
                    &&& b@ == frame::framed(scan_payload(scan_v(*self)))
                    &&& payload_scan(frame::payload_of(b@)) == Some(scan_v(*self))
                    &&& b@.len() <= frame::MAX_FILE && self.nodes@.len() <= u32::MAX
                        && links::verdict(self.version, self.nodes@, self.names@.len()) is Ok
                        ==> loaded(b@) == Ok::<ScanV, LoadError>(scan_v(*self))
                        && frame::file_verdict(b@) == Ok::<Schema, FrameError>(Schema::V3)
                },
            },
    {
        let root: String = self.root.to_text();
        let units: Vec<u16> = text::utf16(&root);
        if !text::same_units(&units, &self.root.units) {
            return Err(SaveError::ImproperPath);
        }
        let mut names: Vec<u16> = Vec::new();
        names.extend_from_slice(self.names.as_slice());
        assert(names@ =~= self.names@);
        let row: ScanRow = (
            self.version,
            root,
            (
                self.volume.root.clone(),
                self.volume.device.clone(),
                self.volume.filesystem.clone(),
                self.volume.serial,
                self.volume.total_bytes,
                self.volume.free_bytes,
                self.volume.cluster_bytes,
            ),
            to_stats(&self.stats),
            to_rows(&self.nodes),
            names,
        );
        assert(scan_row_v(row) == scan_v(*self));
        let payload: Vec<u8> = encode(&row).unwrap();
        let b: Vec<u8> = frame::frame(&payload);
        proof {
            lemma_rows(self.nodes@);
            assert(b@.len() == payload@.len() + frame::HEADER) by {
                assert(frame::payload_of(b@).len() == payload@.len());
            }
        }
        Ok(b)
    }

    /// The scan that a file holds, held against its digest and its own links.
    pub fn load(file: &[u8]) -> (r: Result<Snapshot, LoadError>)
        ensures
            frame::file_verdict(file@) != Ok::<Schema, FrameError>(Schema::V2) ==> match (
                r,
                loaded(file@),
            ) {
                (Ok(s), Ok(v)) => scan_v(s) == v && proper(s.root),
                (Err(e), Err(f)) => e == f,
                _ => false,
            },
            frame::file_verdict(file@) == Ok::<Schema, FrameError>(Schema::V2) ==> old_outcome(
                frame::payload_of(file@),
                r,
            ),
    {
        let (schema, payload): (Schema, &[u8]) = match frame::unframe(file) {
            Ok(found) => found,
            Err(e) => {
                return Err(LoadError::Frame(e));
            },
        };
        match schema {
            Schema::V2 => load_old(payload),
            Schema::V3 => load_current(payload),
        }
    }
}

fn load_current(payload: &[u8]) -> (r: Result<Snapshot, LoadError>)
    ensures
        match (r, payload_verdict(payload@)) {
            (Ok(s), Ok(v)) => scan_v(s) == v && proper(s.root),
            (Err(e), Err(f)) => e == f,
            _ => false,
        },
{
    let row: ScanRow = match decode(payload) {
        Some(row) => row,
        None => {
            return Err(LoadError::Unreadable);
        },
    };
    let ghost v = scan_row_v(row);
    if row.3.3 > usize::MAX as u64 {
        return Err(LoadError::Unreadable);
    }
    if row.4.len() > u32::MAX as usize {
        return Err(LoadError::TooLarge);
    }
    let s = Snapshot {
        version: row.0,
        root: Wide::of(&row.1),
        nodes: to_nodes(&row.4),
        volume: to_volume(row.2),
        stats: from_stats(row.3),
        names: row.5,
    };
    proof {
        assert(rows_of(s.nodes@) =~= v.4);
        assert(scan_v(s) == v);
    }
    match s.validate() {
        Ok(()) => Ok(s),
        Err(e) => Err(LoadError::Invalid(e)),
    }
}

fn load_old(payload: &[u8]) -> (r: Result<Snapshot, LoadError>)
    ensures
        old_outcome(payload@, r),
{
    let row: OldScanRow = match decode_old(payload) {
        Some(row) => row,
        None => {
            return Err(LoadError::Unreadable);
        },
    };
    let ghost v = old_scan_row_v(row);
    if row.3.3 > usize::MAX as u64 {
        return Err(LoadError::Unreadable);
    }
    if row.4.len() > u32::MAX as usize {
        return Err(LoadError::TooLarge);
    }
    let old = LegacySnapshotV2 {
        version: row.0,
        root: Wide::of(&row.1),
        nodes: to_old_nodes(&row.4),
        volume: to_volume(row.2),
        stats: from_stats(row.3),
        names: row.5,
    };
    let ghost carried = legacy::all_carried(old_nodes_of(v.4));
    assert(old.carried() == carried);
    let s: Snapshot = match old.upgrade() {
        Ok(s) => s,
        Err(e) => {
            return Err(LoadError::Upgrade(e));
        },
    };
    assert(brought_forward(v, s));
    assert(s.nodes@.len() == carried.len());
    match s.validate() {
        Ok(()) => Ok(s),
        Err(e) => {
            assert(legacy::redated(carried, s.nodes@));
            Err(LoadError::Invalid(e))
        },
    }
}

/// A file that gives a scan gives none once something is added to its end, unless the longer
/// payload has the digest of the shorter one.
pub proof fn law_lengthened_scan_is_refused(file: Seq<u8>, more: Seq<u8>)
    requires
        loaded(file) is Ok,
        frame::blake3_of(frame::payload_of(file) + more) != frame::blake3_of(
            frame::payload_of(file),
        ),
    ensures
        loaded(file + more) is Err,
        loaded(file + more)->Err_0 is Frame,
{
    frame::law_lengthened_file_is_refused(file, more);
}

/// Every field of a node is stored, and comes back as it was.
pub proof fn law_stored_nodes_come_back(nodes: Seq<Node>, i: int)
    requires
        0 <= i < nodes.len(),
    ensures
        nodes_of(rows_of(nodes)) == nodes,
        rows_of(nodes)[i].0 == nodes[i].logical,
        rows_of(nodes)[i].1 == nodes[i].allocated,
        rows_of(nodes)[i].2 == nodes[i].oldest_modified_ms,
        rows_of(nodes)[i].3 == nodes[i].latest_modified_ms,
        rows_of(nodes)[i].4 == nodes[i].parent,
        rows_of(nodes)[i].8 == nodes[i].name_len,
        rows_of(nodes)[i].9 == nodes[i].flags,
        rows_of(nodes)[i].10 == nodes[i].files,
        rows_of(nodes)[i].11 == nodes[i].dirs,
{
    let back = nodes_of(rows_of(nodes));
    assert forall|k: int| 0 <= k < nodes.len() implies #[trigger] back[k] == nodes[k] by {
        assert(rows_of(nodes)[k] == node_row(nodes[k]));
    }
    assert(back =~= nodes);
}

/// What is stored of a scan tells its root, its volume, when it began, whether it is
/// complete, and its warnings.
pub proof fn law_stored_scans_tell_where_and_when(s: Snapshot)
    ensures
        scan_v(s).0 == s.version,
        scan_v(s).1 == s.root.words(),
        scan_v(s).2.0 == s.volume.root@,
        scan_v(s).2.2 == s.volume.filesystem@,
        scan_v(s).2.4 == s.volume.total_bytes,
        scan_v(s).2.5 == s.volume.free_bytes,
        scan_v(s).3.1 == s.stats.started_unix,
        scan_v(s).3.6 == s.stats.errors,
        scan_v(s).3.7 == s.stats.complete,
        scan_v(s).3.10 == text::views(s.stats.warnings@),
        scan_v(s).5 == s.names@,
{
}

/// A stored scan is taken only if it is framed whole and its nodes form one tree with names
/// and times in order.
pub proof fn law_only_sound_scans_are_loaded(file: Seq<u8>)
    requires
        loaded(file) is Ok,
    ensures
        ({
            let v = loaded(file)->Ok_0;
            &&& frame::file_verdict(file) is Ok
            &&& payload_scan(frame::payload_of(file)) == Some(v)
            &&& v.0 == 3
            &&& v.4.len() > 0
        }),
{
    let v = loaded(file)->Ok_0;
    assert(nodes_of(v.4).len() == v.4.len());
}

/// A stored node of the second format is read field by field.
pub proof fn law_old_rows_tell_their_node(r: OldRow)
    ensures
        row_old_node(r).logical == r.0,
        row_old_node(r).allocated == r.1,
        row_old_node(r).oldest_modified_ms == r.2,
        row_old_node(r).parent == r.3,
        row_old_node(r).first_child == r.4,
        row_old_node(r).next_sibling == r.5,
        row_old_node(r).name_start == r.6,
        row_old_node(r).name_len == r.7,
        row_old_node(r).flags == r.8,
        row_old_node(r).files == r.9,
        row_old_node(r).dirs == r.10,
{
}

/// A scan of the second format that is brought forward keeps the sizes, counts and names of
/// every entry, its root and its volume.
pub proof fn law_old_scans_keep_their_entries(v: OldScanV, s: Snapshot, i: int)
    requires
        brought_forward(v, s),
        0 <= i < v.4.len(),
    ensures
        s.nodes@.len() == v.4.len(),
        s.nodes@[i].logical == v.4[i].0,
        s.nodes@[i].allocated == v.4[i].1,
        s.nodes@[i].parent == v.4[i].3,
        s.nodes@[i].name_len == v.4[i].7,
        s.nodes@[i].flags == v.4[i].8,
        s.nodes@[i].files == v.4[i].9,
        s.nodes@[i].dirs == v.4[i].10,
        s.names@ == v.5,
        s.version == 3,
        s.volume.root@ == v.2.0,
{
    let before = legacy::all_carried(old_nodes_of(v.4));
    legacy::law_only_folder_times_change(before, s.nodes@, i);
    assert(old_nodes_of(v.4)[i] == row_old_node(v.4[i]));
    assert(before[i] == legacy::carried_over(old_nodes_of(v.4)[i]));
    assert(volume_v(s.volume).0 == v.2.0);
}

/// A scan of the old format is loaded only if it says that it is of the second version, and
/// is then of the third; its place and its names stay.
pub proof fn law_only_the_second_version_is_brought_forward(b: Seq<u8>, s: Snapshot)
    requires
        old_outcome(b, Ok(s)),
    ensures
        payload_old_scan(b) is Some,
        ({
            let v = payload_old_scan(b)->0;
            &&& v.0 == 2
            &&& s.version == 3
            &&& s.names@ == v.5
            &&& s.root@ == text::utf16_of(v.1)
            &&& v.4.len() <= 0xffff_ffff
        }),
{
}

} // verus!
