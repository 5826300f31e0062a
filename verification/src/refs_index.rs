//! Indexing what the directory trees of a ReFS volume hold.
use crate::bytes;
use crate::growth;
use crate::growth::{Growing, Item};
use crate::keyed;
use crate::model;
use crate::model::{PushError, Snapshot, DIR, HARDLINK, INCOMPLETE, REPARSE};
use crate::platform;
use crate::platform::VolumeInfo;
use crate::refs;
use crate::refs::{has_named_stream, RefsError};
use crate::refs_tree;
use crate::refs_tree::root_directory;
use crate::text;
use crate::wide;
use crate::wide::Wide;
use ahash::AHashSet;
use vstd::prelude::*;
use vstd::string::*;

verus! {

/// One entry of a directory. What has streams or names besides its own is to be asked for
/// by its path.
#[derive(Debug)]
pub struct Entry {
    pub name: Vec<u16>,
    pub object: u128,
    pub logical: u64,
    pub allocated: u64,
    pub mtime: Option<i64>,
    pub flags: u16,
    pub kernel_check: bool,
}

#[verifier::ext_equal]
pub struct EntryV {
    pub name: Seq<u16>,
    pub object: u128,
    pub logical: u64,
    pub allocated: u64,
    pub mtime: Option<i64>,
    pub flags: u16,
    pub kernel_check: bool,
}

impl View for Entry {
    type V = EntryV;

    open spec fn view(&self) -> EntryV {
        EntryV {
            name: self.name@,
            object: self.object,
            logical: self.logical,
            allocated: self.allocated,
            mtime: self.mtime,
            flags: self.flags,
            kernel_check: self.kernel_check,
        }
    }
}

/// What the standard information of a file says.
#[derive(Clone, Copy, Debug, PartialEq, Eq, Structural)]
pub struct Information {
    pub written: i64,
    pub attributes: u32,
    pub logical: u64,
    pub allocated: u64,
    pub object: u64,
}

pub open spec fn information_of(b: Seq<u8>) -> Information {
    Information {
        written: bytes::signed_le_of(b, 8, 8) as i64,
        attributes: bytes::le_of(b, 32, 4) as u32,
        logical: bytes::le_of(b, 48, 8) as u64,
        allocated: bytes::le_of(b, 56, 8) as u64,
        object: bytes::le_of(b, 96, 8) as u64,
    }
}

/// `librefs::metadata::StandardInformation::parse`: from at least 128 bytes it takes the
/// last write at offset 8, the attributes at 32, the two lengths at 48 and 56, and the
/// identity at 96, of which the first half is handed on.
#[verifier::external_body]
fn read_information(b: &[u8]) -> (r: Option<Information>)
    requires
        b@.len() >= 128,
    ensures
        r == Some(information_of(b@)),
{
    match librefs::metadata::StandardInformation::parse(b) {
        Ok(si) => Some(
            Information {
                written: si.last_write_time.get() as i64,
                attributes: si.attributes.0,
                logical: si.end_of_file,
                allocated: si.allocation_size,
                object: u64::from_le_bytes([
                    si.object_id[0], si.object_id[1], si.object_id[2], si.object_id[3],
                    si.object_id[4], si.object_id[5], si.object_id[6], si.object_id[7],
                ]),
            },
        ),
        Err(_) => None,
    }
}

/// A name that can stand in a path.
pub open spec fn plain(name: Seq<u16>) -> bool {
    name.len() > 0 && !name.contains(0) && !name.contains(47) && !name.contains(92)
}

pub open spec fn leads_elsewhere(attributes: u32) -> bool {
    attributes & 0x400 != 0
}

pub open spec fn directory_bit(attributes: u32) -> bool {
    attributes & 0x1000_0000 != 0
}

pub open spec fn reparse_flag(attributes: u32) -> u16 {
    if leads_elsewhere(attributes) {
        REPARSE
    } else {
        0
    }
}

/// The identity of a file: that of its directory, with its own first half.
pub open spec fn file_object(parent: u128, low: u64) -> u128 {
    (parent / 0x1_0000_0000_0000_0000 * 0x1_0000_0000_0000_0000 + low) as u128
}

/// A directory or one of several names of a file.
pub open spec fn short_entry(name: Seq<u16>, value: Seq<u8>) -> Result<EntryV, RefsError> {
    let attributes = bytes::le_of(value, 64, 4) as u32;
    let directory = bytes::le_of(value, 0, 8) == 0;
    if value.len() < 72 {
        Err(RefsError::ShortEntry)
    } else if directory != directory_bit(attributes) {
        Err(RefsError::EntryType)
    } else {
        Ok(
            EntryV {
                name,
                object: bytes::id_of(value, 0)->0,
                logical: bytes::le_of(value, 48, 8) as u64,
                allocated: bytes::le_of(value, 56, 8) as u64,
                mtime: platform::unix_ms(bytes::signed_le_of(value, 24, 8) as i64),
                flags: (if directory {
                    DIR
                } else {
                    HARDLINK
                }) | reparse_flag(attributes),
                kernel_check: !directory,
            },
        )
    }
}

/// A file of one name.
pub open spec fn file_entry(name: Seq<u16>, value: Seq<u8>, parent: u128) -> Result<
    EntryV,
    RefsError,
> {
    let base = bytes::le_of(value, 4, 2) as int;
    let end = bytes::le_of(value, 0, 4) as int;
    if !bytes::within(value, 4, 2) {
        Err(RefsError::TruncatedU16)
    } else if !(base >= 8 && end >= base + 128 && end <= value.len()) {
        Err(RefsError::InformationBounds)
    } else {
        let si = information_of(value.subrange(base, end));
        match refs::named_stream(value) {
            Err(e) => Err(e),
            Ok(named) => Ok(
                EntryV {
                    name,
                    object: file_object(parent, si.object),
                    logical: si.logical,
                    allocated: si.allocated,
                    mtime: platform::unix_ms(si.written),
                    flags: reparse_flag(si.attributes),
                    kernel_check: named,
                },
            ),
        }
    }
}

/// The entry in a row of a directory; other rows are no entries.
pub open spec fn entry_of(key: Seq<u8>, value: Seq<u8>, parent: u128) -> Result<
    Option<EntryV>,
    RefsError,
> {
    let name = bytes::units_of(key.subrange(4, key.len() as int));
    let kind = bytes::le_of(key, 2, 2);
    if key.len() < 4 || bytes::le_of(key, 0, 2) != 0x30 {
        Ok(None)
    } else if key.len() % 2 != 0 {
        Err(RefsError::OddName)
    } else if !plain(name) {
        Err(RefsError::FileName)
    } else if kind == 2 {
        match short_entry(name, value) {
            Err(e) => Err(e),
            Ok(v) => Ok(Some(v)),
        }
    } else if kind == 1 {
        match file_entry(name, value, parent) {
            Err(e) => Err(e),
            Ok(v) => Ok(Some(v)),
        }
    } else {
        Err(RefsError::EntryKind(kind as u16))
    }
}

fn is_plain(name: &Vec<u16>) -> (r: bool)
    ensures
        r == plain(name@),
{
    if name.len() == 0 {
        return false;
    }
    let mut i: usize = 0;
    while i < name.len()
        invariant
            i <= name@.len(),
            forall|k: int|
                0 <= k < i ==> #[trigger] name@[k] != 0 && name@[k] != 47 && name@[k] != 92,
        decreases name@.len() - i,
    {
        let u: u16 = name[i];
        if u == 0 || u == 47 || u == 92 {
            assert(name@.contains(u)) by {
                assert(name@[i as int] == u);
            }
            return false;
        }
        i += 1;
    }
    true
}

fn read_short(name: Vec<u16>, value: &[u8]) -> (r: Result<Entry, RefsError>)
    ensures
        match (r, short_entry(name@, value@)) {
            (Ok(e), Ok(v)) => e@ == v,
            (Err(e), Err(f)) => e == f,
            _ => false,
        },
{
    if value.len() < 72 {
        return Err(RefsError::ShortEntry);
    }
    proof {
        bytes::lemma_spans();
        bytes::lemma_le_bound(value@, 64, 4);
    }
    let attributes: u32 = bytes::le(value, 64, 4) as u32;
    let directory: bool = bytes::le(value, 0, 8) == 0;
    if directory != (attributes & 0x1000_0000 != 0) {
        return Err(RefsError::EntryType);
    }
    let object: u128 = match bytes::idat(value, 0) {
        Some(id) => id,
        None => 0,
    };
    let flags: u16 = (if directory {
        DIR
    } else {
        HARDLINK
    }) | (if attributes & 0x400 != 0 {
        REPARSE
    } else {
        0
    });
    Ok(
        Entry {
            name,
            object,
            logical: bytes::le(value, 48, 8),
            allocated: bytes::le(value, 56, 8),
            mtime: platform::modified_unix_ms(bytes::signed_le(value, 24, 8)),
            flags,
            kernel_check: !directory,
        },
    )
}

fn read_file(name: Vec<u16>, value: &[u8], parent: u128) -> (r: Result<Entry, RefsError>)
    ensures
        match (r, file_entry(name@, value@, parent)) {
            (Ok(e), Ok(v)) => e@ == v,
            (Err(e), Err(f)) => e == f,
            _ => false,
        },
{
    if value.len() < 6 {
        return Err(RefsError::TruncatedU16);
    }
    proof {
        bytes::lemma_spans();
        bytes::lemma_le_bound(value@, 4, 2);
        bytes::lemma_le_bound(value@, 0, 4);
    }
    let base: usize = bytes::le(value, 4, 2) as usize;
    let end: usize = bytes::le(value, 0, 4) as usize;
    if !(base >= 8 && end >= base + 128 && end <= value.len()) {
        return Err(RefsError::InformationBounds);
    }
    let si: Information = match read_information(&value[base..end]) {
        None => {
            return Err(RefsError::StandardInformation);
        },
        Some(si) => si,
    };
    let kernel_check: bool = match has_named_stream(value) {
        Err(e) => {
            return Err(e);
        },
        Ok(named) => named,
    };
    let object: u128 = parent / 0x1_0000_0000_0000_0000 * 0x1_0000_0000_0000_0000
        + si.object as u128;
    Ok(
        Entry {
            name,
            object,
            logical: si.logical,
            allocated: si.allocated,
            mtime: platform::modified_unix_ms(si.written),
            flags: if si.attributes & 0x400 != 0 {
                REPARSE
            } else {
                0
            },
            kernel_check,
        },
    )
}

/// Reads the entry in a row of the directory `parent`.
pub fn entry(key: &[u8], value: &[u8], parent: u128) -> (r: Result<Option<Entry>, RefsError>)
    ensures
        match (r, entry_of(key@, value@, parent)) {
            (Ok(None), Ok(None)) => true,
            (Ok(Some(e)), Ok(Some(v))) => e@ == v,
            (Err(e), Err(f)) => e == f,
            _ => false,
        },
{
    if key.len() < 4 || bytes::le(key, 0, 2) != 0x30 {
        return Ok(None);
    }
    if key.len() % 2 != 0 {
        return Err(RefsError::OddName);
    }
    let name: Vec<u16> = bytes::units(&key[4..key.len()]);
    if !is_plain(&name) {
        return Err(RefsError::FileName);
    }
    proof {
        bytes::lemma_spans();
        bytes::lemma_le_bound(key@, 2, 2);
    }
    let kind: u16 = bytes::le(key, 2, 2) as u16;
    if kind == 2 {
        match read_short(name, value) {
            Err(e) => Err(e),
            Ok(e) => Ok(Some(e)),
        }
    } else if kind == 1 {
        match read_file(name, value, parent) {
            Err(e) => Err(e),
            Ok(e) => Ok(Some(e)),
        }
    } else {
        Err(RefsError::EntryKind(kind))
    }
}

/// What asking for an entry by its path gave.
#[derive(Debug)]
pub enum Answer {
    Known { length: u64, allocated: u64, modified: i64 },
    Unknown(String),
}

/// A directory still to be walked, and its node.
#[derive(Clone, Copy, Debug, PartialEq, Eq, Structural)]
pub struct Job {
    pub parent: u32,
    pub object: u128,
}

/// An index in the making.
#[verifier::ext_equal]
pub struct RefsV {
    pub g: Growing,
    pub links: Set<(u64, u128)>,
    pub dirs: Set<(u64, u128)>,
    pub verified: u64,
}

/// What is known of an entry once it was asked for.
pub open spec fn settled(e: EntryV, a: Answer) -> EntryV {
    if !e.kernel_check {
        e
    } else {
        match a {
            Answer::Known { length, allocated, modified } => EntryV {
                logical: length,
                allocated,
                mtime: platform::unix_ms(modified),
                ..e
            },
            Answer::Unknown(_) => EntryV { flags: e.flags | INCOMPLETE, ..e },
        }
    }
}

pub open spec fn unknown_text(path: Seq<char>, error: Seq<char>) -> Seq<char> {
    "complex stream metadata "@ + path + ": "@ + error
}

/// The snapshot after asking for an entry.
pub open spec fn asked(g: Growing, dir: Seq<u16>, e: EntryV, a: Answer) -> Growing {
    match a {
        Answer::Unknown(error) => if e.kernel_check {
            growth::warned(
                g,
                unknown_text(text::utf16_text(wide::pushed(dir, e.name)), error@),
            )
        } else {
            g
        },
        _ => g,
    }
}

pub open spec fn shared(flags: u16) -> bool {
    flags & HARDLINK != 0
}

/// A directory that leads nowhere else.
pub open spec fn descends(flags: u16) -> bool {
    flags & DIR != 0 && flags & REPARSE == 0
}

pub open spec fn push_fault(e: PushError) -> RefsError {
    match e {
        PushError::TooLarge => RefsError::TooLarge,
        PushError::OverlongName => RefsError::OverlongName,
    }
}

/// What is indexed of an entry: the space of a file of several names counts at the first.
pub open spec fn item_of(v: RefsV, parent: u32, e: EntryV) -> Item {
    Item {
        parent,
        name: e.name,
        logical: e.logical,
        allocated: if shared(e.flags) && v.links.contains((0, e.object)) {
            0
        } else {
            e.allocated
        },
        flags: e.flags,
        mtime: e.mtime,
    }
}

/// The index with one entry more.
pub open spec fn with_entry(v: RefsV, parent: u32, dir: Seq<u16>, e: EntryV, a: Answer) -> Result<
    RefsV,
    RefsError,
> {
    let f = settled(e, a);
    match growth::grown(asked(v.g, dir, e, a), item_of(v, parent, f)) {
        Err(x) => Err(push_fault(x)),
        Ok(g) => if descends(f.flags) && v.dirs.contains((0, f.object)) {
            Err(RefsError::DirectoryTwice)
        } else {
            Ok(
                RefsV {
                    g,
                    links: if shared(f.flags) {
                        v.links.insert((0, f.object))
                    } else {
                        v.links
                    },
                    dirs: if descends(f.flags) {
                        v.dirs.insert((0, f.object))
                    } else {
                        v.dirs
                    },
                    verified: if e.kernel_check && a is Known {
                        (v.verified + 1) as u64
                    } else {
                        v.verified
                    },
                },
            )
        },
    }
}

/// The index with the first `n` entries of a directory more.
pub open spec fn with_entries(
    v: RefsV,
    parent: u32,
    dir: Seq<u16>,
    entries: Seq<Entry>,
    answers: Seq<Answer>,
    n: nat,
) -> Result<RefsV, RefsError>
    decreases n,
{
    if n == 0 {
        Ok(v)
    } else {
        match with_entries(v, parent, dir, entries, answers, (n - 1) as nat) {
            Err(e) => Err(e),
            Ok(w) => with_entry(w, parent, dir, entries[n - 1]@, answers[n - 1]),
        }
    }
}

/// The directories among the first `n` entries; the first entry gets node `at`.
pub open spec fn jobs_of(entries: Seq<Entry>, answers: Seq<Answer>, at: nat, n: nat) -> Seq<Job>
    decreases n,
{
    if n == 0 {
        Seq::empty()
    } else {
        let f = settled(entries[n - 1]@, answers[n - 1]);
        let before = jobs_of(entries, answers, at, (n - 1) as nat);
        if descends(f.flags) {
            before.push(Job { parent: (at + n - 1) as u32, object: f.object })
        } else {
            before
        }
    }
}

proof fn lemma_entries_stop(
    v: RefsV,
    parent: u32,
    dir: Seq<u16>,
    entries: Seq<Entry>,
    answers: Seq<Answer>,
    m: nat,
    n: nat,
)
    requires
        m <= n,
        with_entries(v, parent, dir, entries, answers, m) is Err,
    ensures
        with_entries(v, parent, dir, entries, answers, n) == with_entries(
            v,
            parent,
            dir,
            entries,
            answers,
            m,
        ),
    decreases n,
{
    if m < n {
        lemma_entries_stop(v, parent, dir, entries, answers, m, (n - 1) as nat);
    }
}

/// The bytes of an identity, the least significant first.
pub open spec fn identity_bytes(object: u128, n: nat) -> Seq<Seq<char>>
    decreases n,
{
    if n == 0 {
        Seq::empty()
    } else {
        seq![text::hex_of((object % 256) as nat)] + identity_bytes(object / 256, (n - 1) as nat)
    }
}

/// The warning that a directory could not be read.
pub open spec fn directory_text(object: u128, error: Seq<char>) -> Seq<char> {
    "ReFS directory ["@ + text::joined_by(identity_bytes(object, 16), ", "@) + "]: "@ + error
}

pub fn directory_warning(object: u128, error: &str) -> (r: String)
    ensures
        r@ == directory_text(object, error@),
{
    let mut list: Vec<String> = Vec::new();
    let mut rest: u128 = object;
    let mut i: usize = 0;
    assert(text::views(list@) + identity_bytes(rest, 16) =~= identity_bytes(object, 16));
    while i < 16
        invariant
            i <= 16,
            text::views(list@) + identity_bytes(rest, (16 - i) as nat) == identity_bytes(
                object,
                16,
            ),
        decreases 16 - i,
    {
        let ghost had = list@;
        let one: String = text::hex((rest % 256) as u64);
        list.push(one);
        proof {
            let left = (16 - i) as nat;
            assert(text::views(list@) =~= text::views(had).push(one@));
            assert(text::views(list@) + identity_bytes(rest / 256, (left - 1) as nat)
                =~= text::views(had) + identity_bytes(rest, left));
        }
        rest = rest / 256;
        i += 1;
    }
    assert(text::views(list@) =~= identity_bytes(object, 16));
    let inner: String = text::join_by(&list, ", ");
    let head: String = text::glue("ReFS directory [", &inner);
    text::glue(&text::glue(&head, "]: "), error)
}

/// The closing remarks on a scan.
pub open spec fn summary_text(checkpoint: u64, verified: u64) -> Seq<char> {
    "ReFS 3.14 checkpoint "@ + text::decimal_of(checkpoint as nat)
        + ": raw superblock/container/object/directory B+trees; metadata-page CRC verified. "@
        + text::decimal_of(verified as nat)
        + " complex ADS/hardlink entries additionally checked by exact path; no filesystem name enumeration."@
}

pub open spec fn live_text() -> Seq<char> {
    "Live COW checkpoint, not a frozen volume. Reparse targets are not followed; shared/cloned blocks make allocated size an upper bound, not exclusive reclaimable space."@
}

/// The index of a ReFS scan.
pub struct RefsIndex {
    snapshot: Snapshot,
    hardlinks: AHashSet<(u64, u128)>,
    directories: AHashSet<(u64, u128)>,
    verified: u64,
}

impl RefsIndex {
    pub closed spec fn scan(&self) -> Snapshot {
        self.snapshot
    }

    pub closed spec fn model(&self) -> RefsV {
        RefsV {
            g: self.snapshot.growing(),
            links: keyed::objects_in(self.hardlinks),
            dirs: keyed::objects_in(self.directories),
            verified: self.verified,
        }
    }

    /// As many records as entries were added to the root, each below one that came before.
    pub open spec fn sound(&self) -> bool {
        &&& self.scan().stats.records_read + 1 == self.scan().nodes@.len()
        &&& self.model().g == self.scan().growing()
        &&& self.scan().building()
        &&& model::parents_inside(self.scan().nodes@)
        &&& self.model().verified <= self.scan().stats.records_read
    }

    /// The path of a directory that was indexed.
    pub open spec fn path_of(&self, id: u32) -> Seq<u16> {
        model::path_at(
            self.scan().root@,
            self.scan().nodes@,
            self.scan().names@,
            id,
            self.scan().nodes@.len(),
        )
    }

    pub fn new(root: Wide, volume: VolumeInfo, threads: usize, started_unix: u64) -> (r: Self)
        ensures
            r.sound(),
            r.scan().version == 3,
            r.scan().root == root,
            r.scan().volume == volume,
            r.scan().stats.backend@ == "refs-raw-btree+librefs"@,
            r.scan().stats.threads == threads,
            r.scan().stats.started_unix == started_unix,
            growth::unread(r.scan()),
            r.model() == (RefsV {
                g: Growing {
                    nodes: seq![model::added_node(model::NONE, 0, 0, 0, 0, DIR)],
                    names: Seq::empty(),
                    errors: 0,
                    complete: true,
                    warnings: Seq::empty(),
                },
                links: Set::empty(),
                dirs: Set::<(u64, u128)>::empty().insert((0, refs_tree::directory_number(0x600))),
                verified: 0,
            }),
    {
        let snapshot: Snapshot = Snapshot::new(
            root,
            volume,
            "refs-raw-btree+librefs",
            threads,
            started_unix,
        );
        let mut directories: AHashSet<(u64, u128)> = keyed::no_objects();
        let _ = keyed::add_object(&mut directories, (0, root_directory()));
        let r = RefsIndex { snapshot, hardlinks: keyed::no_objects(), directories, verified: 0 };
        proof {
            assert(r.snapshot.names@ =~= Seq::<u16>::empty());
            assert(text::views(r.snapshot.stats.warnings@) =~= Seq::<Seq<char>>::empty());
        }
        r
    }

    /// The path of the directory with node `id`.
    pub fn path(&self, id: u32) -> (r: Wide)
        requires
            self.sound(),
            id < self.scan().nodes@.len(),
        ensures
            r@ == self.path_of(id),
    {
        self.snapshot.path(id)
    }

    /// Notes that something could not be read.
    pub fn warn(&mut self, t: String)
        requires
            old(self).sound(),
        ensures
            final(self).sound(),
            growth::same_scan(final(self).scan(), old(self).scan()),
            final(self).model() == (RefsV {
                g: growth::warned(old(self).model().g, t@),
                ..old(self).model()
            }),
    {
        growth::add_warning(&mut self.snapshot, t);
    }

    fn take(&mut self, parent: u32, dir: &Wide, e: &Entry, a: &Answer) -> (r: Result<u32, RefsError>)
        requires
            old(self).sound(),
            parent < old(self).scan().nodes@.len(),
        ensures
            match (r, with_entry(old(self).model(), parent, dir@, e@, *a)) {
                (Ok(id), Ok(v)) => {
                    &&& final(self).sound()
                    &&& final(self).model() == v
                    &&& id == old(self).scan().nodes@.len()
                    &&& final(self).scan().nodes@.len() == id + 1
                    &&& growth::same_source(final(self).scan(), old(self).scan())
                },
                (Err(x), Err(f)) => x == f,
                _ => false,
            },
    {
        let ghost v = self.model();
        let mut logical: u64 = e.logical;
        let mut allocated: u64 = e.allocated;
        let mut mtime: Option<i64> = e.mtime;
        let mut flags: u16 = e.flags;
        if e.kernel_check {
            match a {
                Answer::Known { length, allocated: space, modified } => {
                    logical = *length;
                    allocated = *space;
                    mtime = platform::modified_unix_ms(*modified);
                    self.verified = self.verified + 1;
                },
                Answer::Unknown(error) => {
                    let path: String = dir.join(&e.name).to_text();
                    let head: String = text::glue("complex stream metadata ", &path);
                    let t: String = text::glue(&text::glue(&head, ": "), error);
                    growth::add_warning(&mut self.snapshot, t);
                    flags = flags | INCOMPLETE;
                },
            }
        }
        if flags & HARDLINK != 0 {
            if !keyed::add_object(&mut self.hardlinks, (0, e.object)) {
                allocated = 0;
            }
        }
        let ghost before = self.snapshot.nodes@;
        assert(self.snapshot.growing() == asked(v.g, dir@, e@, *a));
        let id: u32 = match growth::add_item(
            &mut self.snapshot,
            parent,
            &e.name,
            logical,
            allocated,
            flags,
            mtime,
        ) {
            Err(x) => {
                return Err(
                    match x {
                        PushError::TooLarge => RefsError::TooLarge,
                        PushError::OverlongName => RefsError::OverlongName,
                    },
                );
            },
            Ok(id) => id,
        };
        self.snapshot.stats.records_read = self.snapshot.stats.records_read + 1;
        if flags & DIR != 0 && flags & REPARSE == 0 {
            if !keyed::add_object(&mut self.directories, (0, e.object)) {
                return Err(RefsError::DirectoryTwice);
            }
        }
        proof {
            let nodes = self.snapshot.nodes@;
            assert forall|i: int| 0 <= i < nodes.len() implies (#[trigger] nodes[i]).parent
                == model::NONE || nodes[i].parent < nodes.len() by {
                if i < before.len() {
                    assert(nodes[i] == before[i]);
                }
            }
        }
        Ok(id)
    }

    /// Adds entries of the directory with node `parent`, with what asking for each gave, and
    /// gives the directories among them. An answer counts only for an entry that is to be
    /// asked for.
    pub fn take_batch(&mut self, parent: u32, entries: &Vec<Entry>, answers: &Vec<Answer>) -> (r: Result<
        Vec<Job>,
        RefsError,
    >)
        requires
            old(self).sound(),
            parent < old(self).scan().nodes@.len(),
            answers@.len() == entries@.len(),
        ensures
            match (
                r,
                with_entries(
                    old(self).model(),
                    parent,
                    old(self).path_of(parent),
                    entries@,
                    answers@,
                    entries@.len(),
                ),
            ) {
                (Ok(jobs), Ok(v)) => {
                    &&& final(self).sound()
                    &&& final(self).model() == v
                    &&& jobs@ == jobs_of(
                        entries@,
                        answers@,
                        old(self).scan().nodes@.len(),
                        entries@.len(),
                    )
                    &&& final(self).scan().nodes@.len() == old(self).scan().nodes@.len()
                        + entries@.len()
                    &&& growth::same_source(final(self).scan(), old(self).scan())
                },
                (Err(e), Err(f)) => e == f,
                _ => false,
            },
    {
        let ghost v0 = self.model();
        let ghost first = self.scan();
        let ghost at = first.nodes@.len();
        let dir: Wide = self.path(parent);
        let mut jobs: Vec<Job> = Vec::new();
        let mut i: usize = 0;
        while i < entries.len()
            invariant
                i <= entries@.len(),
                answers@.len() == entries@.len(),
                self.sound(),
                v0 == old(self).model(),
                first == old(self).scan(),
                dir@ == old(self).path_of(parent),
                at == first.nodes@.len(),
                parent < at,
                self.scan().nodes@.len() == at + i,
                growth::same_source(self.scan(), first),
                with_entries(v0, parent, dir@, entries@, answers@, i as nat) == Ok::<
                    RefsV,
                    RefsError,
                >(self.model()),
                jobs@ == jobs_of(entries@, answers@, at, i as nat),
            decreases entries@.len() - i,
        {
            let e: &Entry = &entries[i];
            let a: &Answer = &answers[i];
            match self.take(parent, &dir, e, a) {
                Err(x) => {
                    proof {
                        lemma_entries_stop(
                            v0,
                            parent,
                            dir@,
                            entries@,
                            answers@,
                            (i + 1) as nat,
                            entries@.len(),
                        );
                    }
                    return Err(x);
                },
                Ok(id) => {
                    let flags: u16 = match a {
                        Answer::Unknown(_) => if e.kernel_check {
                            e.flags | INCOMPLETE
                        } else {
                            e.flags
                        },
                        _ => e.flags,
                    };
                    if flags & DIR != 0 && flags & REPARSE == 0 {
                        jobs.push(Job { parent: id, object: e.object });
                    }
                },
            }
            i += 1;
        }
        Ok(jobs)
    }

    /// The tables hold what they hold in room for so many nodes, name units and directories.
    pub open spec fn held_in(&self, nodes: usize, names: usize, directories: usize) -> bool {
        self.scan().held_in(nodes, names) && directories >= self.model().dirs.len()
    }

    /// Whether the memory in use exceeds the limit; `objects` and `containers` are the room
    /// of the two tables. What counts is the room that the tables have, and so at least what
    /// they hold; how much more it is depends on how they grew.
    pub fn over_budget(&self, objects: u64, containers: u64, limit: u64) -> (r: bool)
        ensures
            exists|nodes: usize, names: usize, directories: usize| #[trigger]
                self.held_in(nodes, names, directories) && r == (metadata_need(
                    model::index_size_of(nodes as int, names as int),
                    directories as int,
                    objects as int,
                    containers as int,
                ) > limit),
            metadata_need(
                model::index_size_of(
                    self.scan().nodes@.len() as int,
                    self.scan().names@.len() as int,
                ),
                self.model().dirs.len() as int,
                objects as int,
                containers as int,
            ) > limit ==> r,
    {
        let index: u64 = self.snapshot.index_bytes();
        let directories: usize = keyed::object_room(&self.directories);
        proof {
            let (nodes, names) = choose|nodes: usize, names: usize| #[trigger]
                self.snapshot.held_in(nodes, names) && index == model::index_size_of(
                    nodes as int,
                    names as int,
                );
            assert(self.held_in(nodes, names, directories));
        }
        exceeds_budget(index, directories as u64, objects, containers, limit)
    }

    /// Ends the scan: the snapshot, ready to be finished.
    pub fn close(self, raw_bytes: u64, checkpoint: u64) -> (r: Snapshot)
        requires
            self.sound(),
        ensures
            r.building(),
            r.stats.raw_bytes_read == raw_bytes,
            r.growing() == growth::remarked(
                growth::remarked(
                    self.model().g,
                    summary_text(checkpoint, self.model().verified),
                ),
                live_text(),
            ),
            r.root == self.scan().root,
            r.volume == self.scan().volume,
            r.stats.backend == self.scan().stats.backend,
            r.stats.threads == self.scan().stats.threads,
            r.stats.started_unix == self.scan().stats.started_unix,
            r.stats.records_read == self.scan().stats.records_read,
            r.stats.elapsed_ms == self.scan().stats.elapsed_ms,
            r.stats.peak_working_set_bytes == self.scan().stats.peak_working_set_bytes,
            r.stats.index_bytes == self.scan().stats.index_bytes,
    {
        let mut snapshot: Snapshot = self.snapshot;
        snapshot.stats.raw_bytes_read = raw_bytes;
        let head: String = text::glue("ReFS 3.14 checkpoint ", &text::decimal(checkpoint));
        let middle: String = text::glue(
            &head,
            ": raw superblock/container/object/directory B+trees; metadata-page CRC verified. ",
        );
        let line: String = text::glue(
            &text::glue(&middle, &text::decimal(self.verified)),
            " complex ADS/hardlink entries additionally checked by exact path; no filesystem name enumeration.",
        );
        growth::add_remark(&mut snapshot, &line);
        growth::add_remark(
            &mut snapshot,
            "Live COW checkpoint, not a frozen volume. Reparse targets are not followed; shared/cloned blocks make allocated size an upper bound, not exclusive reclaimable space.",
        );
        snapshot
    }
}

/// A directory object is indexed as a directory at most once: once it is known, an entry
/// that leads to it again is refused.
pub proof fn law_no_directory_twice(v: RefsV, parent: u32, dir: Seq<u16>, e: EntryV, a: Answer)
    requires
        descends(settled(e, a).flags),
        v.dirs.contains((0, settled(e, a).object)),
    ensures
        with_entry(v, parent, dir, e, a) is Err,
{
}

/// The memory of a scan whose index takes so many bytes, and whose other tables have room
/// for so many directories, objects and containers.
pub open spec fn metadata_need(
    index: int,
    directories: int,
    objects: int,
    containers: int,
) -> int {
    index + directories * 32 + objects * 96 + containers * 24
}

/// The memory of a scan whose index takes so many bytes, and whose other tables have room
/// for so many directories, objects and containers; nothing if it cannot be counted.
pub fn metadata_bytes(index: u64, directories: u64, objects: u64, containers: u64) -> (r: Option<
    u64,
>)
    ensures
        ({
            let used = metadata_need(
                index as int,
                directories as int,
                objects as int,
                containers as int,
            );
            r == (if used <= u64::MAX {
                Some(used as u64)
            } else {
                None
            })
        }),
{
    let used: u128 = index as u128 + directories as u128 * 32 + objects as u128 * 96
        + containers as u128 * 24;
    if used <= 0xffff_ffff_ffff_ffff {
        Some(used as u64)
    } else {
        None
    }
}

/// Whether the memory of such a scan exceeds the limit.
pub fn exceeds_budget(
    index: u64,
    directories: u64,
    objects: u64,
    containers: u64,
    limit: u64,
) -> (r: bool)
    ensures
        r == (metadata_need(
            index as int,
            directories as int,
            objects as int,
            containers as int,
        ) > limit),
{
    match metadata_bytes(index, directories, objects, containers) {
        None => true,
        Some(used) => used > limit,
    }
}

proof fn lemma_flag_bits(x: u16)
    ensures
        (x | 16u16) & 4u16 == x & 4u16,
        (x | 16u16) & 1u16 == x & 1u16,
        (x | 16u16) & 2u16 == x & 2u16,
        (x | 64u16) & 4u16 == x & 4u16,
        (x | 64u16) & 1u16 == x & 1u16,
        (x | 64u16) & 2u16 == x & 2u16,
        (x & !64u16) & 4u16 == x & 4u16,
        (x & !64u16) & 1u16 == x & 1u16,
        (x & !64u16) & 2u16 == x & 2u16,
{
    assert((x | 16u16) & 4u16 == x & 4u16 && (x | 16u16) & 1u16 == x & 1u16 && (x | 16u16) & 2u16
        == x & 2u16 && (x | 64u16) & 4u16 == x & 4u16 && (x | 64u16) & 1u16 == x & 1u16 && (x
        | 64u16) & 2u16 == x & 2u16 && (x & !64u16) & 4u16 == x & 4u16 && (x & !64u16) & 1u16 == x
        & 1u16 && (x & !64u16) & 2u16 == x & 2u16) by (bit_vector);
}

/// An entry is indexed under its parent and name with the length, space and last write that
/// it has or, where it was to be asked for, that the answer gives. Only a later name of an
/// object of several names takes no space of its own. What was indexed before stays.
pub proof fn law_entries_keep_what_they_take(
    v: RefsV,
    parent: u32,
    dir: Seq<u16>,
    e: EntryV,
    a: Answer,
)
    requires
        with_entry(v, parent, dir, e, a) is Ok,
    ensures
        ({
            let w = with_entry(v, parent, dir, e, a)->Ok_0;
            let n = w.g.nodes.last();
            let known = e.kernel_check && a is Known;
            &&& w.g.nodes.len() == v.g.nodes.len() + 1
            &&& forall|i: int| 0 <= i < v.g.nodes.len() ==> #[trigger] w.g.nodes[i] == v.g.nodes[i]
            &&& n.parent == parent
            &&& w.g.names == v.g.names + e.name
            &&& n.name_start == v.g.names.len() && n.name_len == e.name.len()
            &&& n.logical == if known {
                a->length
            } else {
                e.logical
            }
            &&& n.allocated == if e.flags & 4 != 0 && v.links.contains((0, e.object)) {
                0
            } else if known {
                a->allocated
            } else {
                e.allocated
            }
            &&& n.flags & 1 == e.flags & 1
            &&& n.flags & 2 == e.flags & 2
            &&& n.flags & 4 == e.flags & 4
            &&& e.flags & 1 == 0 && !known ==> n.oldest_modified_ms == (match e.mtime {
                Some(t) => t,
                None => i64::MIN,
            })
            &&& e.flags & 1 == 0 && known && a->modified > 0 ==> n.oldest_modified_ms
                == a->modified as int / 10_000 - 11_644_473_600_000
            &&& e.kernel_check && a is Unknown ==> !w.g.complete
            &&& !(e.kernel_check && a is Unknown) ==> w.g.complete == v.g.complete && w.g.errors
                == v.g.errors
        }),
{
    let f = settled(e, a);
    lemma_flag_bits(e.flags);
    lemma_flag_bits(f.flags);
    if e.kernel_check && a is Known && a->modified > 0 {
        let m = a->modified as int;
        assert(i64::MIN <= m / 10_000 - 11_644_473_600_000 <= i64::MAX);
    }
}

/// The first name of an object of several names takes its space, and every later one none.
pub proof fn law_shared_objects_take_space_once(
    v: RefsV,
    parent: u32,
    dir: Seq<u16>,
    e: EntryV,
    a: Answer,
    other: u32,
    there: Seq<u16>,
    f: EntryV,
    b: Answer,
)
    requires
        with_entry(v, parent, dir, e, a) is Ok,
        with_entry(with_entry(v, parent, dir, e, a)->Ok_0, other, there, f, b) is Ok,
        e.flags & 4 != 0,
        f.flags & 4 != 0,
        e.object == f.object,
    ensures
        ({
            let w = with_entry(v, parent, dir, e, a)->Ok_0;
            with_entry(w, other, there, f, b)->Ok_0.g.nodes.last().allocated == 0
        }),
{
    let w = with_entry(v, parent, dir, e, a)->Ok_0;
    lemma_flag_bits(e.flags);
    law_entries_keep_what_they_take(w, other, there, f, b);
}

proof fn lemma_small_flags()
    ensures
        (1u16 | 2u16) & 1u16 == 1 && (1u16 | 2u16) & 2u16 == 2 && (1u16 | 2u16) & 4u16 == 0,
        (1u16 | 0u16) & 1u16 == 1 && (1u16 | 0u16) & 2u16 == 0 && (1u16 | 0u16) & 4u16 == 0,
        (4u16 | 2u16) & 1u16 == 0 && (4u16 | 2u16) & 2u16 == 2 && (4u16 | 2u16) & 4u16 == 4,
        (4u16 | 0u16) & 1u16 == 0 && (4u16 | 0u16) & 2u16 == 0 && (4u16 | 0u16) & 4u16 == 4,
        2u16 & 1u16 == 0 && 2u16 & 2u16 == 2 && 2u16 & 4u16 == 0,
        0u16 & 1u16 == 0 && 0u16 & 2u16 == 0 && 0u16 & 4u16 == 0,
{
    assert((1u16 | 2u16) & 1u16 == 1 && (1u16 | 2u16) & 2u16 == 2 && (1u16 | 2u16) & 4u16 == 0 && (
    1u16 | 0u16) & 1u16 == 1 && (1u16 | 0u16) & 2u16 == 0 && (1u16 | 0u16) & 4u16 == 0 && (4u16
        | 2u16) & 1u16 == 0 && (4u16 | 2u16) & 2u16 == 2 && (4u16 | 2u16) & 4u16 == 4 && (4u16
        | 0u16) & 1u16 == 0 && (4u16 | 0u16) & 2u16 == 0 && (4u16 | 0u16) & 4u16 == 4 && 2u16 & 1u16
        == 0 && 2u16 & 2u16 == 2 && 2u16 & 4u16 == 0 && 0u16 & 1u16 == 0 && 0u16 & 2u16 == 0 && 0u16
        & 4u16 == 0) by (bit_vector);
}

/// What a directory row says of a file is what its bytes hold: a row of the first kind
/// describes a file with its standard information behind it; a row of the second kind leads
/// to a directory, where its first number is zero, or to a file of several names.
pub proof fn law_entries_are_read_from_their_bytes(key: Seq<u8>, value: Seq<u8>, parent: u128)
    requires
        entry_of(key, value, parent) matches Ok(Some(_)),
    ensures
        ({
            let e = entry_of(key, value, parent)->Ok_0->0;
            let base = value[4] + 0x100 * value[5];
            let folder = bytes::le_of(value, 0, 8) == 0;
            let written = |t: int|
                if t <= 0 {
                    None
                } else {
                    Some((t / 10_000 - 11_644_473_600_000) as i64)
                };
            &&& key[0] == 0x30 && key[1] == 0
            &&& key[3] == 0 && (key[2] == 1 || key[2] == 2)
            &&& e.name.len() * 2 == key.len() - 4
            &&& forall|i: int|
                0 <= i < e.name.len() ==> #[trigger] e.name[i] == key[4 + 2 * i] + 0x100 * key[5 + 2
                    * i] && e.name[i] != 0 && e.name[i] != 0x2f && e.name[i] != 0x5c
            &&& key[2] == 1 ==> {
                &&& e.logical == bytes::le_of(value, base + 48, 8)
                &&& e.allocated == bytes::le_of(value, base + 56, 8)
                &&& e.mtime == written(bytes::signed_le_of(value, base + 8, 8))
                &&& e.object as int / 0x1_0000_0000_0000_0000 == parent as int
                    / 0x1_0000_0000_0000_0000
                &&& e.object as int % 0x1_0000_0000_0000_0000 == bytes::le_of(value, base + 96, 8)
                &&& e.flags & 1 == 0 && e.flags & 4 == 0
                &&& (e.flags & 2 != 0) == ((value[base + 33] / 4) % 2 == 1)
            }
            &&& key[2] == 2 ==> {
                &&& e.logical == bytes::le_of(value, 48, 8)
                &&& e.allocated == bytes::le_of(value, 56, 8)
                &&& e.mtime == written(bytes::signed_le_of(value, 24, 8))
                &&& e.object == bytes::le_of(value, 0, 8) + 0x1_0000_0000_0000_0000 * bytes::le_of(
                    value,
                    8,
                    8,
                )
                &&& (e.flags & 1 != 0) == folder
                &&& (e.flags & 4 != 0) == !folder
                &&& (e.flags & 2 != 0) == ((value[65] / 4) % 2 == 1)
                &&& e.kernel_check == !folder
            }
        }),
{
    let e = entry_of(key, value, parent)->Ok_0->0;
    bytes::lemma_spans();
    bytes::law_low_bytes_come_first(key, 0);
    bytes::law_low_bytes_come_first(key, 2);
    lemma_small_flags();
    let text = key.subrange(4, key.len() as int);
    assert forall|i: int| 0 <= i < e.name.len() implies #[trigger] e.name[i] == key[4 + 2 * i]
        + 0x100 * key[5 + 2 * i] && e.name[i] != 0 && e.name[i] != 0x2f && e.name[i] != 0x5c by {
        bytes::law_low_bytes_come_first(text, 2 * i);
        assert(text[2 * i] == key[4 + 2 * i] && text[2 * i + 1] == key[5 + 2 * i]);
        assert(e.name.contains(e.name[i]));
    }
    if key[2] == 1 {
        bytes::law_low_bytes_come_first(value, 4);
        let base = bytes::le_of(value, 4, 2) as int;
        let end = bytes::le_of(value, 0, 4) as int;
        let part = value.subrange(base, end);
        bytes::lemma_number_in_part(value, base, end, 48, 8);
        bytes::lemma_number_in_part(value, base, end, 56, 8);
        bytes::lemma_number_in_part(value, base, end, 96, 8);
        bytes::lemma_number_in_part(value, base, end, 8, 8);
        bytes::lemma_le_bound(part, 48, 8);
        bytes::lemma_le_bound(part, 56, 8);
        bytes::lemma_le_bound(part, 96, 8);
        bytes::lemma_signed_bound(part, 8, 8);
        bytes::lemma_reparse_byte(part, 32);
        assert(part[33] == value[base + 33]);
        let high = parent as int / 0x1_0000_0000_0000_0000;
        let low = bytes::le_of(value, base + 96, 8) as int;
        assert(0 <= high < 0x1_0000_0000_0000_0000);
        let whole = high * 0x1_0000_0000_0000_0000 + low;
        assert(whole / 0x1_0000_0000_0000_0000 == high && whole % 0x1_0000_0000_0000_0000 == low);
    } else {
        bytes::lemma_reparse_byte(value, 64);
        bytes::lemma_le_bound(value, 48, 8);
        bytes::lemma_le_bound(value, 56, 8);
        bytes::lemma_le_bound(value, 0, 8);
        bytes::lemma_le_bound(value, 8, 8);
        bytes::lemma_signed_bound(value, 24, 8);
    }
}

/// A row with a readable name is not passed over: it is told or refused.
pub proof fn law_no_entry_is_dropped(key: Seq<u8>, value: Seq<u8>, parent: u128)
    requires
        key.len() >= 4,
        key[0] == 0x30,
        key[1] == 0,
    ensures
        !(entry_of(key, value, parent) matches Ok(None)),
{
    bytes::law_low_bytes_come_first(key, 0);
}

/// The directories to be read next are those of the entries that are directories and lead
/// nowhere else, each with the node it got.
pub proof fn law_directories_are_read_next(
    entries: Seq<Entry>,
    answers: Seq<Answer>,
    at: nat,
    n: nat,
    i: int,
)
    requires
        0 <= i < n <= entries.len(),
        n <= answers.len(),
        at + n <= u32::MAX,
    ensures
        ({
            let jobs = jobs_of(entries, answers, at, n);
            &&& entries[i].flags & 1 != 0 && entries[i].flags & 2 == 0 <==> exists|k: int|
                0 <= k < jobs.len() && (#[trigger] jobs[k]).parent == at + i
            &&& forall|k: int|
                0 <= k < jobs.len() && (#[trigger] jobs[k]).parent == at + i ==> jobs[k].object
                    == entries[i].object
            &&& forall|k: int| 0 <= k < jobs.len() ==> at <= (#[trigger] jobs[k]).parent < at + n
        }),
    decreases n,
{
    let m = (n - 1) as nat;
    let f = settled(entries[m as int]@, answers[m as int]);
    lemma_flag_bits(entries[m as int].flags);
    let before = jobs_of(entries, answers, at, m);
    let jobs = jobs_of(entries, answers, at, n);
    lemma_job_parents(entries, answers, at, m);
    if i == m {
        if descends(f.flags) {
            assert(jobs[before.len() as int].parent == at + i);
        }
    } else {
        law_directories_are_read_next(entries, answers, at, m, i);
        if exists|k: int| 0 <= k < before.len() && (#[trigger] before[k]).parent == at + i {
            let k = choose|k: int| 0 <= k < before.len() && (#[trigger] before[k]).parent == at + i;
            assert(jobs[k] == before[k]);
        }
        if exists|k: int| 0 <= k < jobs.len() && (#[trigger] jobs[k]).parent == at + i {
            let k = choose|k: int| 0 <= k < jobs.len() && (#[trigger] jobs[k]).parent == at + i;
            assert(jobs[k] == before[k]);
        }
        assert forall|k: int|
            0 <= k < jobs.len() && (#[trigger] jobs[k]).parent == at + i implies jobs[k].object
            == entries[i].object by {
            assert(jobs[k] == before[k]);
        }
    }
}

proof fn lemma_job_parents(entries: Seq<Entry>, answers: Seq<Answer>, at: nat, n: nat)
    requires
        at + n <= u32::MAX,
    ensures
        forall|k: int|
            0 <= k < jobs_of(entries, answers, at, n).len() ==> at <= (#[trigger] jobs_of(
                entries,
                answers,
                at,
                n,
            )[k]).parent < at + n,
    decreases n,
{
    if n > 0 {
        let m = (n - 1) as nat;
        lemma_job_parents(entries, answers, at, m);
        let before = jobs_of(entries, answers, at, m);
        let jobs = jobs_of(entries, answers, at, n);
        assert forall|k: int| 0 <= k < jobs.len() implies at <= (#[trigger] jobs[k]).parent < at
            + n by {
            if k < before.len() {
                assert(jobs[k] == before[k]);
            }
        }
    }
}

/// Every entry of a directory is indexed, in its order: the nodes are those from before and
/// one for each entry.
pub proof fn law_every_entry_gets_its_node(
    v: RefsV,
    parent: u32,
    dir: Seq<u16>,
    entries: Seq<Entry>,
    answers: Seq<Answer>,
    n: nat,
    i: int,
)
    requires
        0 <= i < n <= entries.len(),
        n <= answers.len(),
        with_entries(v, parent, dir, entries, answers, n) is Ok,
    ensures
        ({
            let w = with_entries(v, parent, dir, entries, answers, n)->Ok_0;
            let node = w.g.nodes[v.g.nodes.len() + i];
            &&& w.g.nodes.len() == v.g.nodes.len() + n
            &&& node.parent == parent
            &&& node.name_len == entries[i].name@.len()
            &&& !entries[i].kernel_check ==> node.logical == entries[i].logical
            &&& !entries[i].kernel_check && entries[i].flags & 4 == 0 ==> node.allocated
                == entries[i].allocated
        }),
    decreases n,
{
    reveal_with_fuel(with_entries, 2);
    let m = (n - 1) as nat;
    let before = with_entries(v, parent, dir, entries, answers, m)->Ok_0;
    law_entries_keep_what_they_take(
        before,
        parent,
        dir,
        entries[m as int]@,
        answers[m as int],
    );
    if m > 0 {
        law_every_entry_gets_its_node(
            v,
            parent,
            dir,
            entries,
            answers,
            m,
            if i < m {
                i
            } else {
                0
            },
        );
    }
}

/// Every directory, object and container that is kept adds to the memory that the metadata
/// need.
pub proof fn law_all_metadata_need_memory(
    index: int,
    directories: int,
    objects: int,
    containers: int,
)
    ensures
        metadata_need(index, 0, 0, 0) == index,
        metadata_need(index, directories + 1, objects, containers) - metadata_need(
            index,
            directories,
            objects,
            containers,
        ) == 32,
        metadata_need(index, directories, objects + 1, containers) - metadata_need(
            index,
            directories,
            objects,
            containers,
        ) == 96,
        metadata_need(index, directories, objects, containers + 1) - metadata_need(
            index,
            directories,
            objects,
            containers,
        ) == 24,
{
}

/// A row of a directory that is no name is passed over; a name is refused if it is not made
/// of whole units, is not plain, or tells neither a directory nor a file.
pub proof fn law_entries_are_refused_for_cause(key: Seq<u8>, value: Seq<u8>, parent: u128)
    ensures
        ({
            let named = key.len() >= 4 && key[0] == 0x30 && key[1] == 0;
            let kind = key[2] + 0x100 * key[3];
            let name = bytes::units_of(key.subrange(4, key.len() as int));
            let r = entry_of(key, value, parent);
            &&& r == Ok::<Option<EntryV>, RefsError>(None) <==> !named
            &&& named && key.len() % 2 == 1 ==> r == Err::<Option<EntryV>, RefsError>(
                RefsError::OddName,
            )
            &&& named && key.len() % 2 == 0 && !plain(name) ==> r == Err::<
                Option<EntryV>,
                RefsError,
            >(RefsError::FileName)
            &&& named && key.len() % 2 == 0 && plain(name) && kind != 1 && kind != 2 ==> r == Err::<
                Option<EntryV>,
                RefsError,
            >(RefsError::EntryKind(kind as u16))
            &&& named && key.len() % 2 == 0 && plain(name) && kind == 2 && value.len() < 72 ==> r
                == Err::<Option<EntryV>, RefsError>(RefsError::ShortEntry)
            &&& r is Ok && r->Ok_0 is Some ==> named && (kind == 1 || kind == 2)
        }),
{
    bytes::law_low_bytes_come_first(key, 0);
    bytes::law_low_bytes_come_first(key, 2);
}

/// A short entry is refused exactly if it is cut off, or its number and its attributes do not
/// agree on whether it is a directory.
pub proof fn law_short_entries_agree_on_their_kind(name: Seq<u16>, value: Seq<u8>)
    ensures
        ({
            let numbered = bytes::le_of(value, 0, 8) == 0;
            let marked = (value[67] / 16) % 2 == 1;
            let r = short_entry(name, value);
            &&& r is Ok <==> value.len() >= 72 && numbered == marked
            &&& r == Err::<EntryV, RefsError>(RefsError::ShortEntry) <==> value.len() < 72
            &&& r matches Ok(e) ==> e.name == name && e.kernel_check == !marked
        }),
{
    bytes::lemma_reparse_byte(value, 64);
}

} // verus!
