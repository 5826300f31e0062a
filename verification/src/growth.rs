//! A snapshot while a scan adds to it.
use crate::model;
use crate::model::{Node, PushError, Snapshot, DIR, NONE, UNKNOWN_MTIME};
use crate::text;
use vstd::prelude::*;

verus! {

/// What a scan changes of a snapshot.
#[verifier::ext_equal]
pub struct Growing {
    pub nodes: Seq<Node>,
    pub names: Seq<u16>,
    pub errors: u64,
    pub complete: bool,
    pub warnings: Seq<Seq<char>>,
}

impl Snapshot {
    pub open spec fn growing(&self) -> Growing {
        Growing {
            nodes: self.nodes@,
            names: self.names@,
            errors: self.stats.errors,
            complete: self.stats.complete,
            warnings: text::views(self.stats.warnings@),
        }
    }
}

/// Everything else about two snapshots is the same.
pub open spec fn same_scan(a: Snapshot, b: Snapshot) -> bool {
    &&& a.version == b.version
    &&& a.root == b.root
    &&& a.volume == b.volume
    &&& a.stats.backend == b.stats.backend
    &&& a.stats.started_unix == b.stats.started_unix
    &&& a.stats.elapsed_ms == b.stats.elapsed_ms
    &&& a.stats.threads == b.stats.threads
    &&& a.stats.records_read == b.stats.records_read
    &&& a.stats.raw_bytes_read == b.stats.raw_bytes_read
    &&& a.stats.peak_working_set_bytes == b.stats.peak_working_set_bytes
    &&& a.stats.index_bytes == b.stats.index_bytes
}

/// Everything else but the number of records read.
pub open spec fn same_source(a: Snapshot, b: Snapshot) -> bool {
    &&& a.version == b.version
    &&& a.root == b.root
    &&& a.volume == b.volume
    &&& a.stats.backend == b.stats.backend
    &&& a.stats.started_unix == b.stats.started_unix
    &&& a.stats.elapsed_ms == b.stats.elapsed_ms
    &&& a.stats.threads == b.stats.threads
    &&& a.stats.raw_bytes_read == b.stats.raw_bytes_read
    &&& a.stats.peak_working_set_bytes == b.stats.peak_working_set_bytes
    &&& a.stats.index_bytes == b.stats.index_bytes
}

/// Nothing has been read or measured yet.
pub open spec fn unread(s: Snapshot) -> bool {
    &&& s.stats.records_read == 0
    &&& s.stats.raw_bytes_read == 0
    &&& s.stats.elapsed_ms == 0
    &&& s.stats.peak_working_set_bytes == 0
    &&& s.stats.index_bytes == 0
}

/// An entry that a scan found.
pub struct Item {
    pub parent: u32,
    pub name: Seq<u16>,
    pub logical: u64,
    pub allocated: u64,
    pub flags: u16,
    pub mtime: Option<i64>,
}

pub open spec fn item_node(g: Growing, i: Item) -> Node {
    model::timed_node(
        model::added_node(
            i.parent,
            g.names.len() as u32,
            i.name.len() as u16,
            i.logical,
            i.allocated,
            i.flags,
        ),
        i.mtime,
    )
}

/// The snapshot with one entry more.
pub open spec fn grown(g: Growing, i: Item) -> Result<Growing, PushError> {
    if !(g.nodes.len() < NONE && g.names.len() + i.name.len() < u32::MAX) {
        Err(PushError::TooLarge)
    } else if i.name.len() > u16::MAX {
        Err(PushError::OverlongName)
    } else {
        Ok(Growing { nodes: g.nodes.push(item_node(g, i)), names: g.names + i.name, ..g })
    }
}

/// The snapshot with one warning more.
pub open spec fn warned(g: Growing, t: Seq<char>) -> Growing {
    Growing {
        errors: if g.errors < u64::MAX {
            (g.errors + 1) as u64
        } else {
            g.errors
        },
        complete: false,
        warnings: if g.warnings.len() < 24 {
            g.warnings.push(t)
        } else {
            g.warnings
        },
        ..g
    }
}

/// The snapshot with one remark more, which is no warning.
pub open spec fn remarked(g: Growing, t: Seq<char>) -> Growing {
    Growing { warnings: g.warnings.push(t), ..g }
}

/// Adds an entry.
pub fn add_item(
    s: &mut Snapshot,
    parent: u32,
    name: &[u16],
    logical: u64,
    allocated: u64,
    flags: u16,
    mtime: Option<i64>,
) -> (r: Result<u32, PushError>)
    ensures
        ({
            let i = Item { parent, name: name@, logical, allocated, flags, mtime };
            match (r, grown(old(s).growing(), i)) {
                (Ok(id), Ok(g)) => final(s).growing() == g && id == old(s).nodes@.len(),
                (Err(e), Err(f)) => e == f && *final(s) == *old(s),
                _ => false,
            }
        }),
        same_scan(*final(s), *old(s)),
        old(s).building() ==> final(s).building(),
{
    let ghost before = s.growing();
    match s.push(parent, name, logical, allocated, flags) {
        Err(e) => Err(e),
        Ok(id) => {
            let ghost plain = s.nodes@;
            s.set_file_mtime(id, mtime);
            proof {
                let i = Item { parent, name: name@, logical, allocated, flags, mtime };
                assert(plain[id as int] == model::added_node(
                    parent,
                    before.names.len() as u32,
                    name@.len() as u16,
                    logical,
                    allocated,
                    flags,
                ));
                assert(s.nodes@ =~= before.nodes.push(item_node(before, i)));
            }
            Ok(id)
        },
    }
}

/// Adds a warning.
pub fn add_warning(s: &mut Snapshot, t: String)
    ensures
        final(s).growing() == warned(old(s).growing(), t@),
        same_scan(*final(s), *old(s)),
        old(s).building() ==> final(s).building(),
{
    let ghost had = s.stats.warnings@;
    s.warn(t);
    proof {
        if had.len() < 24 {
            assert(text::views(s.stats.warnings@) =~= text::views(had).push(t@));
        }
        assert(text::views(had).len() == had.len());
    }
}

/// Adds a remark.
pub fn add_remark(s: &mut Snapshot, t: &str)
    ensures
        final(s).growing() == remarked(old(s).growing(), t@),
        same_scan(*final(s), *old(s)),
        old(s).building() ==> final(s).building(),
{
    let ghost had = s.stats.warnings@;
    let line: String = t.to_owned();
    s.stats.warnings.push(line);
    assert(text::views(s.stats.warnings@) =~= text::views(had).push(t@));
}

/// A directory gets no time of its own: what is shown for it comes from the files below.
pub proof fn law_directories_have_no_own_time(g: Growing, i: Item)
    requires
        i.flags & DIR != 0,
    ensures
        item_node(g, i).oldest_modified_ms == UNKNOWN_MTIME,
        item_node(g, i).latest_modified_ms == UNKNOWN_MTIME,
{
}

/// A warning is counted, makes the scan incomplete, and is kept with the first two dozen;
/// what was found stays.
pub proof fn law_warnings_make_a_scan_incomplete(g: Growing, t: Seq<char>)
    ensures
        !warned(g, t).complete,
        g.errors < u64::MAX ==> warned(g, t).errors == g.errors + 1,
        warned(g, t).nodes == g.nodes && warned(g, t).names == g.names,
        g.warnings.len() < 24 ==> warned(g, t).warnings == g.warnings.push(t),
        g.warnings.len() >= 24 ==> warned(g, t).warnings == g.warnings,
        remarked(g, t).complete == g.complete && remarked(g, t).errors == g.errors,
        remarked(g, t).warnings == g.warnings.push(t),
{
}

/// An entry is added behind the others with its name at the end of the name table; only an
/// index that is full, or a name that is too long, is refused.
pub proof fn law_entries_are_added_behind(g: Growing, i: Item)
    ensures
        grown(g, i) is Ok <==> g.nodes.len() < 0xffff_ffff && g.names.len() + i.name.len()
            < 0xffff_ffff && i.name.len() <= 0xffff,
        grown(g, i) is Ok ==> {
            let h = grown(g, i)->Ok_0;
            let n = h.nodes.last();
            &&& h.nodes.drop_last() == g.nodes
            &&& h.names == g.names + i.name
            &&& h.names.subrange(n.name_start as int, n.name_start + n.name_len) == i.name
            &&& n.parent == i.parent && n.logical == i.logical && n.allocated == i.allocated
            &&& h.complete == g.complete && h.errors == g.errors && h.warnings == g.warnings
        },
{
    if grown(g, i) is Ok {
        let h = grown(g, i)->Ok_0;
        let n = h.nodes.last();
        assert(h.nodes.drop_last() =~= g.nodes);
        assert(n.name_start == g.names.len() && n.name_len == i.name.len());
        assert(h.names.subrange(n.name_start as int, n.name_start + n.name_len) =~= i.name);
    }
}

/// An entry is refused exactly if the index has no number or no room left for it, or its name
/// is too long.
pub proof fn law_entries_are_refused_for_cause(g: Growing, i: Item)
    ensures
        ({
            let room = g.nodes.len() < 0xffff_ffff && g.names.len() + i.name.len() < 0xffff_ffff;
            &&& grown(g, i) is Ok <==> room && i.name.len() < 0x1_0000
            &&& grown(g, i) == Err::<Growing, PushError>(PushError::TooLarge) <==> !room
        }),
{
}

} // verus!
