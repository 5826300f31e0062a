//! Indexing the file records of an NTFS volume.
use crate::enumeration;
use crate::enumeration::{beyond, saturating_product};
use crate::growth;
use crate::growth::{Growing, Item};
use crate::keyed;
use crate::model;
use crate::model::{
    capacity_of, Node, PushError, Snapshot, DIR, ESTIMATED, HARDLINK, INCOMPLETE, UNKNOWN_MTIME,
    VIRTUAL,
};
use crate::ntfs::NtfsError;
use crate::ntfs_record;
use crate::ntfs_record::{Name, NameV, Record, RecordV};
use crate::ntfs_stream::MASK;
use crate::order;
use crate::platform::VolumeInfo;
use crate::text;
use ahash::AHashMap;
use crate::wide::Wide;
use vstd::prelude::*;
use vstd::relations::*;
use vstd::string::*;

verus! {

/// An index in the making: the entries, the record that each entry names as its
/// directory, the nodes of the directories by record, and the files that more than one
/// record describes, with where each of them stands.
#[verifier::ext_equal]
pub struct MftV {
    pub g: Growing,
    pub parents: Seq<(u32, u64)>,
    pub dirs: Map<u128, u64>,
    pub files: Seq<RecordV>,
    pub at: Map<u128, u64>,
}

/// By directory and text, else as found.
pub open spec fn name_first(v: Seq<NameV>, a: usize, b: usize) -> bool {
    let x = v[a as int];
    let y = v[b as int];
    let nx = order::unit_numbers(x.text);
    let ny = order::unit_numbers(y.text);
    ||| x.parent < y.parent
    ||| x.parent == y.parent && order::lex_below(nx, ny)
    ||| x.parent == y.parent && nx == ny && a <= b
}

/// Of the first `n` names in turn, those that differ from the one before.
pub open spec fn different(v: Seq<NameV>, q: Seq<usize>, n: nat) -> Seq<usize>
    decreases n,
{
    if n == 0 {
        Seq::empty()
    } else {
        let before = different(v, q, (n - 1) as nat);
        if n >= 2 && v[q[n - 2] as int] == v[q[n - 1] as int] {
            before
        } else {
            before.push(q[n - 1])
        }
    }
}

/// The different names of a file, in order.
pub open spec fn name_picks(v: Seq<NameV>) -> Seq<usize> {
    different(
        v,
        order::numbers(v.len()).sort_by(|a: usize, b: usize| name_first(v, a, b)),
        v.len(),
    )
}

/// A name that can stand in a path.
pub open spec fn plain_name(t: Seq<u16>) -> bool {
    !t.contains(47) && !t.contains(92) && !t.contains(0)
}

pub open spec fn push_fault(e: PushError) -> NtfsError {
    match e {
        PushError::TooLarge => NtfsError::TooLarge,
        PushError::OverlongName => NtfsError::OverlongName,
    }
}

/// The entry for one name of a file with `links` names; the space counts at the first.
pub open spec fn link_item(r: RecordV, name: NameV, first: bool, links: nat) -> Item {
    Item {
        parent: 0,
        name: name.text,
        logical: r.logical,
        allocated: if first {
            r.allocated
        } else {
            0
        },
        flags: r.flags | (if links > 1 {
            HARDLINK
        } else {
            0
        }),
        mtime: if r.modified_ms == UNKNOWN_MTIME {
            None
        } else {
            Some(r.modified_ms)
        },
    }
}

/// The index with the first `n` of the picked names of a file.
pub open spec fn with_links(m: MftV, r: RecordV, picks: Seq<usize>, n: nat) -> Result<
    MftV,
    NtfsError,
>
    decreases n,
{
    if n == 0 {
        Ok(m)
    } else {
        match with_links(m, r, picks, (n - 1) as nat) {
            Err(e) => Err(e),
            Ok(b) => {
                let name = r.names[picks[n - 1] as int];
                if !plain_name(name.text) {
                    Err(NtfsError::NameComponent)
                } else {
                    match growth::grown(b.g, link_item(r, name, n == 1, picks.len())) {
                        Err(e) => Err(push_fault(e)),
                        Ok(g) => Ok(
                            MftV {
                                g,
                                parents: b.parents.push((b.g.nodes.len() as u32, name.parent)),
                                dirs: if r.flags & DIR != 0 && !b.dirs.contains_key(
                                    r.frn as u128,
                                ) {
                                    b.dirs.insert(r.frn as u128, b.g.nodes.len() as u64)
                                } else {
                                    b.dirs
                                },
                                ..b
                            },
                        ),
                    }
                }
            },
        }
    }
}

/// A file of which only the sizes kept beside its name are known.
pub open spec fn stale(r: RecordV) -> bool {
    !r.has_data && r.flags & DIR == 0 && r.fallback.0 > 0
}

pub open spec fn estimated(r: RecordV) -> RecordV {
    if stale(r) {
        RecordV {
            logical: r.fallback.0,
            allocated: r.fallback.1,
            flags: r.flags | ESTIMATED,
            ..r
        }
    } else {
        r
    }
}

pub open spec fn nameless_text(frn: u64) -> Seq<char> {
    "MFT record "@ + text::decimal_of((frn & MASK) as nat) + " has no supported name"@
}

pub open spec fn stale_text(frn: u64) -> Seq<char> {
    "MFT "@ + text::decimal_of((frn & MASK) as nat)
        + " uses stale FILE_NAME sizes; DATA unavailable"@
}

/// The index with one file more. The root directory is the node that is there already, and
/// reserved records without names are no entries.
pub open spec fn with_file(m: MftV, r: RecordV) -> Result<MftV, NtfsError> {
    let number = r.frn & MASK;
    if number == 5 {
        Ok(MftV { dirs: m.dirs.insert(r.frn as u128, 0), ..m })
    } else if r.names.len() == 0 {
        if 12 <= number <= 15 {
            Ok(m)
        } else {
            Ok(MftV { g: growth::warned(m.g, nameless_text(r.frn)), ..m })
        }
    } else {
        let picks = name_picks(r.names);
        let start = if stale(r) {
            MftV { g: growth::warned(m.g, stale_text(r.frn)), ..m }
        } else {
            m
        };
        with_links(start, estimated(r), picks, picks.len())
    }
}

/// The record under which a file that several records describe is known.
pub open spec fn file_key(r: RecordV) -> u64 {
    if r.base != 0 {
        r.base
    } else {
        r.frn
    }
}

/// The index with one record more.
pub open spec fn with_record(m: MftV, r: RecordV) -> Result<MftV, NtfsError> {
    if r.base != 0 || r.complex {
        let key = file_key(r);
        if m.at.contains_key(key as u128) {
            let i = m.at[key as u128] as int;
            match ntfs_record::merged(m.files[i], r) {
                Err(e) => Err(e),
                Ok(f) => Ok(MftV { files: m.files.update(i, f), ..m }),
            }
        } else {
            Ok(
                MftV {
                    files: m.files.push(RecordV { frn: key, base: 0, ..r }),
                    at: m.at.insert(key as u128, m.files.len() as u64),
                    ..m
                },
            )
        }
    } else {
        with_file(m, r)
    }
}

/// The text of a fault.
pub open spec fn fault_text(e: NtfsError) -> Seq<char> {
    match e {
        NtfsError::NotFile(i) => e.words() + " "@ + text::decimal_of(i as nat),
        NtfsError::RecordSize(n) => e.words() + " "@ + text::decimal_of(n as nat),
        _ => e.words(),
    }
}

/// The index after the first `n` of the collected files.
pub open spec fn with_files(m: MftV, n: nat) -> Result<MftV, NtfsError>
    decreases n,
{
    if n == 0 {
        Ok(m)
    } else {
        match with_files(m, (n - 1) as nat) {
            Err(e) => Err(e),
            Ok(b) => with_file(b, m.files[n - 1]),
        }
    }
}

/// The entry that holds what has no directory.
pub open spec fn orphanage() -> Item {
    Item {
        parent: 0,
        name: text::utf16_of("[unresolved metadata]"@),
        logical: 0,
        allocated: 0,
        flags: DIR | VIRTUAL | INCOMPLETE,
        mtime: None,
    }
}

/// Entries under way to their directories.
pub struct Homes {
    pub g: Growing,
    pub orphans: Option<u32>,
    pub count: nat,
}

pub open spec fn rehomed(g: Growing, node: u32, parent: u32) -> Growing {
    Growing {
        nodes: g.nodes.update(node as int, Node { parent, ..g.nodes[node as int] }),
        ..g
    }
}

/// The first `n` entries put below their directories.
pub open spec fn homes(m: MftV, n: nat) -> Result<Homes, NtfsError>
    decreases n,
{
    if n == 0 {
        Ok(Homes { g: m.g, orphans: None, count: 0 })
    } else {
        match homes(m, (n - 1) as nat) {
            Err(e) => Err(e),
            Ok(h) => {
                let (node, frn) = m.parents[n - 1];
                if m.dirs.contains_key(frn as u128) {
                    Ok(Homes { g: rehomed(h.g, node, m.dirs[frn as u128] as u32), ..h })
                } else {
                    match h.orphans {
                        Some(o) => Ok(
                            Homes { g: rehomed(h.g, node, o), orphans: h.orphans, count: h.count + 1 },
                        ),
                        None => match growth::grown(h.g, orphanage()) {
                            Err(e) => Err(push_fault(e)),
                            Ok(g) => {
                                let o = h.g.nodes.len() as u32;
                                Ok(
                                    Homes {
                                        g: rehomed(g, node, o),
                                        orphans: Some(o),
                                        count: h.count + 1,
                                    },
                                )
                            },
                        },
                    }
                }
            },
        }
    }
}

pub open spec fn orphan_text(n: nat) -> Seq<char> {
    text::decimal_of(n)
        + " metadata names have missing/stale parent references; live volume changed or metadata unsupported"@
}

pub open spec fn live_remark() -> Seq<char> {
    "Live metadata, not an atomic filesystem snapshot. Hardlink allocations are charged once; alternate DATA streams included. Reparse points are not followed."@
}

/// What the index comes to.
pub open spec fn closed_index(m: MftV) -> Result<Growing, NtfsError> {
    match with_files(m, m.files.len()) {
        Err(e) => Err(e),
        Ok(b) => match homes(b, b.parents.len()) {
            Err(e) => Err(e),
            Ok(h) => {
                let g = if h.count > 0 {
                    growth::warned(h.g, orphan_text(h.count))
                } else {
                    h.g
                };
                Ok(growth::remarked(g, live_remark()))
            },
        },
    }
}

proof fn lemma_name_order(v: Seq<NameV>)
    ensures
        total_ordering(|a: usize, b: usize| name_first(v, a, b)),
{
    let le = |a: usize, b: usize| name_first(v, a, b);
    let num = |a: usize| order::unit_numbers(v[a as int].text);
    assert forall|a: usize, b: usize| #[trigger] le(a, b) && #[trigger] le(b, a) implies a == b by {
        order::lemma_lex_total(num(a), num(b));
    }
    assert forall|a: usize, b: usize, c: usize| #[trigger]
        le(a, b) && #[trigger] le(b, c) implies le(a, c) by {
        if order::lex_below(num(a), num(b)) && order::lex_below(num(b), num(c)) {
            order::lemma_lex_trans(num(a), num(b), num(c));
        }
    }
    assert forall|a: usize, b: usize| #[trigger] le(a, b) || #[trigger] le(b, a) by {
        order::lemma_lex_total(num(a), num(b));
    }
}

fn same_name(a: &Name, b: &Name) -> (r: bool)
    ensures
        r == (NameV { parent: a.parent, text: a.text@ } == NameV { parent: b.parent, text: b.text@ }),
{
    proof {
        order::lemma_lex_total(order::unit_numbers(a.text@), order::unit_numbers(b.text@));
        order::lemma_unit_numbers(a.text@, b.text@);
    }
    a.parent == b.parent && !order::units_below(&a.text, &b.text) && !order::units_below(
        &b.text,
        &a.text,
    )
}

fn pick_names(names: &Vec<Name>) -> (r: Vec<usize>)
    ensures
        r@ == name_picks(ntfs_record::name_views(names@)),
        forall|i: int| 0 <= i < r@.len() ==> (#[trigger] r@[i]) < names@.len(),
{
    let n: usize = names.len();
    let ghost v = ntfs_record::name_views(names@);
    proof {
        lemma_name_order(v);
    }
    let first = |a: usize, b: usize| -> (r: bool)
        requires
            a < n,
            b < n,
            n == names@.len(),
        ensures
            r == name_first(ntfs_record::name_views(names@), a, b),
        {
            let x: &Name = &names[a];
            let y: &Name = &names[b];
            proof {
                order::lemma_lex_total(
                    order::unit_numbers(x.text@),
                    order::unit_numbers(y.text@),
                );
            }
            x.parent < y.parent || (x.parent == y.parent && (order::units_below(&x.text, &y.text)
                || (!order::units_below(&y.text, &x.text) && a <= b)))
        };
    let q: Vec<usize> = order::rank(n, first, Ghost(|a: usize, b: usize| name_first(v, a, b)));
    let mut out: Vec<usize> = Vec::new();
    let mut i: usize = 0;
    while i < n
        invariant
            i <= n,
            n == names@.len(),
            n == q@.len(),
            v == ntfs_record::name_views(names@),
            forall|k: int| 0 <= k < n ==> (#[trigger] q@[k]) < n,
            out@ == different(v, q@, i as nat),
            forall|k: int| 0 <= k < out@.len() ==> (#[trigger] out@[k]) < n,
        decreases n - i,
    {
        let at: usize = q[i];
        let again: bool = i > 0 && same_name(&names[q[i - 1]], &names[at]);
        if !again {
            out.push(at);
        }
        i += 1;
    }
    out
}

fn holds_unit(t: &Vec<u16>, u: u16) -> (r: bool)
    ensures
        r == t@.contains(u),
{
    let mut i: usize = 0;
    while i < t.len()
        invariant
            i <= t@.len(),
            forall|k: int| 0 <= k < i ==> #[trigger] t@[k] != u,
        decreases t@.len() - i,
    {
        if t[i] == u {
            return true;
        }
        i += 1;
    }
    false
}

/// The index of a volume's file records.
pub struct MftIndex {
    snapshot: Snapshot,
    parents: Vec<(u32, u64)>,
    dirs: AHashMap<u128, u64>,
    files: Vec<Record>,
    at: AHashMap<u128, u64>,
}

pub open spec fn record_views(v: Seq<Record>) -> Seq<RecordV> {
    v.map_values(|r: Record| r@)
}

/// Every entry under way is a node, every directory too, and every collected file is
/// where it is said to be.
pub open spec fn index_sound(m: MftV) -> bool {
    &&& 0 < m.g.nodes.len() <= u32::MAX
    &&& forall|i: int| 0 <= i < m.parents.len() ==> (#[trigger] m.parents[i]).0 < m.g.nodes.len()
    &&& forall|k: u128| #[trigger] m.dirs.contains_key(k) ==> m.dirs[k] < m.g.nodes.len()
    &&& forall|k: u128| #[trigger] m.at.contains_key(k) ==> m.at[k] < m.files.len()
}

fn fault_of(e: PushError) -> (r: NtfsError)
    ensures
        r == push_fault(e),
{
    match e {
        PushError::TooLarge => NtfsError::TooLarge,
        PushError::OverlongName => NtfsError::OverlongName,
    }
}

/// The text of a fault.
pub fn describe(e: NtfsError) -> (r: String)
    ensures
        r@ == fault_text(e),
{
    let mut out: String = e.message().to_owned();
    match e {
        NtfsError::NotFile(n) => {
            out.append(" ");
            out.append(&text::decimal(n));
        },
        NtfsError::RecordSize(n) => {
            out.append(" ");
            out.append(&text::decimal(n));
        },
        _ => {},
    }
    out
}

/// The index that its parts make up.
pub open spec fn made_of(
    s: Snapshot,
    parents: Seq<(u32, u64)>,
    dirs: AHashMap<u128, u64>,
    files: Seq<RecordV>,
    at: Map<u128, u64>,
) -> MftV {
    MftV { g: s.growing(), parents, dirs: keyed::table_of(dirs), files, at }
}

proof fn lemma_links_stop(m: MftV, r: RecordV, picks: Seq<usize>, a: nat, b: nat)
    requires
        a <= b,
        with_links(m, r, picks, a) is Err,
    ensures
        with_links(m, r, picks, b) == with_links(m, r, picks, a),
    decreases b,
{
    if a < b {
        lemma_links_stop(m, r, picks, a, (b - 1) as nat);
    }
}

fn add_links(
    s: &mut Snapshot,
    parents: &mut Vec<(u32, u64)>,
    dirs: &mut AHashMap<u128, u64>,
    r: &Record,
    logical: u64,
    allocated: u64,
    flags: u16,
    Ghost(files): Ghost<Seq<RecordV>>,
    Ghost(at): Ghost<Map<u128, u64>>,
) -> (e: Result<(), NtfsError>)
    requires
        index_sound(made_of(*old(s), old(parents)@, *old(dirs), files, at)),
    ensures
        ({
            let m = made_of(*old(s), old(parents)@, *old(dirs), files, at);
            let f = RecordV { logical, allocated, flags, ..r@ };
            let picks = name_picks(f.names);
            match (e, with_links(m, f, picks, picks.len())) {
                (Ok(_), Ok(w)) => {
                    &&& made_of(*final(s), final(parents)@, *final(dirs), files, at) == w
                    &&& index_sound(w)
                },
                (Err(x), Err(y)) => x == y,
                _ => false,
            }
        }),
        growth::same_scan(*final(s), *old(s)),
{
    let ghost m = made_of(*s, parents@, *dirs, files, at);
    let ghost f = RecordV { logical, allocated, flags, ..r@ };
    let picks: Vec<usize> = pick_names(&r.names);
    let links: usize = picks.len();
    let mut i: usize = 0;
    while i < links
        invariant
            i <= links,
            links == picks@.len(),
            picks@ == name_picks(f.names),
            f == (RecordV { logical, allocated, flags, ..r@ }),
            m == made_of(*old(s), old(parents)@, *old(dirs), files, at),
            forall|k: int| 0 <= k < picks@.len() ==> (#[trigger] picks@[k]) < r.names@.len(),
            with_links(m, f, picks@, i as nat) == Ok::<MftV, NtfsError>(
                made_of(*s, parents@, *dirs, files, at),
            ),
            index_sound(made_of(*s, parents@, *dirs, files, at)),
            growth::same_scan(*s, *old(s)),
        decreases links - i,
    {
        let name: &Name = &r.names[picks[i]];
        let ghost b = made_of(*s, parents@, *dirs, files, at);
        let ghost nv = f.names[picks@[i as int] as int];
        assert(nv == NameV { parent: name.parent, text: name.text@ });
        if holds_unit(&name.text, 47) || holds_unit(&name.text, 92) || holds_unit(&name.text, 0) {
            proof {
                lemma_links_stop(m, f, picks@, (i + 1) as nat, picks@.len());
            }
            return Err(NtfsError::NameComponent);
        }
        let space: u64 = if i == 0 {
            allocated
        } else {
            0
        };
        let bits: u16 = flags | (if links > 1 {
            HARDLINK
        } else {
            0
        });
        let mtime: Option<i64> = if r.modified_ms == UNKNOWN_MTIME {
            None
        } else {
            Some(r.modified_ms)
        };
        match growth::add_item(s, 0, &name.text, logical, space, bits, mtime) {
            Err(x) => {
                proof {
                    lemma_links_stop(m, f, picks@, (i + 1) as nat, picks@.len());
                }
                return Err(fault_of(x));
            },
            Ok(id) => {
                parents.push((id, name.parent));
                if flags & DIR != 0 {
                    if keyed::get(dirs, r.frn as u128).is_none() {
                        let _ = keyed::put(dirs, r.frn as u128, id as u64);
                    }
                }
                proof {
                    let w = made_of(*s, parents@, *dirs, files, at);
                    assert(w.parents =~= b.parents.push((id, name.parent)));
                    assert forall|k: int| 0 <= k < w.parents.len() implies (
                    #[trigger] w.parents[k]).0 < w.g.nodes.len() by {
                        if k < b.parents.len() {
                            assert(w.parents[k] == b.parents[k]);
                        }
                    }
                    assert forall|k: u128| #[trigger] w.dirs.contains_key(k) implies w.dirs[k]
                        < w.g.nodes.len() by {
                        if k != r.frn as u128 {
                            assert(b.dirs.contains_key(k));
                        } else if b.dirs.contains_key(k) {
                            assert(w.dirs[k] == b.dirs[k]);
                        }
                    }
                }
            },
        }
        i += 1;
    }
    Ok(())
}

fn add_file(
    s: &mut Snapshot,
    parents: &mut Vec<(u32, u64)>,
    dirs: &mut AHashMap<u128, u64>,
    r: &Record,
    Ghost(files): Ghost<Seq<RecordV>>,
    Ghost(at): Ghost<Map<u128, u64>>,
) -> (e: Result<(), NtfsError>)
    requires
        index_sound(made_of(*old(s), old(parents)@, *old(dirs), files, at)),
    ensures
        match (e, with_file(made_of(*old(s), old(parents)@, *old(dirs), files, at), r@)) {
            (Ok(_), Ok(w)) => {
                &&& made_of(*final(s), final(parents)@, *final(dirs), files, at) == w
                &&& index_sound(w)
            },
            (Err(x), Err(y)) => x == y,
            _ => false,
        },
        growth::same_scan(*final(s), *old(s)),
{
    let ghost m = made_of(*s, parents@, *dirs, files, at);
    let number: u64 = r.frn & MASK;
    assert(ntfs_record::name_views(r.names@).len() == r.names@.len());
    if number == 5 {
        let _ = keyed::put(dirs, r.frn as u128, 0);
        proof {
            let w = made_of(*s, parents@, *dirs, files, at);
            assert forall|k: u128| #[trigger] w.dirs.contains_key(k) implies w.dirs[k]
                < w.g.nodes.len() by {
                if k != r.frn as u128 {
                    assert(m.dirs.contains_key(k));
                }
            }
        }
        return Ok(());
    }
    if r.names.len() == 0 {
        if !(12 <= number && number <= 15) {
            let mut t: String = "MFT record ".to_owned();
            t.append(&text::decimal(number));
            t.append(" has no supported name");
            growth::add_warning(s, t);
        }
        return Ok(());
    }
    let mut logical: u64 = r.logical;
    let mut allocated: u64 = r.allocated;
    let mut flags: u16 = r.flags;
    if !r.has_data && r.flags & DIR == 0 && r.fallback.0 > 0 {
        logical = r.fallback.0;
        allocated = r.fallback.1;
        flags = flags | ESTIMATED;
        let mut t: String = "MFT ".to_owned();
        t.append(&text::decimal(number));
        t.append(" uses stale FILE_NAME sizes; DATA unavailable");
        growth::add_warning(s, t);
    }
    proof {
        let f = RecordV { logical, allocated, flags, ..r@ };
        assert(f == estimated(r@));
    }
    add_links(s, parents, dirs, r, logical, allocated, flags, Ghost(files), Ghost(at))
}

proof fn lemma_files_stop(m: MftV, a: nat, b: nat)
    requires
        a <= b,
        with_files(m, a) is Err,
    ensures
        with_files(m, b) == with_files(m, a),
    decreases b,
{
    if a < b {
        lemma_files_stop(m, a, (b - 1) as nat);
    }
}

proof fn lemma_homes_stop(m: MftV, a: nat, b: nat)
    requires
        a <= b,
        homes(m, a) is Err,
    ensures
        homes(m, b) == homes(m, a),
    decreases b,
{
    if a < b {
        lemma_homes_stop(m, a, (b - 1) as nat);
    }
}

impl MftIndex {
    pub closed spec fn scan(&self) -> Snapshot {
        self.snapshot
    }

    pub closed spec fn model(&self) -> MftV {
        made_of(
            self.snapshot,
            self.parents@,
            self.dirs,
            record_views(self.files@),
            keyed::table_of(self.at),
        )
    }

    pub open spec fn sound(&self) -> bool {
        index_sound(self.model()) && self.model().g == self.scan().growing()
    }

    pub fn new(volume: &VolumeInfo, threads: usize, started_unix: u64) -> (r: Self)
        ensures
            r.sound(),
            r.scan().version == 3,
            r.scan().root@ == text::utf16_of(volume.root@),
            r.scan().volume == *volume,
            r.scan().stats.backend@ == "ntfs-mft"@,
            r.scan().stats.threads == threads,
            r.scan().stats.started_unix == started_unix,
            growth::unread(r.scan()),
            r.model() == (MftV {
                g: Growing {
                    nodes: seq![model::added_node(model::NONE, 0, 0, 0, 0, DIR)],
                    names: Seq::empty(),
                    errors: 0,
                    complete: true,
                    warnings: Seq::empty(),
                },
                parents: Seq::empty(),
                dirs: Map::empty(),
                files: Seq::empty(),
                at: Map::empty(),
            }),
    {
        let snapshot: Snapshot = Snapshot::new(
            Wide::of(&volume.root),
            volume.clone(),
            "ntfs-mft",
            threads,
            started_unix,
        );
        let r = MftIndex {
            snapshot,
            parents: Vec::new(),
            dirs: keyed::no_entries(),
            files: Vec::new(),
            at: keyed::no_entries(),
        };
        proof {
            assert(r.snapshot.names@ =~= Seq::<u16>::empty());
            assert(text::views(r.snapshot.stats.warnings@) =~= Seq::<Seq<char>>::empty());
            assert(record_views(r.files@) =~= Seq::<RecordV>::empty());
            assert(r.parents@ =~= Seq::<(u32, u64)>::empty());
        }
        r
    }

    /// Adds what came of reading one record; a fault of a single record is only noted.
    pub fn take(&mut self, parsed: Result<Option<Record>, NtfsError>) -> (r: Result<(), NtfsError>)
        requires
            old(self).sound(),
        ensures
            growth::same_scan(final(self).scan(), old(self).scan()),
            ({
                let m = old(self).model();
                let want = match parsed {
                    Err(e) => Ok::<MftV, NtfsError>(
                        MftV { g: growth::warned(m.g, fault_text(e)), ..m },
                    ),
                    Ok(None) => Ok(m),
                    Ok(Some(record)) => with_record(m, record@),
                };
                match (r, want) {
                    (Ok(_), Ok(w)) => final(self).sound() && final(self).model() == w,
                    (Err(e), Err(f)) => e == f,
                    _ => false,
                }
            }),
    {
        let ghost m = self.model();
        match parsed {
            Err(e) => {
                growth::add_warning(&mut self.snapshot, describe(e));
                assert(self.model() =~= (MftV { g: growth::warned(m.g, fault_text(e)), ..m }));
                assert(self.sound());
                Ok(())
            },
            Ok(None) => Ok(()),
            Ok(Some(record)) => {
                if record.base != 0 || record.complex {
                    let key: u64 = if record.base != 0 {
                        record.base
                    } else {
                        record.frn
                    };
                    match keyed::get(&self.at, key as u128) {
                        Some(i) => {
                            assert(m.at.contains_key(key as u128));
                            let total: usize = self.files.len();
                            assert(i < total);
                            let at: usize = i as usize;
                            let ghost had = self.files@;
                            assert(m.files[at as int] == had[at as int]@);
                            let merged: Result<(), NtfsError> = ntfs_record::merge(
                                &mut self.files[at],
                                record,
                            );
                            match merged {
                                Err(e) => Err(e),
                                Ok(()) => {
                                    let ghost f = self.files@[at as int]@;
                                    assert(record_views(self.files@) =~= record_views(had).update(
                                        at as int,
                                        f,
                                    ));
                                    assert(self.model() =~= (MftV {
                                        files: m.files.update(at as int, f),
                                        ..m
                                    }));
                                    assert(self.sound());
                                    Ok(())
                                },
                            }
                        },
                        None => {
                            let ghost had = self.files@;
                            let place: u64 = self.files.len() as u64;
                            let mut kept: Record = record;
                            kept.frn = key;
                            kept.base = 0;
                            let ghost kv = kept@;
                            self.files.push(kept);
                            let _ = keyed::put(&mut self.at, key as u128, place);
                            proof {
                                assert(record_views(self.files@) =~= record_views(had).push(kv));
                                let w = self.model();
                                assert forall|k: u128| #[trigger]
                                    w.at.contains_key(k) implies w.at[k] < w.files.len() by {
                                    if k != key as u128 {
                                        assert(m.at.contains_key(k));
                                    }
                                }
                            }
                            Ok(())
                        },
                    }
                } else {
                    add_file(
                        &mut self.snapshot,
                        &mut self.parents,
                        &mut self.dirs,
                        &record,
                        Ghost(m.files),
                        Ghost(m.at),
                    )
                }
            },
        }
    }

    /// Counts records that were read.
    pub fn count(&mut self, records: u64)
        requires
            old(self).sound(),
        ensures
            final(self).sound(),
            final(self).model() == old(self).model(),
            growth::same_source(final(self).scan(), old(self).scan()),
            final(self).scan().stats.records_read == (if old(self).scan().stats.records_read
                + records <= u64::MAX {
                old(self).scan().stats.records_read + records
            } else {
                u64::MAX as int
            }),
    {
        self.snapshot.stats.records_read = self.snapshot.stats.records_read.saturating_add(
            records,
        );
    }

    /// The tables hold what they hold in room for so many nodes, name units, parents and
    /// directories.
    pub open spec fn held_in(
        &self,
        nodes: usize,
        names: usize,
        parents: usize,
        dirs: usize,
    ) -> bool {
        &&& self.scan().held_in(nodes, names)
        &&& parents >= self.model().parents.len()
        &&& dirs >= self.model().dirs.len()
    }

    /// The memory in use with a buffer of so many bytes, if it exceeds the limit. What counts
    /// is the room that the tables have, and so at least what they hold; how much more it is
    /// depends on how they grew.
    pub fn over_budget(&self, buffer: u64, limit: u64) -> (r: Option<u64>)
        ensures
            exists|nodes: usize, names: usize, parents: usize, dirs: usize| #[trigger]
                self.held_in(nodes, names, parents, dirs) && r == enumeration::past(
                    table_need(
                        model::index_size_of(nodes as int, names as int),
                        parents as int,
                        dirs as int,
                        buffer as int,
                    ),
                    limit,
                ),
            table_need(
                model::index_size_of(
                    self.scan().nodes@.len() as int,
                    self.scan().names@.len() as int,
                ),
                self.model().parents.len() as int,
                self.model().dirs.len() as int,
                buffer as int,
            ) > limit ==> r is Some,
    {
        let index: u64 = self.snapshot.index_bytes();
        let parents: usize = capacity_of(&self.parents);
        let dirs: usize = keyed::table_room(&self.dirs);
        proof {
            let (nodes, names) = choose|nodes: usize, names: usize| #[trigger]
                self.snapshot.held_in(nodes, names) && index == model::index_size_of(
                    nodes as int,
                    names as int,
                );
            assert(self.held_in(nodes, names, parents, dirs));
        }
        beyond(table_bytes(index, parents as u64, dirs as u64, buffer), limit)
    }
}

/// The memory of a scan whose index takes so many bytes, whose other tables have room for
/// so many parents and directories, and which reads into a buffer, as far as it can be
/// counted.
pub open spec fn table_need(index: int, parents: int, dirs: int, buffer: int) -> int {
    enumeration::capped(index + parents * 16 + dirs * 24 + buffer)
}

/// The memory of such a scan.
pub fn table_bytes(index: u64, parents: u64, dirs: u64, buffer: u64) -> (r: u64)
    ensures
        r == table_need(index as int, parents as int, dirs as int, buffer as int),
{
    let of_parents: u64 = saturating_product(parents, 16);
    let of_dirs: u64 = saturating_product(dirs, 24);
    index.saturating_add(of_parents).saturating_add(of_dirs).saturating_add(buffer)
}

/// Puts the entries below their directories.
fn go_home(
    s: &mut Snapshot,
    parents: &Vec<(u32, u64)>,
    dirs: &AHashMap<u128, u64>,
    Ghost(m): Ghost<MftV>,
) -> (r: Result<u64, NtfsError>)
    requires
        index_sound(m),
        m.g == old(s).growing(),
        m.parents == parents@,
        m.dirs == keyed::table_of(*dirs),
    ensures
        match (r, homes(m, m.parents.len())) {
            (Ok(n), Ok(h)) => n == h.count && final(s).growing() == h.g,
            (Err(e), Err(f)) => e == f,
            _ => false,
        },
        growth::same_scan(*final(s), *old(s)),
{
    let mut orphans: Option<u32> = None;
    let mut count: u64 = 0;
    let mut i: usize = 0;
    while i < parents.len()
        invariant
            i <= parents@.len(),
            count <= i,
            index_sound(m),
            m.parents == parents@,
            m.dirs == keyed::table_of(*dirs),
            s.growing().nodes.len() >= m.g.nodes.len(),
            homes(m, i as nat) == Ok::<Homes, NtfsError>(
                Homes { g: s.growing(), orphans, count: count as nat },
            ),
            growth::same_scan(*s, *old(s)),
        decreases parents@.len() - i,
    {
        let node: u32 = parents[i].0;
        let frn: u64 = parents[i].1;
        assert(m.parents[i as int].0 < m.g.nodes.len());
        assert(m.parents[i as int] == (node, frn));
        let parent: u32 = match keyed::get(dirs, frn as u128) {
            Some(p) => {
                assert(m.dirs.contains_key(frn as u128));
                p as u32
            },
            None => {
                count = count + 1;
                match orphans {
                    Some(o) => o,
                    None => {
                        let name: Vec<u16> = text::utf16("[unresolved metadata]");
                        match growth::add_item(
                            s,
                            0,
                            &name,
                            0,
                            0,
                            DIR | VIRTUAL | INCOMPLETE,
                            None,
                        ) {
                            Err(e) => {
                                proof {
                                    lemma_homes_stop(m, (i + 1) as nat, m.parents.len());
                                }
                                return Err(fault_of(e));
                            },
                            Ok(o) => {
                                orphans = Some(o);
                                o
                            },
                        }
                    },
                }
            },
        };
        let ghost middle = s.growing();
        let mut n: Node = s.nodes[node as usize];
        n.parent = parent;
        s.nodes.set(node as usize, n);
        assert(s.growing() =~= rehomed(middle, node, parent));
        i += 1;
    }
    Ok(count)
}

impl MftIndex {
    /// Ends the reading of `length` bytes of records: the snapshot, ready to be finished.
    /// Entries without a directory go below one of their own.
    pub fn close(self, length: u64) -> (r: Result<Snapshot, NtfsError>)
        requires
            self.sound(),
        ensures
            match (r, closed_index(self.model())) {
                (Ok(s), Ok(g)) => {
                    &&& s.growing() == g
                    &&& s.stats.raw_bytes_read == length
                    &&& s.version == self.scan().version
                    &&& s.root == self.scan().root
                    &&& s.volume == self.scan().volume
                    &&& s.stats.backend == self.scan().stats.backend
                    &&& s.stats.started_unix == self.scan().stats.started_unix
                    &&& s.stats.threads == self.scan().stats.threads
                    &&& s.stats.records_read == self.scan().stats.records_read
                    &&& s.stats.elapsed_ms == self.scan().stats.elapsed_ms
                    &&& s.stats.peak_working_set_bytes == self.scan().stats.peak_working_set_bytes
                    &&& s.stats.index_bytes == self.scan().stats.index_bytes
                },
                (Err(e), Err(f)) => e == f,
                _ => false,
            },
    {
        let ghost m = self.model();
        let mut s: Snapshot = self.snapshot;
        let mut parents: Vec<(u32, u64)> = self.parents;
        let mut dirs: AHashMap<u128, u64> = self.dirs;
        let files: Vec<Record> = self.files;
        let ghost at = m.at;
        let mut i: usize = 0;
        while i < files.len()
            invariant
                i <= files@.len(),
                m == self.model(),
                m.files == record_views(files@),
                at == m.at,
                index_sound(made_of(s, parents@, dirs, m.files, at)),
                with_files(m, i as nat) == Ok::<MftV, NtfsError>(
                    made_of(s, parents@, dirs, m.files, at),
                ),
                growth::same_scan(s, self.snapshot),
            decreases files@.len() - i,
        {
            assert(m.files[i as int] == files@[i as int]@);
            if let Err(e) = add_file(
                &mut s,
                &mut parents,
                &mut dirs,
                &files[i],
                Ghost(m.files),
                Ghost(at),
            ) {
                proof {
                    lemma_files_stop(m, (i + 1) as nat, m.files.len());
                }
                return Err(e);
            }
            i += 1;
        }
        let ghost b = made_of(s, parents@, dirs, m.files, at);
        let count: u64 = match go_home(&mut s, &parents, &dirs, Ghost(b)) {
            Ok(n) => n,
            Err(e) => {
                return Err(e);
            },
        };
        if count > 0 {
            let mut t: String = text::decimal(count);
            t.append(
                " metadata names have missing/stale parent references; live volume changed or metadata unsupported",
            );
            growth::add_warning(&mut s, t);
        }
        growth::add_remark(
            &mut s,
            "Live metadata, not an atomic filesystem snapshot. Hardlink allocations are charged once; alternate DATA streams included. Reparse points are not followed.",
        );
        s.stats.raw_bytes_read = length;
        Ok(s)
    }
}

spec fn linked_node(r: RecordV, name: NameV, first: bool, several: bool, n: Node) -> bool {
    &&& n.logical == r.logical
    &&& n.allocated == if first {
        r.allocated
    } else {
        0
    }
    &&& n.name_len == name.text.len()
    &&& (n.flags & 1 != 0) == (r.flags & 1 != 0)
    &&& (n.flags & 2 != 0) == (r.flags & 2 != 0)
    &&& (n.flags & 4 != 0) == (several || r.flags & 4 != 0)
    &&& r.flags & 1 == 0 ==> n.oldest_modified_ms == r.modified_ms
}

proof fn lemma_link_node(g: Growing, r: RecordV, name: NameV, first: bool, links: nat)
    requires
        name.text.len() <= u16::MAX,
    ensures
        linked_node(r, name, first, links > 1, growth::item_node(g, link_item(r, name, first, links))),
{
    let extra: u16 = if links > 1 {
        4
    } else {
        0
    };
    model::lemma_single_flags();
    model::lemma_flags(r.flags, extra);
    model::lemma_flags(r.flags | extra, 64);
}

proof fn lemma_links(m: MftV, r: RecordV, picks: Seq<usize>, n: nat)
    requires
        n <= picks.len(),
        m.g.nodes.len() + n <= u32::MAX,
        with_links(m, r, picks, n) is Ok,
    ensures
        ({
            let b = with_links(m, r, picks, n)->Ok_0;
            let at = m.g.nodes.len() as int;
            let p = m.parents.len() as int;
            &&& b.g.nodes.len() == at + n
            &&& b.parents.len() == p + n
            &&& forall|i: int| 0 <= i < at ==> #[trigger] b.g.nodes[i] == m.g.nodes[i]
            &&& forall|i: int| 0 <= i < p ==> #[trigger] b.parents[i] == m.parents[i]
            &&& forall|k: int|
                0 <= k < n ==> linked_node(
                    r,
                    r.names[picks[k] as int],
                    k == 0,
                    picks.len() > 1,
                    #[trigger] b.g.nodes[at + k],
                )
            &&& forall|k: int|
                0 <= k < n ==> #[trigger] b.parents[p + k] == (
                    (at + k) as u32,
                    r.names[picks[k] as int].parent,
                )
            &&& b.files == m.files && b.at == m.at
        }),
    decreases n,
{
    if n > 0 {
        let k = (n - 1) as nat;
        lemma_links(m, r, picks, k);
        let before = with_links(m, r, picks, k)->Ok_0;
        let name = r.names[picks[n - 1] as int];
        lemma_link_node(before.g, r, name, n == 1, picks.len());
        let b = with_links(m, r, picks, n)->Ok_0;
        let at = m.g.nodes.len() as int;
        let p = m.parents.len() as int;
        assert forall|i: int| 0 <= i < n implies linked_node(
            r,
            r.names[picks[i] as int],
            i == 0,
            picks.len() > 1,
            #[trigger] b.g.nodes[at + i],
        ) by {
            if i < k {
                assert(b.g.nodes[at + i] == before.g.nodes[at + i]);
            }
        }
        assert forall|i: int| 0 <= i < n implies #[trigger] b.parents[p + i] == (
            (at + i) as u32,
            r.names[picks[i] as int].parent,
        ) by {
            if i < k {
                assert(b.parents[p + i] == before.parents[p + i]);
            }
        }
        assert forall|i: int| 0 <= i < at implies #[trigger] b.g.nodes[i] == m.g.nodes[i] by {
            assert(b.g.nodes[i] == before.g.nodes[i]);
        }
        assert forall|i: int| 0 <= i < p implies #[trigger] b.parents[i] == m.parents[i] by {
            assert(b.parents[i] == before.parents[i]);
        }
    }
}

/// A file is indexed once for each of its names, under the folder of the name and with its
/// length; its space counts at the first name alone, and names besides others are marked as
/// hard links. What was indexed before stays.
pub proof fn law_files_take_space_at_one_name(m: MftV, r: RecordV, k: int)
    requires
        r.names.len() > 0,
        r.frn & MASK != 5,
        m.g.nodes.len() + r.names.len() <= u32::MAX,
        r.has_data || r.flags & 1 != 0 || r.fallback.0 == 0,
        with_file(m, r) is Ok,
        0 <= k < name_picks(r.names).len(),
    ensures
        ({
            let b = with_file(m, r)->Ok_0;
            let picks = name_picks(r.names);
            let at = m.g.nodes.len() as int;
            let n = b.g.nodes[at + k];
            let name = r.names[picks[k] as int];
            &&& b.g.nodes.len() == at + picks.len()
            &&& n.logical == r.logical
            &&& n.allocated == (if k == 0 {
                r.allocated
            } else {
                0
            })
            &&& n.name_len == name.text.len()
            &&& (n.flags & 1 != 0) == (r.flags & 1 != 0)
            &&& (n.flags & 2 != 0) == (r.flags & 2 != 0)
            &&& r.flags & 4 == 0 ==> (n.flags & 4 != 0) == (picks.len() > 1)
            &&& r.flags & 1 == 0 ==> n.oldest_modified_ms == r.modified_ms
            &&& b.parents[m.parents.len() + k] == ((at + k) as u32, name.parent)
            &&& forall|i: int| 0 <= i < at ==> #[trigger] b.g.nodes[i] == m.g.nodes[i]
        }),
{
    let picks = name_picks(r.names);
    lemma_picks(r.names);
    lemma_links(m, estimated(r), picks, picks.len());
    let b = with_file(m, r)->Ok_0;
    let at = m.g.nodes.len() as int;
    assert(linked_node(
        r,
        r.names[picks[k] as int],
        k == 0,
        picks.len() > 1,
        b.g.nodes[at + k],
    ));
}

proof fn lemma_different(v: Seq<NameV>, q: Seq<usize>, n: nat)
    requires
        n <= q.len(),
    ensures
        ({
            let d = different(v, q, n);
            &&& d.len() <= n
            &&& n > 0 ==> d.len() > 0 && v[d.last() as int] == v[q[n - 1] as int]
            &&& forall|a: int| 0 <= a < d.len() ==> q.contains(#[trigger] d[a])
            &&& forall|k: int|
                0 <= k < n ==> exists|a: int|
                    0 <= a < d.len() && v[(#[trigger] d[a]) as int] == v[#[trigger] q[k] as int]
            &&& n > 0 ==> d[0] == q[0]
            &&& forall|a: int|
                0 < a < d.len() ==> v[d[a - 1] as int] != v[(#[trigger] d[a]) as int]
        }),
    decreases n,
{
    if n > 0 {
        let m = (n - 1) as nat;
        lemma_different(v, q, m);
        let before = different(v, q, m);
        let d = different(v, q, n);
        assert forall|a: int| 0 <= a < d.len() implies q.contains(#[trigger] d[a]) by {
            if a < before.len() {
                assert(d[a] == before[a]);
            } else {
                assert(q[n - 1] == d[a]);
            }
        }
        assert forall|k: int| 0 <= k < n implies exists|a: int|
            0 <= a < d.len() && v[(#[trigger] d[a]) as int] == v[#[trigger] q[k] as int] by {
            if k < m {
                let a = choose|a: int|
                    0 <= a < before.len() && v[(#[trigger] before[a]) as int] == v[q[k] as int];
                assert(d[a] == before[a]);
            } else {
                assert(v[d[d.len() - 1] as int] == v[q[k] as int]);
            }
        }
    }
}

proof fn lemma_name_places(v: Seq<NameV>)
    requires
        v.len() <= usize::MAX,
    ensures
        ({
            let le = |a: usize, b: usize| name_first(v, a, b);
            let num = order::numbers(v.len());
            let q = num.sort_by(le);
            &&& q.len() == v.len()
            &&& forall|k: int| 0 <= k < q.len() ==> (#[trigger] q[k]) < v.len()
            &&& forall|i: int| 0 <= i < v.len() ==> q.contains(#[trigger] (i as usize))
        }),
{
    let le = |a: usize, b: usize| name_first(v, a, b);
    let num = order::numbers(v.len());
    let q = num.sort_by(le);
    lemma_name_order(v);
    num.lemma_sort_by_ensures(le);
    assert(q.len() == num.len()) by {
        broadcast use vstd::seq_lib::group_to_multiset_ensures;

        assert(q.to_multiset().len() == q.len());
        assert(num.to_multiset().len() == num.len());
    }
    assert forall|k: int| 0 <= k < q.len() implies (#[trigger] q[k]) < v.len() by {
        order::lemma_same_members(q, num, k);
        let w = num.index_of(q[k]);
        assert(num[w] == q[k]);
    }
    assert forall|i: int| 0 <= i < v.len() implies q.contains(#[trigger] (i as usize)) by {
        assert(num[i] == i as usize);
        order::lemma_same_members(num, q, i);
    }
}

proof fn lemma_picks(v: Seq<NameV>)
    requires
        v.len() <= u32::MAX,
    ensures
        name_picks(v).len() <= v.len(),
        v.len() > 0 ==> name_picks(v).len() > 0,
{
    let q = order::numbers(v.len()).sort_by(|a: usize, b: usize| name_first(v, a, b));
    lemma_name_places(v);
    lemma_different(v, q, v.len());
}

/// No name of a file is left out: each is among those that are indexed.
pub proof fn law_no_name_is_left_out(v: Seq<NameV>, i: int) -> (a: int)
    requires
        0 <= i < v.len() <= u32::MAX,
    ensures
        0 <= a < name_picks(v).len(),
        v[name_picks(v)[a] as int] == v[i],
{
    let q = order::numbers(v.len()).sort_by(|a: usize, b: usize| name_first(v, a, b));
    lemma_name_places(v);
    lemma_different(v, q, v.len());
    let d = name_picks(v);
    assert(q.contains(i as usize));
    let k = q.index_of(i as usize);
    assert(v[q[k] as int] == v[i]);
    choose|a: int| 0 <= a < d.len() && v[(#[trigger] d[a]) as int] == v[q[k] as int]
}

/// Of two indexed names that follow each other, one differs from the other in its folder or
/// its text.
pub proof fn law_names_are_indexed_once(v: Seq<NameV>, a: int)
    requires
        v.len() <= u32::MAX,
        0 < a < name_picks(v).len(),
    ensures
        v[name_picks(v)[a - 1] as int] != v[name_picks(v)[a] as int],
{
    lemma_name_places(v);
    let q = order::numbers(v.len()).sort_by(|a: usize, b: usize| name_first(v, a, b));
    lemma_different(v, q, v.len());
    assert(name_picks(v)[a] == different(v, q, v.len())[a]);
}

/// The root directory stands for the node that a scan starts with, and a file without a
/// name is told as a warning and makes the scan incomplete, unless its number is one of the
/// four that are kept free.
pub proof fn law_only_reserved_records_are_nameless(m: MftV, r: RecordV)
    ensures
        r.frn & MASK == 5 ==> with_file(m, r) is Ok && with_file(m, r)->Ok_0.g == m.g && with_file(
            m,
            r,
        )->Ok_0.dirs[r.frn as u128] == 0,
        r.frn & MASK != 5 && r.names.len() == 0 ==> {
            &&& with_file(m, r) is Ok
            &&& with_file(m, r)->Ok_0.g.nodes == m.g.nodes
            &&& with_file(m, r)->Ok_0.g.complete == (m.g.complete && 12 <= r.frn & MASK && r.frn
                & MASK <= 15)
        },
{
}

/// Where a file has no stream to tell its size, that beside its name is taken and marked as
/// an estimate; else the sizes of its streams stand.
pub proof fn law_sizes_are_estimated_only_without_streams(r: RecordV)
    ensures
        ({
            let e = estimated(r);
            &&& r.has_data || r.flags & 1 != 0 ==> e == r
            &&& !r.has_data && r.flags & 1 == 0 && r.fallback.0 > 0 ==> e.logical == r.fallback.0
                && e.allocated == r.fallback.1 && e.flags & 8 != 0
            &&& e.names == r.names && e.frn == r.frn && e.modified_ms == r.modified_ms
        }),
{
    model::lemma_single_flags();
    model::lemma_flags(r.flags, 8);
}

/// The parts of a file that lies in several records are put together under the number of its
/// first record.
pub proof fn law_parts_go_to_their_file(m: MftV, r: RecordV)
    requires
        r.base != 0 || r.complex,
        with_record(m, r) is Ok,
    ensures
        ({
            let b = with_record(m, r)->Ok_0;
            let key = if r.base != 0 {
                r.base
            } else {
                r.frn
            } as u128;
            &&& b.g == m.g
            &&& b.at.contains_key(key)
            &&& m.at.contains_key(key) && m.at[key] < m.files.len() ==> b.files.len()
                == m.files.len() && b.files[m.at[key] as int].logical == m.files[m.at[key] as int].logical
                + r.logical && b.files[m.at[key] as int].allocated
                == m.files[m.at[key] as int].allocated + r.allocated
            &&& !m.at.contains_key(key) ==> b.files.len() == m.files.len() + 1 && b.at[key]
                == m.files.len() as u64 && b.files.last().frn == key && b.files.last().logical
                == r.logical
        }),
{
}

proof fn lemma_homes(m: MftV, n: nat)
    requires
        n <= m.parents.len(),
        m.g.nodes.len() + n < u32::MAX,
        forall|i: int| 0 <= i < m.parents.len() ==> (#[trigger] m.parents[i]).0 < m.g.nodes.len(),
        forall|i: int, j: int|
            0 <= i < j < m.parents.len() ==> (#[trigger] m.parents[i]).0 != (
            #[trigger] m.parents[j]).0,
        homes(m, n) is Ok,
    ensures
        ({
            let h = homes(m, n)->Ok_0;
            &&& m.g.nodes.len() <= h.g.nodes.len() <= m.g.nodes.len() + 1
            &&& h.orphans is None ==> h.g.nodes.len() == m.g.nodes.len() && h.count == 0
            &&& h.orphans is Some ==> h.g.nodes.len() == m.g.nodes.len() + 1 && h.orphans->0
                == m.g.nodes.len() && h.count > 0
            &&& forall|i: int|
                0 <= i < n ==> h.g.nodes[(#[trigger] m.parents[i]).0 as int].parent == (
                if m.dirs.contains_key(m.parents[i].1 as u128) {
                    m.dirs[m.parents[i].1 as u128] as u32
                } else {
                    m.g.nodes.len() as u32
                })
            &&& forall|i: int|
                0 <= i < n && !m.dirs.contains_key((#[trigger] m.parents[i]).1 as u128)
                    ==> h.orphans is Some
            &&& forall|k: int|
                0 <= k < m.g.nodes.len() ==> (Node {
                    parent: m.g.nodes[k].parent,
                    ..(#[trigger] h.g.nodes[k])
                }) == m.g.nodes[k]
            &&& h.g.complete == m.g.complete
        }),
    decreases n,
{
    if n > 0 {
        let k = (n - 1) as nat;
        lemma_homes(m, k);
        let before = homes(m, k)->Ok_0;
        let h = homes(m, n)->Ok_0;
        let (node, frn) = m.parents[n - 1];
        assert forall|i: int| 0 <= i < n implies h.g.nodes[(
        #[trigger] m.parents[i]).0 as int].parent == (if m.dirs.contains_key(
            m.parents[i].1 as u128,
        ) {
            m.dirs[m.parents[i].1 as u128] as u32
        } else {
            m.g.nodes.len() as u32
        }) by {
            if i < k {
                assert(m.parents[i].0 != m.parents[n - 1].0);
                assert(h.g.nodes[m.parents[i].0 as int] == before.g.nodes[m.parents[i].0 as int]);
            }
        }
        assert forall|i: int| 0 <= i < m.g.nodes.len() implies (Node {
            parent: m.g.nodes[i].parent,
            ..(#[trigger] h.g.nodes[i])
        }) == m.g.nodes[i] by {
            assert((Node { parent: m.g.nodes[i].parent, ..(before.g.nodes[i]) }) == m.g.nodes[i]);
        }
    }
}

/// Every name ends up in the folder it names, if that folder is known; else in a folder of
/// its own for what has none, and the scan says that it is incomplete. Nothing else of an
/// entry changes.
pub proof fn law_every_name_finds_its_folder(m: MftV, i: int)
    requires
        m.files.len() == 0,
        m.g.nodes.len() + m.parents.len() < u32::MAX,
        forall|k: int| 0 <= k < m.parents.len() ==> (#[trigger] m.parents[k]).0 < m.g.nodes.len(),
        forall|k: int, j: int|
            0 <= k < j < m.parents.len() ==> (#[trigger] m.parents[k]).0 != (
            #[trigger] m.parents[j]).0,
        closed_index(m) is Ok,
        0 <= i < m.parents.len(),
    ensures
        ({
            let g = closed_index(m)->Ok_0;
            let (node, frn) = m.parents[i];
            let known = m.dirs.contains_key(frn as u128);
            let n = g.nodes[node as int];
            let old_n = m.g.nodes[node as int];
            &&& known ==> n.parent == m.dirs[frn as u128] as u32
            &&& !known ==> n.parent == m.g.nodes.len() && g.nodes.len() == m.g.nodes.len() + 1
                && !g.complete
            &&& n.logical == old_n.logical && n.allocated == old_n.allocated && n.flags
                == old_n.flags && n.name_start == old_n.name_start && n.name_len == old_n.name_len
                && n.oldest_modified_ms == old_n.oldest_modified_ms
        }),
{
    assert(with_files(m, 0) == Ok::<MftV, NtfsError>(m));
    lemma_homes(m, m.parents.len());
    let h = homes(m, m.parents.len())->Ok_0;
    let (node, frn) = m.parents[i];
    assert(h.g.nodes[m.parents[i].0 as int].parent == (if m.dirs.contains_key(
        m.parents[i].1 as u128,
    ) {
        m.dirs[m.parents[i].1 as u128] as u32
    } else {
        m.g.nodes.len() as u32
    }));
    assert((Node { parent: m.g.nodes[node as int].parent, ..(h.g.nodes[node as int]) })
        == m.g.nodes[node as int]);
}

/// Every parent and every directory that is kept adds to the memory that a table needs, up to
/// the largest number there is.
pub proof fn law_every_record_needs_memory(index: int, parents: int, dirs: int, buffer: int)
    requires
        0 <= index,
        0 <= parents,
        0 <= dirs,
        0 <= buffer,
        table_need(index, parents + 1, dirs + 1, buffer) < u64::MAX,
    ensures
        table_need(index, 0, 0, 0) == index,
        table_need(index, parents + 1, dirs, buffer) == table_need(index, parents, dirs, buffer)
            + 16,
        table_need(index, parents, dirs + 1, buffer) == table_need(index, parents, dirs, buffer)
            + 24,
        table_need(index, parents, dirs, buffer) == table_need(index, parents, dirs, 0) + buffer,
{
}

/// Every entry without a known folder, and no other, is counted as an orphan; there is a place
/// for orphans exactly if there is one.
pub proof fn law_orphans_are_counted(m: MftV, n: nat)
    requires
        0 < n <= m.parents.len(),
        homes(m, n) is Ok,
    ensures
        homes(m, (n - 1) as nat) is Ok,
        homes(m, n)->Ok_0.count - homes(m, (n - 1) as nat)->Ok_0.count == (if m.dirs.contains_key(
            m.parents[n - 1].1 as u128,
        ) {
            0int
        } else {
            1
        }),
        homes(m, n)->Ok_0.orphans is Some <==> homes(m, n)->Ok_0.count > 0,
    decreases n,
{
    if n > 1 {
        law_orphans_are_counted(m, (n - 1) as nat);
    } else {
        reveal_with_fuel(homes, 2);
    }
}

} // verus!
