//! Where the records of an NTFS volume lie: the extents of its master file table.
use crate::bytes;
use crate::keyed;
use crate::ntfs;
use crate::ntfs::{Geometry, NtfsError, Run};
use crate::ntfs_record;
use crate::order;
use ahash::AHashSet;
use vstd::prelude::*;
use vstd::relations::*;

verus! {

/// The number of a record without the count of its uses.
pub const MASK: u64 = 0x0000_ffff_ffff_ffff;

/// The longest list of attributes that is read.
pub const MAX_LIST: u64 = 67108864;

/// A read from the volume, or so many zero bytes.
#[derive(Clone, Copy, Debug, PartialEq, Eq, Structural)]
pub struct Part {
    pub at: Option<u64>,
    pub len: usize,
}

/// The run that holds cluster `vcn` of a stream.
pub open spec fn run_at(extents: Seq<Run>, vcn: int, from: nat) -> Option<Run>
    decreases extents.len() - from,
{
    if from >= extents.len() {
        None
    } else {
        let r = extents[from as int];
        if r.vcn <= vcn < r.vcn + r.clusters {
            Some(r)
        } else {
            run_at(extents, vcn, from + 1)
        }
    }
}

/// How many of `len` bytes from `offset` on lie in a run.
pub open spec fn bytes_in(r: Run, cluster: int, offset: int, len: int) -> int {
    let there = (r.vcn + r.clusters) * cluster - offset;
    if there < len {
        there
    } else {
        len
    }
}

/// The reads that give `len` bytes of a stream from `offset` on, after those in `out`.
pub open spec fn reads_from(
    extents: Seq<Run>,
    cluster: int,
    offset: int,
    len: int,
    out: Seq<Part>,
) -> Result<Seq<Part>, NtfsError>
    decreases len,
{
    if len <= 0 || cluster <= 0 {
        Ok(out)
    } else {
        match run_at(extents, offset / cluster, 0) {
            None => Err(NtfsError::MissingExtent),
            Some(r) => {
                let n = bytes_in(r, cluster, offset, len);
                let inside = offset - r.vcn * cluster;
                if n <= 0 {
                    Err(NtfsError::MissingExtent)
                } else {
                    match r.lcn {
                        None => reads_from(
                            extents,
                            cluster,
                            offset + n,
                            len - n,
                            out.push(Part { at: None, len: n as usize }),
                        ),
                        Some(lcn) => if lcn * cluster + inside > u64::MAX {
                            Err(NtfsError::PhysicalOverflow)
                        } else {
                            reads_from(
                                extents,
                                cluster,
                                offset + n,
                                len - n,
                                out.push(
                                    Part {
                                        at: Some((lcn * cluster + inside) as u64),
                                        len: n as usize,
                                    },
                                ),
                            )
                        },
                    }
                }
            },
        }
    }
}

fn find_run(extents: &Vec<Run>, vcn: u64) -> (r: Option<Run>)
    ensures
        r == run_at(extents@, vcn as int, 0),
{
    let mut i: usize = 0;
    while i < extents.len()
        invariant
            i <= extents@.len(),
            run_at(extents@, vcn as int, i as nat) == run_at(extents@, vcn as int, 0),
        decreases extents@.len() - i,
    {
        let r: Run = extents[i];
        if r.vcn <= vcn && (vcn as u128) < r.vcn as u128 + r.clusters as u128 {
            return Some(r);
        }
        i += 1;
    }
    None
}

proof fn lemma_run_at(extents: Seq<Run>, vcn: int, from: nat)
    ensures
        run_at(extents, vcn, from) matches Some(r) ==> r.vcn <= vcn < r.vcn + r.clusters,
    decreases extents.len() - from,
{
    if from < extents.len() {
        lemma_run_at(extents, vcn, from + 1);
    }
}

/// How much is read of a plan.
pub open spec fn parts_sum(v: Seq<Part>) -> int
    decreases v.len(),
{
    if v.len() == 0 {
        0
    } else {
        parts_sum(v.drop_last()) + v.last().len
    }
}

/// The reads that give `len` bytes of a stream from `offset` on.
pub fn plan_reads(extents: &Vec<Run>, cluster: u64, offset: u64, len: usize) -> (r: Result<
    Vec<Part>,
    NtfsError,
>)
    requires
        cluster > 0,
        offset + len <= u64::MAX,
    ensures
        match (r, reads_from(extents@, cluster as int, offset as int, len as int, Seq::empty())) {
            (Ok(v), Ok(s)) => v@ == s && parts_sum(s) == len,
            (Err(e), Err(f)) => e == f,
            _ => false,
        },
{
    let ghost want = reads_from(
        extents@,
        cluster as int,
        offset as int,
        len as int,
        Seq::empty(),
    );
    let mut out: Vec<Part> = Vec::new();
    let mut at: u64 = offset;
    let mut left: usize = len;
    while left > 0
        invariant
            cluster > 0,
            left <= len,
            at + left <= u64::MAX,
            at + left == offset + len,
            parts_sum(out@) + left == len,
            want == reads_from(extents@, cluster as int, offset as int, len as int, Seq::empty()),
            want == reads_from(extents@, cluster as int, at as int, left as int, out@),
        decreases left,
    {
        let vcn: u64 = at / cluster;
        proof {
            lemma_run_at(extents@, at as int / cluster as int, 0);
        }
        match find_run(extents, vcn) {
            None => {
                return Err(NtfsError::MissingExtent);
            },
            Some(run) => {
                let ghost c = cluster as int;
                let ghost q = at as int / c;
                proof {
                    let a = at as int;
                    let rv = run.vcn as int;
                    let re = run.vcn + run.clusters;
                    assert(c * q <= a < c * q + c) by (nonlinear_arith)
                        requires
                            c > 0,
                            q == a / c,
                    ;
                    assert(rv * c <= a) by (nonlinear_arith)
                        requires
                            rv <= q,
                            c * q <= a,
                            c > 0,
                    ;
                    assert(a < re * c) by (nonlinear_arith)
                        requires
                            q + 1 <= re,
                            a < c * q + c,
                            c > 0,
                    ;
                    assert(0 <= re * c <= 0x1_ffff_ffff_ffff_fffe * 0xffff_ffff_ffff_ffff)
                        by (nonlinear_arith)
                        requires
                            0 <= re <= 0x1_ffff_ffff_ffff_fffe,
                            0 <= c <= 0xffff_ffff_ffff_ffff,
                    ;
                }
                let end: u128 = run.vcn as u128 + run.clusters as u128;
                let full: Option<u128> = end.checked_mul(cluster as u128);
                let n: usize = match full {
                    Some(f) => {
                        let there: u128 = f - at as u128;
                        if there < left as u128 {
                            there as usize
                        } else {
                            left
                        }
                    },
                    None => left,
                };
                assert(n == bytes_in(run, c, at as int, left as int));
                let place: Option<u64> = match run.lcn {
                    None => None,
                    Some(lcn) => {
                        let inside: u64 = at - run.vcn * cluster;
                        let p: u128 = match (lcn as u128).checked_mul(cluster as u128) {
                            Some(p) => p,
                            None => {
                                return Err(NtfsError::PhysicalOverflow);
                            },
                        };
                        if p > 0xffff_ffff_ffff_ffff || p + inside as u128
                            > 0xffff_ffff_ffff_ffff {
                            return Err(NtfsError::PhysicalOverflow);
                        }
                        Some((p + inside as u128) as u64)
                    },
                };
                let ghost had = out@;
                out.push(Part { at: place, len: n });
                assert(out@.drop_last() =~= had);
                at = at + n as u64;
                left = left - n;
            },
        }
    }
    Ok(out)
}

/// Where the list of the table's further attributes is.
#[derive(Debug)]
pub enum ListPlace {
    Nowhere,
    /// In the first record: these bytes.
    Here(Vec<u8>),
    /// On the volume: so many bytes in these runs.
    There(u64, Vec<Run>),
}

/// The same as such.
pub enum ListV {
    Nowhere,
    Here(Seq<u8>),
    There(u64, Seq<Run>),
}

impl View for ListPlace {
    type V = ListV;

    open spec fn view(&self) -> ListV {
        match self {
            ListPlace::Nowhere => ListV::Nowhere,
            ListPlace::Here(b) => ListV::Here(b@),
            ListPlace::There(n, r) => ListV::There(*n, r@),
        }
    }
}

/// What the first record of the table tells of the table itself.
#[derive(Debug)]
pub struct First {
    pub extents: Vec<Run>,
    pub length: u64,
    pub list: ListPlace,
}

/// The same as such.
pub struct FirstV {
    pub extents: Seq<Run>,
    pub length: u64,
    pub list: ListV,
}

impl View for First {
    type V = FirstV;

    open spec fn view(&self) -> FirstV {
        FirstV { extents: self.extents@, length: self.length, list: self.list@ }
    }
}

/// A part of the table's own data.
pub open spec fn with_table_data(f: FirstV, a: Seq<u8>) -> Result<FirstV, NtfsError> {
    if a[8] != 1 {
        Err(NtfsError::ResidentMft)
    } else if bytes::le_of(a, 16, 8) == 0 && a.len() < 56 {
        Err(NtfsError::TruncatedU64)
    } else {
        match ntfs::runs_of(a) {
            Err(e) => Err(e),
            Ok(v) => Ok(
                FirstV {
                    extents: f.extents + v,
                    length: if bytes::le_of(a, 16, 8) == 0 {
                        bytes::le_of(a, 48, 8) as u64
                    } else {
                        f.length
                    },
                    list: f.list,
                },
            ),
        }
    }
}

/// The list of further attributes.
pub open spec fn with_list(f: FirstV, a: Seq<u8>) -> Result<FirstV, NtfsError> {
    if a[8] == 0 {
        match ntfs::resident_of(a) {
            Err(e) => Err(e),
            Ok(v) => Ok(FirstV { list: ListV::Here(v), ..f }),
        }
    } else if a.len() < 56 {
        Err(NtfsError::TruncatedU64)
    } else if bytes::le_of(a, 48, 8) > MAX_LIST {
        Err(NtfsError::ExcessiveList)
    } else {
        match ntfs::runs_of(a) {
            Err(e) => Err(e),
            Ok(v) => Ok(FirstV { list: ListV::There(bytes::le_of(a, 48, 8) as u64, v), ..f }),
        }
    }
}

pub open spec fn with_first(f: FirstV, a: Seq<u8>) -> Result<FirstV, NtfsError> {
    let kind = bytes::le_of(a, 0, 4);
    if kind == 0x80 && a[9] == 0 {
        with_table_data(f, a)
    } else if kind == 0x20 {
        with_list(f, a)
    } else {
        Ok(f)
    }
}

/// What the first `n` attributes of the first record tell.
pub open spec fn with_firsts(b: Seq<u8>, v: Seq<(usize, usize)>, n: nat) -> Result<FirstV, NtfsError>
    decreases n,
{
    if n == 0 {
        Ok(FirstV { extents: Seq::empty(), length: 0, list: ListV::Nowhere })
    } else {
        match with_firsts(b, v, (n - 1) as nat) {
            Err(e) => Err(e),
            Ok(f) => with_first(f, ntfs_record::attribute_at(b, v[n - 1])),
        }
    }
}

/// What the first record of the table tells of the table.
pub open spec fn first_of(b: Seq<u8>, g: Geometry) -> Result<FirstV, NtfsError> {
    match ntfs::restored(b, g.sector as int) {
        Err(e) => Err(e),
        Ok(c) => match ntfs::attributes_of(c) {
            Err(e) => Err(e),
            Ok(v) => match with_firsts(c, v, v.len()) {
                Err(e) => Err(e),
                Ok(f) => if f.length > 0 && f.length % (g.record as u64) == 0 && f.extents.len()
                    > 0 {
                    Ok(f)
                } else {
                    Err(NtfsError::MftData)
                },
            },
        },
    }
}

/// No run reaches past the last number of a cluster.
pub open spec fn bounded(v: Seq<Run>) -> bool {
    forall|i: int| 0 <= i < v.len() ==> (#[trigger] v[i]).vcn + v[i].clusters <= u64::MAX
}

fn add_first(f: &mut First, a: &[u8]) -> (e: Result<(), NtfsError>)
    requires
        a@.len() >= 24,
        bounded(old(f).extents@),
    ensures
        match (e, with_first(old(f)@, a@)) {
            (Ok(_), Ok(v)) => final(f)@ == v && bounded(final(f).extents@),
            (Err(x), Err(y)) => x == y,
            _ => false,
        },
{
    let kind: u64 = bytes::le(a, 0, 4);
    if kind == 0x80 && a[9] == 0 {
        if a[8] != 1 {
            return Err(NtfsError::ResidentMft);
        }
        let starts: bool = bytes::le(a, 16, 8) == 0;
        if starts && a.len() < 56 {
            return Err(NtfsError::TruncatedU64);
        }
        match ntfs::runs(a) {
            Err(x) => Err(x),
            Ok(v) => {
                let ghost had = f.extents@;
                let ghost added = v@;
                let mut more: Vec<Run> = v;
                f.extents.append(&mut more);
                assert(f.extents@ =~= had + added);
                if starts {
                    f.length = bytes::le(a, 48, 8);
                }
                Ok(())
            },
        }
    } else if kind == 0x20 {
        if a[8] == 0 {
            match ntfs::resident(a) {
                Err(x) => Err(x),
                Ok(v) => {
                    let mut list: Vec<u8> = Vec::new();
                    list.extend_from_slice(v);
                    assert(list@ =~= v@);
                    f.list = ListPlace::Here(list);
                    Ok(())
                },
            }
        } else {
            if a.len() < 56 {
                return Err(NtfsError::TruncatedU64);
            }
            let len: u64 = bytes::le(a, 48, 8);
            if len > MAX_LIST {
                return Err(NtfsError::ExcessiveList);
            }
            match ntfs::runs(a) {
                Err(x) => Err(x),
                Ok(v) => {
                    f.list = ListPlace::There(len, v);
                    Ok(())
                },
            }
        }
    } else {
        Ok(())
    }
}

proof fn lemma_firsts_stop(b: Seq<u8>, v: Seq<(usize, usize)>, m: nat, n: nat)
    requires
        m <= n,
        with_firsts(b, v, m) is Err,
    ensures
        with_firsts(b, v, n) == with_firsts(b, v, m),
    decreases n,
{
    if m < n {
        lemma_firsts_stop(b, v, m, (n - 1) as nat);
    }
}

/// Reads the first record of the table, restoring its bytes on the way.
pub fn first_extents(record: &mut Vec<u8>, g: &Geometry) -> (r: Result<First, NtfsError>)
    requires
        g.sound(),
    ensures
        match (r, first_of(old(record)@, *g)) {
            (Ok(f), Ok(v)) => f@ == v && bounded(f.extents@),
            (Err(e), Err(x)) => e == x,
            _ => false,
        },
{
    if let Err(e) = ntfs::fixup(record, g.sector) {
        return Err(e);
    }
    let ghost c = record@;
    let spans: Vec<(usize, usize)> = match ntfs::attributes(record) {
        Ok(v) => v,
        Err(e) => {
            return Err(e);
        },
    };
    let mut out = First { extents: Vec::new(), length: 0, list: ListPlace::Nowhere };
    let mut i: usize = 0;
    while i < spans.len()
        invariant
            i <= spans@.len(),
            record@ == c,
            ntfs::inside(spans@, c.len()),
            bounded(out.extents@),
            with_firsts(c, spans@, i as nat) == Ok::<FirstV, NtfsError>(out@),
            ntfs::restored(old(record)@, g.sector as int) == Ok::<Seq<u8>, NtfsError>(c),
            ntfs::attributes_of(c) == Ok::<Seq<(usize, usize)>, NtfsError>(spans@),
        decreases spans@.len() - i,
    {
        let at: (usize, usize) = spans[i];
        let total: usize = record.len();
        assert(total == c.len());
        assert(spans@[i as int].0 + spans@[i as int].1 <= c.len());
        let end: usize = at.0 + at.1;
        let a: &[u8] = &record.as_slice()[at.0..end];
        assert(a@ =~= ntfs_record::attribute_at(c, at));
        if let Err(e) = add_first(&mut out, a) {
            proof {
                lemma_firsts_stop(c, spans@, (i + 1) as nat, spans@.len());
            }
            return Err(e);
        }
        i += 1;
    }
    if out.length > 0 && out.length % (g.record as u64) == 0 && out.extents.len() > 0 {
        Ok(out)
    } else {
        Err(NtfsError::MftData)
    }
}

/// The parts of the table's data that a list names from byte `p` on: first cluster, record
/// and number of the attribute.
pub open spec fn listed_from(b: Seq<u8>, p: int, out: Seq<(u64, u64, u16)>) -> Result<
    Seq<(u64, u64, u16)>,
    NtfsError,
>
    decreases b.len() - p,
{
    let kind = bytes::le_of(b, p, 4);
    let n = bytes::le_of(b, p + 4, 2) as int;
    let frn = bytes::le_of(b, p + 16, 8) as u64;
    if p + 26 > b.len() || kind == 0xffff_ffff || kind == 0 {
        Ok(out)
    } else if !(n >= 26 && p + n <= b.len()) {
        Err(NtfsError::ListEntry)
    } else if kind == 0x80 && b[p + 6] == 0 && frn & MASK != 0 {
        listed_from(
            b,
            p + n,
            out.push(
                (bytes::le_of(b, p + 8, 8) as u64, frn, bytes::le_of(b, p + 24, 2) as u16),
            ),
        )
    } else {
        listed_from(b, p + n, out)
    }
}

/// By cluster, record and number, else as listed.
pub open spec fn part_first(v: Seq<(u64, u64, u16)>, a: usize, b: usize) -> bool {
    let x = v[a as int];
    let y = v[b as int];
    ||| x.0 < y.0
    ||| x.0 == y.0 && x.1 < y.1
    ||| x.0 == y.0 && x.1 == y.1 && x.2 < y.2
    ||| x == y && a <= b
}

pub open spec fn parts_in_turn(v: Seq<(u64, u64, u16)>) -> Seq<usize> {
    order::numbers(v.len()).sort_by(|a: usize, b: usize| part_first(v, a, b))
}

/// The records among the first `n`, each once.
pub open spec fn records_once(v: Seq<(u64, u64, u16)>, q: Seq<usize>, n: nat) -> Seq<u64>
    decreases n,
{
    if n == 0 {
        Seq::empty()
    } else {
        let before = records_once(v, q, (n - 1) as nat);
        let frn = v[q[n - 1] as int].1;
        if before.contains(frn) {
            before
        } else {
            before.push(frn)
        }
    }
}

fn listed(b: &[u8]) -> (r: Result<Vec<(u64, u64, u16)>, NtfsError>)
    ensures
        match (r, listed_from(b@, 0, Seq::empty())) {
            (Ok(v), Ok(s)) => v@ == s,
            (Err(e), Err(f)) => e == f,
            _ => false,
        },
{
    let total: usize = b.len();
    let mut out: Vec<(u64, u64, u16)> = Vec::new();
    let mut p: usize = 0;
    let ghost want = listed_from(b@, 0, Seq::empty());
    while total - p >= 26
        invariant
            p <= total,
            total == b@.len(),
            want == listed_from(b@, 0, Seq::empty()),
            want == listed_from(b@, p as int, out@),
        decreases total - p,
    {
        proof {
            bytes::lemma_spans();
            bytes::lemma_le_bound(b@, p + 4, 2);
            bytes::lemma_le_bound(b@, p + 24, 2);
        }
        let kind: u64 = bytes::le(b, p, 4);
        let n: usize = bytes::le(b, p + 4, 2) as usize;
        if kind == 0xffff_ffff || kind == 0 {
            return Ok(out);
        }
        if !(n >= 26 && n <= total - p) {
            return Err(NtfsError::ListEntry);
        }
        let frn: u64 = bytes::le(b, p + 16, 8);
        if kind == 0x80 && b[p + 6] == 0 && frn & MASK != 0 {
            out.push((bytes::le(b, p + 8, 8), frn, bytes::le(b, p + 24, 2) as u16));
        }
        p = p + n;
    }
    Ok(out)
}

proof fn lemma_part_order(v: Seq<(u64, u64, u16)>)
    ensures
        total_ordering(|a: usize, b: usize| part_first(v, a, b)),
{
}

/// The further records in which the table's data is described, in the order in which they
/// are to be read.
pub open spec fn needed_of(b: Seq<u8>) -> Result<Seq<u64>, NtfsError> {
    match listed_from(b, 0, Seq::empty()) {
        Err(e) => Err(e),
        Ok(v) => Ok(records_once(v, parts_in_turn(v), v.len())),
    }
}

pub fn needed_records(list: &[u8]) -> (r: Result<Vec<u64>, NtfsError>)
    ensures
        match (r, needed_of(list@)) {
            (Ok(v), Ok(s)) => v@ == s,
            (Err(e), Err(f)) => e == f,
            _ => false,
        },
{
    let v: Vec<(u64, u64, u16)> = match listed(list) {
        Ok(v) => v,
        Err(e) => {
            return Err(e);
        },
    };
    let n: usize = v.len();
    proof {
        lemma_part_order(v@);
    }
    let first = |a: usize, b: usize| -> (r: bool)
        requires
            a < n,
            b < n,
            n == v@.len(),
        ensures
            r == part_first(v@, a, b),
        {
            let x: (u64, u64, u16) = v[a];
            let y: (u64, u64, u16) = v[b];
            x.0 < y.0 || (x.0 == y.0 && (x.1 < y.1 || (x.1 == y.1 && (x.2 < y.2 || (x.2 == y.2
                && a <= b)))))
        };
    let q: Vec<usize> = order::rank(n, first, Ghost(|a: usize, b: usize| part_first(v@, a, b)));
    let mut seen: AHashSet<(u64, u128)> = keyed::no_objects();
    let mut out: Vec<u64> = Vec::new();
    let mut i: usize = 0;
    while i < n
        invariant
            i <= n,
            n == v@.len(),
            n == q@.len(),
            forall|k: int| 0 <= k < n ==> (#[trigger] q@[k]) < n,
            out@ == records_once(v@, q@, i as nat),
            forall|x: u64|
                out@.contains(x) == #[trigger] keyed::objects_in(seen).contains((0u64, x as u128)),
        decreases n - i,
    {
        let frn: u64 = v[q[i]].1;
        let ghost had = out@;
        let ghost was = keyed::objects_in(seen);
        if keyed::add_object(&mut seen, (0, frn as u128)) {
            out.push(frn);
            proof {
                assert forall|x: u64|
                    out@.contains(x) == #[trigger] keyed::objects_in(seen).contains(
                        (0u64, x as u128),
                    ) by {
                    if x == frn {
                        assert(out@[had.len() as int] == frn);
                    } else {
                        assert(was.contains((0u64, x as u128)) == had.contains(x));
                        if had.contains(x) {
                            assert(out@[had.index_of(x)] == x);
                        }
                        if out@.contains(x) {
                            let w = out@.index_of(x);
                            assert(had[w] == x);
                        }
                    }
                }
            }
        } else {
            assert(had.contains(frn));
            assert(keyed::objects_in(seen) =~= was);
        }
        i += 1;
    }
    Ok(out)
}

/// Whether a record that the system handed out still carries the marks of its sectors.
pub open spec fn marked_reply(b: Seq<u8>, sector: int) -> Result<bool, NtfsError> {
    let usa = bytes::le_of(b, 4, 2) as int;
    if b.len() < 6 {
        Err(NtfsError::TruncatedU16)
    } else if sector > b.len() || usa + 2 > b.len() {
        Ok(sector > b.len() && usa + 2 > b.len())
    } else {
        Ok(b[sector - 2] == b[usa] && b[sector - 1] == b[usa + 1])
    }
}

pub fn reply_is_marked(record: &[u8], sector: usize) -> (r: Result<bool, NtfsError>)
    requires
        sector >= 2,
    ensures
        r == marked_reply(record@, sector as int),
{
    let total: usize = record.len();
    if total < 6 {
        return Err(NtfsError::TruncatedU16);
    }
    proof {
        bytes::lemma_spans();
        bytes::lemma_le_bound(record@, 4, 2);
    }
    let usa: usize = bytes::le(record, 4, 2) as usize;
    let far: bool = usa > total || total - usa < 2;
    if sector > total || far {
        return Ok(sector > total && far);
    }
    Ok(record[sector - 2] == record[usa] && record[sector - 1] == record[usa + 1])
}

/// The runs that the first `n` attributes of a further record add.
pub open spec fn extension_runs(b: Seq<u8>, v: Seq<(usize, usize)>, n: nat) -> Result<
    Seq<Run>,
    NtfsError,
>
    decreases n,
{
    if n == 0 {
        Ok(Seq::empty())
    } else {
        let a = ntfs_record::attribute_at(b, v[n - 1]);
        match extension_runs(b, v, (n - 1) as nat) {
            Err(e) => Err(e),
            Ok(before) => if bytes::le_of(a, 0, 4) == 0x80 && a[9] == 0 && a[8] == 1 {
                match ntfs::runs_of(a) {
                    Err(e) => Err(e),
                    Ok(r) => Ok(before + r),
                }
            } else {
                Ok(before)
            },
        }
    }
}

/// What a further record adds to the table's extents.
pub open spec fn extension_of(b: Seq<u8>, frn: u64) -> Result<Seq<Run>, NtfsError> {
    if b.len() < 18 {
        Err(NtfsError::TruncatedU16)
    } else if bytes::le_of(b, 16, 2) != frn as int / 0x1_0000_0000_0000 {
        Err(NtfsError::ReusedRecord)
    } else {
        match ntfs::attributes_of(b) {
            Err(e) => Err(e),
            Ok(v) => extension_runs(b, v, v.len()),
        }
    }
}

proof fn lemma_extension_stop(b: Seq<u8>, v: Seq<(usize, usize)>, m: nat, n: nat)
    requires
        m <= n,
        extension_runs(b, v, m) is Err,
    ensures
        extension_runs(b, v, n) == extension_runs(b, v, m),
    decreases n,
{
    if m < n {
        lemma_extension_stop(b, v, m, (n - 1) as nat);
    }
}

/// Reads a further record of the table, already restored.
pub fn extension(record: &[u8], frn: u64) -> (r: Result<Vec<Run>, NtfsError>)
    ensures
        match (r, extension_of(record@, frn)) {
            (Ok(v), Ok(s)) => v@ == s && bounded(s),
            (Err(e), Err(f)) => e == f,
            _ => false,
        },
{
    let total: usize = record.len();
    if total < 18 {
        return Err(NtfsError::TruncatedU16);
    }
    if bytes::le(record, 16, 2) != frn / 0x1_0000_0000_0000 {
        return Err(NtfsError::ReusedRecord);
    }
    let spans: Vec<(usize, usize)> = match ntfs::attributes(record) {
        Ok(v) => v,
        Err(e) => {
            return Err(e);
        },
    };
    let mut out: Vec<Run> = Vec::new();
    let mut i: usize = 0;
    while i < spans.len()
        invariant
            i <= spans@.len(),
            total == record@.len(),
            ntfs::inside(spans@, record@.len()),
            bounded(out@),
            extension_runs(record@, spans@, i as nat) == Ok::<Seq<Run>, NtfsError>(out@),
            extension_of(record@, frn) == extension_runs(record@, spans@, spans@.len()),
        decreases spans@.len() - i,
    {
        let at: (usize, usize) = spans[i];
        assert(spans@[i as int].0 + spans@[i as int].1 <= total);
        let end: usize = at.0 + at.1;
        let a: &[u8] = &record[at.0..end];
        assert(a@ =~= ntfs_record::attribute_at(record@, at));
        if bytes::le(a, 0, 4) == 0x80 && a[9] == 0 && a[8] == 1 {
            match ntfs::runs(a) {
                Err(e) => {
                    proof {
                        lemma_extension_stop(record@, spans@, (i + 1) as nat, spans@.len());
                    }
                    return Err(e);
                },
                Ok(v) => {
                    let ghost had = out@;
                    let ghost added = v@;
                    let mut more: Vec<Run> = v;
                    out.append(&mut more);
                    assert(out@ =~= had + added);
                },
            }
        }
        i += 1;
    }
    Ok(out)
}

/// By first cluster, else as found.
pub open spec fn run_first(v: Seq<Run>, a: usize, b: usize) -> bool {
    v[a as int].vcn < v[b as int].vcn || (v[a as int].vcn == v[b as int].vcn && a <= b)
}

/// The first `n` runs of a list in turn, without immediate repetitions.
pub open spec fn unrepeated(v: Seq<Run>, q: Seq<usize>, n: nat) -> Seq<Run>
    decreases n,
{
    if n == 0 {
        Seq::empty()
    } else {
        let before = unrepeated(v, q, (n - 1) as nat);
        let r = v[q[n - 1] as int];
        if before.len() > 0 && before.last() == r {
            before
        } else {
            before.push(r)
        }
    }
}

pub open spec fn runs_in_turn(v: Seq<Run>) -> Seq<Run> {
    unrepeated(
        v,
        order::numbers(v.len()).sort_by(|a: usize, b: usize| run_first(v, a, b)),
        v.len(),
    )
}

/// The cluster behind the first `n` runs, if they follow one another from the start of the
/// stream and each lies on the volume.
pub open spec fn reach(v: Seq<Run>, n: nat) -> Option<int>
    decreases n,
{
    if n == 0 {
        Some(0)
    } else {
        match reach(v, (n - 1) as nat) {
            Some(next) => if v[n - 1].vcn == next && v[n - 1].lcn is Some {
                Some(next + v[n - 1].clusters)
            } else {
                None
            },
            None => None,
        }
    }
}

/// The extents of a stream of `length` bytes, put in order.
pub open spec fn extents_of(v: Seq<Run>, cluster: int, length: int) -> Result<Seq<Run>, NtfsError> {
    let runs = runs_in_turn(v);
    match reach(runs, runs.len()) {
        None => Err(NtfsError::ExtentGap),
        Some(next) => if next * cluster <= u64::MAX && next * cluster >= length {
            Ok(runs)
        } else {
            Err(NtfsError::ShortExtents)
        },
    }
}

proof fn lemma_run_order(v: Seq<Run>)
    ensures
        total_ordering(|a: usize, b: usize| run_first(v, a, b)),
{
}

proof fn lemma_reach_stop(v: Seq<Run>, m: nat, n: nat)
    requires
        m <= n,
        reach(v, m) is None,
    ensures
        reach(v, n) is None,
    decreases n,
{
    if m < n {
        lemma_reach_stop(v, m, (n - 1) as nat);
    }
}

fn same_run(a: &Run, b: &Run) -> (r: bool)
    ensures
        r == (*a == *b),
{
    a.vcn == b.vcn && a.clusters == b.clusters && (match (a.lcn, b.lcn) {
        (Some(x), Some(y)) => x == y,
        (None, None) => true,
        _ => false,
    })
}

/// Puts the extents of the table in order and checks that they leave no gap.
pub fn settle_extents(found: &Vec<Run>, cluster: u64, length: u64) -> (r: Result<
    Vec<Run>,
    NtfsError,
>)
    requires
        bounded(found@),
    ensures
        match (r, extents_of(found@, cluster as int, length as int)) {
            (Ok(v), Ok(s)) => v@ == s,
            (Err(e), Err(f)) => e == f,
            _ => false,
        },
{
    let n: usize = found.len();
    proof {
        lemma_run_order(found@);
    }
    let first = |a: usize, b: usize| -> (r: bool)
        requires
            a < n,
            b < n,
            n == found@.len(),
        ensures
            r == run_first(found@, a, b),
        {
            found[a].vcn < found[b].vcn || (found[a].vcn == found[b].vcn && a <= b)
        };
    let q: Vec<usize> = order::rank(
        n,
        first,
        Ghost(|a: usize, b: usize| run_first(found@, a, b)),
    );
    let mut runs: Vec<Run> = Vec::new();
    let mut i: usize = 0;
    while i < n
        invariant
            i <= n,
            n == found@.len(),
            n == q@.len(),
            bounded(found@),
            bounded(runs@),
            forall|k: int| 0 <= k < n ==> (#[trigger] q@[k]) < n,
            runs@ == unrepeated(found@, q@, i as nat),
        decreases n - i,
    {
        let r: Run = found[q[i]];
        let m: usize = runs.len();
        let again: bool = m > 0 && same_run(&runs[m - 1], &r);
        if !again {
            runs.push(r);
        }
        i += 1;
    }
    let mut next: u64 = 0;
    let mut k: usize = 0;
    while k < runs.len()
        invariant
            k <= runs@.len(),
            bounded(runs@),
            reach(runs@, k as nat) == Some(next as int),
            runs@ == runs_in_turn(found@),
        decreases runs@.len() - k,
    {
        let r: Run = runs[k];
        if !(r.vcn == next && r.lcn.is_some()) {
            proof {
                lemma_reach_stop(runs@, (k + 1) as nat, runs@.len());
            }
            return Err(NtfsError::ExtentGap);
        }
        assert(runs@[k as int].vcn + runs@[k as int].clusters <= u64::MAX);
        next = next + r.clusters;
        k += 1;
    }
    match next.checked_mul(cluster) {
        Some(bytes) => if bytes >= length {
            Ok(runs)
        } else {
            Err(NtfsError::ShortExtents)
        },
        None => Err(NtfsError::ShortExtents),
    }
}

/// Extents that were put in order leave no gap: every byte of the stream has its place.
pub proof fn law_settled_extents_hold_every_byte(
    found: Seq<Run>,
    cluster: int,
    length: int,
    offset: int,
)
    requires
        extents_of(found, cluster, length) is Ok,
        cluster > 0,
        0 <= offset < length,
    ensures
        ({
            let runs = extents_of(found, cluster, length)->Ok_0;
            run_at(runs, offset / cluster, 0) matches Some(r) && r.lcn is Some
        }),
{
    let runs = extents_of(found, cluster, length)->Ok_0;
    let next = reach(runs, runs.len())->0;
    let q = offset / cluster;
    assert(0 <= q < next) by (nonlinear_arith)
        requires
            q == offset / cluster,
            cluster > 0,
            0 <= offset < length,
            length <= next * cluster,
    ;
    lemma_reach_holds(runs, runs.len(), q);
    lemma_run_at_hit(runs, q, 0, runs.len());
}

proof fn lemma_reach_holds(v: Seq<Run>, n: nat, q: int)
    requires
        n <= v.len(),
        reach(v, n) is Some,
        0 <= q < reach(v, n)->0,
    ensures
        exists|i: int|
            0 <= i < n && (#[trigger] v[i]).vcn <= q < v[i].vcn + v[i].clusters,
        forall|i: int| 0 <= i < n ==> (#[trigger] v[i]).lcn is Some,
    decreases n,
{
    if n > 0 {
        let before = reach(v, (n - 1) as nat)->0;
        if q < before {
            lemma_reach_holds(v, (n - 1) as nat, q);
        } else {
            assert(v[n - 1].vcn <= q < v[n - 1].vcn + v[n - 1].clusters);
            lemma_reach_placed(v, (n - 1) as nat);
        }
    }
}

proof fn lemma_reach_placed(v: Seq<Run>, n: nat)
    requires
        n <= v.len(),
        reach(v, n) is Some,
    ensures
        forall|i: int| 0 <= i < n ==> (#[trigger] v[i]).lcn is Some,
    decreases n,
{
    if n > 0 {
        lemma_reach_placed(v, (n - 1) as nat);
    }
}

proof fn lemma_run_at_hit(v: Seq<Run>, q: int, from: nat, n: nat)
    requires
        n == v.len(),
        from <= n,
        exists|i: int|
            from <= i < n && (#[trigger] v[i]).vcn <= q < v[i].vcn + v[i].clusters,
        forall|i: int| 0 <= i < n ==> (#[trigger] v[i]).lcn is Some,
    ensures
        run_at(v, q, from) matches Some(r) && r.lcn is Some,
    decreases n - from,
{
    let i = choose|i: int|
        from <= i < n && (#[trigger] v[i]).vcn <= q < v[i].vcn + v[i].clusters;
    let r = v[from as int];
    if !(r.vcn <= q < r.vcn + r.clusters) {
        assert(i != from);
        lemma_run_at_hit(v, q, from + 1, n);
    }
}

proof fn lemma_run_found(extents: Seq<Run>, vcn: int, from: nat)
    ensures
        run_at(extents, vcn, from) is Some ==> extents.contains(run_at(extents, vcn, from)->0) && (
        run_at(extents, vcn, from)->0).vcn <= vcn < (run_at(extents, vcn, from)->0).vcn + (run_at(
            extents,
            vcn,
            from,
        )->0).clusters,
        run_at(extents, vcn, from) is None ==> forall|k: int|
            from <= k < extents.len() ==> !((#[trigger] extents[k]).vcn <= vcn < extents[k].vcn
                + extents[k].clusters),
    decreases extents.len() - from,
{
    if from < extents.len() {
        assert(extents.contains(extents[from as int]));
        lemma_run_found(extents, vcn, from + 1);
    }
}

proof fn lemma_reads_keep(extents: Seq<Run>, cluster: int, offset: int, len: int, out: Seq<Part>)
    requires
        reads_from(extents, cluster, offset, len, out) is Ok,
    ensures
        ({
            let v = reads_from(extents, cluster, offset, len, out)->Ok_0;
            &&& v.len() >= out.len()
            &&& forall|i: int| 0 <= i < out.len() ==> #[trigger] v[i] == out[i]
        }),
    decreases len,
{
    if len > 0 && cluster > 0 {
        let r = run_at(extents, offset / cluster, 0)->0;
        let n = bytes_in(r, cluster, offset, len);
        let inside = offset - r.vcn * cluster;
        let part = match r.lcn {
            None => Part { at: None, len: n as usize },
            Some(lcn) => Part { at: Some((lcn * cluster + inside) as u64), len: n as usize },
        };
        lemma_reads_keep(extents, cluster, offset + n, len - n, out.push(part));
        let v = reads_from(extents, cluster, offset, len, out)->Ok_0;
        assert forall|i: int| 0 <= i < out.len() implies #[trigger] v[i] == out[i] by {
            assert(v[i] == out.push(part)[i]);
        }
    }
}

/// A stretch of a stream is read from where the run that holds it lies: as far into the run
/// as the stretch begins in it, and no further than the run goes; a run that lies nowhere is
/// read as nothing. What is left of the stretch is read in the same way.
pub proof fn law_stretches_are_read_from_their_run(
    extents: Seq<Run>,
    cluster: int,
    offset: int,
    len: int,
    out: Seq<Part>,
)
    requires
        0 < cluster,
        0 <= offset,
        0 < len <= usize::MAX,
        reads_from(extents, cluster, offset, len, out) is Ok,
    ensures
        ({
            let v = reads_from(extents, cluster, offset, len, out)->Ok_0;
            let p = v[out.len() as int];
            let r = run_at(extents, offset / cluster, 0)->0;
            &&& v.len() > out.len()
            &&& extents.contains(r)
            &&& r.vcn <= offset / cluster < r.vcn + r.clusters
            &&& 0 < p.len <= len
            &&& offset + p.len <= (r.vcn + r.clusters) * cluster
            &&& p.len < len ==> offset + p.len == (r.vcn + r.clusters) * cluster
            &&& r.lcn is None <==> p.at is None
            &&& r.lcn is Some && offset - r.vcn * cluster >= 0 ==> p.at->0 == r.lcn->0 * cluster + (
            offset - r.vcn * cluster)
            &&& reads_from(extents, cluster, offset + p.len, len - p.len, out.push(p)) == Ok::<
                Seq<Part>,
                NtfsError,
            >(v)
        }),
{
    lemma_run_found(extents, offset / cluster, 0);
    let r = run_at(extents, offset / cluster, 0)->0;
    let n = bytes_in(r, cluster, offset, len);
    let inside = offset - r.vcn * cluster;
    let part = match r.lcn {
        None => Part { at: None, len: n as usize },
        Some(lcn) => Part { at: Some((lcn * cluster + inside) as u64), len: n as usize },
    };
    if r.lcn is Some {
        let l = r.lcn->0 as int;
        assert(l * cluster >= 0) by (nonlinear_arith)
            requires
                l >= 0,
                cluster > 0,
        ;
    }
    lemma_reads_keep(extents, cluster, offset + n, len - n, out.push(part));
    let v = reads_from(extents, cluster, offset, len, out)->Ok_0;
    assert(v[out.len() as int] == out.push(part)[out.len() as int]);
}

proof fn lemma_reach(v: Seq<Run>, n: nat)
    requires
        n <= v.len(),
        reach(v, n) is Some,
    ensures
        n == 0 ==> reach(v, n)->0 == 0,
        n > 0 ==> v[0].vcn == 0 && reach(v, n)->0 == v[n - 1].vcn + v[n - 1].clusters,
        forall|i: int| 0 <= i < n ==> (#[trigger] v[i]).lcn is Some,
        forall|i: int| 0 < i < n ==> (#[trigger] v[i]).vcn == v[i - 1].vcn + v[i - 1].clusters,
    decreases n,
{
    if n > 0 {
        lemma_reach(v, (n - 1) as nat);
    }
}

/// The settled runs of the file table begin with its first cluster, follow each other
/// without a gap, all lie somewhere, and hold at least its length.
pub proof fn law_settled_extents_leave_no_gap(found: Seq<Run>, cluster: int, length: int)
    requires
        extents_of(found, cluster, length) is Ok,
    ensures
        ({
            let v = extents_of(found, cluster, length)->Ok_0;
            &&& length > 0 ==> v.len() > 0
            &&& v.len() > 0 ==> v[0].vcn == 0 && (v.last().vcn + v.last().clusters) * cluster
                >= length
            &&& forall|i: int| 0 <= i < v.len() ==> (#[trigger] v[i]).lcn is Some
            &&& forall|i: int|
                0 < i < v.len() ==> (#[trigger] v[i]).vcn == v[i - 1].vcn + v[i - 1].clusters
        }),
{
    let v = extents_of(found, cluster, length)->Ok_0;
    lemma_reach(v, v.len());
    if v.len() == 0 {
        assert(0 * cluster == 0) by (nonlinear_arith);
    }
}

/// An entry of the attribute list calls for another record exactly if it is of an unnamed
/// stream of data that does not lie in the first record.
pub proof fn law_list_entries_call_for_records(b: Seq<u8>, p: int, out: Seq<(u64, u64, u16)>)
    requires
        0 <= p,
        p + 26 <= b.len(),
        bytes::le_of(b, p, 4) != 0,
        bytes::le_of(b, p, 4) != 0xffff_ffff,
        listed_from(b, p, out) is Ok,
    ensures
        ({
            let next = p + b[p + 4] + 0x100 * b[p + 5];
            let frn = bytes::le_of(b, p + 16, 8) as u64;
            let other = b[p + 16] != 0 || b[p + 17] != 0 || b[p + 18] != 0 || b[p + 19] != 0 || b[p
                + 20] != 0 || b[p + 21] != 0;
            let needed = bytes::le_of(b, p, 4) == 0x80 && b[p + 6] == 0 && other;
            &&& next >= p + 26
            &&& listed_from(b, p, out) == listed_from(
                b,
                next,
                if needed {
                    out.push(
                        (bytes::le_of(b, p + 8, 8) as u64, frn, bytes::le_of(b, p + 24, 2) as u16),
                    )
                } else {
                    out
                },
            )
        }),
{
    bytes::law_low_bytes_come_first(b, p + 4);
    bytes::law_low_bytes_come_first(b, p + 16);
    let frn = bytes::le_of(b, p + 16, 8) as u64;
    bytes::lemma_spans();
    bytes::lemma_le_bound(b, p + 16, 8);
    let low = frn % 0x1_0000_0000_0000;
    assert(frn & 0x0000_ffff_ffff_ffff == frn % 0x1_0000_0000_0000) by (bit_vector);
    assert(low == b[p + 16] + 0x100 * b[p + 17] + 0x1_0000 * b[p + 18] + 0x100_0000 * b[p + 19]
        + 0x1_0000_0000 * b[p + 20] + 0x100_0000_0000 * b[p + 21]);
}

/// A record that continues the file table is taken only while it is used for that still: its
/// count of uses is the one that was asked for.
pub proof fn law_reused_records_are_refused(b: Seq<u8>, frn: u64)
    requires
        extension_of(b, frn) is Ok,
    ensures
        b[16] + 0x100 * b[17] == frn as int / 0x1_0000_0000_0000,
{
    bytes::law_low_bytes_come_first(b, 16);
}

/// The first record of the file table is taken only if it tells a length of whole records
/// and runs that lie outside it; the length is that beside its first unnamed stream of data.
pub proof fn law_the_table_tells_its_length(f: FirstV, a: Seq<u8>)
    requires
        with_first(f, a) is Ok,
    ensures
        ({
            let g = with_first(f, a)->Ok_0;
            let kind = a[0] + 0x100 * a[1] + 0x1_0000 * a[2] + 0x100_0000 * a[3];
            let data = kind == 0x80 && a[9] == 0;
            &&& data ==> a[8] == 1
            &&& data && bytes::le_of(a, 16, 8) == 0 ==> g.length == bytes::le_of(a, 48, 8)
            &&& data && bytes::le_of(a, 16, 8) != 0 ==> g.length == f.length
            &&& data ==> g.extents == f.extents + ntfs::runs_of(a)->Ok_0 && g.list == f.list
            &&& !data ==> g.extents == f.extents && g.length == f.length
            &&& !data && kind != 0x20 ==> g == f
            &&& kind == 0x20 && a[8] == 0 ==> g.list == ListV::Here(ntfs::resident_of(a)->Ok_0)
            &&& kind == 0x20 && a[8] != 0 ==> g.list is There && g.list->There_0 == bytes::le_of(
                a,
                48,
                8,
            ) && g.list->There_0 <= 0x400_0000
        }),
{
    bytes::law_low_bytes_come_first(a, 0);
    bytes::lemma_spans();
    bytes::lemma_le_bound(a, 48, 8);
}

/// The file table is whole records, and lies somewhere.
pub proof fn law_the_table_is_whole_records(b: Seq<u8>, g: Geometry)
    requires
        first_of(b, g) is Ok,
        g.record > 0,
    ensures
        first_of(b, g)->Ok_0.length > 0,
        first_of(b, g)->Ok_0.length as int % g.record as int == 0,
        first_of(b, g)->Ok_0.extents.len() > 0,
{
}

proof fn lemma_records_once(v: Seq<(u64, u64, u16)>, q: Seq<usize>, n: nat, frn: u64)
    requires
        n <= q.len(),
    ensures
        records_once(v, q, n).contains(frn) <==> exists|k: int|
            0 <= k < n && v[(#[trigger] q[k]) as int].1 == frn,
        records_once(v, q, n).no_duplicates(),
    decreases n,
{
    if n > 0 {
        let m = (n - 1) as nat;
        lemma_records_once(v, q, m, frn);
        let before = records_once(v, q, m);
        let now = records_once(v, q, n);
        let own = v[q[m as int] as int].1;
        if exists|k: int| 0 <= k < n && v[(#[trigger] q[k]) as int].1 == frn {
            let k = choose|k: int| 0 <= k < n && v[(#[trigger] q[k]) as int].1 == frn;
            if k < m {
                assert(0 <= k < m && v[q[k] as int].1 == frn);
                let at = before.index_of(frn);
                assert(now[at] == frn);
            } else if before.contains(frn) {
                assert(now == before);
            } else {
                assert(now[before.len() as int] == frn);
            }
        }
        if now.contains(frn) {
            let at = now.index_of(frn);
            if at < before.len() {
                assert(before[at] == frn);
                let k = choose|k: int| 0 <= k < m && v[(#[trigger] q[k]) as int].1 == frn;
                assert(q[k] == q[k]);
            } else {
                assert(v[q[m as int] as int].1 == frn);
            }
        }
    }
}

/// Every record that the attribute list calls for is read, once.
pub proof fn law_called_records_are_read_once(
    v: Seq<(u64, u64, u16)>,
    q: Seq<usize>,
    n: nat,
    k: int,
)
    requires
        0 <= k < n <= q.len(),
    ensures
        records_once(v, q, n).contains(v[q[k] as int].1),
        records_once(v, q, n).no_duplicates(),
{
    lemma_records_once(v, q, n, v[q[k] as int].1);
    assert(q[k] == q[k]);
}

/// A reply is still marked at its sector ends exactly if its first sector ends in the mark
/// at the head of the update sequence.
pub proof fn law_marked_replies_show_the_mark(b: Seq<u8>, sector: int)
    requires
        b.len() >= 6,
        2 <= sector <= b.len(),
        b[4] + 0x100 * b[5] + 2 <= b.len(),
    ensures
        marked_reply(b, sector) is Ok,
        marked_reply(b, sector)->Ok_0 <==> b[sector - 2] == b[b[4] + 0x100 * b[5]] && b[sector - 1]
            == b[b[4] + 0x100 * b[5] + 1],
{
    bytes::law_low_bytes_come_first(b, 4);
}

proof fn lemma_first_needed(v: Seq<(u64, u64, u16)>, q: Seq<usize>, n: nat)
    requires
        0 < n <= q.len(),
    ensures
        records_once(v, q, n).len() > 0,
        records_once(v, q, n)[0] == v[q[0] as int].1,
    decreases n,
{
    if n > 1 {
        lemma_first_needed(v, q, (n - 1) as nat);
    } else {
        reveal_with_fuel(records_once, 2);
    }
}

/// Every record that the attribute list names is needed, once; the one that describes the
/// lowest clusters is read first.
pub proof fn law_every_listed_record_is_needed(b: Seq<u8>, v: Seq<(u64, u64, u16)>, i: int)
    requires
        listed_from(b, 0, Seq::empty()) == Ok::<Seq<(u64, u64, u16)>, NtfsError>(v),
        0 <= i < v.len() <= usize::MAX,
    ensures
        needed_of(b) is Ok,
        needed_of(b)->Ok_0.contains(v[i].1),
        needed_of(b)->Ok_0.no_duplicates(),
        exists|k: int|
            0 <= k < v.len() && (#[trigger] v[k]).0 <= v[i].0 && v[k].1 == needed_of(b)->Ok_0[0],
{
    let le = |a: usize, b: usize| part_first(v, a, b);
    let num = order::numbers(v.len());
    let q = num.sort_by(le);
    lemma_part_order(v);
    num.lemma_sort_by_ensures(le);
    assert(q.len() == num.len()) by {
        broadcast use vstd::seq_lib::group_to_multiset_ensures;

        assert(q.to_multiset().len() == q.len());
        assert(num.to_multiset().len() == num.len());
    }
    assert(q == parts_in_turn(v));
    assert(num[i] == i as usize);
    order::lemma_same_members(num, q, i);
    let k = q.index_of(i as usize);
    assert(q[k] == i as usize);
    law_called_records_are_read_once(v, q, v.len(), k);
    lemma_first_needed(v, q, v.len());
    assert(le(q[0], q[k])) by {
        if k > 0 {
            assert(le(q[0], q[k]));
        }
    }
    order::lemma_same_members(q, num, 0);
    let w = num.index_of(q[0]);
    assert(num[w] == q[0]);
    assert(v[q[0] as int].0 <= v[i].0);
}

/// A further record is taken only if it is used as often as the list says; a table must not
/// lie within its record, and a list must not be larger than the limit.
pub proof fn law_streams_are_refused_for_cause(f: FirstV, a: Seq<u8>, b: Seq<u8>, frn: u64)
    ensures
        b.len() < 18 ==> extension_of(b, frn) == Err::<Seq<Run>, NtfsError>(NtfsError::TruncatedU16),
        b.len() >= 18 && b[16] + 0x100 * b[17] != frn as int / 0x1_0000_0000_0000 ==> extension_of(
            b,
            frn,
        ) == Err::<Seq<Run>, NtfsError>(NtfsError::ReusedRecord),
        a[8] != 1 ==> with_table_data(f, a) == Err::<FirstV, NtfsError>(NtfsError::ResidentMft),
        a[8] == 1 && a.len() >= 56 && ntfs::runs_of(a) is Ok ==> with_table_data(f, a) is Ok,
        a[8] != 0 && a.len() < 56 ==> with_list(f, a) == Err::<FirstV, NtfsError>(
            NtfsError::TruncatedU64,
        ),
        a[8] != 0 && a.len() >= 56 && bytes::le_of(a, 48, 8) > MAX_LIST ==> with_list(f, a)
            == Err::<FirstV, NtfsError>(NtfsError::ExcessiveList),
        a[8] != 0 && a.len() >= 56 && bytes::le_of(a, 48, 8) <= MAX_LIST && ntfs::runs_of(a) is Ok
            ==> with_list(f, a) is Ok,
{
    bytes::law_low_bytes_come_first(b, 16);
}

} // verus!
