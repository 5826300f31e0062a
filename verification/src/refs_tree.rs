//! The tables of a ReFS volume: where pages lie, whether they are intact, and the walk
//! through a B+tree.
use crate::bytes;
use crate::crc64;
use crate::keyed;
use crate::keyed::Page;
use crate::ntfs;
use crate::refs;
use crate::refs::{node, BlockRef, Node, RefsError, Row};
use ahash::{AHashMap, AHashSet};
use vstd::prelude::*;

verus! {

/// Eight bytes that hold a number's digits hold the number.
proof fn lemma_digits(b: Seq<u8>, q: Seq<u64>)
    requires
        b.len() == 16,
        q.len() == 9,
        q[8] == 0,
        forall|i: int| 0 <= i < 8 ==> #[trigger] b[8 + i] == q[i] - 0x100 * q[i + 1],
    ensures
        bytes::le_of(b, 8, 8) == q[0],
{
    assert(bytes::le_of(b, 16, 0) == q[8]);
    assert(b[8int + 7] == q[7] - 0x100 * q[8]);
    assert(bytes::le_of(b, 15, 1) == q[7]);
    assert(b[8int + 6] == q[6] - 0x100 * q[7]);
    assert(bytes::le_of(b, 14, 2) == q[6]);
    assert(b[8int + 5] == q[5] - 0x100 * q[6]);
    assert(bytes::le_of(b, 13, 3) == q[5]);
    assert(b[8int + 4] == q[4] - 0x100 * q[5]);
    assert(bytes::le_of(b, 12, 4) == q[4]);
    assert(b[8int + 3] == q[3] - 0x100 * q[4]);
    assert(bytes::le_of(b, 11, 5) == q[3]);
    assert(b[8int + 2] == q[2] - 0x100 * q[3]);
    assert(bytes::le_of(b, 10, 6) == q[2]);
    assert(b[8int + 1] == q[1] - 0x100 * q[2]);
    assert(bytes::le_of(b, 9, 7) == q[1]);
    assert(b[8int + 0] == q[0] - 0x100 * q[1]);
}

/// The identity of a directory: the number in the upper eight bytes.
pub fn directory_id(low: u64) -> (r: [u8; 16])
    ensures
        forall|i: int| 0 <= i < 8 ==> r@[i] == 0,
        bytes::le_of(r@, 8, 8) == low,
        bytes::id_of(r@, 0) == Some(directory_number(low)),
{
    let q1: u64 = low / 0x100;
    let q2: u64 = q1 / 0x100;
    let q3: u64 = q2 / 0x100;
    let q4: u64 = q3 / 0x100;
    let q5: u64 = q4 / 0x100;
    let q6: u64 = q5 / 0x100;
    let q7: u64 = q6 / 0x100;
    let r: [u8; 16] = [
        0,
        0,
        0,
        0,
        0,
        0,
        0,
        0,
        (low % 0x100) as u8,
        (q1 % 0x100) as u8,
        (q2 % 0x100) as u8,
        (q3 % 0x100) as u8,
        (q4 % 0x100) as u8,
        (q5 % 0x100) as u8,
        (q6 % 0x100) as u8,
        (q7 % 0x100) as u8,
    ];
    proof {
        assert(q7 < 0x100);
        lemma_digits(r@, seq![low, q1, q2, q3, q4, q5, q6, q7, 0]);
        assert(bytes::le_of(r@, 0, 8) == 0) by {
            reveal_with_fuel(bytes::le_of, 9);
        }
    }
    r
}

pub open spec fn directory_number(low: u64) -> u128 {
    (low * 0x1_0000_0000_0000_0000) as u128
}

/// Whether a number is a power of two.
pub open spec fn is_power(n: int) -> bool {
    exists|k: nat| n == #[trigger] ntfs::power_of_two(k)
}

proof fn lemma_power_grows(a: nat, b: nat)
    requires
        a <= b,
    ensures
        1 <= ntfs::power_of_two(a) <= ntfs::power_of_two(b),
        a < b ==> 2 * ntfs::power_of_two(a) <= ntfs::power_of_two(b),
    decreases b,
{
    if a < b {
        lemma_power_grows(a, (b - 1) as nat);
    } else if b > 0 {
        lemma_power_grows((a - 1) as nat, (b - 1) as nat);
    }
}

fn power_of_two(n: u64) -> (r: bool)
    ensures
        r == is_power(n as int),
{
    let mut p: u64 = 1;
    let ghost mut k: nat = 0;
    while p < n
        invariant
            p == ntfs::power_of_two(k),
            p >= 1,
            forall|j: nat| j < k ==> n != #[trigger] ntfs::power_of_two(j),
        decreases
            (if p < n {
                n - p
            } else {
                0
            }),
    {
        proof {
            assert(ntfs::power_of_two(k) != n);
            if p > 0x7fff_ffff_ffff_ffff {
                assert forall|j: nat| n != #[trigger] ntfs::power_of_two(j) by {
                    if j > k {
                        lemma_power_grows(k, j);
                    }
                }
            }
        }
        if p > 0x7fff_ffff_ffff_ffff {
            return false;
        }
        p = 2 * p;
        proof {
            k = k + 1;
        }
    }
    proof {
        if p != n {
            assert forall|j: nat| n != #[trigger] ntfs::power_of_two(j) by {
                if j >= k {
                    lemma_power_grows(k, j);
                }
            }
        }
    }
    p == n
}

/// The containers of a volume: where each starts, and how many clusters one has, zero as
/// long as none is known.
#[verifier::ext_equal]
pub struct ContainersV {
    pub base: Map<u128, u64>,
    pub clusters: u64,
}

/// The container table with one row more.
pub open spec fn with_container(c: ContainersV, key: Seq<u8>, value: Seq<u8>) -> Result<
    ContainersV,
    RefsError,
> {
    let size = bytes::le_of(value, 152, 8) as u64;
    let id = bytes::le_of(key, 0, 8) as u128;
    if !(key.len() == 16 && value.len() >= 160) {
        Err(RefsError::ContainerRow)
    } else if !(is_power(size as int) && size >= 16) {
        Err(RefsError::ContainerSize)
    } else if c.clusters != 0 && c.clusters != size {
        Err(RefsError::ContainerMix)
    } else if c.base.contains_key(id) {
        Err(RefsError::ContainerTwice)
    } else {
        Ok(
            ContainersV {
                base: c.base.insert(id, bytes::le_of(value, 144, 8) as u64),
                clusters: size,
            },
        )
    }
}

/// Where a cluster lies on the volume: its container counts twice as many numbers as it has
/// clusters.
pub open spec fn translated(c: ContainersV, lcn: u64) -> Result<u64, RefsError> {
    let container = (lcn / c.clusters / 2) as u128;
    let physical = c.base[container] + lcn % c.clusters;
    if !c.base.contains_key(container) {
        Err(RefsError::UnmappedContainer(container as u64))
    } else if physical > u64::MAX {
        Err(RefsError::PhysicalLcn)
    } else {
        Ok(physical as u64)
    }
}

/// The containers of a volume.
pub struct Containers {
    base: AHashMap<u128, u64>,
    clusters: u64,
}

impl View for Containers {
    type V = ContainersV;

    closed spec fn view(&self) -> ContainersV {
        ContainersV { base: keyed::table_of(self.base), clusters: self.clusters }
    }
}

impl Containers {
    pub fn new() -> (r: Self)
        ensures
            r@ == (ContainersV { base: keyed::empty_table(), clusters: 0 }),
    {
        Containers { base: keyed::no_entries(), clusters: 0 }
    }

    /// Adds a row of the container table.
    pub fn add_row(&mut self, key: &[u8], value: &[u8]) -> (r: Result<(), RefsError>)
        ensures
            match (r, with_container(old(self)@, key@, value@)) {
                (Ok(_), Ok(v)) => final(self)@ == v && v.clusters != 0,
                (Err(e), Err(f)) => e == f,
                _ => false,
            },
    {
        if !(key.len() == 16 && value.len() >= 160) {
            return Err(RefsError::ContainerRow);
        }
        let size: u64 = bytes::le(value, 152, 8);
        if !(power_of_two(size) && size >= 16) {
            return Err(RefsError::ContainerSize);
        }
        if self.clusters != 0 && self.clusters != size {
            return Err(RefsError::ContainerMix);
        }
        let id: u128 = bytes::le(key, 0, 8) as u128;
        let physical: u64 = bytes::le(value, 144, 8);
        if keyed::put(&mut self.base, id, physical).is_some() {
            return Err(RefsError::ContainerTwice);
        }
        self.clusters = size;
        Ok(())
    }

    /// Whether no row was added.
    pub fn is_empty(&self) -> (r: bool)
        ensures
            r == (self@.clusters == 0),
    {
        self.clusters == 0
    }

    /// Where a cluster lies on the volume.
    pub fn translate(&self, lcn: u64) -> (r: Result<u64, RefsError>)
        requires
            self@.clusters != 0,
        ensures
            r == translated(self@, lcn),
    {
        let container: u64 = lcn / self.clusters / 2;
        match keyed::get(&self.base, container as u128) {
            None => Err(RefsError::UnmappedContainer(container)),
            Some(base) => match base.checked_add(lcn % self.clusters) {
                None => Err(RefsError::PhysicalLcn),
                Some(n) => Ok(n),
            },
        }
    }

    /// The room of the table: at least what it holds. How much more depends on how the table
    /// grew.
    pub fn room(&self) -> (r: u64)
        ensures
            r >= self@.base.len(),
    {
        keyed::table_room(&self.base) as u64
    }
}

/// A stretch of a page, and where it is read from.
#[derive(Clone, Copy, Debug, PartialEq, Eq, Structural)]
pub struct PagePart {
    pub offset: u64,
    pub len: usize,
}

/// How many clusters a page has.
pub open spec fn page_clusters(p: Page) -> nat {
    if p.0 == 0 {
        0
    } else if p.1 == 0 {
        1
    } else if p.2 == 0 {
        2
    } else if p.3 == 0 {
        3
    } else {
        4
    }
}

pub open spec fn lcn_at(p: Page, i: int) -> u64 {
    if i == 0 {
        p.0
    } else if i == 1 {
        p.1
    } else if i == 2 {
        p.2
    } else {
        p.3
    }
}

/// The clusters come first, and nothing after them.
pub open spec fn no_gap(p: Page) -> bool {
    forall|i: int| page_clusters(p) <= i < 4 ==> #[trigger] lcn_at(p, i) == 0
}

/// Where the first `n` clusters of a page lie.
pub open spec fn places(c: Option<ContainersV>, p: Page, n: nat) -> Result<Seq<u64>, RefsError>
    decreases n,
{
    if n == 0 {
        Ok(Seq::empty())
    } else {
        match places(c, p, (n - 1) as nat) {
            Err(e) => Err(e),
            Ok(v) => match c {
                None => Ok(v.push(lcn_at(p, n - 1))),
                Some(m) => match translated(m, lcn_at(p, n - 1)) {
                    Err(e) => Err(e),
                    Ok(x) => Ok(v.push(x)),
                },
            },
        }
    }
}

pub open spec fn in_a_row(v: Seq<u64>) -> bool {
    forall|i: int| 0 <= i < v.len() - 1 ==> #[trigger] v[i] + 1 == next_of(v, i)
}

pub open spec fn next_of(v: Seq<u64>, i: int) -> u64 {
    v[i + 1]
}

pub open spec fn offsets_fit(v: Seq<u64>, cluster: u64) -> bool {
    forall|i: int| 0 <= i < v.len() ==> #[trigger] v[i] * cluster <= u64::MAX
}

/// What is to be read for a page: all at once if its clusters follow one another, else each
/// cluster by itself. Without containers the numbers are those of the volume.
pub open spec fn parts_of(c: Option<ContainersV>, p: Page, cluster: u64) -> Result<
    Seq<PagePart>,
    RefsError,
> {
    let n = page_clusters(p);
    if !no_gap(p) {
        Err(RefsError::SlotGap)
    } else {
        match places(c, p, n) {
            Err(e) => Err(e),
            Ok(v) => if !(4096 <= cluster * n <= 262144) {
                Err(RefsError::PageLength)
            } else if in_a_row(v) {
                if v[0] * cluster > u64::MAX {
                    Err(RefsError::PhysicalOffset)
                } else {
                    Ok(
                        seq![
                            PagePart {
                                offset: (v[0] * cluster) as u64,
                                len: (cluster * n) as usize,
                            },
                        ],
                    )
                }
            } else if !offsets_fit(v, cluster) {
                Err(RefsError::PhysicalOffset)
            } else {
                Ok(
                    Seq::new(
                        n,
                        |i: int|
                            PagePart {
                                offset: (v[i] * cluster) as u64,
                                len: cluster as usize,
                            },
                    ),
                )
            },
        }
    }
}

proof fn lemma_places_stop(c: Option<ContainersV>, p: Page, m: nat, n: nat)
    requires
        m <= n,
        places(c, p, m) is Err,
    ensures
        places(c, p, n) == places(c, p, m),
    decreases n,
{
    if m < n {
        lemma_places_stop(c, p, m, (n - 1) as nat);
    }
}

fn lcn(p: Page, i: usize) -> (r: u64)
    ensures
        r == lcn_at(p, i as int),
{
    if i == 0 {
        p.0
    } else if i == 1 {
        p.1
    } else if i == 2 {
        p.2
    } else {
        p.3
    }
}

fn cluster_count(p: Page) -> (r: usize)
    ensures
        r == page_clusters(p),
        r <= 4,
{
    if p.0 == 0 {
        0
    } else if p.1 == 0 {
        1
    } else if p.2 == 0 {
        2
    } else if p.3 == 0 {
        3
    } else {
        4
    }
}

pub open spec fn containers_view(c: Option<&Containers>) -> Option<ContainersV> {
    match c {
        None => None,
        Some(m) => Some(m@),
    }
}

fn find_places(containers: Option<&Containers>, p: Page, n: usize) -> (r: Result<
    Vec<u64>,
    RefsError,
>)
    requires
        containers matches Some(m) ==> m@.clusters != 0,
    ensures
        match (r, places(containers_view(containers), p, n as nat)) {
            (Ok(v), Ok(w)) => v@ == w && v@.len() == n,
            (Err(e), Err(f)) => e == f,
            _ => false,
        },
{
    let mut v: Vec<u64> = Vec::new();
    let mut i: usize = 0;
    while i < n
        invariant
            i <= n,
            containers matches Some(m) ==> m@.clusters != 0,
            v@.len() == i,
            places(containers_view(containers), p, i as nat) == Ok::<Seq<u64>, RefsError>(v@),
        decreases n - i,
    {
        let number: u64 = lcn(p, i);
        let found: Result<u64, RefsError> = match containers {
            None => Ok(number),
            Some(m) => m.translate(number),
        };
        match found {
            Err(e) => {
                proof {
                    lemma_places_stop(containers_view(containers), p, (i + 1) as nat, n as nat);
                }
                return Err(e);
            },
            Ok(x) => {
                v.push(x);
            },
        }
        i += 1;
    }
    Ok(v)
}

fn follow_one_another(v: &Vec<u64>) -> (r: bool)
    ensures
        r == in_a_row(v@),
{
    let mut i: usize = 1;
    while i < v.len()
        invariant
            1 <= i,
            i <= v@.len() || v@.len() == 0,
            forall|k: int| 0 <= k < i - 1 ==> #[trigger] v@[k] + 1 == next_of(v@, k),
        decreases v@.len() - i,
    {
        let a: u64 = v[i - 1];
        let b: u64 = v[i];
        if a == 0xffff_ffff_ffff_ffff || a + 1 != b {
            assert(next_of(v@, i - 1) == b);
            assert(v@[i - 1] + 1 != next_of(v@, i - 1));
            return false;
        }
        i += 1;
    }
    true
}

/// What is to be read for a page.
pub fn page_parts(containers: Option<&Containers>, reference: &BlockRef, cluster: u64) -> (r: Result<
    Vec<PagePart>,
    RefsError,
>)
    requires
        containers matches Some(m) ==> m@.clusters != 0,
        reference.sound(),
    ensures
        match (r, parts_of(containers_view(containers), reference.lcns, cluster)) {
            (Ok(v), Ok(w)) => v@ == w,
            (Err(e), Err(f)) => e == f,
            _ => false,
        },
{
    let p: Page = reference.lcns;
    let n: usize = cluster_count(p);
    let ghost c = containers_view(containers);
    if !((n >= 2 || p.1 == 0) && (n >= 3 || p.2 == 0) && (n >= 4 || p.3 == 0)) {
        proof {
            assert(lcn_at(p, 1) == p.1 && lcn_at(p, 2) == p.2 && lcn_at(p, 3) == p.3);
            assert(!no_gap(p));
        }
        return Err(RefsError::SlotGap);
    }
    assert(no_gap(p));
    let v: Vec<u64> = match find_places(containers, p, n) {
        Err(e) => {
            return Err(e);
        },
        Ok(v) => v,
    };
    if cluster > 262144 {
        assert(cluster * n > 262144) by (nonlinear_arith)
            requires
                cluster > 262144,
                n >= 1,
        ;
        return Err(RefsError::PageLength);
    }
    assert(cluster * n <= 1048576) by (nonlinear_arith)
        requires
            cluster <= 262144,
            0 <= n <= 4,
    ;
    let length: u64 = cluster * n as u64;
    if length < 4096 || length > 262144 {
        return Err(RefsError::PageLength);
    }
    let mut parts: Vec<PagePart> = Vec::new();
    if follow_one_another(&v) {
        match v[0].checked_mul(cluster) {
            None => Err(RefsError::PhysicalOffset),
            Some(offset) => {
                parts.push(PagePart { offset, len: length as usize });
                assert(parts@ =~= parts_of(c, p, cluster)->Ok_0);
                Ok(parts)
            },
        }
    } else {
        let mut i: usize = 0;
        while i < n
            invariant
                i <= n,
                n == v@.len(),
                cluster <= 262144,
                parts@.len() == i,
                forall|k: int|
                    0 <= k < i ==> #[trigger] parts@[k] == (PagePart {
                        offset: (v@[k] * cluster) as u64,
                        len: cluster as usize,
                    }),
                forall|k: int| 0 <= k < i ==> #[trigger] v@[k] * cluster <= u64::MAX,
                !in_a_row(v@),
                places(c, p, n as nat) == Ok::<Seq<u64>, RefsError>(v@),
                n == page_clusters(p),
                no_gap(p),
                4096 <= cluster * n <= 262144,
                c == containers_view(containers),
                p == reference.lcns,
            decreases n - i,
        {
            match v[i].checked_mul(cluster) {
                None => {
                    assert(!offsets_fit(v@, cluster)) by {
                        assert(v@[i as int] * cluster > u64::MAX);
                    }
                    return Err(RefsError::PhysicalOffset);
                },
                Some(offset) => {
                    parts.push(PagePart { offset, len: cluster as usize });
                },
            }
            i += 1;
        }
        assert(offsets_fit(v@, cluster));
        assert(parts@ =~= parts_of(c, p, cluster)->Ok_0);
        Ok(parts)
    }
}

/// The bytes that the parts of a list hold.
pub open spec fn total_len(parts: Seq<PagePart>) -> nat
    decreases parts.len(),
{
    if parts.len() == 0 {
        0
    } else {
        total_len(parts.drop_last()) + parts.last().len as nat
    }
}

proof fn lemma_even_parts(parts: Seq<PagePart>, len: nat)
    requires
        forall|i: int| 0 <= i < parts.len() ==> (#[trigger] parts[i]).len == len,
    ensures
        total_len(parts) == parts.len() * len,
    decreases parts.len(),
{
    if parts.len() > 0 {
        lemma_even_parts(parts.drop_last(), len);
        let k = parts.len() as int;
        assert((k - 1) * len + len == k * len) by (nonlinear_arith);
    } else {
        assert(0 * len == 0) by (nonlinear_arith);
    }
}

/// What is read for a page is the whole page: as many bytes as its clusters have.
pub proof fn law_parts_make_the_page(c: Option<ContainersV>, p: Page, cluster: u64)
    requires
        parts_of(c, p, cluster) is Ok,
    ensures
        total_len(parts_of(c, p, cluster)->Ok_0) == cluster * page_clusters(p),
{
    let parts = parts_of(c, p, cluster)->Ok_0;
    let n = page_clusters(p);
    let v = places(c, p, n)->Ok_0;
    if in_a_row(v) {
        assert(parts.drop_last() =~= Seq::<PagePart>::empty());
        assert(total_len(parts.drop_last()) == 0);
        assert(total_len(parts) == parts.last().len as nat);
        assert(0 <= cluster * n <= 262144);
    } else {
        assert(n > 0) by {
            if n == 0 {
                assert(cluster * n == 0) by (nonlinear_arith)
                    requires
                        n == 0,
                ;
            }
        }
        assert(cluster <= 262144) by (nonlinear_arith)
            requires
                cluster * n <= 262144,
                n >= 1,
        ;
        lemma_even_parts(parts, cluster as nat);
        assert(n * cluster == cluster * n) by (nonlinear_arith);
    }
}

/// Why a page is not the one that was asked for, or not intact.
pub open spec fn page_fault(f: BlockRef, b: Seq<u8>) -> Option<RefsError> {
    if !refs::marked(b, 77, 83, 66, 43) {
        Some(RefsError::PageSignature(f.lcns.0, f.lcns.1, f.lcns.2, f.lcns.3))
    } else if !bytes::within(b, 32, 32) {
        Some(RefsError::TruncatedU64)
    } else if refs::page_of(b, 32) != f.lcns {
        Some(RefsError::PageIdentity)
    } else if refs::agreed(f, refs::sum_of(f, b)) {
        None
    } else if f.kind == 1 {
        Some(RefsError::PageCrc32c)
    } else {
        Some(RefsError::PageCrc64(f.lcns.0, f.lcns.1, f.lcns.2, f.lcns.3))
    }
}

/// Checks a page that was read: its mark "MSB+", the place it says it lies at, and its sum.
/// `tables` are those of `crc64_tables`.
pub fn check_page(tables: &Vec<u64>, reference: &BlockRef, b: &[u8]) -> (r: Result<(), RefsError>)
    requires
        crc64::tables_ok(tables@),
    ensures
        r == (match page_fault(*reference, b@) {
            None => Ok::<(), RefsError>(()),
            Some(e) => Err(e),
        }),
{
    let p: Page = reference.lcns;
    if b.len() < 4 || b[0] != 77 || b[1] != 83 || b[2] != 66 || b[3] != 43 {
        return Err(RefsError::PageSignature(p.0, p.1, p.2, p.3));
    }
    if b.len() < 64 {
        return Err(RefsError::TruncatedU64);
    }
    if bytes::le(b, 32, 8) != p.0 || bytes::le(b, 40, 8) != p.1 || bytes::le(b, 48, 8) != p.2
        || bytes::le(b, 56, 8) != p.3 {
        return Err(RefsError::PageIdentity);
    }
    if reference.agrees(reference.sum_with(tables, b)) {
        Ok(())
    } else if reference.kind == 1 {
        Err(RefsError::PageCrc32c)
    } else {
        Err(RefsError::PageCrc64(p.0, p.1, p.2, p.3))
    }
}

/// A page on the way through a tree, and how deep it lies.
#[derive(Clone, Copy, Debug)]
pub struct Place {
    pub reference: BlockRef,
    pub depth: u8,
}

/// A walk through a tree: the pages still to be read, the next one last, and the pages that
/// were.
#[verifier::ext_equal]
pub struct WalkV {
    pub stack: Seq<Place>,
    pub seen: Set<Page>,
}

/// The next page, if any is left.
pub open spec fn next_page(w: WalkV) -> Result<Option<(WalkV, Place)>, RefsError> {
    if w.stack.len() == 0 {
        Ok(None)
    } else {
        let p = w.stack.last();
        let seen = w.seen.insert(p.reference.lcns);
        if p.depth > 32 {
            Err(RefsError::TooDeep)
        } else if w.seen.contains(p.reference.lcns) {
            Err(RefsError::RepeatedPage)
        } else if seen.len() > 4000000 {
            Err(RefsError::ExcessiveTree)
        } else {
            Ok(Some((WalkV { stack: w.stack.drop_last(), seen }, p)))
        }
    }
}

/// A walk that goes on reads a page that it has not read, at a depth of at most 32, and
/// remembers it with those that it has.
pub proof fn law_no_page_is_read_twice(w: WalkV)
    requires
        next_page(w) matches Ok(Some(_)),
    ensures
        ({
            let (after, p) = next_page(w)->Ok_0->0;
            &&& p.depth <= 32
            &&& !w.seen.contains(p.reference.lcns)
            &&& after.seen.contains(p.reference.lcns)
            &&& w.seen.subset_of(after.seen)
        }),
{
}

/// The pages that the last `n` rows of a branch lead to, the first of them last.
pub open spec fn below(rows: Seq<Row>, b: Seq<u8>, depth: u8, n: nat) -> Result<
    Seq<Place>,
    RefsError,
>
    decreases n,
{
    if n == 0 {
        Ok(Seq::empty())
    } else {
        match below(rows, b, depth, (n - 1) as nat) {
            Err(e) => Err(e),
            Ok(v) => match refs::reference_of(rows[rows.len() - n].value_in(b)) {
                Err(e) => Err(e),
                Ok(reference) => Ok(v.push(Place { reference, depth: (depth + 1) as u8 })),
            },
        }
    }
}

/// What a page gives: a branch more pages to read, a leaf its rows.
pub open spec fn opened(w: WalkV, depth: u8, b: Seq<u8>) -> Result<(WalkV, Seq<Row>), RefsError> {
    match refs::node_of(b, 0x50) {
        Err(e) => Err(e),
        Ok(n) => if n.branch {
            match below(n.rows, b, depth, n.rows.len()) {
                Err(e) => Err(e),
                Ok(v) => Ok((WalkV { stack: w.stack + v, ..w }, Seq::empty())),
            }
        } else {
            Ok((w, n.rows))
        },
    }
}

/// A walk through a tree, page by page.
pub struct Walk {
    stack: Vec<Place>,
    seen: AHashSet<Page>,
    pages: u64,
}

impl View for Walk {
    type V = WalkV;

    closed spec fn view(&self) -> WalkV {
        WalkV { stack: self.stack@, seen: keyed::pages_in(self.seen) }
    }
}

proof fn lemma_below_stop(rows: Seq<Row>, b: Seq<u8>, depth: u8, m: nat, n: nat)
    requires
        m <= n,
        below(rows, b, depth, m) is Err,
    ensures
        below(rows, b, depth, n) == below(rows, b, depth, m),
    decreases n,
{
    if m < n {
        lemma_below_stop(rows, b, depth, m, (n - 1) as nat);
    }
}

impl Walk {
    /// The pages that were read are counted, and every reference is one that can be read.
    pub closed spec fn sound(&self) -> bool {
        &&& keyed::pages_in(self.seen).finite()
        &&& self.pages == keyed::pages_in(self.seen).len()
        &&& self.pages <= 4000000
        &&& forall|i: int|
            0 <= i < self.stack@.len() ==> (#[trigger] self.stack@[i]).reference.sound()
    }

    /// A walk from the root of a tree on.
    pub fn new(root: &BlockRef) -> (r: Self)
        requires
            root.sound(),
        ensures
            r.sound(),
            r@ == (WalkV {
                stack: seq![Place { reference: *root, depth: 0 }],
                seen: Set::empty(),
            }),
    {
        let mut stack: Vec<Place> = Vec::new();
        stack.push(Place { reference: *root, depth: 0 });
        let r = Walk { stack, seen: keyed::no_pages(), pages: 0 };
        assert(r@.stack =~= seq![Place { reference: *root, depth: 0 }]);
        r
    }

    /// The next page to read. No page comes twice.
    pub fn next(&mut self) -> (r: Result<Option<Place>, RefsError>)
        requires
            old(self).sound(),
        ensures
            match (r, next_page(old(self)@)) {
                (Ok(None), Ok(None)) => final(self).sound() && final(self)@ == old(self)@,
                (Ok(Some(p)), Ok(Some(v))) => {
                    &&& final(self).sound()
                    &&& final(self)@ == v.0
                    &&& p == v.1
                    &&& p.depth <= 32
                    &&& p.reference.sound()
                },
                (Err(e), Err(f)) => e == f,
                _ => false,
            },
    {
        let ghost before = self@;
        match self.stack.pop() {
            None => {
                assert(self@ =~= before);
                Ok(None)
            },
            Some(p) => {
                assert(p == before.stack.last());
                if p.depth > 32 {
                    return Err(RefsError::TooDeep);
                }
                if !keyed::add_page(&mut self.seen, p.reference.lcns) {
                    return Err(RefsError::RepeatedPage);
                }
                self.pages = self.pages + 1;
                if self.pages > 4000000 {
                    return Err(RefsError::ExcessiveTree);
                }
                assert(self@.stack =~= before.stack.drop_last());
                Ok(Some(p))
            },
        }
    }

    /// Opens a page that `next` gave: the rows of a leaf, none of a branch.
    pub fn open(&mut self, depth: u8, b: &[u8]) -> (r: Result<Vec<Row>, RefsError>)
        requires
            old(self).sound(),
            depth <= 32,
        ensures
            match (r, opened(old(self)@, depth, b@)) {
                (Ok(rows), Ok(v)) => {
                    &&& final(self).sound()
                    &&& final(self)@ == v.0
                    &&& rows@ == v.1
                    &&& refs::rows_inside(rows@, b@)
                },
                (Err(e), Err(f)) => e == f,
                _ => false,
            },
    {
        let n: Node = match node(b, 0x50) {
            Err(e) => {
                return Err(e);
            },
            Ok(n) => n,
        };
        if !n.branch {
            return Ok(n.rows);
        }
        let ghost first = self.stack@;
        let ghost w = self@;
        let total: usize = n.rows.len();
        let mut i: usize = total;
        assert(self.stack@ =~= first + Seq::<Place>::empty());
        while i > 0
            invariant
                i <= total,
                total == n.rows@.len(),
                depth <= 32,
                n.branch,
                refs::node_of(b@, 0x50) == Ok::<refs::NodeV, RefsError>(n@),
                refs::rows_inside(n.rows@, b@),
                w == old(self)@,
                w.stack == first,
                keyed::pages_in(self.seen) == w.seen,
                self.sound(),
                match below(n.rows@, b@, depth, (total - i) as nat) {
                    Ok(v) => self.stack@ == first + v,
                    Err(_) => false,
                },
            decreases i,
        {
            i -= 1;
            let row: Row = n.rows[i];
            assert(n.rows@[i as int].inside(b@));
            let ghost done = (total - i) as nat;
            assert(n.rows@[n.rows@.len() - done] == row);
            match BlockRef::parse(&b[row.value..row.value_end]) {
                Err(e) => {
                    proof {
                        lemma_below_stop(n.rows@, b@, depth, done, total as nat);
                    }
                    return Err(e);
                },
                Ok(reference) => {
                    let ghost had = self.stack@;
                    let ghost v = below(n.rows@, b@, depth, (done - 1) as nat)->Ok_0;
                    let p = Place { reference, depth: depth + 1 };
                    self.stack.push(p);
                    assert(self.stack@ =~= first + v.push(p));
                    assert(self.sound()) by {
                        assert forall|k: int| 0 <= k < self.stack@.len() implies (
                        #[trigger] self.stack@[k]).reference.sound() by {
                            if k < had.len() {
                                assert(self.stack@[k] == had[k]);
                            }
                        }
                    }
                },
            }
        }
        Ok(Vec::new())
    }
}

/// The object table with one row more.
pub open spec fn with_object(o: Map<u128, BlockRef>, key: Seq<u8>, value: Seq<u8>) -> Result<
    Map<u128, BlockRef>,
    RefsError,
> {
    let id = bytes::id_of(key, 0)->0;
    if !(key.len() == 16 && value.len() >= 80) {
        Err(RefsError::ObjectRow)
    } else {
        match refs::reference_of(value.subrange(32, 80)) {
            Err(e) => Err(e),
            Ok(f) => if o.contains_key(id) {
                Err(RefsError::ObjectTwice)
            } else {
                Ok(o.insert(id, f))
            },
        }
    }
}

/// The objects of a volume.
pub struct Objects {
    at: AHashMap<u128, u64>,
    roots: Vec<BlockRef>,
}

impl View for Objects {
    type V = Map<u128, BlockRef>;

    closed spec fn view(&self) -> Map<u128, BlockRef> {
        Map::new(
            |id: u128| keyed::table_of(self.at).contains_key(id),
            |id: u128| self.roots@[keyed::table_of(self.at)[id] as int],
        )
    }
}

impl Objects {
    /// Every object has a root, which is a reference that can be read.
    pub closed spec fn sound(&self) -> bool {
        &&& forall|id: u128| #[trigger]
            keyed::table_of(self.at).contains_key(id) ==> keyed::table_of(self.at)[id]
                < self.roots@.len()
        &&& forall|i: int| 0 <= i < self.roots@.len() ==> (#[trigger] self.roots@[i]).sound()
    }

    pub fn new() -> (r: Self)
        ensures
            r.sound(),
            r@ == Map::<u128, BlockRef>::empty(),
    {
        let r = Objects { at: keyed::no_entries(), roots: Vec::new() };
        assert(r@ =~= Map::<u128, BlockRef>::empty());
        r
    }

    /// Adds a row of the object table.
    pub fn add_row(&mut self, key: &[u8], value: &[u8]) -> (r: Result<(), RefsError>)
        requires
            old(self).sound(),
        ensures
            match (r, with_object(old(self)@, key@, value@)) {
                (Ok(_), Ok(v)) => final(self).sound() && final(self)@ == v,
                (Err(e), Err(f)) => e == f,
                _ => false,
            },
    {
        let ghost before = self@;
        let ghost was = keyed::table_of(self.at);
        let ghost had = self.roots@;
        if !(key.len() == 16 && value.len() >= 80) {
            return Err(RefsError::ObjectRow);
        }
        let id: u128 = match bytes::idat(key, 0) {
            Some(id) => id,
            None => 0,
        };
        let reference: BlockRef = match BlockRef::parse(&value[32..80]) {
            Err(e) => {
                return Err(e);
            },
            Ok(f) => f,
        };
        let place: u64 = self.roots.len() as u64;
        if keyed::put(&mut self.at, id, place).is_some() {
            assert(before.contains_key(id));
            return Err(RefsError::ObjectTwice);
        }
        self.roots.push(reference);
        proof {
            assert forall|k: u128| #[trigger] was.contains_key(k) implies was[k] < had.len() && k
                != id by {}
            assert(self@ =~= before.insert(id, reference));
            assert(self.sound()) by {
                assert forall|i: int| 0 <= i < self.roots@.len() implies (
                #[trigger] self.roots@[i]).sound() by {
                    if i < had.len() {
                        assert(self.roots@[i] == had[i]);
                    }
                }
            }
        }
        Ok(())
    }

    /// The root of the tree of an object.
    pub fn root(&self, id: u128) -> (r: Result<BlockRef, RefsError>)
        requires
            self.sound(),
        ensures
            match r {
                Ok(f) => self@.contains_key(id) && f == self@[id] && f.sound(),
                Err(e) => e == RefsError::NoDirectory && !self@.contains_key(id),
            },
    {
        match keyed::get(&self.at, id) {
            None => Err(RefsError::NoDirectory),
            Some(i) => {
                let total: usize = self.roots.len();
                assert(i < total);
                Ok(self.roots[i as usize])
            },
        }
    }

    /// The room of the table: at least what it holds. How much more depends on how the table
    /// grew.
    pub fn room(&self) -> (r: u64)
        ensures
            r >= self@.len(),
    {
        assert(self@.dom() =~= keyed::table_of(self.at).dom());
        keyed::table_room(&self.at) as u64
    }
}

/// Why the tables of a volume cannot be used: no containers, or no root directory.
pub fn check_tables(containers: &Containers, objects: &Objects) -> (r: Result<(), RefsError>)
    requires
        objects.sound(),
    ensures
        r == (if containers@.clusters == 0 {
            Err::<(), RefsError>(RefsError::NoContainers)
        } else if !objects@.contains_key(directory_number(0x600)) {
            Err(RefsError::NoRoot)
        } else {
            Ok(())
        }),
{
    if containers.is_empty() {
        Err(RefsError::NoContainers)
    } else if objects.root(root_directory()).is_err() {
        Err(RefsError::NoRoot)
    } else {
        Ok(())
    }
}

/// The number of the root directory.
pub fn root_directory() -> (r: u128)
    ensures
        r == directory_number(0x600),
{
    0x600 * 0x1_0000_0000_0000_0000
}

/// A cluster number is mapped by its container, twice the size of which apart the containers
/// lie, and keeps its place in it; a number in a container that is not known has no place.
pub proof fn law_clusters_keep_their_place_in_the_container(c: ContainersV, lcn: u64, id: u128)
    requires
        c.clusters > 0,
        2 * c.clusters * id <= lcn < 2 * c.clusters * id + c.clusters,
    ensures
        c.base.contains_key(id) && c.base[id] + (lcn - 2 * c.clusters * id) <= u64::MAX
            ==> translated(c, lcn) == Ok::<u64, RefsError>(
            (c.base[id] + (lcn - 2 * c.clusters * id)) as u64,
        ),
        !c.base.contains_key(id) ==> translated(c, lcn) is Err,
{
    let n = c.clusters as int;
    let x = lcn as int;
    let i = id as int;
    let d = x - 2 * n * i;
    assert((2 * i) * n == 2 * n * i) by (nonlinear_arith);
    vstd::arithmetic::div_mod::lemma_fundamental_div_mod_converse(x, n, 2 * i, d);
    assert(x / n == 2 * i && x % n == d);
    assert((2 * i) / 2 == i);
}

/// What is learnt of a container stays: its first cluster is the one its row names, and the
/// containers known before keep theirs.
pub proof fn law_containers_are_learnt_once(c: ContainersV, key: Seq<u8>, value: Seq<u8>, id: u128)
    requires
        with_container(c, key, value) is Ok,
    ensures
        ({
            let d = with_container(c, key, value)->Ok_0;
            let new = bytes::le_of(key, 0, 8);
            &&& d.base.contains_key(new as u128) && !c.base.contains_key(new as u128)
            &&& d.base[new as u128] == bytes::le_of(value, 144, 8)
            &&& d.clusters == bytes::le_of(value, 152, 8)
            &&& c.clusters != 0 ==> d.clusters == c.clusters
            &&& c.base.contains_key(id) ==> d.base.contains_key(id) && d.base[id] == c.base[id]
        }),
{
    bytes::lemma_spans();
    bytes::lemma_le_bound(value, 144, 8);
    bytes::lemma_le_bound(value, 152, 8);
}

/// A page is taken only if it is a metadata page, says of itself that it lies where it was
/// looked for, and has the checksum that the reference names.
pub proof fn law_pages_are_taken_only_if_they_fit(f: BlockRef, b: Seq<u8>)
    ensures
        page_fault(f, b) is None ==> {
            &&& b[0] == 0x4d && b[1] == 0x53 && b[2] == 0x42 && b[3] == 0x2b
            &&& f.lcns.0 == bytes::le_of(b, 32, 8)
            &&& f.lcns.1 == bytes::le_of(b, 40, 8)
            &&& f.lcns.2 == bytes::le_of(b, 48, 8)
            &&& f.lcns.3 == bytes::le_of(b, 56, 8)
            &&& f.kind == 2 ==> crate::crc64::checksum(b) == f.hash
            &&& f.kind == 1 ==> refs::crc32c_of(b) == f.hash % 0x1_0000_0000
        },
{
    bytes::lemma_spans();
    bytes::lemma_le_bound(b, 32, 8);
    bytes::lemma_le_bound(b, 40, 8);
    bytes::lemma_le_bound(b, 48, 8);
    bytes::lemma_le_bound(b, 56, 8);
}

/// An object is found under the number of its row, with the page its row names, and those
/// found before stay.
pub proof fn law_objects_are_found_by_their_number(
    o: Map<u128, BlockRef>,
    key: Seq<u8>,
    value: Seq<u8>,
    other: u128,
)
    requires
        with_object(o, key, value) is Ok,
    ensures
        ({
            let p = with_object(o, key, value)->Ok_0;
            let id = bytes::le_of(key, 0, 8) + 0x1_0000_0000_0000_0000 * bytes::le_of(key, 8, 8);
            &&& p.contains_key(id as u128) && !o.contains_key(id as u128)
            &&& p[id as u128].lcns.0 == bytes::le_of(value, 32, 8)
            &&& p[id as u128].hash == bytes::le_of(value, 72, 8)
            &&& o.contains_key(other) ==> p.contains_key(other) && p[other] == o[other]
        }),
{
    refs::law_references_name_clusters_and_sum(value.subrange(32, 80));
    bytes::lemma_number_in_part(value, 32, 80, 0, 8);
    bytes::lemma_number_in_part(value, 32, 80, 40, 8);
}

proof fn lemma_below(rows: Seq<Row>, b: Seq<u8>, depth: u8, n: nat, i: int)
    requires
        n <= rows.len(),
        0 <= i < n,
        below(rows, b, depth, n) is Ok,
    ensures
        below(rows, b, depth, n)->Ok_0.len() == n,
        refs::reference_of(rows[rows.len() - 1 - i].value_in(b)) == Ok::<BlockRef, RefsError>(
            below(rows, b, depth, n)->Ok_0[i].reference,
        ),
    decreases n,
{
    reveal_with_fuel(below, 2);
    let m = (n - 1) as nat;
    if m > 0 {
        lemma_below(rows, b, depth, m, if i < m {
            i
        } else {
            0
        });
    }
}

/// Of a page that branches, every row is followed, the first one next; of another, every row
/// is told.
pub proof fn law_every_branch_is_followed(w: WalkV, depth: u8, b: Seq<u8>, i: int)
    requires
        opened(w, depth, b) is Ok,
        0 <= i < refs::node_of(b, 0x50)->Ok_0.rows.len(),
    ensures
        ({
            let n = refs::node_of(b, 0x50)->Ok_0;
            let (after, rows) = opened(w, depth, b)->Ok_0;
            &&& after.seen == w.seen
            &&& !n.branch ==> rows == n.rows && after.stack == w.stack
            &&& n.branch ==> {
                let place = after.stack[after.stack.len() - 1 - i];
                &&& rows.len() == 0
                &&& after.stack.len() == w.stack.len() + n.rows.len()
                &&& refs::reference_of(n.rows[i].value_in(b)) == Ok::<BlockRef, RefsError>(
                    place.reference,
                )
            }
        }),
{
    let n = refs::node_of(b, 0x50)->Ok_0;
    if n.branch {
        lemma_below(n.rows, b, depth, n.rows.len(), n.rows.len() - 1 - i);
    }
}

/// The number of a directory is its short number in the upper half.
pub proof fn law_directories_are_numbered_above(low: u64)
    ensures
        directory_number(low) as int / 0x1_0000_0000_0000_0000 == low,
        directory_number(low) as int % 0x1_0000_0000_0000_0000 == 0,
{
}

proof fn lemma_places(c: Option<ContainersV>, p: Page, n: nat, i: int)
    requires
        0 <= i < n,
        places(c, p, n) is Ok,
    ensures
        places(c, p, n)->Ok_0.len() == n,
        c is None ==> places(c, p, n)->Ok_0[i] == lcn_at(p, i),
        c matches Some(m) ==> translated(m, lcn_at(p, i)) == Ok::<u64, RefsError>(
            places(c, p, n)->Ok_0[i],
        ),
    decreases n,
{
    reveal_with_fuel(places, 2);
    let m = (n - 1) as nat;
    if m > 0 {
        lemma_places(c, p, m, if i < m {
            i
        } else {
            0
        });
    }
}

/// A page is read from where its clusters lie: as one piece if they follow each other, else
/// cluster by cluster, each where the containers put it.
pub proof fn law_pages_are_read_from_their_clusters(
    c: Option<ContainersV>,
    p: Page,
    cluster: u64,
    i: int,
)
    requires
        parts_of(c, p, cluster) is Ok,
        0 <= i < parts_of(c, p, cluster)->Ok_0.len(),
    ensures
        ({
            let v = parts_of(c, p, cluster)->Ok_0;
            let lcn = if i == 0 {
                p.0
            } else if i == 1 {
                p.1
            } else if i == 2 {
                p.2
            } else {
                p.3
            };
            &&& c is None ==> v[i].offset == lcn * cluster
            &&& c matches Some(m) ==> translated(m, lcn) is Ok && v[i].offset == translated(
                m,
                lcn,
            )->Ok_0 * cluster
            &&& p.0 != 0
            &&& v.len() > 1 ==> v[i].len == cluster
        }),
{
    let n = page_clusters(p);
    let v = places(c, p, n)->Ok_0;
    if n == 0 {
        assert(cluster * 0 == 0) by (nonlinear_arith);
    }
    lemma_places(c, p, n, i);
    assert(v[i] * cluster >= 0) by (nonlinear_arith)
        requires
            v[i] >= 0,
            cluster >= 0,
    ;
    let small = cluster as int;
    assert(small <= 262144) by (nonlinear_arith)
        requires
            small * n <= 262144,
            n >= 1,
            small >= 0,
    ;
}

/// A page is refused for the first thing about it that does not fit: its mark, its length,
/// its place, or its sum, by the kind of sum that the reference names.
pub proof fn law_pages_are_refused_for_cause(f: BlockRef, b: Seq<u8>)
    ensures
        ({
            let named = b.len() >= 4 && b[0] == 'M' as u8 && b[1] == 'S' as u8 && b[2] == 'B' as u8
                && b[3] == '+' as u8;
            let placed = refs::page_of(b, 32) == f.lcns;
            let fit = refs::agreed(f, refs::sum_of(f, b));
            &&& page_fault(f, b) is None <==> named && b.len() >= 64 && placed && fit
            &&& page_fault(f, b) is Some && page_fault(f, b)->0 is PageSignature <==> !named
            &&& page_fault(f, b) == Some(RefsError::TruncatedU64) <==> named && b.len() < 64
            &&& page_fault(f, b) == Some(RefsError::PageIdentity) <==> named && b.len() >= 64
                && !placed
            &&& page_fault(f, b) == Some(RefsError::PageCrc32c) ==> f.kind == 1
            &&& page_fault(f, b) is Some && page_fault(f, b)->0 is PageCrc64 ==> f.kind != 1
        }),
{
}

/// A container is learnt exactly if its row is whole, its size is a power of two of at least
/// 16 and that of all others, and it is not known yet.
pub proof fn law_containers_are_refused_for_cause(c: ContainersV, key: Seq<u8>, value: Seq<u8>)
    ensures
        ({
            let size = bytes::le_of(value, 152, 8) as u64;
            let id = bytes::le_of(key, 0, 8) as u128;
            let whole = key.len() == 16 && value.len() >= 160;
            let sized = is_power(size as int) && size >= 16;
            let one = c.clusters == 0 || c.clusters == size;
            let r = with_container(c, key, value);
            &&& r is Ok <==> whole && sized && one && !c.base.contains_key(id)
            &&& r == Err::<ContainersV, RefsError>(RefsError::ContainerRow) <==> !whole
            &&& r == Err::<ContainersV, RefsError>(RefsError::ContainerSize) <==> whole && !sized
            &&& r == Err::<ContainersV, RefsError>(RefsError::ContainerMix) <==> whole && sized
                && !one
        }),
{
}

/// A cluster is found exactly if its container is known and its place can be told.
pub proof fn law_clusters_are_refused_for_cause(c: ContainersV, lcn: u64)
    requires
        c.clusters > 0,
    ensures
        ({
            let container = lcn as int / (2 * c.clusters as int);
            let known = c.base.contains_key(container as u128);
            &&& translated(c, lcn) is Ok <==> known && c.base[container as u128] + lcn % c.clusters
                < 0x1_0000_0000_0000_0000
            &&& !known ==> translated(c, lcn) == Err::<u64, RefsError>(
                RefsError::UnmappedContainer(container as u64),
            )
        }),
{
    let a = lcn as int;
    let b = c.clusters as int;
    assert(a / b / 2 == a / (2 * b)) by {
        vstd::arithmetic::div_mod::lemma_div_denominator(a, b, 2);
        assert(b * 2 == 2 * b);
    }
    assert(0 <= a / b / 2 <= a) by {
        vstd::arithmetic::div_mod::lemma_div_is_ordered_by_denominator(a, 1, b);
    }
}

/// A walk goes on with the page that was found last, unless it lies too deep, was read
/// before, or too many were read; it ends when no page is left.
pub proof fn law_walks_end_when_no_page_is_left(w: WalkV)
    ensures
        next_page(w) == Ok::<Option<(WalkV, Place)>, RefsError>(None) <==> w.stack.len() == 0,
        w.stack.len() > 0 && w.stack.last().depth <= 32 && w.seen.contains(
            w.stack.last().reference.lcns,
        ) ==> next_page(w) == Err::<Option<(WalkV, Place)>, RefsError>(RefsError::RepeatedPage),
        w.stack.len() > 0 && w.stack.last().depth > 32 ==> next_page(w) == Err::<
            Option<(WalkV, Place)>,
            RefsError,
        >(RefsError::TooDeep),
        next_page(w) matches Ok(Some((v, p))) ==> p == w.stack.last() && v.stack
            == w.stack.drop_last() && v.seen.contains(p.reference.lcns) && !w.seen.contains(
            p.reference.lcns,
        ) && v.seen.len() <= 4000000,
        w.stack.len() > 0 && w.stack.last().depth <= 32 && !w.seen.contains(
            w.stack.last().reference.lcns,
        ) && w.seen.insert(w.stack.last().reference.lcns).len() <= 4000000 ==> next_page(w) is Ok,
{
}

/// An object is learnt exactly if its row is whole, its reference is sound, and it is not
/// known yet.
pub proof fn law_objects_are_refused_for_cause(
    o: Map<u128, BlockRef>,
    key: Seq<u8>,
    value: Seq<u8>,
)
    ensures
        with_object(o, key, value) == Err::<Map<u128, BlockRef>, RefsError>(RefsError::ObjectRow)
            ==> key.len() != 16 || value.len() < 80,
        key.len() != 16 || value.len() < 80 ==> with_object(o, key, value) == Err::<
            Map<u128, BlockRef>,
            RefsError,
        >(RefsError::ObjectRow),
        key.len() == 16 && value.len() >= 80 && refs::reference_of(value.subrange(32, 80)) is Ok
            && !o.contains_key(bytes::id_of(key, 0)->0) ==> with_object(o, key, value) is Ok,
        key.len() == 16 && value.len() >= 80 && refs::reference_of(value.subrange(32, 80)) is Ok
            && o.contains_key(bytes::id_of(key, 0)->0) ==> with_object(o, key, value) == Err::<
            Map<u128, BlockRef>,
            RefsError,
        >(RefsError::ObjectTwice),
{
}

} // verus!
