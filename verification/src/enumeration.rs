//! Indexing what a walk through directories finds. No reparse point is ever followed.
use crate::bytes;
use crate::growth;
use crate::growth::{Growing, Item};
use crate::keyed;
use crate::model;
use crate::model::{
    capacity_of, Node, PushError, Snapshot, DIR, HARDLINK, INCOMPLETE, NONE, REPARSE,
};
use crate::platform;
use crate::platform::{Identity, VolumeInfo};
use crate::text;
use crate::wide;
use crate::wide::Wide;
use ahash::AHashSet;
use vstd::prelude::*;
use vstd::string::*;

verus! {

/// One entry of a directory.
#[derive(Debug)]
pub struct Entry {
    pub name: Vec<u16>,
    pub identity: Identity,
}

/// A directory still to be walked, and its node.
#[derive(Debug)]
pub struct Job {
    pub path: Wide,
    pub parent: u32,
}

/// The same as such.
pub struct JobV {
    pub path: Seq<u16>,
    pub parent: u32,
}

pub open spec fn job_views(v: Seq<Job>) -> Seq<JobV> {
    v.map_values(|j: Job| JobV { path: j.path@, parent: j.parent })
}

/// The number that an identity stands for.
pub open spec fn object_of(i: Identity) -> (u64, u128) {
    (i.volume, bytes::id_of(i.id@, 0)->0)
}

/// The flags that an identity gives.
pub open spec fn kind_flags(i: Identity) -> u16 {
    (if i.dir() {
        DIR
    } else {
        0
    }) | (if i.reparse() {
        REPARSE
    } else {
        0
    })
}

/// An index in the making.
#[verifier::ext_equal]
pub struct IndexV {
    pub g: Growing,
    pub links: Set<(u64, u128)>,
    pub kept: Seq<Identity>,
}

/// A file with more than one name.
pub open spec fn shared(i: Identity) -> bool {
    !i.dir() && i.links > 1
}

/// What is indexed of an entry: the space of a shared file counts at the first of its
/// names.
pub open spec fn item_of(v: IndexV, parent: u32, name: Seq<u16>, i: Identity) -> Item {
    Item {
        parent,
        name,
        logical: i.length,
        allocated: if shared(i) && v.links.contains(object_of(i)) {
            0
        } else {
            i.allocated
        },
        flags: if shared(i) {
            kind_flags(i) | HARDLINK
        } else {
            kind_flags(i)
        },
        mtime: platform::unix_ms(i.modified),
    }
}

/// The index with one entry more.
pub open spec fn with_entry(v: IndexV, parent: u32, name: Seq<u16>, i: Identity, retain: bool) -> Result<
    IndexV,
    PushError,
> {
    match growth::grown(v.g, item_of(v, parent, name, i)) {
        Err(e) => Err(e),
        Ok(g) => Ok(
            IndexV {
                g,
                links: if shared(i) {
                    v.links.insert(object_of(i))
                } else {
                    v.links
                },
                kept: if retain {
                    v.kept.push(i)
                } else {
                    v.kept
                },
            },
        ),
    }
}

/// The index with the first `n` entries of a directory more.
pub open spec fn with_entries(
    v: IndexV,
    parent: u32,
    entries: Seq<Entry>,
    retain: bool,
    n: nat,
) -> Result<IndexV, PushError>
    decreases n,
{
    if n == 0 {
        Ok(v)
    } else {
        match with_entries(v, parent, entries, retain, (n - 1) as nat) {
            Err(e) => Err(e),
            Ok(w) => {
                let e = entries[n - 1];
                with_entry(w, parent, e.name@, e.identity, retain)
            },
        }
    }
}

/// The directories among the first `n` entries that are to be walked; the first entry gets
/// node `at`. What leads elsewhere is not walked.
pub open spec fn jobs_of(dir: Seq<u16>, entries: Seq<Entry>, at: nat, n: nat) -> Seq<JobV>
    decreases n,
{
    if n == 0 {
        Seq::empty()
    } else {
        let e = entries[n - 1];
        let before = jobs_of(dir, entries, at, (n - 1) as nat);
        if e.identity.dir() && !e.identity.reparse() {
            before.push(
                JobV {
                    path: wide::pushed(dir, e.name@),
                    parent: (at + n - 1) as u32,
                },
            )
        } else {
            before
        }
    }
}

/// The node of the place where a walk starts.
pub open spec fn start_node(i: Identity) -> Node {
    let n = model::added_node(NONE, 0, 0, i.length, i.allocated, DIR);
    if i.dir() && !i.reparse() {
        n
    } else {
        model::timed_node(
            Node {
                flags: kind_flags(i),
                files: if i.dir() {
                    0
                } else {
                    1
                },
                dirs: if i.dir() {
                    1
                } else {
                    0
                },
                ..n
            },
            platform::unix_ms(i.modified),
        )
    }
}

/// The index of a walk.
pub struct FsIndex {
    snapshot: Snapshot,
    hardlinks: AHashSet<(u64, u128)>,
    identities: Vec<Identity>,
    retain: bool,
}

impl FsIndex {
    pub closed spec fn scan(&self) -> Snapshot {
        self.snapshot
    }

    pub closed spec fn retains(&self) -> bool {
        self.retain
    }

    pub closed spec fn model(&self) -> IndexV {
        IndexV {
            g: self.snapshot.growing(),
            links: keyed::objects_in(self.hardlinks),
            kept: self.identities@,
        }
    }

    /// As many records as entries were added to the start.
    pub open spec fn sound(&self) -> bool {
        &&& self.scan().stats.records_read + 1 == self.scan().nodes@.len()
        &&& self.model().g == self.scan().growing()
        &&& 0 < self.scan().nodes@.len() <= u32::MAX
    }

    /// Starts the index of a walk at `root`, which is what `start` tells.
    pub fn new(
        root: Wide,
        volume: VolumeInfo,
        threads: usize,
        started_unix: u64,
        start: &Identity,
        retain: bool,
    ) -> (r: Self)
        ensures
            r.sound(),
            r.retains() == retain,
            r.scan().version == 3,
            r.scan().root == root,
            r.scan().volume == volume,
            r.scan().stats.backend@ == "fs-enumerate"@,
            r.scan().stats.threads == threads,
            r.scan().stats.started_unix == started_unix,
            growth::unread(r.scan()),
            r.model() == (IndexV {
                g: Growing {
                    nodes: seq![start_node(*start)],
                    names: Seq::empty(),
                    errors: 0,
                    complete: true,
                    warnings: Seq::empty(),
                },
                links: Set::empty(),
                kept: if retain {
                    seq![*start]
                } else {
                    Seq::empty()
                },
            }),
    {
        let mut snapshot: Snapshot = Snapshot::new(
            root,
            volume,
            "fs-enumerate",
            threads,
            started_unix,
        );
        let mut n: Node = snapshot.nodes[0];
        n.logical = start.length;
        n.allocated = start.allocated;
        if !start.is_dir() || start.is_reparse() {
            n.flags = (if start.is_dir() {
                DIR
            } else {
                0
            }) | (if start.is_reparse() {
                REPARSE
            } else {
                0
            });
            n.files = if start.is_dir() {
                0
            } else {
                1
            };
            n.dirs = if start.is_dir() {
                1
            } else {
                0
            };
            snapshot.nodes.set(0, n);
            snapshot.set_file_mtime(0, platform::modified_unix_ms(start.modified));
        } else {
            snapshot.nodes.set(0, n);
        }
        let mut identities: Vec<Identity> = Vec::new();
        if retain {
            identities.push(*start);
        }
        let r = FsIndex { snapshot, hardlinks: keyed::no_objects(), identities, retain };
        proof {
            assert(1u16 & 1u16 == 1u16) by (bit_vector);
            assert(r.snapshot.nodes@ =~= seq![start_node(*start)]);
            assert(r.snapshot.names@ =~= Seq::<u16>::empty());
            assert(text::views(r.snapshot.stats.warnings@) =~= Seq::<Seq<char>>::empty());
            assert(r.identities@ =~= r.model().kept);
        }
        r
    }

    /// Notes that something could not be read.
    pub fn warn(&mut self, t: String)
        requires
            old(self).sound(),
        ensures
            final(self).sound(),
            final(self).retains() == old(self).retains(),
            growth::same_scan(final(self).scan(), old(self).scan()),
            final(self).model() == (IndexV {
                g: growth::warned(old(self).model().g, t@),
                ..old(self).model()
            }),
    {
        growth::add_warning(&mut self.snapshot, t);
    }

    fn take(&mut self, parent: u32, name: &Vec<u16>, meta: &Identity) -> (r: Result<u32, PushError>)
        requires
            old(self).sound(),
        ensures
            final(self).retains() == old(self).retains(),
            match (
                r,
                with_entry(old(self).model(), parent, name@, *meta, old(self).retains()),
            ) {
                (Ok(id), Ok(v)) => {
                    &&& final(self).sound()
                    &&& final(self).model() == v
                    &&& id == old(self).scan().nodes@.len()
                    &&& growth::same_source(final(self).scan(), old(self).scan())
                },
                (Err(e), Err(f)) => e == f,
                _ => false,
            },
    {
        let mut flags: u16 = (if meta.is_dir() {
            DIR
        } else {
            0
        }) | (if meta.is_reparse() {
            REPARSE
        } else {
            0
        });
        let mut allocated: u64 = meta.allocated;
        let ghost v = self.model();
        if !meta.is_dir() && meta.links > 1 {
            flags = flags | HARDLINK;
            let id: Option<u128> = bytes::idat(meta.id.as_slice(), 0);
            if let Some(number) = id {
                if !keyed::add_object(&mut self.hardlinks, (meta.volume, number)) {
                    allocated = 0;
                }
            }
            assert(keyed::objects_in(self.hardlinks) =~= v.links.insert(object_of(*meta)));
        }
        match growth::add_item(
            &mut self.snapshot,
            parent,
            name,
            meta.length,
            allocated,
            flags,
            platform::modified_unix_ms(meta.modified),
        ) {
            Err(e) => Err(e),
            Ok(id) => {
                if self.retain {
                    self.identities.push(*meta);
                }
                self.snapshot.stats.records_read = self.snapshot.stats.records_read + 1;
                Ok(id)
            },
        }
    }

    /// Adds the entries of the directory at `dir`, whose node is `parent`, and gives the
    /// directories among them that are to be walked.
    pub fn take_batch(&mut self, parent: u32, dir: &Wide, entries: &Vec<Entry>) -> (r: Result<
        Vec<Job>,
        PushError,
    >)
        requires
            old(self).sound(),
        ensures
            final(self).retains() == old(self).retains(),
            match (
                r,
                with_entries(
                    old(self).model(),
                    parent,
                    entries@,
                    old(self).retains(),
                    entries@.len(),
                ),
            ) {
                (Ok(jobs), Ok(v)) => {
                    &&& final(self).sound()
                    &&& final(self).model() == v
                    &&& job_views(jobs@) == jobs_of(
                        dir@,
                        entries@,
                        old(self).scan().nodes@.len(),
                        entries@.len(),
                    )
                    &&& growth::same_source(final(self).scan(), old(self).scan())
                },
                (Err(e), Err(f)) => e == f,
                _ => false,
            },
    {
        let ghost v0 = self.model();
        let ghost keep = self.retains();
        let ghost at = self.scan().nodes@.len();
        let ghost first = self.scan();
        let mut jobs: Vec<Job> = Vec::new();
        let mut i: usize = 0;
        assert(job_views(jobs@) =~= Seq::<JobV>::empty());
        while i < entries.len()
            invariant
                i <= entries@.len(),
                self.sound(),
                self.retains() == keep,
                keep == old(self).retains(),
                v0 == old(self).model(),
                first == old(self).scan(),
                at == first.nodes@.len(),
                self.scan().nodes@.len() == at + i,
                growth::same_source(self.scan(), first),
                with_entries(v0, parent, entries@, keep, i as nat) == Ok::<IndexV, PushError>(
                    self.model(),
                ),
                job_views(jobs@) == jobs_of(dir@, entries@, at, i as nat),
            decreases entries@.len() - i,
        {
            let e: &Entry = &entries[i];
            match self.take(parent, &e.name, &e.identity) {
                Err(x) => {
                    proof {
                        lemma_entries_stop(
                            v0,
                            parent,
                            entries@,
                            keep,
                            (i + 1) as nat,
                            entries@.len(),
                        );
                    }
                    return Err(x);
                },
                Ok(id) => {
                    if e.identity.is_dir() && !e.identity.is_reparse() {
                        let ghost had = jobs@;
                        let j = Job {
                            path: dir.join(&e.name),
                            parent: id,
                        };
                        jobs.push(j);
                        assert(job_views(jobs@) =~= job_views(had).push(
                            JobV { path: j.path@, parent: j.parent },
                        ));
                    }
                },
            }
            i += 1;
        }
        Ok(jobs)
    }

    /// The tables hold what they hold in room for so many nodes, name units, identities and
    /// shared files.
    pub open spec fn held_in(
        &self,
        nodes: usize,
        names: usize,
        identities: usize,
        links: usize,
    ) -> bool {
        &&& self.scan().held_in(nodes, names)
        &&& identities >= self.model().kept.len()
        &&& links >= self.model().links.len()
    }

    /// The memory in use, if it exceeds the limit. What counts is the room that the tables
    /// have, and so at least what they hold; how much more it is depends on how they grew.
    pub fn over_budget(&self, limit: u64) -> (r: Option<u64>)
        ensures
            exists|nodes: usize, names: usize, identities: usize, links: usize| #[trigger]
                self.held_in(nodes, names, identities, links) && r == past(
                    walk_need(
                        model::index_size_of(nodes as int, names as int),
                        identities as int,
                        links as int,
                    ),
                    limit,
                ),
            walk_need(
                model::index_size_of(
                    self.scan().nodes@.len() as int,
                    self.scan().names@.len() as int,
                ),
                self.model().kept.len() as int,
                self.model().links.len() as int,
            ) > limit ==> r is Some,
    {
        let index: u64 = self.snapshot.index_bytes();
        let identities: usize = capacity_of(&self.identities);
        let links: usize = keyed::object_room(&self.hardlinks);
        proof {
            let (nodes, names) = choose|nodes: usize, names: usize| #[trigger]
                self.snapshot.held_in(nodes, names) && index == model::index_size_of(
                    nodes as int,
                    names as int,
                );
            assert(self.held_in(nodes, names, identities, links));
            let each = vstd::layout::size_of::<Identity>() as int;
            let kept = self.identities@.len() as int;
            assert(kept * each <= identities * each) by (nonlinear_arith)
                requires
                    kept <= identities,
                    each >= 0,
            ;
        }
        beyond(walk_bytes(index, identities as u64, links as u64), limit)
    }

    /// Ends the walk: the snapshot, ready to be finished, and the identities if they were
    /// kept.
    pub fn close(self) -> (r: (Snapshot, Vec<Identity>))
        requires
            self.sound(),
        ensures
            r.1@ == self.model().kept,
            growth::same_scan(r.0, self.scan()),
            r.0.growing() == (Growing {
                nodes: if self.scan().stats.complete {
                    self.scan().nodes@
                } else {
                    self.scan().nodes@.update(
                        0,
                        Node {
                            flags: self.scan().nodes@[0].flags | INCOMPLETE,
                            ..self.scan().nodes@[0]
                        },
                    )
                },
                ..self.scan().growing()
            }),
    {
        let mut snapshot: Snapshot = self.snapshot;
        if !snapshot.stats.complete {
            let mut n: Node = snapshot.nodes[0];
            n.flags = n.flags | INCOMPLETE;
            snapshot.nodes.set(0, n);
        }
        (snapshot, self.identities)
    }
}

/// The number, or the greatest one that fits.
pub open spec fn capped(n: int) -> int {
    if n <= u64::MAX {
        n
    } else {
        u64::MAX as int
    }
}

/// What is used, if it exceeds the limit.
pub open spec fn past(used: int, limit: u64) -> Option<u64> {
    if used > limit {
        Some(used as u64)
    } else {
        None
    }
}

/// The memory of a walk whose index takes so many bytes, and whose other tables have room
/// for so many identities and shared files, as far as it can be counted.
pub open spec fn walk_need(index: int, identities: int, links: int) -> int {
    capped(index + identities * vstd::layout::size_of::<Identity>() + links * 48)
}

/// What is used, if it exceeds the limit.
pub fn beyond(used: u64, limit: u64) -> (r: Option<u64>)
    ensures
        r == past(used as int, limit),
{
    if used > limit {
        Some(used)
    } else {
        None
    }
}

/// The memory of a walk whose index takes so many bytes, and whose other tables have room
/// for so many identities and shared files.
pub fn walk_bytes(index: u64, identities: u64, links: u64) -> (r: u64)
    ensures
        r == walk_need(index as int, identities as int, links as int),
{
    let each: usize = core::mem::size_of::<Identity>();
    proof {
        assert(identities * each >= 0) by (nonlinear_arith)
            requires
                identities >= 0,
                each >= 0,
        ;
    }
    let ids: u64 = saturating_product(identities, each as u64);
    let shared: u64 = saturating_product(links, 48);
    index.saturating_add(ids).saturating_add(shared)
}

/// The product, or the greatest number if it does not fit.
pub fn saturating_product(a: u64, b: u64) -> (r: u64)
    ensures
        r == capped(a * b),
{
    match a.checked_mul(b) {
        Some(n) => n,
        None => 0xffff_ffff_ffff_ffff,
    }
}

proof fn lemma_entries_stop(
    v: IndexV,
    parent: u32,
    entries: Seq<Entry>,
    retain: bool,
    m: nat,
    n: nat,
)
    requires
        m <= n,
        with_entries(v, parent, entries, retain, m) is Err,
    ensures
        with_entries(v, parent, entries, retain, n) == with_entries(
            v,
            parent,
            entries,
            retain,
            m,
        ),
    decreases n,
{
    if m < n {
        lemma_entries_stop(v, parent, entries, retain, m, (n - 1) as nat);
    }
}

proof fn lemma_links_grow(v: IndexV, parent: u32, entries: Seq<Entry>, retain: bool, m: nat, n: nat)
    requires
        m < n,
        with_entries(v, parent, entries, retain, n) is Ok,
        shared(entries[m as int].identity),
    ensures
        with_entries(v, parent, entries, retain, n)->Ok_0.links.contains(
            object_of(entries[m as int].identity),
        ),
    decreases n,
{
    if m + 1 < n {
        lemma_links_grow(v, parent, entries, retain, m, (n - 1) as nat);
    }
}

/// The space of a file with several names counts at the first of them only; the later
/// ones stay in the index under their own names.
pub proof fn law_shared_space_counts_once(
    v: IndexV,
    parent: u32,
    entries: Seq<Entry>,
    retain: bool,
    first: nat,
    later: nat,
)
    requires
        first < later < entries.len(),
        shared(entries[first as int].identity),
        shared(entries[later as int].identity),
        object_of(entries[first as int].identity) == object_of(entries[later as int].identity),
        with_entries(v, parent, entries, retain, later) is Ok,
    ensures
        ({
            let w = with_entries(v, parent, entries, retain, later)->Ok_0;
            let e = entries[later as int];
            let item = item_of(w, parent, e.name@, e.identity);
            item.allocated == 0 && item.name == e.name@ && item.logical == e.identity.length
        }),
{
    lemma_links_grow(v, parent, entries, retain, first, later);
}

/// Whatever is walked is a directory that leads nowhere else.
pub proof fn law_walks_follow_no_reparse_point(
    dir: Seq<u16>,
    entries: Seq<Entry>,
    at: nat,
    n: nat,
    k: int,
)
    requires
        n <= entries.len(),
        at + n <= u32::MAX,
        0 <= k < jobs_of(dir, entries, at, n).len(),
    ensures
        ({
            let j = jobs_of(dir, entries, at, n)[k];
            let i = j.parent - at;
            0 <= i < n && entries[i].identity.dir() && !entries[i].identity.reparse()
        }),
    decreases n,
{
    let before = jobs_of(dir, entries, at, (n - 1) as nat);
    if k < before.len() {
        law_walks_follow_no_reparse_point(dir, entries, at, (n - 1) as nat, k);
        assert(jobs_of(dir, entries, at, n)[k] == before[k]);
    }
}

proof fn lemma_kind_bits(i: Identity)
    ensures
        (kind_flags(i) & 1 != 0) == i.dir(),
        (kind_flags(i) & 2 != 0) == i.reparse(),
        kind_flags(i) & 4 == 0,
        kind_flags(i) & 64 == 0,
        ((kind_flags(i) | HARDLINK) & 1 != 0) == i.dir(),
        ((kind_flags(i) | HARDLINK) & 2 != 0) == i.reparse(),
        (kind_flags(i) | HARDLINK) & 4 != 0,
{
    let a = if i.dir() {
        1u16
    } else {
        0u16
    };
    let b = if i.reparse() {
        2u16
    } else {
        0u16
    };
    model::lemma_single_flags();
    model::lemma_flags(a, b);
    model::lemma_flags(a | b, HARDLINK);
}

/// An entry is indexed under its parent and name with the length and last write that the
/// system tells of it, and its space, unless it is a further name of a file that was met
/// before. It is a directory, or leads elsewhere, if its attributes say so, and a hard link
/// if it is a file of several names. What was indexed before stays.
pub proof fn law_entries_keep_what_the_system_tells(
    v: IndexV,
    parent: u32,
    name: Seq<u16>,
    i: Identity,
    retain: bool,
)
    requires
        with_entry(v, parent, name, i, retain) is Ok,
    ensures
        ({
            let w = with_entry(v, parent, name, i, retain)->Ok_0;
            let n = w.g.nodes.last();
            let folder = i.attributes & 0x10 != 0;
            let several = !folder && i.links > 1;
            let id = (i.volume, (bytes::le_of(i.id@, 0, 8) + 0x1_0000_0000_0000_0000 * bytes::le_of(
                i.id@,
                8,
                8,
            )) as u128);
            &&& w.g.nodes.len() == v.g.nodes.len() + 1
            &&& forall|k: int| 0 <= k < v.g.nodes.len() ==> #[trigger] w.g.nodes[k] == v.g.nodes[k]
            &&& n.parent == parent
            &&& w.g.names == v.g.names + name
            &&& n.name_start == v.g.names.len() && n.name_len == name.len()
            &&& n.logical == i.length
            &&& n.allocated == if several && v.links.contains(id) {
                0
            } else {
                i.allocated
            }
            &&& (n.flags & 1 != 0) == folder
            &&& (n.flags & 2 != 0) == (i.attributes & 0x400 != 0)
            &&& (n.flags & 4 != 0) == several
            &&& !folder && i.modified > 0 ==> n.oldest_modified_ms == i.modified as int / 10_000
                - 11_644_473_600_000 && n.flags & 64 == 0
            &&& !folder && i.modified <= 0 ==> n.oldest_modified_ms == i64::MIN && n.flags & 64 != 0
            &&& n.latest_modified_ms == n.oldest_modified_ms
            &&& several ==> w.links.contains(id)
            &&& retain ==> w.kept == v.kept.push(i)
            &&& !retain ==> w.kept == v.kept
        }),
{
    lemma_kind_bits(i);
    let f = item_of(v, parent, name, i).flags;
    model::lemma_single_flags();
    model::lemma_flags(f, 64);
    assert(i.id@.len() == 16);
}

/// Every directory that leads nowhere else is walked into, under its own path.
pub proof fn law_every_directory_is_walked_into(
    dir: Seq<u16>,
    entries: Seq<Entry>,
    at: nat,
    n: nat,
    i: int,
)
    requires
        0 <= i < n <= entries.len(),
        at + n <= u32::MAX,
        entries[i].identity.attributes & 0x10 != 0,
        entries[i].identity.attributes & 0x400 == 0,
    ensures
        exists|k: int|
            0 <= k < jobs_of(dir, entries, at, n).len() && (#[trigger] jobs_of(
                dir,
                entries,
                at,
                n,
            )[k]).parent == at + i && jobs_of(dir, entries, at, n)[k].path == wide::pushed(
                dir,
                entries[i].name@,
            ),
    decreases n,
{
    let m = (n - 1) as nat;
    let before = jobs_of(dir, entries, at, m);
    let jobs = jobs_of(dir, entries, at, n);
    if i == m {
        assert(jobs[before.len() as int].parent == at + i);
    } else {
        law_every_directory_is_walked_into(dir, entries, at, m, i);
        let k = choose|k: int|
            0 <= k < before.len() && (#[trigger] before[k]).parent == at + i && before[k].path
                == wide::pushed(dir, entries[i].name@);
        assert(jobs[k] == before[k]);
    }
}

/// The node that a scan starts at has the size that the system tells, and is a directory
/// unless the system says that it is none.
pub proof fn law_scans_start_at_what_is_there(i: Identity)
    ensures
        ({
            let n = start_node(i);
            let folder = i.attributes & 0x10 != 0;
            &&& n.logical == i.length && n.allocated == i.allocated
            &&& (n.flags & 1 != 0) == folder
            &&& (n.flags & 2 != 0) == (i.attributes & 0x400 != 0)
            &&& n.files == (if folder {
                0u32
            } else {
                1u32
            }) && n.dirs == (if folder {
                1u32
            } else {
                0u32
            })
            &&& !folder && i.modified > 0 ==> n.oldest_modified_ms == i.modified as int / 10_000
                - 11_644_473_600_000
        }),
{
    lemma_kind_bits(i);
    let f = kind_flags(i);
    model::lemma_single_flags();
    model::lemma_flags(f, 64);
}

/// Memory use is past the limit exactly if it is more, and what is told is the use.
pub proof fn law_only_more_than_the_limit_is_past(used: int, limit: u64)
    requires
        0 <= used <= u64::MAX,
    ensures
        past(used, limit) is Some <==> used > limit,
        past(used, limit) is Some ==> past(used, limit)->0 == used,
{
}

/// Every entry of a directory is indexed, in its order, with its own length and name.
pub proof fn law_every_entry_gets_its_node(
    v: IndexV,
    parent: u32,
    entries: Seq<Entry>,
    retain: bool,
    n: nat,
    i: int,
)
    requires
        0 <= i < n <= entries.len(),
        with_entries(v, parent, entries, retain, n) is Ok,
    ensures
        ({
            let w = with_entries(v, parent, entries, retain, n)->Ok_0;
            let node = w.g.nodes[v.g.nodes.len() + i];
            let e = entries[i];
            &&& w.g.nodes.len() == v.g.nodes.len() + n
            &&& node.parent == parent
            &&& node.logical == e.identity.length
            &&& node.name_len == e.name@.len()
            &&& e.identity.links <= 1 ==> node.allocated == e.identity.allocated
            &&& (node.flags & 1 != 0) == (e.identity.attributes & 0x10 != 0)
        }),
    decreases n,
{
    reveal_with_fuel(with_entries, 2);
    let m = (n - 1) as nat;
    let before = with_entries(v, parent, entries, retain, m)->Ok_0;
    law_entries_keep_what_the_system_tells(
        before,
        parent,
        entries[m as int].name@,
        entries[m as int].identity,
        retain,
    );
    if m > 0 {
        law_every_entry_gets_its_node(v, parent, entries, retain, m, if i < m {
            i
        } else {
            0
        });
    }
}

/// Every identity and every link that is kept adds to the memory that a walk needs, up to the
/// largest number there is.
pub proof fn law_everything_kept_needs_memory(index: int, identities: int, links: int)
    requires
        0 <= index,
        0 <= identities,
        0 <= links,
    ensures
        index <= u64::MAX ==> walk_need(index, 0, 0) == index,
        walk_need(index, identities, links + 1) <= u64::MAX,
        walk_need(index, identities, links + 1) < u64::MAX ==> walk_need(
            index,
            identities,
            links + 1,
        ) == walk_need(index, identities, links) + 48,
        walk_need(index, identities + 1, links) < u64::MAX ==> walk_need(
            index,
            identities + 1,
            links,
        ) == walk_need(index, identities, links) + vstd::layout::size_of::<Identity>(),
        walk_need(index, identities, links) >= index || walk_need(index, identities, links)
            == u64::MAX,
{
    let each = vstd::layout::size_of::<Identity>() as int;
    assert((identities + 1) * each == identities * each + each) by (nonlinear_arith);
    assert(identities * each >= 0) by (nonlinear_arith)
        requires
            identities >= 0,
            each >= 0,
    ;
    assert(0 * each == 0) by (nonlinear_arith);
}

} // verus!
