//! Compact, lossless UTF-16 tree: no per-file full path, no retained raw records.
use crate::platform;
use crate::platform::VolumeInfo;
use crate::rollup;
use crate::text;
use crate::tree;
use crate::wide;
use crate::wide::Wide;
use vstd::prelude::*;

verus! {

pub const NONE: u32 = 0xffff_ffff;

pub const DIR: u16 = 1;

pub const REPARSE: u16 = 2;

pub const HARDLINK: u16 = 4;

pub const ESTIMATED: u16 = 8;

pub const INCOMPLETE: u16 = 16;

pub const VIRTUAL: u16 = 32;

pub const MTIME_UNKNOWN: u16 = 64;

/// The flags that a directory inherits from anything below it.
pub const CARRIED: u16 = 88;

pub const UNKNOWN_MTIME: i64 = i64::MIN;

/// The earlier of two times, where an unknown time gives way to a known one.
pub open spec fn oldest_of(a: i64, b: i64) -> i64 {
    if a == UNKNOWN_MTIME {
        b
    } else if b == UNKNOWN_MTIME {
        a
    } else if a <= b {
        a
    } else {
        b
    }
}

/// The later of two times, where an unknown time gives way to a known one.
pub open spec fn latest_of(a: i64, b: i64) -> i64 {
    if a == UNKNOWN_MTIME {
        b
    } else if b == UNKNOWN_MTIME {
        a
    } else if a >= b {
        a
    } else {
        b
    }
}

pub fn oldest_known(a: i64, b: i64) -> (r: i64)
    ensures
        r == oldest_of(a, b),
{
    if a == UNKNOWN_MTIME {
        b
    } else if b == UNKNOWN_MTIME {
        a
    } else if a <= b {
        a
    } else {
        b
    }
}

pub fn latest_known(a: i64, b: i64) -> (r: i64)
    ensures
        r == latest_of(a, b),
{
    if a == UNKNOWN_MTIME {
        b
    } else if b == UNKNOWN_MTIME {
        a
    } else if a >= b {
        a
    } else {
        b
    }
}

/// One file or directory of a snapshot.
///
/// Files: both times are the last write in UTC Unix milliseconds. Directories: the
/// least and greatest last write of the files below; a directory's own time is never
/// counted, and an empty directory has `UNKNOWN_MTIME`.
#[derive(Clone, Copy, Debug)]
pub struct Node {
    pub logical: u64,
    pub allocated: u64,
    pub oldest_modified_ms: i64,
    pub latest_modified_ms: i64,
    pub parent: u32,
    pub first_child: u32,
    pub next_sibling: u32,
    pub name_start: u32,
    pub name_len: u16,
    pub flags: u16,
    pub files: u32,
    pub dirs: u32,
}

impl Node {
    pub open spec fn dir(self) -> bool {
        self.flags & DIR != 0
    }

    pub open spec fn reparse(self) -> bool {
        self.flags & REPARSE != 0
    }

    pub fn is_dir(&self) -> (r: bool)
        ensures
            r == self.dir(),
    {
        self.flags & DIR != 0
    }

    pub fn is_reparse(&self) -> (r: bool)
        ensures
            r == self.reparse(),
    {
        self.flags & REPARSE != 0
    }
}

/// How a scan went.
#[derive(Debug)]
pub struct ScanStats {
    pub backend: String,
    pub started_unix: u64,
    pub elapsed_ms: u64,
    pub threads: usize,
    pub records_read: u64,
    pub raw_bytes_read: u64,
    pub errors: u64,
    pub complete: bool,
    pub peak_working_set_bytes: u64,
    pub index_bytes: u64,
    pub warnings: Vec<String>,
}

/// Two records of one scan that may differ in the size of the index.
pub open spec fn same_but_index_bytes(a: ScanStats, b: ScanStats) -> bool {
    &&& a.backend == b.backend
    &&& a.started_unix == b.started_unix
    &&& a.elapsed_ms == b.elapsed_ms
    &&& a.threads == b.threads
    &&& a.records_read == b.records_read
    &&& a.raw_bytes_read == b.raw_bytes_read
    &&& a.errors == b.errors
    &&& a.complete == b.complete
    &&& a.peak_working_set_bytes == b.peak_working_set_bytes
    &&& a.warnings == b.warnings
}

/// A scanned tree: node 0 is the root, every other node names its parent.
#[derive(Debug)]
pub struct Snapshot {
    pub version: u32,
    pub root: Wide,
    pub volume: VolumeInfo,
    pub stats: ScanStats,
    pub nodes: Vec<Node>,
    pub names: Vec<u16>,
}

/// The children of one node, one after the other.
pub struct Children<'a> {
    snapshot: &'a Snapshot,
    next: u32,
}

impl<'a> Children<'a> {
    pub closed spec fn table(&self) -> Seq<Node> {
        self.snapshot.nodes@
    }

    /// The node that comes next, or `NONE`.
    pub closed spec fn at(&self) -> u32 {
        self.next
    }

    /// What is still to come.
    pub open spec fn rest(&self) -> Seq<u32> {
        tree::chain(self.table(), self.at(), self.table().len())
    }

    /// The links still to be followed come to an end.
    pub open spec fn ends(&self) -> bool {
        self.table().len() <= u32::MAX && tree::chain_ends(
            self.table(),
            self.at(),
            self.table().len(),
        )
    }

    pub fn next(&mut self) -> (r: Option<u32>)
        requires
            old(self).ends(),
        ensures
            final(self).ends(),
            final(self).table() == old(self).table(),
            match r {
                Some(c) => old(self).rest() == seq![c] + final(self).rest(),
                None => old(self).rest().len() == 0 && final(self).rest().len() == 0,
            },
    {
        if self.next == NONE {
            return None;
        }
        let i: u32 = self.next;
        self.next = self.snapshot.nodes[i as usize].next_sibling;
        proof {
            let len = self.table().len();
            tree::lemma_chain_fuel(self.table(), self.next, (len - 1) as nat, len);
        }
        Some(i)
    }
}

impl Snapshot {
    pub fn children(&self, id: u32) -> (r: Children<'_>)
        requires
            id < self.nodes.len() <= u32::MAX,
            tree::chain_ends(self.nodes@, self.nodes@[id as int].first_child, self.nodes@.len()),
        ensures
            r.ends(),
            r.table() == self.nodes@,
            r.rest() == tree::kids(self.nodes@, id as int),
    {
        Children { snapshot: self, next: self.nodes[id as usize].first_child }
    }

    /// The children of `id` as a list.
    pub fn child_ids(&self, id: u32) -> (r: Vec<u32>)
        requires
            id < self.nodes.len() <= u32::MAX,
            tree::chain_ends(self.nodes@, self.nodes@[id as int].first_child, self.nodes@.len()),
        ensures
            r@ == tree::kids(self.nodes@, id as int),
    {
        let mut out: Vec<u32> = Vec::new();
        let mut it = self.children(id);
        let ghost all = it.rest();
        let mut more: bool = true;
        while more
            invariant
                it.ends(),
                all == out@ + it.rest(),
                !more ==> it.rest().len() == 0,
            decreases
                it.rest().len(),
                if more {
                    1int
                } else {
                    0int
                },
        {
            let ghost rest = it.rest();
            let ghost had = out@;
            match it.next() {
                Some(c) => {
                    out.push(c);
                    assert(had + (seq![c] + it.rest()) =~= out@ + it.rest());
                },
                None => {
                    more = false;
                    assert(rest =~= it.rest());
                },
            }
        }
        assert(out@ =~= all);
        out
    }
}

impl Default for ScanStats {
    fn default() -> (r: Self)
        ensures
            r.backend@ == Seq::<char>::empty(),
            r.started_unix == 0,
            r.elapsed_ms == 0,
            r.threads == 0,
            r.records_read == 0,
            r.raw_bytes_read == 0,
            r.errors == 0,
            !r.complete,
            r.peak_working_set_bytes == 0,
            r.index_bytes == 0,
            r.warnings@ == Seq::<String>::empty(),
    {
        ScanStats {
            backend: String::new(),
            started_unix: 0,
            elapsed_ms: 0,
            threads: 0,
            records_read: 0,
            raw_bytes_read: 0,
            errors: 0,
            complete: false,
            peak_working_set_bytes: 0,
            index_bytes: 0,
            warnings: Vec::new(),
        }
    }
}

/// Why a node cannot be added.
#[derive(Clone, Copy, Debug, PartialEq, Eq, Structural)]
pub enum PushError {
    /// The index would exceed its compact limits.
    TooLarge,
    OverlongName,
}

impl PushError {
    pub open spec fn words(self) -> Seq<char> {
        match self {
            PushError::TooLarge => "scan index exceeds 32-bit compact limits"@,
            PushError::OverlongName => "invalid overlong filename"@,
        }
    }

    /// What is told of it.
    pub fn message(self) -> (r: &'static str)
        ensures
            r@ == self.words(),
    {
        match self {
            PushError::TooLarge => "scan index exceeds 32-bit compact limits",
            PushError::OverlongName => "invalid overlong filename",
        }
    }
}

/// A node as it is added, before any totals or links.
pub open spec fn added_node(
    parent: u32,
    start: u32,
    len: u16,
    logical: u64,
    allocated: u64,
    flags: u16,
) -> Node {
    Node {
        logical,
        allocated,
        oldest_modified_ms: UNKNOWN_MTIME,
        latest_modified_ms: UNKNOWN_MTIME,
        parent,
        first_child: NONE,
        next_sibling: NONE,
        name_start: start,
        name_len: len,
        flags,
        files: if flags & DIR == 0 {
            1
        } else {
            0
        },
        dirs: if flags & DIR == 0 {
            0
        } else {
            1
        },
    }
}

/// Every name lies inside the name table.
pub open spec fn names_inside(nodes: Seq<Node>, names: nat) -> bool {
    forall|i: int|
        0 <= i < nodes.len() ==> (#[trigger] nodes[i]).name_start + nodes[i].name_len <= names
}

/// The UTF-16 name of a node.
pub open spec fn units_at(nodes: Seq<Node>, names: Seq<u16>, i: int) -> Seq<u16> {
    names.subrange(
        nodes[i].name_start as int,
        nodes[i].name_start + nodes[i].name_len,
    )
}

/// The name of a node as text.
pub open spec fn name_at(nodes: Seq<Node>, names: Seq<u16>, i: int) -> Seq<char> {
    text::utf16_text(units_at(nodes, names, i))
}

/// The path of a node in UTF-16 units: the names on the way down from the root, at most `fuel`
/// of them.
pub open spec fn path_at(root: Seq<u16>, nodes: Seq<Node>, names: Seq<u16>, id: u32, fuel: nat) -> Seq<
    u16,
>
    decreases fuel,
{
    if fuel == 0 || id == 0 || id == NONE {
        root
    } else {
        wide::pushed(
            path_at(root, nodes, names, nodes[id as int].parent, (fuel - 1) as nat),
            units_at(nodes, names, id as int),
        )
    }
}

/// What people read of the path of a node.
pub open spec fn words_at(root: Seq<u16>, nodes: Seq<Node>, names: Seq<u16>, id: u32) -> Seq<char> {
    text::utf16_text(path_at(root, nodes, names, id, nodes.len()))
}

/// The path of a node is that of its parent and, behind a backslash, every unit of its own
/// name, where the name holds no separator and does not look like a drive and the parent's
/// path neither begins with `\\?\` nor is a bare drive.
pub proof fn law_paths_keep_every_unit(
    root: Seq<u16>,
    nodes: Seq<Node>,
    names: Seq<u16>,
    id: u32,
    fuel: nat,
)
    requires
        fuel > 0,
        id != 0 && id != NONE,
        units_at(nodes, names, id as int).len() > 0,
        forall|i: int|
            0 <= i < units_at(nodes, names, id as int).len() ==> !wide::separates(
                #[trigger] units_at(nodes, names, id as int)[i],
                true,
            ),
        !wide::drive_at(units_at(nodes, names, id as int), 0),
        ({
            let base = path_at(root, nodes, names, nodes[id as int].parent, (fuel - 1) as nat);
            let lead = wide::lead_of(base).0;
            lead != wide::Lead::Verbatim && !(lead == wide::Lead::Drive && base.len() == 2)
        }),
    ensures
        ({
            let base = path_at(root, nodes, names, nodes[id as int].parent, (fuel - 1) as nat);
            path_at(root, nodes, names, id, fuel) == (if base.len() == 0 || wide::separates(
                base.last(),
                true,
            ) {
                base
            } else {
                base.push(92)
            }) + units_at(nodes, names, id as int)
        }),
{
    wide::law_names_are_appended(
        path_at(root, nodes, names, nodes[id as int].parent, (fuel - 1) as nat),
        units_at(nodes, names, id as int),
    );
}

/// The parent of every node exists or is `NONE`.
pub open spec fn parents_inside(nodes: Seq<Node>) -> bool {
    forall|i: int|
        0 <= i < nodes.len() ==> (#[trigger] nodes[i]).parent == NONE || nodes[i].parent
            < nodes.len()
}

/// Why a path cannot be found in a snapshot.
#[derive(Clone, Copy, Debug, PartialEq, Eq, Structural)]
pub enum FindError {
    /// The path lies outside the snapshot's root.
    Outside,
    /// No child, or more than one, has that name.
    NotFound,
}

impl FindError {
    pub open spec fn words(self, path: Seq<char>, root: Seq<char>) -> Seq<char> {
        match self {
            FindError::Outside => path + " is outside snapshot root "@ + root,
            FindError::NotFound => "path not found or ambiguous in snapshot: "@ + path
                + " (scan may be stale)"@,
        }
    }

    /// What is told of it, for a path and the root of the snapshot.
    pub fn message(self, path: &str, root: &str) -> (r: String)
        ensures
            r@ == self.words(path@, root@),
    {
        match self {
            FindError::Outside => text::glue(&text::glue(path, " is outside snapshot root "), root),
            FindError::NotFound => text::glue(
                &text::glue("path not found or ambiguous in snapshot: ", path),
                " (scan may be stale)",
            ),
        }
    }
}

/// The children of `id` that have exactly this name.
pub open spec fn named(nodes: Seq<Node>, names: Seq<u16>, id: int, name: Seq<char>) -> Seq<u32> {
    tree::kids(nodes, id).filter(
        |c: u32| units_at(nodes, names, c as int) == text::utf16_of(name),
    )
}

/// The children of `id` that have this name but for letter case.
pub open spec fn named_loosely(
    nodes: Seq<Node>,
    names: Seq<u16>,
    id: int,
    name: Seq<char>,
) -> Seq<u32> {
    tree::kids(nodes, id).filter(
        |c: u32|
            text::lowercase(name_at(nodes, names, c as int)) == text::lowercase(name),
    )
}

/// The child that a name stands for: the only one of that very name, else the only one
/// of that name but for letter case.
pub open spec fn child_named(
    nodes: Seq<Node>,
    names: Seq<u16>,
    id: int,
    name: Seq<char>,
) -> Option<u32> {
    let exact = named(nodes, names, id, name);
    let loose = named_loosely(nodes, names, id, name);
    if exact.len() == 1 {
        Some(exact[0])
    } else if loose.len() == 1 {
        Some(loose[0])
    } else {
        None
    }
}

/// The node that the names lead to from `id`.
pub open spec fn descend(
    nodes: Seq<Node>,
    names: Seq<u16>,
    id: u32,
    path: Seq<Seq<char>>,
) -> Option<u32>
    decreases path.len(),
{
    if path.len() == 0 {
        Some(id)
    } else {
        match child_named(nodes, names, id as int, path[0]) {
            Some(c) => descend(nodes, names, c, path.subrange(1, path.len() as int)),
            None => None,
        }
    }
}

impl Snapshot {
    /// The table while nodes are being added: an unlinked root and whatever was added,
    /// each node counting itself.
    pub open spec fn building(&self) -> bool {
        &&& 0 < self.nodes@.len() <= u32::MAX
        &&& self.version == 3
        &&& self.nodes@[0].parent == NONE
        &&& rollup::fresh(self.nodes@)
        &&& rollup::counted(self.nodes@)
        &&& names_inside(self.nodes@, self.names@.len())
        &&& forall|i: int|
            0 <= i < self.nodes@.len() ==> (#[trigger] self.nodes@[i]).oldest_modified_ms
                == self.nodes@[i].latest_modified_ms && self.nodes@[i].next_sibling == NONE
    }

    pub fn new(
        root: Wide,
        volume: VolumeInfo,
        backend: &str,
        threads: usize,
        started_unix: u64,
    ) -> (r: Self)
        ensures
            r.building(),
            r.root == root,
            r.volume == volume,
            r.stats.backend@ == backend@,
            r.stats.started_unix == started_unix,
            r.stats.threads == threads,
            r.stats.complete,
            r.stats.errors == 0,
            r.stats.elapsed_ms == 0,
            r.stats.records_read == 0,
            r.stats.raw_bytes_read == 0,
            r.stats.peak_working_set_bytes == 0,
            r.stats.index_bytes == 0,
            r.stats.warnings@.len() == 0,
            r.nodes@ == seq![added_node(NONE, 0, 0, 0, 0, DIR)],
            r.names@.len() == 0,
    {
        let mut stats = ScanStats::default();
        stats.backend = backend.to_owned();
        stats.started_unix = started_unix;
        stats.threads = threads;
        stats.complete = true;
        let mut nodes: Vec<Node> = Vec::new();
        assert(1u16 & 1u16 == 1u16) by (bit_vector);
        nodes.push(
            Node {
                logical: 0,
                allocated: 0,
                oldest_modified_ms: UNKNOWN_MTIME,
                latest_modified_ms: UNKNOWN_MTIME,
                parent: NONE,
                first_child: NONE,
                next_sibling: NONE,
                name_start: 0,
                name_len: 0,
                flags: DIR,
                files: 0,
                dirs: 1,
            },
        );
        assert(nodes@ =~= seq![added_node(NONE, 0, 0, 0, 0, DIR)]);
        Snapshot { version: 3, root, volume, stats, nodes, names: Vec::new() }
    }

    pub fn push(
        &mut self,
        parent: u32,
        name: &[u16],
        logical: u64,
        allocated: u64,
        flags: u16,
    ) -> (r: Result<u32, PushError>)
        ensures
            r == if !(old(self).nodes.len() < NONE && old(self).names.len() + name@.len()
                < u32::MAX) {
                Err(PushError::TooLarge)
            } else if name@.len() > u16::MAX {
                Err(PushError::OverlongName)
            } else {
                Ok(old(self).nodes.len() as u32)
            },
            r is Err ==> *final(self) == *old(self),
            r is Ok ==> final(self).nodes@ == old(self).nodes@.push(
                added_node(
                    parent,
                    old(self).names.len() as u32,
                    name@.len() as u16,
                    logical,
                    allocated,
                    flags,
                ),
            ) && final(self).names@ == old(self).names@ + name@,
            final(self).version == old(self).version,
            final(self).root == old(self).root,
            final(self).volume == old(self).volume,
            final(self).stats == old(self).stats,
            old(self).building() ==> final(self).building(),
    {
        let used: usize = self.names.len();
        let fits: bool = match used.checked_add(name.len()) {
            Some(total) => total < 0xffff_ffff,
            None => false,
        };
        if !((self.nodes.len() as u64) < NONE as u64 && fits) {
            return Err(PushError::TooLarge);
        }
        if name.len() > 0xffff {
            return Err(PushError::OverlongName);
        }
        let id: u32 = self.nodes.len() as u32;
        let start: u32 = self.names.len() as u32;
        self.names.extend_from_slice(name);
        assert(self.names@ =~= old(self).names@ + name@);
        let is_file: bool = flags & DIR == 0;
        self.nodes.push(
            Node {
                logical,
                allocated,
                oldest_modified_ms: UNKNOWN_MTIME,
                latest_modified_ms: UNKNOWN_MTIME,
                parent,
                first_child: NONE,
                next_sibling: NONE,
                name_start: start,
                name_len: name.len() as u16,
                flags,
                files: if is_file {
                    1
                } else {
                    0
                },
                dirs: if is_file {
                    0
                } else {
                    1
                },
            },
        );
        Ok(id)
    }

    /// Records the last write of a file; directories keep what their files give them.
    pub fn set_file_mtime(&mut self, id: u32, mtime_ms: Option<i64>)
        requires
            id < old(self).nodes.len(),
        ensures
            final(self).version == old(self).version,
            final(self).root == old(self).root,
            final(self).volume == old(self).volume,
            final(self).stats == old(self).stats,
            final(self).names == old(self).names,
            final(self).nodes@ == old(self).nodes@.update(
                id as int,
                timed_node(old(self).nodes@[id as int], mtime_ms),
            ),
            old(self).building() ==> final(self).building(),
    {
        let mut n: Node = self.nodes[id as usize];
        let ghost before = n;
        if !n.is_dir() {
            n.oldest_modified_ms = match mtime_ms {
                Some(t) => t,
                None => UNKNOWN_MTIME,
            };
            n.latest_modified_ms = n.oldest_modified_ms;
            if mtime_ms.is_none() {
                n.flags = n.flags | MTIME_UNKNOWN;
            } else {
                n.flags = n.flags & !MTIME_UNKNOWN;
            }
        }
        proof {
            lemma_time_flag(before.flags);
        }
        self.nodes.set(id as usize, n);
    }

    pub fn name_units(&self, id: u32) -> (r: &[u16])
        requires
            id < self.nodes.len(),
            self.nodes@[id as int].name_start + self.nodes@[id as int].name_len
                <= self.names@.len(),
        ensures
            r@ == units_at(self.nodes@, self.names@, id as int),
    {
        let n: Node = self.nodes[id as usize];
        let start: usize = n.name_start as usize;
        let total: usize = self.names.len();
        assert(start + n.name_len <= total);
        let end: usize = start + n.name_len as usize;
        &self.names.as_slice()[start..end]
    }

    pub fn name(&self, id: u32) -> (r: String)
        requires
            id < self.nodes.len(),
            self.nodes@[id as int].name_start + self.nodes@[id as int].name_len
                <= self.names@.len(),
        ensures
            r@ == name_at(self.nodes@, self.names@, id as int),
    {
        text::from_utf16(self.name_units(id))
    }

    pub fn path(&self, id: u32) -> (r: Wide)
        requires
            id == NONE || id < self.nodes.len(),
            names_inside(self.nodes@, self.names@.len()),
            parents_inside(self.nodes@),
        ensures
            r@ == path_at(self.root@, self.nodes@, self.names@, id, self.nodes@.len()),
    {
        let mut parts: Vec<u32> = Vec::new();
        let mut at: u32 = id;
        let mut left: usize = self.nodes.len();
        let ghost nodes = self.nodes@;
        let ghost names = self.names@;
        let ghost whole = path_at(self.root@, nodes, names, id, nodes.len());
        while left > 0 && at != 0 && at != NONE
            invariant
                nodes == self.nodes@,
                names == self.names@,
                at == NONE || at < nodes.len(),
                left <= nodes.len(),
                names_inside(nodes, names.len()),
                parents_inside(nodes),
                forall|k: int| 0 <= k < parts@.len() ==> (#[trigger] parts@[k]) < nodes.len(),
                extended(
                    path_at(self.root@, nodes, names, at, left as nat),
                    nodes,
                    names,
                    parts@,
                ) == whole,
            decreases left,
        {
            let ghost had = parts@;
            parts.push(at);
            assert(parts@.drop_last() =~= had);
            at = self.nodes[at as usize].parent;
            left -= 1;
        }
        let mut p: Wide = self.root.clone();
        let mut i: usize = parts.len();
        assert(parts@.subrange(0, i as int) =~= parts@);
        while i > 0
            invariant
                i <= parts@.len(),
                nodes == self.nodes@,
                names == self.names@,
                names_inside(nodes, names.len()),
                forall|k: int| 0 <= k < parts@.len() ==> (#[trigger] parts@[k]) < nodes.len(),
                extended(p@, nodes, names, parts@.subrange(0, i as int)) == whole,
            decreases i,
        {
            i -= 1;
            let ghost now = parts@.subrange(0, i + 1);
            assert(now.drop_last() =~= parts@.subrange(0, i as int));
            assert(now.last() == parts@[i as int]);
            assert(parts@[i as int] < nodes.len());
            p = p.join(self.name_units(parts[i]));
        }
        assert(parts@.subrange(0, 0) =~= Seq::<u32>::empty());
        p
    }

    /// Counts a warning, and keeps its text while there is room.
    pub fn warn(&mut self, warning: String)
        ensures
            final(self).stats.errors == (if old(self).stats.errors < u64::MAX {
                old(self).stats.errors + 1
            } else {
                u64::MAX as int
            }),
            !final(self).stats.complete,
            final(self).stats.warnings@ == if old(self).stats.warnings@.len() < 24 {
                old(self).stats.warnings@.push(warning)
            } else {
                old(self).stats.warnings@
            },
            final(self).stats.backend == old(self).stats.backend,
            final(self).stats.started_unix == old(self).stats.started_unix,
            final(self).stats.elapsed_ms == old(self).stats.elapsed_ms,
            final(self).stats.threads == old(self).stats.threads,
            final(self).stats.records_read == old(self).stats.records_read,
            final(self).stats.raw_bytes_read == old(self).stats.raw_bytes_read,
            final(self).stats.peak_working_set_bytes == old(self).stats.peak_working_set_bytes,
            final(self).stats.index_bytes == old(self).stats.index_bytes,
            final(self).version == old(self).version,
            final(self).root == old(self).root,
            final(self).volume == old(self).volume,
            final(self).nodes == old(self).nodes,
            final(self).names == old(self).names,
    {
        self.stats.errors = self.stats.errors.saturating_add(1);
        self.stats.complete = false;
        if self.stats.warnings.len() < 24 {
            self.stats.warnings.push(warning);
        }
    }

    fn child_named_exec(&self, id: u32, name: &str) -> (r: Option<u32>)
        requires
            tree::linked(self.nodes@),
            names_inside(self.nodes@, self.names@.len()),
            id < self.nodes.len(),
        ensures
            r == child_named(self.nodes@, self.names@, id as int, name@),
            r matches Some(c) ==> c < self.nodes.len(),
    {
        let ghost nodes = self.nodes@;
        let ghost names = self.names@;
        assert(tree::chain_ok(nodes, id as int));
        let kids: Vec<u32> = self.child_ids(id);
        let wanted: Vec<u16> = text::utf16(name);
        let folded: String = text::to_lower(name);
        let ghost exact = |c: u32| units_at(nodes, names, c as int) == text::utf16_of(name@);
        let ghost loose = |c: u32|
            text::lowercase(name_at(nodes, names, c as int)) == text::lowercase(name@);
        let mut hits: Vec<u32> = Vec::new();
        let mut near: Vec<u32> = Vec::new();
        let mut i: usize = 0;
        proof {
            tree::lemma_kids(nodes, id as int);
            reveal(Seq::filter);
            assert(kids@.subrange(0, 0) =~= Seq::<u32>::empty());
        }
        while i < kids.len()
            invariant
                i <= kids@.len(),
                nodes == self.nodes@,
                names == self.names@,
                names_inside(nodes, names.len()),
                wanted@ == text::utf16_of(name@),
                folded@ == text::lowercase(name@),
                exact == (|c: u32| units_at(nodes, names, c as int) == text::utf16_of(name@)),
                loose == (|c: u32|
                    text::lowercase(name_at(nodes, names, c as int)) == text::lowercase(name@)),
                forall|k: int| 0 <= k < kids@.len() ==> (#[trigger] kids@[k]) < nodes.len(),
                hits@ == kids@.subrange(0, i as int).filter(exact),
                near@ == kids@.subrange(0, i as int).filter(loose),
                forall|k: int| 0 <= k < hits@.len() ==> (#[trigger] hits@[k]) < nodes.len(),
                forall|k: int| 0 <= k < near@.len() ==> (#[trigger] near@[k]) < nodes.len(),
            decreases kids@.len() - i,
        {
            let c: u32 = kids[i];
            proof {
                reveal(Seq::filter);
                assert(kids@.subrange(0, i + 1).drop_last() =~= kids@.subrange(0, i as int));
                assert(kids@.subrange(0, i + 1).last() == c);
            }
            if text::same_units(self.name_units(c), &wanted) {
                hits.push(c);
            }
            if text::to_lower(&self.name(c)) == folded {
                near.push(c);
            }
            i += 1;
        }
        assert(kids@.subrange(0, i as int) =~= kids@);
        if hits.len() == 1 {
            Some(hits[0])
        } else if near.len() == 1 {
            Some(near[0])
        } else {
            None
        }
    }

    /// The node at an absolute path.
    pub fn find(&self, path: &str) -> (r: Result<u32, FindError>)
        requires
            tree::linked(self.nodes@),
            names_inside(self.nodes@, self.names@.len()),
        ensures
            r == found(*self, path@),
            r matches Ok(id) ==> id < self.nodes.len(),
    {
        let root: String = self.root.to_text();
        if !platform::within(path, &root) {
            return Err(FindError::Outside);
        }
        let key: String = platform::path_key(path);
        let root_key: String = platform::path_key(&root);
        if key == root_key {
            return Ok(0);
        }
        let shown: String = platform::display_path(path);
        let root_shown: String = platform::display_path(&root);
        let parts: Vec<String> = platform::pieces(&shown);
        let skip: usize = platform::pieces(&root_shown).len();
        let ghost nodes = self.nodes@;
        let ghost names = self.names@;
        let ghost wanted = descend(nodes, names, 0, below_root(self.root.words(), path@));
        let mut id: u32 = 0;
        let mut i: usize = skip;
        if i > parts.len() {
            i = parts.len();
        }
        let ghost all = text::views(parts@);
        assert(all.subrange(i as int, all.len() as int) =~= below_root(self.root.words(), path@));
        while i < parts.len()
            invariant
                i <= parts@.len(),
                nodes == self.nodes@,
                names == self.names@,
                tree::linked(nodes),
                names_inside(nodes, names.len()),
                all == text::views(parts@),
                platform::key_within(platform::key_of(path@), platform::key_of(self.root.words())),
                platform::key_of(path@) != platform::key_of(self.root.words()),
                wanted == descend(nodes, names, 0, below_root(self.root.words(), path@)),
                id < nodes.len(),
                descend(nodes, names, id, all.subrange(i as int, all.len() as int)) == wanted,
            decreases parts@.len() - i,
        {
            let ghost rest = all.subrange(i as int, all.len() as int);
            assert(rest[0] == parts@[i as int]@);
            assert(rest.subrange(1, rest.len() as int) =~= all.subrange(
                i + 1,
                all.len() as int,
            ));
            match self.child_named_exec(id, &parts[i]) {
                Some(c) => {
                    id = c;
                },
                None => {
                    return Err(FindError::NotFound);
                },
            }
            i += 1;
        }
        assert(all.subrange(i as int, all.len() as int) =~= Seq::<Seq<char>>::empty());
        Ok(id)
    }
}

/// What a path leads to.
pub open spec fn found(s: Snapshot, path: Seq<char>) -> Result<u32, FindError> {
    if !platform::key_within(platform::key_of(path), platform::key_of(s.root.words())) {
        Err(FindError::Outside)
    } else if platform::key_of(path) == platform::key_of(s.root.words()) {
        Ok(0u32)
    } else {
        match descend(s.nodes@, s.names@, 0, below_root(s.root.words(), path)) {
            Some(id) => Ok(id),
            None => Err(FindError::NotFound),
        }
    }
}

/// The names of a path past those of the root.
pub open spec fn below_root(root: Seq<char>, path: Seq<char>) -> Seq<Seq<char>> {
    let all = platform::pieces_of(platform::shown(path));
    let skip = platform::pieces_of(platform::shown(root)).len();
    if skip <= all.len() {
        all.subrange(skip as int, all.len() as int)
    } else {
        Seq::empty()
    }
}

/// `base` continued by the names of the listed nodes, the last one first.
spec fn extended(base: Seq<u16>, nodes: Seq<Node>, names: Seq<u16>, parts: Seq<u32>) -> Seq<u16>
    decreases parts.len(),
{
    if parts.len() == 0 {
        base
    } else {
        extended(
            wide::pushed(base, units_at(nodes, names, parts.last() as int)),
            nodes,
            names,
            parts.drop_last(),
        )
    }
}

/// A node with a last write recorded.
pub open spec fn timed_node(n: Node, mtime_ms: Option<i64>) -> Node {
    if n.dir() {
        n
    } else {
        let t = match mtime_ms {
            Some(t) => t,
            None => UNKNOWN_MTIME,
        };
        Node {
            oldest_modified_ms: t,
            latest_modified_ms: t,
            flags: if mtime_ms is None {
                n.flags | MTIME_UNKNOWN
            } else {
                n.flags & !MTIME_UNKNOWN
            },
            ..n
        }
    }
}

proof fn lemma_time_flag(f: u16)
    by (bit_vector)
    ensures
        (f | 64) & 1 == f & 1,
        (f & !64) & 1 == f & 1,
{
}

/// `Vec::capacity`: at least the number of elements held. How much more depends on the
/// allocator, and nothing is said of it.
#[verifier::external_body]
pub(crate) fn capacity_of<T>(v: &Vec<T>) -> (r: usize)
    ensures
        r >= v@.len(),
{
    v.capacity()
}

/// The bytes taken by room for so many nodes and so many name units.
pub open spec fn index_size_of(nodes: int, names: int) -> int {
    let bytes = nodes * vstd::layout::size_of::<Node>() + names * 2;
    if bytes <= u64::MAX {
        bytes
    } else {
        u64::MAX as int
    }
}

pub fn index_size(nodes: usize, names: usize) -> (r: u64)
    ensures
        r == index_size_of(nodes as int, names as int),
{
    let each: usize = core::mem::size_of::<Node>();
    assert(0 <= nodes * each <= 0xffff_ffff_ffff_ffff * 0xffff_ffff_ffff_ffff) by (nonlinear_arith)
        requires
            nodes <= 0xffff_ffff_ffff_ffff,
            each <= 0xffff_ffff_ffff_ffff,
    ;
    let bytes: u128 = nodes as u128 * each as u128 + names as u128 * 2;
    if bytes <= 0xffff_ffff_ffff_ffff {
        bytes as u64
    } else {
        0xffff_ffff_ffff_ffff
    }
}

impl Snapshot {
    /// The tables hold what they hold in room for so many nodes and name units.
    pub open spec fn held_in(&self, nodes: usize, names: usize) -> bool {
        nodes >= self.nodes@.len() && names >= self.names@.len()
    }

    /// The memory that the tables take: that of the room they have, which is at least what
    /// their contents need.
    pub fn index_bytes(&self) -> (r: u64)
        ensures
            exists|nodes: usize, names: usize| #[trigger]
                self.held_in(nodes, names) && r == index_size_of(nodes as int, names as int),
            r >= index_size_of(self.nodes@.len() as int, self.names@.len() as int),
    {
        let nodes: usize = capacity_of(&self.nodes);
        let names: usize = capacity_of(&self.names);
        let ghost each = vstd::layout::size_of::<Node>() as int;
        let ghost held = self.nodes@.len() as int;
        assert(held * each <= nodes * each) by (nonlinear_arith)
            requires
                held <= nodes,
                each >= 0,
        ;
        assert(self.held_in(nodes, names));
        index_size(nodes, names)
    }
}

/// How the bits of joined flags and of flags without a mark are those of the parts.
pub proof fn lemma_flags(x: u16, y: u16)
    by (bit_vector)
    ensures
        ((x | y) & 1u16 != 0) == (x & 1u16 != 0 || y & 1u16 != 0),
        ((x | y) & 2u16 != 0) == (x & 2u16 != 0 || y & 2u16 != 0),
        ((x | y) & 4u16 != 0) == (x & 4u16 != 0 || y & 4u16 != 0),
        ((x | y) & 8u16 != 0) == (x & 8u16 != 0 || y & 8u16 != 0),
        ((x | y) & 16u16 != 0) == (x & 16u16 != 0 || y & 16u16 != 0),
        ((x | y) & 32u16 != 0) == (x & 32u16 != 0 || y & 32u16 != 0),
        ((x | y) & 64u16 != 0) == (x & 64u16 != 0 || y & 64u16 != 0),
        (x & !64u16) & 1u16 == x & 1u16,
        (x & !64u16) & 2u16 == x & 2u16,
        (x & !64u16) & 4u16 == x & 4u16,
        (x & !64u16) & 8u16 == x & 8u16,
        (x & !64u16) & 16u16 == x & 16u16,
        (x & !64u16) & 32u16 == x & 32u16,
        (x & !64u16) & 64u16 == 0,
{
}

/// The flags are bits of their own.
pub proof fn lemma_single_flags()
    by (bit_vector)
    ensures
        0u16 & 1u16 == 0u16,
        0u16 & 2u16 == 0u16,
        0u16 & 4u16 == 0u16,
        0u16 & 8u16 == 0u16,
        0u16 & 16u16 == 0u16,
        0u16 & 32u16 == 0u16,
        0u16 & 64u16 == 0u16,
        1u16 & 1u16 == 1u16,
        1u16 & 2u16 == 0u16,
        1u16 & 4u16 == 0u16,
        1u16 & 8u16 == 0u16,
        1u16 & 16u16 == 0u16,
        1u16 & 32u16 == 0u16,
        1u16 & 64u16 == 0u16,
        2u16 & 1u16 == 0u16,
        2u16 & 2u16 == 2u16,
        2u16 & 4u16 == 0u16,
        2u16 & 8u16 == 0u16,
        2u16 & 16u16 == 0u16,
        2u16 & 32u16 == 0u16,
        2u16 & 64u16 == 0u16,
        4u16 & 1u16 == 0u16,
        4u16 & 2u16 == 0u16,
        4u16 & 4u16 == 4u16,
        4u16 & 8u16 == 0u16,
        4u16 & 16u16 == 0u16,
        4u16 & 32u16 == 0u16,
        4u16 & 64u16 == 0u16,
        8u16 & 1u16 == 0u16,
        8u16 & 2u16 == 0u16,
        8u16 & 4u16 == 0u16,
        8u16 & 8u16 == 8u16,
        8u16 & 16u16 == 0u16,
        8u16 & 32u16 == 0u16,
        8u16 & 64u16 == 0u16,
        16u16 & 1u16 == 0u16,
        16u16 & 2u16 == 0u16,
        16u16 & 4u16 == 0u16,
        16u16 & 8u16 == 0u16,
        16u16 & 16u16 == 16u16,
        16u16 & 32u16 == 0u16,
        16u16 & 64u16 == 0u16,
        32u16 & 1u16 == 0u16,
        32u16 & 2u16 == 0u16,
        32u16 & 4u16 == 0u16,
        32u16 & 8u16 == 0u16,
        32u16 & 16u16 == 0u16,
        32u16 & 32u16 == 32u16,
        32u16 & 64u16 == 0u16,
        64u16 & 1u16 == 0u16,
        64u16 & 2u16 == 0u16,
        64u16 & 4u16 == 0u16,
        64u16 & 8u16 == 0u16,
        64u16 & 16u16 == 0u16,
        64u16 & 32u16 == 0u16,
        64u16 & 64u16 == 64u16,
{
}

/// Of two times, an unknown one gives way, and else the older or the later one stands.
pub proof fn law_known_times_stand(a: i64, b: i64)
    ensures
        a == i64::MIN ==> oldest_of(a, b) == b && latest_of(a, b) == b,
        b == i64::MIN ==> oldest_of(a, b) == a && latest_of(a, b) == a,
        a != i64::MIN && b != i64::MIN ==> oldest_of(a, b) <= a && oldest_of(a, b) <= b && (
        oldest_of(a, b) == a || oldest_of(a, b) == b),
        a != i64::MIN && b != i64::MIN ==> latest_of(a, b) >= a && latest_of(a, b) >= b && (
        latest_of(a, b) == a || latest_of(a, b) == b),
{
}

/// A file counts as one file and a directory as one directory; its sizes and its place are
/// those given.
pub proof fn law_added_nodes_keep_what_is_given(
    parent: u32,
    start: u32,
    len: u16,
    logical: u64,
    allocated: u64,
    flags: u16,
    mtime: Option<i64>,
)
    ensures
        ({
            let n = timed_node(added_node(parent, start, len, logical, allocated, flags), mtime);
            &&& n.logical == logical && n.allocated == allocated && n.parent == parent
            &&& n.name_start == start && n.name_len == len
            &&& n.first_child == 0xffff_ffff && n.next_sibling == 0xffff_ffff
            &&& n.files + n.dirs == 1
            &&& n.dirs == 1 <==> flags & 1 != 0
            &&& flags & 1 != 0 ==> n.flags == flags && n.oldest_modified_ms == i64::MIN
                && n.latest_modified_ms == i64::MIN
            &&& flags & 1 == 0 ==> {
                &&& n.oldest_modified_ms == n.latest_modified_ms
                &&& n.oldest_modified_ms == (match mtime {
                    Some(t) => t,
                    None => i64::MIN,
                })
                &&& (n.flags & 64 != 0) == (mtime is None)
                &&& n.flags & 2 == flags & 2 && n.flags & 4 == flags & 4 && n.flags & 16 == flags
                    & 16
            }
        }),
{
    lemma_flags(flags, 64);
    lemma_single_flags();
    let joined = flags | 64;
    assert(joined & 2 == flags & 2 && joined & 4 == flags & 4 && joined & 16 == flags & 16)
        by (bit_vector)
        requires
            joined == flags | 64u16,
    ;
}

/// A path leads to a child only by its own name, or by one that differs in case alone.
pub proof fn law_children_are_found_by_name(
    nodes: Seq<Node>,
    names: Seq<u16>,
    id: int,
    name: Seq<char>,
)
    ensures
        child_named(nodes, names, id, name) matches Some(c) ==> tree::kids(nodes, id).contains(c) && (
        units_at(nodes, names, c as int) == text::utf16_of(name) || text::lowercase(
            text::utf16_text(units_at(nodes, names, c as int)),
        ) == text::lowercase(name)),
{
    let kids = tree::kids(nodes, id);
    let exact = |c: u32| units_at(nodes, names, c as int) == text::utf16_of(name);
    let loose = |c: u32| text::lowercase(name_at(nodes, names, c as int)) == text::lowercase(name);
    lemma_filtered(kids, exact, 0);
    lemma_filtered(kids, loose, 0);
}

proof fn lemma_filtered(s: Seq<u32>, p: spec_fn(u32) -> bool, i: int)
    ensures
        0 <= i < s.filter(p).len() ==> p(s.filter(p)[i]) && s.contains(s.filter(p)[i]),
    decreases s.len(),
{
    reveal(Seq::filter);
    if s.len() > 0 {
        let rest = s.drop_last();
        lemma_filtered(rest, p, i);
        if 0 <= i < rest.filter(p).len() {
            let k = rest.index_of(rest.filter(p)[i]);
            assert(s[k] == rest.filter(p)[i]);
        } else if 0 <= i < s.filter(p).len() {
            assert(s[s.len() - 1] == s.filter(p)[i]);
        }
    }
}

proof fn lemma_filtered_one(s: Seq<u32>, p: spec_fn(u32) -> bool, c: u32)
    requires
        s.contains(c),
        s.no_duplicates(),
        p(c),
        forall|d: u32| #[trigger] s.contains(d) && p(d) ==> d == c,
    ensures
        s.filter(p) == seq![c],
    decreases s.len(),
{
    reveal(Seq::filter);
    let rest = s.drop_last();
    assert forall|d: u32| #[trigger] rest.contains(d) implies s.contains(d) by {
        let k = rest.index_of(d);
        assert(s[k] == d);
    }
    if s.last() == c {
        assert(!rest.contains(c)) by {
            if rest.contains(c) {
                let k = rest.index_of(c);
                assert(s[k] == s[s.len() - 1]);
            }
        }
        lemma_filtered_none(rest, p);
        assert(s.filter(p) =~= seq![c]);
    } else {
        let k = s.index_of(c);
        assert(rest[k] == c);
        assert(s.contains(s[s.len() - 1]));
        assert(!p(s.last()));
        lemma_filtered_one(rest, p, c);
    }
}

proof fn lemma_filtered_none(s: Seq<u32>, p: spec_fn(u32) -> bool)
    requires
        forall|d: u32| #[trigger] s.contains(d) ==> !p(d),
    ensures
        s.filter(p).len() == 0,
    decreases s.len(),
{
    reveal(Seq::filter);
    if s.len() > 0 {
        let rest = s.drop_last();
        assert forall|d: u32| #[trigger] rest.contains(d) implies !p(d) by {
            let k = rest.index_of(d);
            assert(s[k] == d);
            assert(s.contains(d));
        }
        assert(s.contains(s[s.len() - 1]));
        lemma_filtered_none(rest, p);
    }
}

/// The one child that bears a name is found under it, whatever else is there.
pub proof fn law_the_child_of_a_name_is_found(
    nodes: Seq<Node>,
    names: Seq<u16>,
    id: int,
    name: Seq<char>,
    c: u32,
)
    requires
        tree::kids(nodes, id).no_duplicates(),
        tree::kids(nodes, id).contains(c),
        units_at(nodes, names, c as int) == text::utf16_of(name),
        forall|d: u32| #[trigger]
            tree::kids(nodes, id).contains(d) && units_at(nodes, names, d as int) == text::utf16_of(
                name,
            ) ==> d == c,
    ensures
        child_named(nodes, names, id, name) == Some(c),
{
    let exact = |c: u32| units_at(nodes, names, c as int) == text::utf16_of(name);
    lemma_filtered_one(tree::kids(nodes, id), exact, c);
}

/// A path is looked up only at or below the root of the scan; the root itself is the first
/// entry.
pub proof fn law_paths_are_looked_up_below_the_root(s: Snapshot, path: Seq<char>)
    ensures
        ({
            let root = platform::key_of(s.root.words());
            let key = platform::key_of(path);
            &&& key == root ==> found(s, path) == Ok::<u32, FindError>(0u32)
            &&& found(s, path) == Err::<u32, FindError>(FindError::Outside) <==> key != root && !(
            root.len() < key.len() && key.subrange(0, root.len() as int) == root
                && key[root.len() as int] == '\\')
        }),
{
}

} // verus!
