//! Snapshots of the second format, which hold each file's exact last write but only the
//! earliest one of each directory.
use crate::links::SnapshotError;
use crate::model;
use crate::model::{latest_known, oldest_known, Node, ScanStats, Snapshot, UNKNOWN_MTIME};
use crate::platform::VolumeInfo;
use crate::rollup;
use crate::tree;
use crate::walk;
use crate::wide::Wide;
use vstd::prelude::*;
use vstd::string::*;

verus! {

/// A node of the second format.
#[derive(Clone, Copy, Debug)]
pub struct LegacyNodeV2 {
    pub logical: u64,
    pub allocated: u64,
    pub oldest_modified_ms: i64,
    pub parent: u32,
    pub first_child: u32,
    pub next_sibling: u32,
    pub name_start: u32,
    pub name_len: u16,
    pub flags: u16,
    pub files: u32,
    pub dirs: u32,
}

/// A snapshot of the second format.
#[derive(Debug)]
pub struct LegacySnapshotV2 {
    pub version: u32,
    pub root: Wide,
    pub volume: VolumeInfo,
    pub stats: ScanStats,
    pub nodes: Vec<LegacyNodeV2>,
    pub names: Vec<u16>,
}

/// Why a snapshot of the second format cannot be brought forward.
#[derive(Clone, Copy, Debug, PartialEq, Eq, Structural)]
pub enum UpgradeError {
    InvalidSchema,
    Invalid(SnapshotError),
}

impl UpgradeError {
    pub open spec fn words(self) -> Seq<char> {
        match self {
            UpgradeError::InvalidSchema => "invalid v2 snapshot schema"@,
            UpgradeError::Invalid(e) => e.words(),
        }
    }

    /// What is told of it.
    pub fn message(self) -> (r: String)
        ensures
            r@ == self.words(),
    {
        match self {
            UpgradeError::InvalidSchema => "invalid v2 snapshot schema".to_owned(),
            UpgradeError::Invalid(e) => e.message(),
        }
    }
}

/// A node of the second format, with its one time taken for both.
pub open spec fn carried_over(n: LegacyNodeV2) -> Node {
    Node {
        logical: n.logical,
        allocated: n.allocated,
        oldest_modified_ms: n.oldest_modified_ms,
        latest_modified_ms: n.oldest_modified_ms,
        parent: n.parent,
        first_child: n.first_child,
        next_sibling: n.next_sibling,
        name_start: n.name_start,
        name_len: n.name_len,
        flags: n.flags,
        files: n.files,
        dirs: n.dirs,
    }
}

pub open spec fn all_carried(nodes: Seq<LegacyNodeV2>) -> Seq<Node> {
    nodes.map_values(|n: LegacyNodeV2| carried_over(n))
}

/// A node whose directory times are forgotten.
pub open spec fn forgotten(n: Node) -> Node {
    if n.dir() {
        Node { oldest_modified_ms: UNKNOWN_MTIME, latest_modified_ms: UNKNOWN_MTIME, ..n }
    } else {
        n
    }
}

/// `b` is `a` but for the times, which are those of `a` and of its children in `g`.
pub open spec fn dated(a: Node, b: Node, g: tree::Roll) -> bool {
    b == (Node {
        oldest_modified_ms: model::oldest_of(forgotten(a).oldest_modified_ms, g.oldest),
        latest_modified_ms: model::latest_of(forgotten(a).latest_modified_ms, g.latest),
        ..a
    })
}

/// `after` is `before` with the times of the directories derived from the files.
pub open spec fn redated(before: Seq<Node>, after: Seq<Node>) -> bool {
    &&& after.len() == before.len()
    &&& forall|i: int|
        0 <= i < before.len() ==> dated(
            before[i],
            #[trigger] after[i],
            tree::gather(
                before,
                tree::rolls(after),
                tree::everywhere(before.len()),
                i,
                before.len() as int,
            ),
        )
}

impl LegacySnapshotV2 {
    /// The snapshot with its nodes carried over, to be validated.
    pub open spec fn carried(&self) -> Seq<Node> {
        all_carried(self.nodes@)
    }
}

spec fn seen_from(order: Seq<u32>, from: int, len: nat) -> Seq<bool> {
    Seq::new(len, |k: int| exists|j: int| from <= j < order.len() && order[j] == k)
}

/// One more node hands its times to its parent.
proof fn lemma_hand_up(
    nodes: Seq<Node>,
    cur: Seq<Node>,
    order: Seq<u32>,
    rank: Seq<nat>,
    i: int,
    b: Node,
)
    requires
        tree::linked(nodes),
        tree::ranked(nodes, rank),
        order == walk::order(nodes, walk::everything(), 0),
        cur.len() == nodes.len(),
        0 < i < order.len(),
        forall|k: int|
            0 <= k < nodes.len() ==> dated(
                nodes[k],
                #[trigger] cur[k],
                tree::gather(
                    nodes,
                    tree::rolls(cur),
                    seen_from(order, i + 1, nodes.len()),
                    k,
                    nodes.len() as int,
                ),
            ),
        ({
            let n = cur[order[i] as int];
            let a = cur[nodes[order[i] as int].parent as int];
            b == Node {
                oldest_modified_ms: model::oldest_of(a.oldest_modified_ms, n.oldest_modified_ms),
                latest_modified_ms: model::latest_of(a.latest_modified_ms, n.latest_modified_ms),
                ..a
            }
        }),
    ensures
        nodes[order[i] as int].parent < nodes.len(),
        forall|k: int|
            0 <= k < nodes.len() ==> dated(
                nodes[k],
                #[trigger] cur.update(nodes[order[i] as int].parent as int, b)[k],
                tree::gather(
                    nodes,
                    tree::rolls(cur.update(nodes[order[i] as int].parent as int, b)),
                    seen_from(order, i, nodes.len()),
                    k,
                    nodes.len() as int,
                ),
            ),
{
    let len = nodes.len() as int;
    let x = order[i] as int;
    walk::lemma_order_sound(nodes, walk::everything(), rank, 0);
    walk::lemma_order_unfold(nodes, walk::everything(), 0);
    let a = walk::lemma_order_parent_first(nodes, walk::everything(), rank, 0, i);
    assert(order[a] < len);
    let p = nodes[x].parent as int;
    assert(order[0] == 0);
    assert(x != 0) by {
        assert(order[i] != order[0]);
    }
    let on = seen_from(order, i + 1, nodes.len());
    let on2 = seen_from(order, i, nodes.len());
    let cur2 = cur.update(p, b);
    assert(!on[x]) by {
        if on[x] {
            let j = choose|j: int| i + 1 <= j < order.len() && order[j] == x;
            assert(order[i] != order[j]);
        }
    }
    assert(!on2[p]) by {
        if on2[p] {
            let j = choose|j: int| i <= j < order.len() && order[j] == p;
            assert(order[a] != order[j]);
        }
    }
    assert(on2 =~= on.update(x, true)) by {
        assert forall|k: int| 0 <= k < len implies on2[k] == on.update(x, true)[k] by {
            if on2[k] && k != x {
                let j = choose|j: int| i <= j < order.len() && order[j] == k;
                assert(order[j] == k && j != i);
            }
            if on[k] {
                let j = choose|j: int| i + 1 <= j < order.len() && order[j] == k;
                assert(i <= j && order[j] == k);
            }
            if k == x {
                assert(order[i] == k);
            }
        }
    }
    assert forall|k: int| 0 <= k < len implies dated(
        nodes[k],
        #[trigger] cur2[k],
        tree::gather(nodes, tree::rolls(cur2), on2, k, len),
    ) by {
        assert(dated(nodes[k], cur[k], tree::gather(nodes, tree::rolls(cur), on, k, len)));
        assert forall|c: int| 1 <= c < len && #[trigger] tree::is_child(nodes, c, k) && on2[c] implies tree::rolls(
            cur2,
        )[c] == tree::rolls(cur)[c] by {
            assert(c != p);
        }
        tree::lemma_gather_same(nodes, tree::rolls(cur2), tree::rolls(cur), on2, on2, k, len);
        tree::lemma_gather_more(nodes, tree::rolls(cur), on, k, x, len);
        assert(tree::is_child(nodes, x, p));
    }
}

impl LegacySnapshotV2 {
    /// Brings a snapshot forward: the latest time of a directory is derived from the
    /// times of its files rather than invented.
    pub fn upgrade(self) -> (r: Result<Snapshot, UpgradeError>)
        requires
            self.nodes.len() <= u32::MAX,
        ensures
            r is Ok <==> self.version == 2 && (crate::links::nodes_sound(
                self.carried(),
                self.names@.len(),
            ) && tree::linked(self.carried())),
            r == Err::<Snapshot, UpgradeError>(UpgradeError::InvalidSchema) <==> self.version != 2,
            self.version == 2 ==> match crate::links::verdict(
                3,
                self.carried(),
                self.names@.len(),
            ) {
                Ok(_) => r is Ok,
                Err(e) => r == Err::<Snapshot, UpgradeError>(UpgradeError::Invalid(e)),
            },
            r matches Ok(s) ==> {
                &&& s.version == 3
                &&& s.root == self.root
                &&& s.volume == self.volume
                &&& s.names == self.names
                &&& model::same_but_index_bytes(s.stats, self.stats)
                &&& exists|nodes: usize, names: usize| #[trigger]
                    s.held_in(nodes, names) && s.stats.index_bytes == model::index_size_of(
                        nodes as int,
                        names as int,
                    )
                &&& s.stats.index_bytes >= model::index_size_of(
                    s.nodes@.len() as int,
                    s.names@.len() as int,
                )
                &&& redated(self.carried(), s.nodes@)
            },
    {
        if self.version != 2 {
            return Err(UpgradeError::InvalidSchema);
        }
        let ghost nodes = self.carried();
        let mut converted: Vec<Node> = Vec::new();
        let mut i: usize = 0;
        while i < self.nodes.len()
            invariant
                i <= self.nodes.len(),
                converted@ == nodes.subrange(0, i as int),
                nodes == self.carried(),
            decreases self.nodes.len() - i,
        {
            let n: LegacyNodeV2 = self.nodes[i];
            converted.push(
                Node {
                    logical: n.logical,
                    allocated: n.allocated,
                    oldest_modified_ms: n.oldest_modified_ms,
                    latest_modified_ms: n.oldest_modified_ms,
                    parent: n.parent,
                    first_child: n.first_child,
                    next_sibling: n.next_sibling,
                    name_start: n.name_start,
                    name_len: n.name_len,
                    flags: n.flags,
                    files: n.files,
                    dirs: n.dirs,
                },
            );
            i += 1;
            assert(converted@ =~= nodes.subrange(0, i as int));
        }
        assert(converted@ =~= nodes);
        let mut s = Snapshot {
            version: 3,
            root: self.root,
            volume: self.volume,
            stats: self.stats,
            nodes: converted,
            names: self.names,
        };
        match s.validate() {
            Ok(_) => {},
            Err(e) => {
                return Err(UpgradeError::Invalid(e));
            },
        }
        let ghost rank = choose|rank: Seq<nat>| tree::ranked(nodes, rank);
        let order: Vec<u32> = s.subtree_order(0);
        let len: usize = s.nodes.len();
        let mut j: usize = 0;
        while j < len
            invariant
                j <= len,
                len == nodes.len(),
                s.nodes@.len() == len,
                s.version == 3,
                s.root == self.root,
                s.volume == self.volume,
                s.names == self.names,
                s.stats == self.stats,
                forall|k: int| 0 <= k < j ==> #[trigger] s.nodes@[k] == forgotten(nodes[k]),
                forall|k: int| j <= k < len ==> #[trigger] s.nodes@[k] == nodes[k],
            decreases len - j,
        {
            let mut n: Node = s.nodes[j];
            if n.is_dir() {
                n.oldest_modified_ms = UNKNOWN_MTIME;
                n.latest_modified_ms = UNKNOWN_MTIME;
                s.nodes.set(j, n);
            }
            j += 1;
        }
        let mut m: usize = order.len();
        proof {
            let none = seen_from(order@, m as int, nodes.len());
            assert forall|k: int| 0 <= k < len implies dated(
                nodes[k],
                #[trigger] s.nodes@[k],
                tree::gather(nodes, tree::rolls(s.nodes@), none, k, len as int),
            ) by {
                lemma_nothing(nodes, tree::rolls(s.nodes@), none, k, len as int);
            }
            walk::lemma_order_sound(nodes, walk::everything(), rank, 0);
            walk::lemma_order_unfold(nodes, walk::everything(), 0);
        }
        while m > 1
            invariant
                1 <= m <= order@.len(),
                len == nodes.len(),
                tree::linked(nodes),
                tree::ranked(nodes, rank),
                order@ == walk::order(nodes, walk::everything(), 0),
                forall|k: int| 0 <= k < order@.len() ==> (#[trigger] order@[k]) < len,
                s.nodes@.len() == len,
                s.version == 3,
                s.root == self.root,
                s.volume == self.volume,
                s.names == self.names,
                s.stats == self.stats,
                forall|k: int|
                    0 <= k < len ==> dated(
                        nodes[k],
                        #[trigger] s.nodes@[k],
                        tree::gather(
                            nodes,
                            tree::rolls(s.nodes@),
                            seen_from(order@, m as int, nodes.len()),
                            k,
                            len as int,
                        ),
                    ),
            decreases m,
        {
            m -= 1;
            let id: u32 = order[m];
            let n: Node = s.nodes[id as usize];
            let ghost cur = s.nodes@;
            assert(dated(
                nodes[id as int],
                cur[id as int],
                tree::gather(
                    nodes,
                    tree::rolls(cur),
                    seen_from(order@, m + 1, nodes.len()),
                    id as int,
                    len as int,
                ),
            ));
            let ghost a = cur[nodes[id as int].parent as int];
            let ghost b = Node {
                oldest_modified_ms: model::oldest_of(a.oldest_modified_ms, n.oldest_modified_ms),
                latest_modified_ms: model::latest_of(a.latest_modified_ms, n.latest_modified_ms),
                ..a
            };
            proof {
                lemma_hand_up(nodes, cur, order@, rank, m as int, b);
            }
            let p: usize = n.parent as usize;
            let mut parent: Node = s.nodes[p];
            parent.oldest_modified_ms = oldest_known(
                parent.oldest_modified_ms,
                n.oldest_modified_ms,
            );
            parent.latest_modified_ms = latest_known(
                parent.latest_modified_ms,
                n.latest_modified_ms,
            );
            assert(parent == b);
            s.nodes.set(p, parent);
        }
        proof {
            let on = seen_from(order@, 1, nodes.len());
            assert forall|k: int| 0 <= k < len implies dated(
                nodes[k],
                #[trigger] s.nodes@[k],
                tree::gather(
                    nodes,
                    tree::rolls(s.nodes@),
                    tree::everywhere(nodes.len()),
                    k,
                    len as int,
                ),
            ) by {
                assert forall|c: int| 1 <= c < len && #[trigger] tree::is_child(nodes, c, k) implies on[c] by {
                    lemma_all_below_root(nodes, rank, c);
                    walk::lemma_order_complete(nodes, walk::everything(), 0, c);
                    let w = order@.index_of(c as u32);
                    assert(order@[w] == c && w >= 1);
                }
                tree::lemma_gather_same(
                    nodes,
                    tree::rolls(s.nodes@),
                    tree::rolls(s.nodes@),
                    on,
                    tree::everywhere(nodes.len()),
                    k,
                    len as int,
                );
            }
        }
        let ghost sized = s;
        let bytes: u64 = s.index_bytes();
        s.stats.index_bytes = bytes;
        proof {
            let (nodes, names) = choose|nodes: usize, names: usize| #[trigger]
                sized.held_in(nodes, names) && bytes == model::index_size_of(
                    nodes as int,
                    names as int,
                );
            assert(s.held_in(nodes, names));
        }
        Ok(s)
    }
}

proof fn lemma_nothing(nodes: Seq<Node>, t: Seq<tree::Roll>, on: Seq<bool>, p: int, n: int)
    requires
        n <= nodes.len(),
        forall|k: int| 1 <= k < n ==> !#[trigger] on[k],
    ensures
        tree::gather(nodes, t, on, p, n) == tree::roll_zero(),
    decreases n,
{
    if n > 1 {
        lemma_nothing(nodes, t, on, p, n - 1);
    }
}

/// Every node of a tree lies below the root.
proof fn lemma_all_below_root(nodes: Seq<Node>, rank: Seq<nat>, k: int)
    requires
        tree::linked(nodes),
        tree::ranked(nodes, rank),
        0 <= k < nodes.len(),
    ensures
        walk::under(nodes, 0, k),
    decreases nodes.len() - rank[k],
{
    if k == 0 {
        walk::lemma_under_self(nodes, 0);
    } else {
        assert(nodes[k].parent < nodes.len());
        assert(rank[k] < rank[nodes[k].parent as int]);
        assert(rank[nodes[k].parent as int] < nodes.len());
        lemma_all_below_root(nodes, rank, nodes[k].parent as int);
        walk::lemma_under_parent(nodes, 0, k);
    }
}

/// The times of a snapshot that was brought forward span those of every file below.
pub proof fn law_upgraded_times_span_the_files(
    before: Seq<Node>,
    after: Seq<Node>,
    k: int,
    p: int,
    steps: nat,
)
    requires
        redated(before, after),
        tree::linked(before),
        0 <= k < before.len(),
        rollup::lies_under(before, k, p, steps),
    ensures
        0 <= p < before.len(),
        rollup::spanned(
            forgotten(before[k]).oldest_modified_ms,
            forgotten(before[k]).latest_modified_ms,
            after[p],
        ),
        rollup::spanned(after[k].oldest_modified_ms, after[k].latest_modified_ms, after[p]),
    decreases steps,
{
    let len = before.len() as int;
    let all = tree::everywhere(before.len());
    assert(dated(
        before[k],
        after[k],
        tree::gather(before, tree::rolls(after), all, k, len),
    ));
    if steps > 0 {
        let q = before[k].parent as int;
        assert(before[k].parent < before.len());
        assert(tree::is_child(before, k, q));
        rollup::lemma_gather_spans(before, tree::rolls(after), all, q, k, len);
        assert(dated(
            before[q],
            after[q],
            tree::gather(before, tree::rolls(after), all, q, len),
        ));
        law_upgraded_times_span_the_files(before, after, q, p, (steps - 1) as nat);
    }
}

proof fn lemma_latest_file(before: Seq<Node>, after: Seq<Node>, rank: Seq<nat>, p: int) -> (r: (
    int,
    nat,
))
    requires
        redated(before, after),
        tree::ranked(before, rank),
        0 <= p < before.len(),
        after[p].latest_modified_ms != UNKNOWN_MTIME,
    ensures
        0 <= r.0 < before.len(),
        !before[r.0].dir(),
        rollup::lies_under(before, r.0, p, r.1),
        before[r.0].latest_modified_ms == after[p].latest_modified_ms,
    decreases rank[p],
{
    let len = before.len() as int;
    let t = tree::rolls(after);
    assert(dated(
        before[p],
        after[p],
        tree::gather(before, t, tree::everywhere(before.len()), p, len),
    ));
    if !before[p].dir() && before[p].latest_modified_ms == after[p].latest_modified_ms {
        (p, 0nat)
    } else {
        let q = rollup::lemma_gather_latest(before, t, p, len);
        assert(rank[q] < rank[before[q].parent as int]);
        let (k, steps) = lemma_latest_file(before, after, rank, q);
        rollup::lemma_under_step(before, k, q, p, steps);
        (k, steps + 1)
    }
}

/// The latest time of a directory that was brought forward is that of some file below it,
/// never one of its own.
pub proof fn law_upgraded_times_come_from_files(before: Seq<Node>, after: Seq<Node>, p: int)
    requires
        redated(before, after),
        tree::linked(before),
        0 <= p < before.len(),
        after[p].latest_modified_ms != UNKNOWN_MTIME,
    ensures
        exists|k: int, steps: nat|
            0 <= k < before.len() && #[trigger] rollup::lies_under(before, k, p, steps)
                && !before[k].dir() && before[k].latest_modified_ms == after[p].latest_modified_ms,
{
    let rank = choose|rank: Seq<nat>| tree::ranked(before, rank);
    let (k, steps) = lemma_latest_file(before, after, rank, p);
    assert(rollup::lies_under(before, k, p, steps));
}

/// A node of the second format keeps all it tells; its one time is its oldest and its latest.
pub proof fn law_old_nodes_keep_what_they_tell(n: LegacyNodeV2)
    ensures
        ({
            let c = carried_over(n);
            &&& c.logical == n.logical && c.allocated == n.allocated
            &&& c.oldest_modified_ms == n.oldest_modified_ms && c.latest_modified_ms
                == n.oldest_modified_ms
            &&& c.parent == n.parent && c.first_child == n.first_child && c.next_sibling
                == n.next_sibling
            &&& c.name_start == n.name_start && c.name_len == n.name_len
            &&& c.flags == n.flags && c.files == n.files && c.dirs == n.dirs
        }),
{
}

/// Bringing a scan forward changes its times alone, and of a file not even those.
pub proof fn law_only_folder_times_change(before: Seq<Node>, after: Seq<Node>, i: int)
    requires
        redated(before, after),
        0 <= i < before.len(),
    ensures
        after.len() == before.len(),
        (Node {
            oldest_modified_ms: before[i].oldest_modified_ms,
            latest_modified_ms: before[i].latest_modified_ms,
            ..after[i]
        }) == before[i],
{
    assert(after[i] == after[i]);
    let g = tree::gather(
        before,
        tree::rolls(after),
        tree::everywhere(before.len()),
        i,
        before.len() as int,
    );
    assert(dated(before[i], after[i], g));
}

} // verus!
