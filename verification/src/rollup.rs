//! Sibling links and totals: turning a table of parents into a finished snapshot.
use crate::links;
use crate::model;
use crate::model::{latest_known, oldest_known, Node, Snapshot, CARRIED, NONE, UNKNOWN_MTIME};
use crate::selection;
use crate::text;
use crate::tree;
use crate::tree::Roll;
use std::collections::VecDeque;
use vstd::prelude::*;
use vstd::string::*;

verus! {

/// Why a node table cannot be finished.
#[derive(Clone, Copy, Debug, PartialEq, Eq, Structural)]
pub enum IndexError {
    /// The node at this index has no valid parent directory.
    InvalidParent(usize),
    LogicalOverflow,
    AllocatedOverflow,
    FileOverflow,
    DirectoryOverflow,
    Cycle,
}

impl IndexError {
    pub open spec fn words(self) -> Seq<char> {
        match self {
            IndexError::InvalidParent(i) => "invalid/cyclic parent in scan index at "@ + text::decimal_of(i as nat),
            IndexError::LogicalOverflow => "logical size overflow"@,
            IndexError::AllocatedOverflow => "allocated size overflow"@,
            IndexError::FileOverflow => "file count overflow"@,
            IndexError::DirectoryOverflow => "directory count overflow"@,
            IndexError::Cycle => "cycle in filesystem parent graph; refusing a misleading snapshot"@,
        }
    }

    /// What is told of it.
    pub fn message(self) -> (r: String)
        ensures
            r@ == self.words(),
    {
        match self {
            IndexError::InvalidParent(i) => text::glue("invalid/cyclic parent in scan index at ", &text::decimal(i as u64)),
            IndexError::LogicalOverflow => "logical size overflow".to_owned(),
            IndexError::AllocatedOverflow => "allocated size overflow".to_owned(),
            IndexError::FileOverflow => "file count overflow".to_owned(),
            IndexError::DirectoryOverflow => "directory count overflow".to_owned(),
            IndexError::Cycle => "cycle in filesystem parent graph; refusing a misleading snapshot".to_owned(),
        }
    }
}

impl IndexError {
    /// This error reports that a figure of `r` does not fit its field.
    pub open spec fn exceeded_by(self, r: Roll) -> bool {
        match self {
            IndexError::LogicalOverflow => r.logical > u64::MAX,
            IndexError::AllocatedOverflow => r.allocated > u64::MAX,
            IndexError::FileOverflow => r.files > u32::MAX,
            IndexError::DirectoryOverflow => r.dirs > u32::MAX,
            _ => false,
        }
    }

    pub open spec fn is_overflow(self) -> bool {
        !(self is InvalidParent) && !(self is Cycle)
    }
}

/// The first entry of the child chain of `p` once the nodes below `n` are linked: the
/// last linked child, or what the table held before.
pub open spec fn head(nodes: Seq<Node>, p: int, n: int) -> u32
    decreases n,
{
    if n <= 1 {
        nodes[p].first_child
    } else if nodes[n - 1].parent == p {
        (n - 1) as u32
    } else {
        head(nodes, p, n - 1)
    }
}

/// `b` is `a` with the figures `g` of its children added.
pub open spec fn absorbed(a: Node, b: Node, g: Roll) -> bool {
    &&& b.logical == a.logical + g.logical
    &&& b.allocated == a.allocated + g.allocated
    &&& b.files == a.files + g.files
    &&& b.dirs == a.dirs + g.dirs
    &&& b.oldest_modified_ms == model::oldest_of(a.oldest_modified_ms, g.oldest)
    &&& b.latest_modified_ms == model::latest_of(a.latest_modified_ms, g.latest)
    &&& b.flags == a.flags | g.flags
}

/// `b` is `a` linked into its parent's child chain.
pub open spec fn linked_as(nodes: Seq<Node>, b: Node, i: int) -> bool {
    let a = nodes[i];
    &&& b.parent == a.parent
    &&& b.name_start == a.name_start
    &&& b.name_len == a.name_len
    &&& b.first_child == head(nodes, i, nodes.len() as int)
    &&& b.next_sibling == if i == 0 {
        a.next_sibling
    } else {
        head(nodes, a.parent as int, i)
    }
}

/// `done` is the finished form of the table `nodes`.
pub open spec fn finished(nodes: Seq<Node>, done: Seq<Node>) -> bool {
    &&& done.len() == nodes.len()
    &&& forall|i: int|
        0 <= i < nodes.len() ==> #[trigger] linked_as(nodes, done[i], i) && absorbed(
            nodes[i],
            done[i],
            tree::gather(nodes, tree::rolls(done), tree::everywhere(nodes.len()), i, nodes.len() as int),
        )
}

/// A part `on` of the table that no cycle reaches, with its totals `t`.
pub open spec fn settled(nodes: Seq<Node>, on: Seq<bool>, t: Seq<Roll>, rank: Seq<nat>) -> bool {
    &&& on.len() == nodes.len()
    &&& t.len() == nodes.len()
    &&& rank.len() == nodes.len()
    &&& forall|k: int, p: int|
        #[trigger] tree::is_child(nodes, k, p) && 0 <= p < nodes.len() && on[p] ==> on[k] && rank[k]
            < rank[p]
    &&& forall|p: int|
        0 <= p < nodes.len() && on[p] ==> #[trigger] t[p] == tree::roll_add(
            tree::roll_of(nodes[p]),
            tree::gather(nodes, t, on, p, nodes.len() as int),
        )
}

/// Adding up the settled part takes some node past what its field can hold.
pub open spec fn overflows_at(
    nodes: Seq<Node>,
    e: IndexError,
    on: Seq<bool>,
    t: Seq<Roll>,
    rank: Seq<nat>,
    p: int,
) -> bool {
    &&& settled(nodes, on, t, rank)
    &&& 0 <= p < nodes.len()
    &&& e.exceeded_by(tree::roll_add(tree::roll_of(nodes[p]), tree::gather(nodes, t, on, p, nodes.len() as int)))
}

pub open spec fn overflows(nodes: Seq<Node>, e: IndexError) -> bool {
    exists|on: Seq<bool>, t: Seq<Roll>, rank: Seq<nat>, p: int|
        overflows_at(nodes, e, on, t, rank, p)
}

/// The first figure that does not fit its field.
pub open spec fn first_excess(r: Roll) -> Option<IndexError> {
    if r.logical > u64::MAX {
        Some(IndexError::LogicalOverflow)
    } else if r.allocated > u64::MAX {
        Some(IndexError::AllocatedOverflow)
    } else if r.files > u32::MAX {
        Some(IndexError::FileOverflow)
    } else if r.dirs > u32::MAX {
        Some(IndexError::DirectoryOverflow)
    } else {
        None
    }
}

/// The nodes among the first `n` that wait for no child.
pub open spec fn idle(waits: Seq<nat>, n: nat) -> Seq<usize>
    decreases n,
{
    if n == 0 {
        Seq::empty()
    } else if waits[n - 1] == 0 {
        idle(waits, (n - 1) as nat).push((n - 1) as usize)
    } else {
        idle(waits, (n - 1) as nat)
    }
}

/// The first overflow when totals are passed up, in the order in which nodes come to wait
/// for no child any more.
pub open spec fn passing(
    nodes: Seq<Node>,
    t: Seq<Roll>,
    waits: Seq<nat>,
    queue: Seq<usize>,
    fuel: nat,
) -> Option<IndexError>
    decreases fuel,
{
    if queue.len() == 0 || fuel == 0 {
        None
    } else {
        let i = queue[0] as int;
        let rest = queue.subrange(1, queue.len() as int);
        if i == 0 {
            passing(nodes, t, waits, rest, (fuel - 1) as nat)
        } else {
            let p = nodes[i].parent as int;
            let sum = tree::roll_add(t[p], t[i]);
            match first_excess(sum) {
                Some(e) => Some(e),
                None => {
                    let less = waits.update(p, (waits[p] - 1) as nat);
                    passing(
                        nodes,
                        t.update(p, sum),
                        less,
                        if less[p] == 0 {
                            rest.push(p as usize)
                        } else {
                            rest
                        },
                        (fuel - 1) as nat,
                    )
                },
            }
        }
    }
}

/// The overflow that finishing a table reports.
pub open spec fn first_overflow(nodes: Seq<Node>) -> Option<IndexError> {
    let off = Seq::new(nodes.len(), |i: int| false);
    let waits = Seq::new(nodes.len(), |q: int| tree::pending(nodes, off, q, nodes.len() as int));
    passing(nodes, tree::rolls(nodes), waits, idle(waits, nodes.len()), nodes.len())
}

spec fn waits_of(remaining: Seq<u32>) -> Seq<nat> {
    Seq::new(remaining.len(), |i: int| remaining[i] as nat)
}

proof fn lemma_passed_roll(a: Node, b: Node, n: Node)
    requires
        b.logical == a.logical + n.logical,
        b.allocated == a.allocated + n.allocated,
        b.files == a.files + n.files,
        b.dirs == a.dirs + n.dirs,
        b.oldest_modified_ms == model::oldest_of(a.oldest_modified_ms, n.oldest_modified_ms),
        b.latest_modified_ms == model::latest_of(a.latest_modified_ms, n.latest_modified_ms),
        b.flags == a.flags | (n.flags & CARRIED),
    ensures
        tree::roll_of(b) == tree::roll_add(tree::roll_of(a), tree::roll_of(n)),
{
    lemma_mask(n.flags, 0, 0);
    lemma_mask(a.flags, n.flags & CARRIED, 0);
}

proof fn lemma_mask(a: u16, b: u16, c: u16)
    by (bit_vector)
    ensures
        b & 88 == b ==> (a | b) & 88 == (a & 88) | b,
        b & 88 == b && c & 88 == c ==> (b | c) & 88 == b | c,
        (a & 88) & 88 == a & 88,
        0u16 & 88 == 0,
        b & 88 == b ==> (a | b) & 1 == a & 1,
{
}

/// The flags gathered from nodes are carried flags.
proof fn lemma_gather_flags(nodes: Seq<Node>, cur: Seq<Node>, on: Seq<bool>, p: int, n: int)
    requires
        n <= nodes.len(),
        cur.len() == nodes.len(),
    ensures
        tree::gather(nodes, tree::rolls(cur), on, p, n).flags & CARRIED == tree::gather(
            nodes,
            tree::rolls(cur),
            on,
            p,
            n,
        ).flags,
    decreases n,
{
    lemma_mask(0, 0, 0);
    if n > 1 {
        lemma_gather_flags(nodes, cur, on, p, n - 1);
        lemma_mask(
            cur[n - 1].flags,
            tree::gather(nodes, tree::rolls(cur), on, p, n - 1).flags,
            cur[n - 1].flags & CARRIED,
        );
    }
}

/// An absorbed node carries its own figures and its children's.
proof fn lemma_absorbed_roll(nodes: Seq<Node>, cur: Seq<Node>, on: Seq<bool>, p: int)
    requires
        cur.len() == nodes.len(),
        0 <= p < nodes.len(),
        absorbed(nodes[p], cur[p], tree::gather(nodes, tree::rolls(cur), on, p, nodes.len() as int)),
    ensures
        tree::roll_of(cur[p]) == tree::roll_add(
            tree::roll_of(nodes[p]),
            tree::gather(nodes, tree::rolls(cur), on, p, nodes.len() as int),
        ),
        cur[p].dir() == nodes[p].dir(),
{
    let g = tree::gather(nodes, tree::rolls(cur), on, p, nodes.len() as int);
    lemma_gather_flags(nodes, cur, on, p, nodes.len() as int);
    lemma_mask(nodes[p].flags, g.flags, 0);
}

/// The state of the summing loop: `on` marks the nodes already passed up.
spec fn summing(
    nodes: Seq<Node>,
    cur: Seq<Node>,
    remaining: Seq<u32>,
    on: Seq<bool>,
    pos: Seq<nat>,
    visited: nat,
) -> bool {
    let len = nodes.len() as int;
    &&& cur.len() == len
    &&& remaining.len() == len
    &&& on.len() == len
    &&& pos.len() == len
    &&& len <= u32::MAX
    &&& tree::parents_ok(nodes)
    &&& visited + tree::off_count(on) == len
    &&& forall|i: int| 0 <= i < len ==> #[trigger] linked_as(nodes, cur[i], i)
    &&& forall|i: int|
        0 <= i < len ==> absorbed(
            nodes[i],
            #[trigger] cur[i],
            tree::gather(nodes, tree::rolls(cur), on, i, len),
        )
    &&& forall|i: int| 0 <= i < len ==> #[trigger] remaining[i] == tree::pending(nodes, on, i, len)
    &&& forall|k: int, p: int|
        #[trigger] tree::is_child(nodes, k, p) && 0 <= p < len && on[p] ==> on[k] && pos[k] < pos[p]
    &&& forall|i: int| 0 <= i < len && on[i] ==> #[trigger] pos[i] < visited
}

/// The queue holds exactly the nodes that are ready to be passed up.
spec fn queued(queue: Seq<usize>, remaining: Seq<u32>, on: Seq<bool>) -> bool {
    &&& queue.no_duplicates()
    &&& forall|q: int|
        0 <= q < queue.len() ==> (#[trigger] queue[q]) < on.len() && !on[queue[q] as int]
            && remaining[queue[q] as int] == 0
    &&& forall|i: int|
        0 <= i < on.len() && !#[trigger] on[i] && remaining[i] == 0 ==> queue.contains(i as usize)
}

proof fn lemma_settled_done(
    nodes: Seq<Node>,
    cur: Seq<Node>,
    remaining: Seq<u32>,
    on: Seq<bool>,
    pos: Seq<nat>,
    visited: nat,
    part: Seq<bool>,
    t: Seq<Roll>,
    rank: Seq<nat>,
    i: int,
)
    requires
        summing(nodes, cur, remaining, on, pos, visited),
        forall|k: int| 0 <= k < on.len() && !#[trigger] on[k] ==> remaining[k] != 0,
        settled(nodes, part, t, rank),
        0 <= i < nodes.len(),
        part[i],
    ensures
        on[i],
        tree::roll_of(cur[i]) == t[i],
    decreases rank[i],
{
    let len = nodes.len() as int;
    assert forall|k: int| 1 <= k < len && #[trigger] tree::is_child(nodes, k, i) implies on[k]
        && tree::roll_of(cur[k]) == t[k] && part[k] by {
        lemma_settled_done(nodes, cur, remaining, on, pos, visited, part, t, rank, k);
    }
    tree::lemma_pending_zero(nodes, on, i, len);
    assert(remaining[i] == 0);
    tree::lemma_gather_same(nodes, t, tree::rolls(cur), part, on, i, len);
    assert(absorbed(nodes[i], cur[i], tree::gather(nodes, tree::rolls(cur), on, i, len)));
    lemma_absorbed_roll(nodes, cur, on, i);
    assert(t[i] == tree::roll_add(tree::roll_of(nodes[i]), tree::gather(nodes, t, part, i, len)));
}

/// Once nothing is ready any more, everything that settles has been added up in range.
proof fn lemma_no_overflow(
    nodes: Seq<Node>,
    cur: Seq<Node>,
    remaining: Seq<u32>,
    on: Seq<bool>,
    pos: Seq<nat>,
    visited: nat,
    e: IndexError,
)
    requires
        summing(nodes, cur, remaining, on, pos, visited),
        forall|k: int| 0 <= k < on.len() && !#[trigger] on[k] ==> remaining[k] != 0,
    ensures
        !overflows(nodes, e),
{
    let len = nodes.len() as int;
    if overflows(nodes, e) {
        let (part, t, rank, p) = choose|part: Seq<bool>, t: Seq<Roll>, rank: Seq<nat>, p: int|
            overflows_at(nodes, e, part, t, rank, p);
        assert forall|k: int| 1 <= k < len && #[trigger] tree::is_child(nodes, k, p) && part[k] implies t[k]
            == tree::rolls(cur)[k] && on[k] by {
            lemma_settled_done(nodes, cur, remaining, on, pos, visited, part, t, rank, k);
        }
        tree::lemma_gather_same(nodes, t, tree::rolls(cur), part, part, p, len);
        tree::lemma_gather_bound(nodes, tree::rolls(cur), part, on, p, len);
        assert(absorbed(nodes[p], cur[p], tree::gather(nodes, tree::rolls(cur), on, p, len)));
    }
}

/// One more node is passed up to its parent.
proof fn lemma_pass_up(
    nodes: Seq<Node>,
    cur: Seq<Node>,
    remaining: Seq<u32>,
    on: Seq<bool>,
    pos: Seq<nat>,
    visited: nat,
    i: int,
    b: Node,
)
    requires
        summing(nodes, cur, remaining, on, pos, visited),
        1 <= i < nodes.len(),
        !on[i],
        remaining[i] == 0,
        ({
            let a = cur[nodes[i].parent as int];
            &&& b.parent == a.parent
            &&& b.name_start == a.name_start
            &&& b.name_len == a.name_len
            &&& b.first_child == a.first_child
            &&& b.next_sibling == a.next_sibling
            &&& absorbed(a, b, tree::roll_of(cur[i]))
        }),
    ensures
        !on[nodes[i].parent as int],
        remaining[nodes[i].parent as int] > 0,
        summing(
            nodes,
            cur.update(nodes[i].parent as int, b),
            remaining.update(
                nodes[i].parent as int,
                (remaining[nodes[i].parent as int] - 1) as u32,
            ),
            on.update(i, true),
            pos.update(i, visited),
            visited + 1,
        ),
{
    let len = nodes.len() as int;
    let p = nodes[i].parent as int;
    let cur2 = cur.update(p, b);
    let on2 = on.update(i, true);
    let pos2 = pos.update(i, visited);
    assert(tree::parent_ok(nodes, i));
    assert(tree::is_child(nodes, i, p));
    tree::lemma_pending_zero(nodes, on, p, len);
    assert(remaining[p] == tree::pending(nodes, on, p, len));
    tree::lemma_pending_zero(nodes, on, i, len);
    assert(remaining[i] == tree::pending(nodes, on, i, len));
    tree::lemma_off_count_update(on, i);
    assert forall|q: int| 0 <= q < len implies absorbed(
        nodes[q],
        #[trigger] cur2[q],
        tree::gather(nodes, tree::rolls(cur2), on2, q, len),
    ) by {
        assert(absorbed(nodes[q], cur[q], tree::gather(nodes, tree::rolls(cur), on, q, len)));
        assert forall|k: int| 1 <= k < len && #[trigger] tree::is_child(nodes, k, q) && on2[k] implies tree::rolls(
            cur2,
        )[k] == tree::rolls(cur)[k] by {
            assert(k != p) by {
                if k == p && k != i {
                    assert(on[p]);
                }
            }
        }
        tree::lemma_gather_same(nodes, tree::rolls(cur2), tree::rolls(cur), on2, on2, q, len);
        tree::lemma_gather_more(nodes, tree::rolls(cur), on, q, i, len);
        if q == p {
            let g = tree::gather(nodes, tree::rolls(cur), on, p, len);
            tree::lemma_roll_add(tree::roll_of(nodes[p]), g, tree::roll_of(cur[i]));
            lemma_or3(nodes[p].flags, g.flags, tree::roll_of(cur[i]).flags);
        }
    }
    assert forall|q: int| 0 <= q < len implies (#[trigger] remaining.update(
        p,
        (remaining[p] - 1) as u32,
    )[q]) == tree::pending(nodes, on2, q, len) by {
        tree::lemma_pending_less(nodes, on, q, i, len);
        assert(remaining[q] == tree::pending(nodes, on, q, len));
    }
    assert forall|k: int, q: int|
        #[trigger] tree::is_child(nodes, k, q) && 0 <= q < len && on2[q] implies on2[k] && pos2[k]
        < pos2[q] by {
        if q == i {
            assert(on[k]);
            assert(pos[k] < visited);
        }
    }
    assert forall|q: int| 0 <= q < len && on2[q] implies #[trigger] pos2[q] < visited + 1 by {
        if q != i {
            assert(pos[q] < visited);
        }
    }
    assert forall|q: int| 0 <= q < len implies #[trigger] linked_as(nodes, cur2[q], q) by {
        assert(linked_as(nodes, cur[q], q));
    }
}

proof fn lemma_or3(a: u16, b: u16, c: u16)
    by (bit_vector)
    ensures
        (a | b) | c == a | (b | c),
{
}

impl Snapshot {
    /// Builds sibling links and propagates totals once, in linear time, whatever the
    /// order of the table.
    pub fn finish(&mut self) -> (r: Result<(), IndexError>)
        requires
            old(self).nodes.len() <= u32::MAX,
        ensures
            final(self).version == old(self).version,
            final(self).root == old(self).root,
            final(self).volume == old(self).volume,
            final(self).names == old(self).names,
            r is Err ==> final(self).stats == old(self).stats,
            r is Ok ==> exists|nodes: usize, names: usize| #[trigger]
                final(self).held_in(nodes, names) && final(self).stats.index_bytes
                    == model::index_size_of(nodes as int, names as int),
            r is Ok ==> final(self).stats.index_bytes >= model::index_size_of(
                old(self).nodes@.len() as int,
                old(self).names@.len() as int,
            ),
            model::same_but_index_bytes(final(self).stats, old(self).stats),
            r is Ok <==> tree::parents_ok(old(self).nodes@) && tree::acyclic(old(self).nodes@) && forall|
                e: IndexError,
            | !overflows(old(self).nodes@, e),
            r is Ok ==> finished(old(self).nodes@, final(self).nodes@),
            r matches Err(IndexError::InvalidParent(i)) ==> 1 <= i < old(self).nodes.len()
                && !tree::parent_ok(old(self).nodes@, i as int) && forall|k: int|
                1 <= k < i ==> #[trigger] tree::parent_ok(old(self).nodes@, k),
            r is Err && !(r->Err_0 is InvalidParent) ==> tree::parents_ok(old(self).nodes@),
            r matches Err(e) ==> e.is_overflow() ==> overflows(old(self).nodes@, e),
            tree::parents_ok(old(self).nodes@) ==> match first_overflow(old(self).nodes@) {
                Some(e) => r == Err::<(), IndexError>(e),
                None => !(r is Err && r->Err_0.is_overflow()),
            },
            r == Err::<(), IndexError>(IndexError::Cycle) ==> !tree::acyclic(old(self).nodes@)
                && forall|e: IndexError| !overflows(old(self).nodes@, e),
    {
        let ghost nodes = self.nodes@;
        let len: usize = self.nodes.len();
        let mut remaining: Vec<u32> = vec![0u32; len];
        let ghost on = Seq::new(len as nat, |i: int| false);
        let ghost pos = Seq::new(len as nat, |i: int| 0nat);
        let mut i: usize = 1;
        while i < len
            invariant
                1 <= i,
                i <= len || len == 0,
                len == nodes.len(),
                len <= u32::MAX,
                self.nodes@.len() == len,
                remaining@.len() == len,
                self.version == old(self).version,
                self.root == old(self).root,
                self.volume == old(self).volume,
                self.names == old(self).names,
                self.stats == old(self).stats,
                nodes == old(self).nodes@,
                on == Seq::new(len as nat, |i: int| false),
                forall|k: int| 1 <= k < i && k < len ==> #[trigger] tree::parent_ok(nodes, k),
                forall|q: int| 0 <= q < len ==> #[trigger] remaining@[q] == tree::pending(nodes, on, q, i as int),
                forall|q: int|
                    0 <= q < len ==> ({
                        let a = nodes[q];
                        let b = #[trigger] self.nodes@[q];
                        &&& b.first_child == head(nodes, q, i as int)
                        &&& b.next_sibling == if 1 <= q < i {
                            head(nodes, a.parent as int, q)
                        } else {
                            a.next_sibling
                        }
                        &&& b.parent == a.parent
                        &&& b.name_start == a.name_start
                        &&& b.name_len == a.name_len
                        &&& b.logical == a.logical
                        &&& b.allocated == a.allocated
                        &&& b.oldest_modified_ms == a.oldest_modified_ms
                        &&& b.latest_modified_ms == a.latest_modified_ms
                        &&& b.flags == a.flags
                        &&& b.files == a.files
                        &&& b.dirs == a.dirs
                    }),
            decreases len - i,
        {
            let mut n: Node = self.nodes[i];
            let p: usize = n.parent as usize;
            if !(p < len && p != i && self.nodes[p].is_dir()) {
                assert(!tree::parent_ok(nodes, i as int));
                return Err(IndexError::InvalidParent(i));
            }
            assert(tree::parent_ok(nodes, i as int));
            proof {
                tree::lemma_pending_bound(nodes, on, p as int, i as int);
            }
            let mut parent: Node = self.nodes[p];
            n.next_sibling = parent.first_child;
            self.nodes.set(i, n);
            parent.first_child = i as u32;
            self.nodes.set(p, parent);
            remaining.set(p, remaining[p] + 1);
            i += 1;
        }
        assert forall|q: int| 1 <= q < nodes.len() implies #[trigger] tree::parent_ok(nodes, q) by {}
        let ghost none = tree::roll_zero();
        assert forall|q: int| 0 <= q < len implies absorbed(
            nodes[q],
            #[trigger] self.nodes@[q],
            tree::gather(nodes, tree::rolls(self.nodes@), on, q, len as int),
        ) by {
            lemma_gather_none(nodes, tree::rolls(self.nodes@), on, q, len as int);
            tree::lemma_roll_add(tree::roll_of(nodes[q]), none, none);
            lemma_or0(nodes[q].flags);
        }
        proof {
            tree::lemma_off_count_zero(on);
        }
        let mut leaves: VecDeque<usize> = VecDeque::new();
        let mut j: usize = 0;
        while j < len
            invariant
                j <= len,
                remaining@.len() == len,
                on == Seq::new(len as nat, |i: int| false),
                leaves@ == idle(waits_of(remaining@), j as nat),
                leaves@.no_duplicates(),
                forall|q: int|
                    0 <= q < leaves@.len() ==> (#[trigger] leaves@[q]) < j && remaining@[leaves@[q] as int] == 0,
                forall|k: int|
                    0 <= k < j && #[trigger] remaining@[k] == 0 ==> leaves@.contains(k as usize),
            decreases len - j,
        {
            let ghost before = leaves@;
            if remaining[j] == 0 {
                leaves.push_back(j);
                assert(leaves@ =~= before.push(j));
                assert(leaves@[before.len() as int] == j);
                assert forall|k: int| 0 <= k < j + 1 && #[trigger] remaining@[k] == 0 implies leaves@.contains(
                    k as usize,
                ) by {
                    if k < j {
                        let w = before.index_of(k as usize);
                        assert(leaves@[w] == k);
                    }
                }
            }
            j += 1;
        }
        proof {
            let off = Seq::new(nodes.len(), |i: int| false);
            let waits = Seq::new(
                nodes.len(),
                |q: int| tree::pending(nodes, off, q, nodes.len() as int),
            );
            assert(waits =~= waits_of(remaining@));
            assert(tree::rolls(self.nodes@) =~= tree::rolls(nodes));
            tree::lemma_off_count_zero(on);
        }
        let mut on: Ghost<Seq<bool>> = Ghost(on);
        let mut pos: Ghost<Seq<nat>> = Ghost(pos);
        let mut visited: usize = 0;
        assert(summing(nodes, self.nodes@, remaining@, on@, pos@, 0)) by {
            assert forall|k: int, p: int|
                #[trigger] tree::is_child(nodes, k, p) && 0 <= p < len && on@[p] implies on@[k] && pos@[k] < pos@[p] by {}
        }
        while leaves.len() > 0
            invariant
                len == nodes.len(),
                self.version == old(self).version,
                self.root == old(self).root,
                self.volume == old(self).volume,
                self.names == old(self).names,
                self.stats == old(self).stats,
                nodes == old(self).nodes@,
                summing(nodes, self.nodes@, remaining@, on@, pos@, visited as nat),
                queued(leaves@, remaining@, on@),
                first_overflow(nodes) == passing(
                    nodes,
                    tree::rolls(self.nodes@),
                    waits_of(remaining@),
                    leaves@,
                    tree::off_count(on@),
                ),
            decreases tree::off_count(on@),
        {
            let ghost q0 = leaves@;
            let ghost cur = self.nodes@;
            let ghost rem = remaining@;
            let i: usize = match leaves.pop_front() {
                Some(i) => i,
                None => 0,
            };
            proof {
                assert(q0[0] == i);
                assert forall|q: int| 0 <= q < leaves@.len() implies #[trigger] leaves@[q] == q0[q + 1] by {}
                tree::lemma_off_count_update(on@, i as int);
                assert(leaves@ =~= q0.subrange(1, q0.len() as int));
            }
            let ghost rest = leaves@;
            let ghost t0 = tree::rolls(cur);
            visited += 1;
            if i == 0 {
                proof {
                    lemma_pass_root(nodes, cur, rem, on@, pos@, (visited - 1) as nat);
                    lemma_queue_pop(q0, leaves@, rem, on@, i);
                    pos@ = pos@.update(0, (visited - 1) as nat);
                    on@ = on@.update(0, true);
                }
                continue ;
            }
            let n: Node = self.nodes[i];
            let p: usize = n.parent as usize;
            proof {
                assert(linked_as(nodes, cur[i as int], i as int));
                assert(tree::parent_ok(nodes, i as int));
                lemma_overflow_witness(nodes, cur, rem, on@, pos@, (visited - 1) as nat, i as int);
            }
            let mut parent: Node = self.nodes[p];
            let ghost above = parent;
            let ghost sum = tree::roll_add(t0[p as int], t0[i as int]);
            match parent.logical.checked_add(n.logical) {
                Some(v) => {
                    parent.logical = v;
                },
                None => {
                    assert(overflows(nodes, IndexError::LogicalOverflow));
                    return Err(IndexError::LogicalOverflow);
                },
            }
            match parent.allocated.checked_add(n.allocated) {
                Some(v) => {
                    parent.allocated = v;
                },
                None => {
                    assert(overflows(nodes, IndexError::AllocatedOverflow));
                    return Err(IndexError::AllocatedOverflow);
                },
            }
            match parent.files.checked_add(n.files) {
                Some(v) => {
                    parent.files = v;
                },
                None => {
                    assert(overflows(nodes, IndexError::FileOverflow));
                    return Err(IndexError::FileOverflow);
                },
            }
            match parent.dirs.checked_add(n.dirs) {
                Some(v) => {
                    parent.dirs = v;
                },
                None => {
                    assert(overflows(nodes, IndexError::DirectoryOverflow));
                    return Err(IndexError::DirectoryOverflow);
                },
            }
            parent.oldest_modified_ms = oldest_known(parent.oldest_modified_ms, n.oldest_modified_ms);
            parent.latest_modified_ms = latest_known(parent.latest_modified_ms, n.latest_modified_ms);
            parent.flags = parent.flags | (n.flags & CARRIED);
            proof {
                lemma_pass_up(nodes, cur, rem, on@, pos@, (visited - 1) as nat, i as int, parent);
            }
            self.nodes.set(p, parent);
            remaining.set(p, remaining[p] - 1);
            proof {
                lemma_queue_pop(q0, leaves@, rem, on@, i);
                lemma_queue_less(leaves@, rem, on@.update(i as int, true), p);
                pos@ = pos@.update(i as int, (visited - 1) as nat);
                on@ = on@.update(i as int, true);
            }
            if remaining[p] == 0 {
                let ghost q1 = leaves@;
                leaves.push_back(p);
                proof {
                    assert(leaves@ =~= q1.push(p));
                }
            }
            proof {
                lemma_passed_roll(above, parent, n);
                assert(tree::rolls(self.nodes@) =~= t0.update(p as int, sum));
                assert(waits_of(remaining@) =~= waits_of(rem).update(
                    p as int,
                    (waits_of(rem)[p as int] - 1) as nat,
                ));
                assert(leaves@ =~= if remaining@[p as int] == 0 {
                    rest.push(p)
                } else {
                    rest
                });
            }
        }
        proof {
            assert forall|k: int| 0 <= k < on@.len() && !#[trigger] on@[k] implies remaining@[k] != 0 by {
                if remaining@[k] == 0 {
                    assert(leaves@.contains(k as usize));
                }
            }
            assert forall|e: IndexError| !overflows(nodes, e) by {
                lemma_no_overflow(nodes, self.nodes@, remaining@, on@, pos@, visited as nat, e);
            }
            tree::lemma_off_count_zero(on@);
        }
        if visited != len {
            proof {
                if tree::acyclic(nodes) {
                    let rank = choose|rank: Seq<nat>| tree::ranked(nodes, rank);
                    let k = choose|k: int| 0 <= k < on@.len() && !on@[k];
                    lemma_descend(nodes, self.nodes@, remaining@, on@, pos@, visited as nat, rank, k);
                }
            }
            return Err(IndexError::Cycle);
        }
        proof {
            assert(on@ =~= tree::everywhere(nodes.len()));
            assert forall|q: int| 1 <= q < nodes.len() && nodes[q].parent < nodes.len() implies #[trigger] pos@[q]
                < pos@[nodes[q].parent as int] by {
                assert(tree::is_child(nodes, q, nodes[q].parent as int));
            }
            assert(tree::ranked(nodes, pos@));
        }
        let ghost sized = *self;
        let bytes: u64 = self.index_bytes();
        self.stats.index_bytes = bytes;
        proof {
            let (nodes, names) = choose|nodes: usize, names: usize| #[trigger]
                sized.held_in(nodes, names) && bytes == model::index_size_of(
                    nodes as int,
                    names as int,
                );
            assert(self.held_in(nodes, names));
        }
        Ok(())
    }
}

proof fn lemma_or0(a: u16)
    by (bit_vector)
    ensures
        a | 0 == a,
{
}

proof fn lemma_gather_none(nodes: Seq<Node>, t: Seq<Roll>, on: Seq<bool>, p: int, n: int)
    requires
        n <= nodes.len(),
        forall|k: int| 1 <= k < n ==> !#[trigger] on[k],
    ensures
        tree::gather(nodes, t, on, p, n) == tree::roll_zero(),
    decreases n,
{
    if n > 1 {
        lemma_gather_none(nodes, t, on, p, n - 1);
    }
}

/// The root is passed up to nobody.
proof fn lemma_pass_root(
    nodes: Seq<Node>,
    cur: Seq<Node>,
    remaining: Seq<u32>,
    on: Seq<bool>,
    pos: Seq<nat>,
    visited: nat,
)
    requires
        summing(nodes, cur, remaining, on, pos, visited),
        nodes.len() > 0,
        !on[0],
        remaining[0] == 0,
    ensures
        summing(nodes, cur, remaining, on.update(0, true), pos.update(0, visited), visited + 1),
{
    let len = nodes.len() as int;
    let on2 = on.update(0, true);
    let pos2 = pos.update(0, visited);
    tree::lemma_off_count_update(on, 0);
    tree::lemma_pending_zero(nodes, on, 0, len);
    assert(remaining[0] == tree::pending(nodes, on, 0, len));
    assert forall|q: int| 0 <= q < len implies absorbed(
        nodes[q],
        #[trigger] cur[q],
        tree::gather(nodes, tree::rolls(cur), on2, q, len),
    ) by {
        tree::lemma_gather_same(nodes, tree::rolls(cur), tree::rolls(cur), on, on2, q, len);
    }
    assert forall|q: int| 0 <= q < len implies (#[trigger] remaining[q]) == tree::pending(
        nodes,
        on2,
        q,
        len,
    ) by {
        tree::lemma_pending_less(nodes, on, q, 0, len);
    }
    assert forall|k: int, q: int|
        #[trigger] tree::is_child(nodes, k, q) && 0 <= q < len && on2[q] implies on2[k] && pos2[k]
        < pos2[q] by {
        if q == 0 {
            assert(on[k]);
            assert(pos[k] < visited);
        }
    }
    assert forall|q: int| 0 <= q < len && on2[q] implies #[trigger] pos2[q] < visited + 1 by {
        if q != 0 {
            assert(pos[q] < visited);
        }
    }
}

/// Taking the front entry off the queue marks exactly that node.
proof fn lemma_queue_pop(
    before: Seq<usize>,
    after: Seq<usize>,
    remaining: Seq<u32>,
    on: Seq<bool>,
    i: usize,
)
    requires
        queued(before, remaining, on),
        on.len() <= usize::MAX,
        remaining.len() == on.len(),
        before.len() > 0,
        before[0] == i,
        after =~= before.subrange(1, before.len() as int),
    ensures
        queued(after, remaining, on.update(i as int, true)),
{
    let on2 = on.update(i as int, true);
    assert forall|q: int| 0 <= q < after.len() implies (#[trigger] after[q]) < on.len()
        && !on2[after[q] as int] && remaining[after[q] as int] == 0 by {
        assert(before[q + 1] != before[0]);
        assert(remaining[before[q + 1] as int] == 0);
    }
    assert forall|k: int|
        0 <= k < on.len() && !#[trigger] on2[k] && remaining[k] == 0 implies after.contains(
        k as usize,
    ) by {
        assert(!on[k]);
        let w = before.index_of(k as usize);
        assert(before.contains(k as usize));
        assert(after[w - 1] == k);
    }
}

/// A node whose last child is passed up joins the queue; the others wait.
proof fn lemma_queue_less(queue: Seq<usize>, remaining: Seq<u32>, on: Seq<bool>, p: usize)
    requires
        queued(queue, remaining, on),
        remaining.len() == on.len(),
        on.len() <= usize::MAX,
        p < on.len(),
        !on[p as int],
        remaining[p as int] > 0,
    ensures
        ({
            let less = remaining.update(p as int, (remaining[p as int] - 1) as u32);
            if less[p as int] == 0 {
                queued(queue.push(p), less, on)
            } else {
                queued(queue, less, on)
            }
        }),
{
    let less = remaining.update(p as int, (remaining[p as int] - 1) as u32);
    let longer = queue.push(p);
    if less[p as int] == 0 {
        assert(longer.no_duplicates()) by {
            assert forall|q: int| 0 <= q < queue.len() implies #[trigger] queue[q] != p by {}
        }
        assert forall|q: int| 0 <= q < longer.len() implies (#[trigger] longer[q]) < on.len()
            && !on[longer[q] as int] && less[longer[q] as int] == 0 by {
            if q < queue.len() {
                assert(longer[q] == queue[q]);
            }
        }
        assert forall|k: int|
            0 <= k < on.len() && !#[trigger] on[k] && less[k] == 0 implies longer.contains(
            k as usize,
        ) by {
            if k == p {
                assert(longer[queue.len() as int] == p);
            } else {
                let w = queue.index_of(k as usize);
                assert(queue.contains(k as usize));
                assert(longer[w] == k);
            }
        }
    }
}

proof fn lemma_overflow_witness(
    nodes: Seq<Node>,
    cur: Seq<Node>,
    remaining: Seq<u32>,
    on: Seq<bool>,
    pos: Seq<nat>,
    visited: nat,
    i: int,
)
    requires
        summing(nodes, cur, remaining, on, pos, visited),
        1 <= i < nodes.len(),
        !on[i],
        remaining[i] == 0,
    ensures
        forall|e: IndexError|
            #![trigger overflows(nodes, e)]
            e.exceeded_by(tree::roll_add(tree::roll_of(cur[nodes[i].parent as int]), tree::roll_of(cur[i])))
                ==> overflows(nodes, e),
{
    let len = nodes.len() as int;
    let p = nodes[i].parent as int;
    let on2 = on.update(i, true);
    let pos2 = pos.update(i, visited);
    let t = tree::rolls(cur);
    assert(tree::parent_ok(nodes, i));
    tree::lemma_pending_zero(nodes, on, i, len);
    tree::lemma_pending_zero(nodes, on, p, len);
    assert(remaining[i] == tree::pending(nodes, on, i, len));
    assert(tree::is_child(nodes, i, p));
    assert forall|k: int, q: int|
        #[trigger] tree::is_child(nodes, k, q) && 0 <= q < len && on2[q] implies on2[k] && pos2[k]
        < pos2[q] by {
        if q == i {
            assert(on[k]);
            assert(pos[k] < visited);
        }
    }
    assert forall|q: int| 0 <= q < len && on2[q] implies #[trigger] t[q] == tree::roll_add(
        tree::roll_of(nodes[q]),
        tree::gather(nodes, t, on2, q, len),
    ) by {
        assert(absorbed(nodes[q], cur[q], tree::gather(nodes, tree::rolls(cur), on, q, len)));
        lemma_absorbed_roll(nodes, cur, on, q);
        tree::lemma_gather_more(nodes, t, on, q, i, len);
        assert(!tree::is_child(nodes, i, q)) by {
            if tree::is_child(nodes, i, q) && q != i {
                assert(on[q]);
                assert(on[i]);
            }
        }
    }
    assert(settled(nodes, on2, t, pos2));
    assert(absorbed(nodes[p], cur[p], tree::gather(nodes, t, on, p, len)));
    lemma_absorbed_roll(nodes, cur, on, p);
    tree::lemma_gather_more(nodes, t, on, p, i, len);
    tree::lemma_roll_add(tree::roll_of(nodes[p]), tree::gather(nodes, t, on, p, len), t[i]);
    assert forall|e: IndexError|
        #![trigger overflows(nodes, e)]
        e.exceeded_by(tree::roll_add(tree::roll_of(cur[p]), tree::roll_of(cur[i]))) implies overflows(nodes, e) by {
        assert(overflows_at(nodes, e, on2, t, pos2, p));
    }
}

/// With a numbering of children before parents, nothing is ever left waiting.
proof fn lemma_descend(
    nodes: Seq<Node>,
    cur: Seq<Node>,
    remaining: Seq<u32>,
    on: Seq<bool>,
    pos: Seq<nat>,
    visited: nat,
    rank: Seq<nat>,
    i: int,
)
    requires
        summing(nodes, cur, remaining, on, pos, visited),
        forall|k: int| 0 <= k < on.len() && !#[trigger] on[k] ==> remaining[k] != 0,
        tree::ranked(nodes, rank),
        0 <= i < nodes.len(),
    ensures
        on[i],
    decreases rank[i],
{
    let len = nodes.len() as int;
    tree::lemma_pending_zero(nodes, on, i, len);
    assert(remaining[i] == tree::pending(nodes, on, i, len));
    assert forall|k: int| 1 <= k < len && #[trigger] tree::is_child(nodes, k, i) implies on[k] by {
        assert(rank[k] < rank[nodes[k].parent as int]);
        lemma_descend(nodes, cur, remaining, on, pos, visited, rank, k);
    }
}

/// No child chain has been started yet.
pub open spec fn fresh(nodes: Seq<Node>) -> bool {
    forall|i: int| 0 <= i < nodes.len() ==> (#[trigger] nodes[i]).first_child == NONE
}

/// Every node counts itself once, as a file or as a directory.
pub open spec fn counted(nodes: Seq<Node>) -> bool {
    forall|i: int|
        0 <= i < nodes.len() ==> (#[trigger] nodes[i]).files == (if nodes[i].dir() {
            0int
        } else {
            1int
        }) && nodes[i].dirs == (if nodes[i].dir() {
            1int
        } else {
            0int
        })
}

/// The chain built from the nodes below `n` lists the children of `p` below `n`.
proof fn lemma_chain_built(nodes: Seq<Node>, done: Seq<Node>, p: int, n: int)
    requires
        finished(nodes, done),
        fresh(nodes),
        nodes.len() <= u32::MAX,
        0 <= p < nodes.len(),
        1 <= n <= nodes.len(),
    ensures
        ({
            let c = tree::chain(done, head(nodes, p, n), n as nat);
            let g = tree::gather(nodes, tree::rolls(done), tree::everywhere(nodes.len()), p, n);
            let s = tree::count_over(tree::counts(done), c);
            &&& tree::chain_ends(done, head(nodes, p, n), n as nat)
            &&& forall|j: int|
                0 <= j < c.len() ==> 1 <= (#[trigger] c[j]) < n && nodes[c[j] as int].parent == p
            &&& forall|k: int|
                1 <= k < n && #[trigger] nodes[k].parent == p ==> c.contains(k as u32)
            &&& s.logical == g.logical
            &&& s.allocated == g.allocated
            &&& s.files == g.files
            &&& s.dirs == g.dirs
        }),
    decreases n,
{
    let c = tree::chain(done, head(nodes, p, n), n as nat);
    if n == 1 {
        assert(nodes[p].first_child == NONE);
        assert(c =~= Seq::<u32>::empty());
    } else {
        lemma_chain_built(nodes, done, p, n - 1);
        let rest = tree::chain(done, head(nodes, p, n - 1), (n - 1) as nat);
        if nodes[n - 1].parent == p {
            assert(linked_as(nodes, done[n - 1], n - 1));
            assert(c =~= seq![(n - 1) as u32] + rest);
            tree::lemma_count_over_head(tree::counts(done), (n - 1) as u32, rest);
            assert(tree::is_child(nodes, n - 1, p));
            assert forall|k: int|
                1 <= k < n && #[trigger] nodes[k].parent == p implies c.contains(k as u32) by {
                if k == n - 1 {
                    assert(c[0] == k);
                } else {
                    let w = rest.index_of(k as u32);
                    assert(rest.contains(k as u32));
                    assert(c[w + 1] == k);
                }
            }
        } else {
            tree::lemma_chain_fuel(done, head(nodes, p, n), (n - 1) as nat, n as nat);
        }
    }
}

/// Finishing a fresh table links it into a tree: what `finish` accepts, `validate` can.
pub proof fn law_finished_is_linked(nodes: Seq<Node>, done: Seq<Node>)
    requires
        0 < nodes.len() <= u32::MAX,
        tree::parents_ok(nodes),
        tree::acyclic(nodes),
        fresh(nodes),
        finished(nodes, done),
    ensures
        tree::linked(done),
{
    let len = nodes.len() as int;
    assert forall|i: int| 0 <= i < len implies #[trigger] tree::chain_ok(done, i) && !tree::kids(
        done,
        i,
    ).contains(0) && (forall|k: int|
        1 <= k < len && #[trigger] nodes[k].parent == i ==> tree::kids(done, i).contains(k as u32)) by {
        lemma_chain_built(nodes, done, i, len);
        assert(linked_as(nodes, done[i], i));
        assert forall|j: int| 0 <= j < tree::kids(done, i).len() implies done[(
        #[trigger] tree::kids(done, i)[j]) as int].parent == i by {
            let k = tree::kids(done, i)[j] as int;
            assert(linked_as(nodes, done[k], k));
        }
    }
    assert forall|k: int| 1 <= k < len implies (#[trigger] done[k]).parent < len && tree::kids(
        done,
        done[k].parent as int,
    ).contains(k as u32) by {
        assert(linked_as(nodes, done[k], k));
        assert(tree::parent_ok(nodes, k));
        assert(tree::chain_ok(done, nodes[k].parent as int));
    }
    assert forall|i: int| 0 <= i < len implies !(#[trigger] tree::kids(done, i)).contains(0) by {
        assert(tree::chain_ok(done, i));
    }
    let rank = choose|rank: Seq<nat>| tree::ranked(nodes, rank);
    assert forall|i: int| 1 <= i < len && done[i].parent < len implies #[trigger] rank[i]
        < rank[done[i].parent as int] by {
        assert(linked_as(nodes, done[i], i));
    }
    assert(tree::ranked(done, rank));
}

/// Finishing a fresh table in which every node counts itself once leaves every node
/// with exactly its own figures and those of its children.
pub proof fn law_finished_is_rolled(nodes: Seq<Node>, done: Seq<Node>)
    requires
        0 < nodes.len() <= u32::MAX,
        tree::parents_ok(nodes),
        tree::acyclic(nodes),
        fresh(nodes),
        counted(nodes),
        finished(nodes, done),
    ensures
        tree::rolled(done),
{
    let len = nodes.len() as int;
    assert forall|p: int| 0 <= p < len implies #[trigger] tree::rolled_at(done, p) by {
        lemma_chain_built(nodes, done, p, len);
        assert(linked_as(nodes, done[p], p));
        lemma_absorbed_roll(nodes, done, tree::everywhere(nodes.len()), p);
        assert(nodes[p].files == (if nodes[p].dir() { 0int } else { 1int }));
    }
}

spec fn sum_to(t: Seq<Roll>, n: int) -> tree::Count
    decreases n,
{
    if n <= 0 {
        tree::count_zero()
    } else {
        let r = t[n - 1];
        tree::count_add(
            sum_to(t, n - 1),
            tree::Count {
                allocated: r.allocated,
                logical: r.logical,
                files: r.files,
                dirs: r.dirs,
            },
        )
    }
}

/// The sum of the first `n` nodes of a table.
pub open spec fn table_sum(nodes: Seq<Node>, n: int) -> tree::Count
    decreases n,
{
    if n <= 0 {
        tree::count_zero()
    } else {
        tree::count_add(table_sum(nodes, n - 1), tree::count_of(nodes[n - 1]))
    }
}

spec fn gather_sum(nodes: Seq<Node>, t: Seq<Roll>, p: int, n: int) -> tree::Count
    decreases p,
{
    if p <= 0 {
        tree::count_zero()
    } else {
        let g = tree::gather(nodes, t, tree::everywhere(nodes.len()), p - 1, n);
        tree::count_add(
            gather_sum(nodes, t, p - 1, n),
            tree::Count {
                allocated: g.allocated,
                logical: g.logical,
                files: g.files,
                dirs: g.dirs,
            },
        )
    }
}

/// Extending the children by one adds that child below exactly one parent.
proof fn lemma_gather_sum_step(nodes: Seq<Node>, t: Seq<Roll>, p: int, n: int)
    requires
        1 < n <= nodes.len(),
        t.len() == nodes.len(),
        0 <= p <= nodes.len(),
    ensures
        gather_sum(nodes, t, p, n) == if nodes[n - 1].parent < p {
            tree::count_add(
                gather_sum(nodes, t, p, n - 1),
                tree::Count {
                    allocated: t[n - 1].allocated,
                    logical: t[n - 1].logical,
                    files: t[n - 1].files,
                    dirs: t[n - 1].dirs,
                },
            )
        } else {
            gather_sum(nodes, t, p, n - 1)
        },
    decreases p,
{
    if p > 0 {
        lemma_gather_sum_step(nodes, t, p - 1, n);
        assert(tree::is_child(nodes, n - 1, p - 1) <==> nodes[n - 1].parent == p - 1);
    }
}

/// Every child is counted below exactly one parent.
proof fn lemma_gather_sum(nodes: Seq<Node>, t: Seq<Roll>, n: int)
    requires
        1 <= n <= nodes.len(),
        t.len() == nodes.len(),
        tree::parents_ok(nodes),
    ensures
        tree::count_add(
            gather_sum(nodes, t, nodes.len() as int, n),
            sum_to(t, 1),
        ) == sum_to(t, n),
    decreases n,
{
    if n == 1 {
        lemma_gather_sum_zero(nodes, t, nodes.len() as int);
    } else {
        lemma_gather_sum(nodes, t, n - 1);
        lemma_gather_sum_step(nodes, t, nodes.len() as int, n);
        assert(tree::parent_ok(nodes, n - 1));
    }
}

proof fn lemma_gather_sum_zero(nodes: Seq<Node>, t: Seq<Roll>, p: int)
    requires
        0 <= p <= nodes.len(),
    ensures
        gather_sum(nodes, t, p, 1) == tree::count_zero(),
    decreases p,
{
    if p > 0 {
        lemma_gather_sum_zero(nodes, t, p - 1);
    }
}

proof fn lemma_totals(nodes: Seq<Node>, done: Seq<Node>, p: int)
    requires
        finished(nodes, done),
        0 <= p <= nodes.len(),
    ensures
        sum_to(tree::rolls(done), p) == tree::count_add(
            table_sum(nodes, p),
            gather_sum(nodes, tree::rolls(done), p, nodes.len() as int),
        ),
    decreases p,
{
    if p > 0 {
        lemma_totals(nodes, done, p - 1);
        assert(linked_as(nodes, done[p - 1], p - 1));
    }
}

/// The root of a finished table carries every node of the table exactly once.
pub proof fn law_root_counts_every_node_once(nodes: Seq<Node>, done: Seq<Node>)
    requires
        0 < nodes.len(),
        tree::parents_ok(nodes),
        finished(nodes, done),
    ensures
        tree::count_of(done[0]) == table_sum(nodes, nodes.len() as int),
{
    let len = nodes.len() as int;
    let t = tree::rolls(done);
    lemma_totals(nodes, done, len);
    lemma_gather_sum(nodes, t, len);
    reveal_with_fuel(sum_to, 2);
    let root = tree::Count {
        allocated: t[0].allocated,
        logical: t[0].logical,
        files: t[0].files,
        dirs: t[0].dirs,
    };
    assert(sum_to(t, 1) == root);
    assert(tree::count_of(done[0]) == root);
}

spec fn figures(r: Roll) -> tree::Count {
    tree::Count { allocated: r.allocated, logical: r.logical, files: r.files, dirs: r.dirs }
}

/// The node hangs below one that is switched on.
spec fn held(nodes: Seq<Node>, on: Seq<bool>, k: int) -> bool {
    1 <= k && nodes[k].parent < nodes.len() && on[nodes[k].parent as int]
}

/// The own figures of the switched-on nodes below `n`.
spec fn own_part(nodes: Seq<Node>, on: Seq<bool>, n: int) -> tree::Count
    decreases n,
{
    if n <= 0 {
        tree::count_zero()
    } else if on[n - 1] {
        tree::count_add(own_part(nodes, on, n - 1), tree::count_of(nodes[n - 1]))
    } else {
        own_part(nodes, on, n - 1)
    }
}

/// The totals of the switched-on nodes below `n`.
spec fn total_part(t: Seq<Roll>, on: Seq<bool>, n: int) -> tree::Count
    decreases n,
{
    if n <= 0 {
        tree::count_zero()
    } else if on[n - 1] {
        tree::count_add(total_part(t, on, n - 1), figures(t[n - 1]))
    } else {
        total_part(t, on, n - 1)
    }
}

/// The totals of those of them that hang below no other one.
spec fn top_part(nodes: Seq<Node>, t: Seq<Roll>, on: Seq<bool>, n: int) -> tree::Count
    decreases n,
{
    if n <= 0 {
        tree::count_zero()
    } else if on[n - 1] && !held(nodes, on, n - 1) {
        tree::count_add(top_part(nodes, t, on, n - 1), figures(t[n - 1]))
    } else {
        top_part(nodes, t, on, n - 1)
    }
}

/// What the switched-on nodes below `m` gather from the children below `n`.
spec fn gathered_part(nodes: Seq<Node>, t: Seq<Roll>, on: Seq<bool>, m: int, n: int) -> tree::Count
    decreases m,
{
    if m <= 0 {
        tree::count_zero()
    } else if on[m - 1] {
        tree::count_add(
            gathered_part(nodes, t, on, m - 1, n),
            figures(tree::gather(nodes, t, on, m - 1, n)),
        )
    } else {
        gathered_part(nodes, t, on, m - 1, n)
    }
}

proof fn lemma_gathered_step(nodes: Seq<Node>, t: Seq<Roll>, on: Seq<bool>, m: int, n: int)
    requires
        1 < n <= nodes.len(),
        0 <= m <= nodes.len(),
        on.len() == nodes.len(),
    ensures
        gathered_part(nodes, t, on, m, n) == if on[n - 1] && held(nodes, on, n - 1)
            && nodes[n - 1].parent < m {
            tree::count_add(gathered_part(nodes, t, on, m, n - 1), figures(t[n - 1]))
        } else {
            gathered_part(nodes, t, on, m, n - 1)
        },
    decreases m,
{
    if m > 0 {
        lemma_gathered_step(nodes, t, on, m - 1, n);
        assert(tree::is_child(nodes, n - 1, m - 1) <==> nodes[n - 1].parent == m - 1);
    }
}

proof fn lemma_gathered_none(nodes: Seq<Node>, t: Seq<Roll>, on: Seq<bool>, m: int)
    ensures
        gathered_part(nodes, t, on, m, 1) == tree::count_zero(),
    decreases m,
{
    if m > 0 {
        lemma_gathered_none(nodes, t, on, m - 1);
    }
}

/// A total is gathered once, or nobody gathers it.
proof fn lemma_gathered_or_top(nodes: Seq<Node>, t: Seq<Roll>, on: Seq<bool>, n: int)
    requires
        1 <= n <= nodes.len(),
        on.len() == nodes.len(),
    ensures
        tree::count_add(
            gathered_part(nodes, t, on, nodes.len() as int, n),
            top_part(nodes, t, on, n),
        ) == total_part(t, on, n),
    decreases n,
{
    if n == 1 {
        lemma_gathered_none(nodes, t, on, nodes.len() as int);
        reveal_with_fuel(top_part, 2);
        reveal_with_fuel(total_part, 2);
    } else {
        lemma_gathered_or_top(nodes, t, on, n - 1);
        lemma_gathered_step(nodes, t, on, nodes.len() as int, n);
    }
}

/// A total is the node's own figures and what it gathers.
proof fn lemma_total_parts(
    nodes: Seq<Node>,
    on: Seq<bool>,
    t: Seq<Roll>,
    rank: Seq<nat>,
    m: int,
)
    requires
        settled(nodes, on, t, rank),
        0 <= m <= nodes.len(),
    ensures
        total_part(t, on, m) == tree::count_add(
            own_part(nodes, on, m),
            gathered_part(nodes, t, on, m, nodes.len() as int),
        ),
    decreases m,
{
    if m > 0 {
        lemma_total_parts(nodes, on, t, rank, m - 1);
        if on[m - 1] {
            assert(t[m - 1] == tree::roll_add(
                tree::roll_of(nodes[m - 1]),
                tree::gather(nodes, t, on, m - 1, nodes.len() as int),
            ));
        }
    }
}

/// What a switched-off node gathers hangs below no other one.
proof fn lemma_gather_tops(nodes: Seq<Node>, t: Seq<Roll>, on: Seq<bool>, p: int, n: int)
    requires
        on.len() == nodes.len(),
        0 <= p < nodes.len(),
        !on[p],
        n <= nodes.len(),
    ensures
        figures(tree::gather(nodes, t, on, p, n)).within(top_part(nodes, t, on, n)),
    decreases n,
{
    if n > 1 {
        lemma_gather_tops(nodes, t, on, p, n - 1);
    }
}

proof fn lemma_own_part(nodes: Seq<Node>, on: Seq<bool>, p: int, n: int)
    requires
        on.len() == nodes.len(),
        0 <= p < nodes.len(),
        !on[p],
        n <= nodes.len(),
    ensures
        (if p < n {
            tree::count_add(own_part(nodes, on, n), tree::count_of(nodes[p]))
        } else {
            own_part(nodes, on, n)
        }).within(table_sum(nodes, n)),
    decreases n,
{
    if n > 0 {
        lemma_own_part(nodes, on, p, n - 1);
    }
}

/// A table whose figures can be added up can be finished without an overflow, whatever the
/// order in which its nodes are passed up.
pub proof fn law_sums_that_fit_never_overflow(nodes: Seq<Node>, e: IndexError)
    requires
        table_sum(nodes, nodes.len() as int).within(
            (tree::Count {
                allocated: u64::MAX as nat,
                logical: u64::MAX as nat,
                files: u32::MAX as nat,
                dirs: u32::MAX as nat,
            }),
        ),
    ensures
        !overflows(nodes, e),
{
    let len = nodes.len() as int;
    if overflows(nodes, e) {
        let (part, t, rank, p) = choose|part: Seq<bool>, t: Seq<Roll>, rank: Seq<nat>, p: int|
            overflows_at(nodes, e, part, t, rank, p);
        let on = Seq::new(nodes.len(), |k: int| part[k] && (part[p] ==> rank[k] < rank[p]));
        assert forall|k: int, q: int|
            #[trigger] tree::is_child(nodes, k, q) && 0 <= q < len && on[q] implies on[k] && rank[k]
            < rank[q] by {
            assert(part[k] && rank[k] < rank[q]);
        }
        assert forall|q: int| 0 <= q < len && on[q] implies #[trigger] t[q] == tree::roll_add(
            tree::roll_of(nodes[q]),
            tree::gather(nodes, t, on, q, len),
        ) by {
            tree::lemma_gather_same(nodes, t, t, part, on, q, len);
        }
        assert(settled(nodes, on, t, rank));
        assert forall|k: int| 1 <= k < len && #[trigger] tree::is_child(nodes, k, p) implies part[k]
            == on[k] by {
            if part[p] {
                assert(rank[k] < rank[p]);
            }
        }
        tree::lemma_gather_same(nodes, t, t, part, on, p, len);
        lemma_gathered_or_top(nodes, t, on, len);
        lemma_total_parts(nodes, on, t, rank, len);
        lemma_gather_tops(nodes, t, on, p, len);
        lemma_own_part(nodes, on, p, len);
    }
}

/// `k` lies `steps` levels under `p`.
pub open spec fn lies_under(nodes: Seq<Node>, k: int, p: int, steps: nat) -> bool
    decreases steps,
{
    if steps == 0 {
        k == p
    } else {
        1 <= k < nodes.len() && lies_under(nodes, nodes[k].parent as int, p, (steps - 1) as nat)
    }
}

/// Two times lie within those of `b`, as far as they are known.
pub open spec fn spanned(oldest: i64, latest: i64, b: Node) -> bool {
    &&& oldest != UNKNOWN_MTIME ==> b.oldest_modified_ms != UNKNOWN_MTIME && b.oldest_modified_ms
        <= oldest
    &&& latest != UNKNOWN_MTIME ==> b.latest_modified_ms != UNKNOWN_MTIME && b.latest_modified_ms
        >= latest
}

pub proof fn lemma_gather_spans(nodes: Seq<Node>, t: Seq<Roll>, on: Seq<bool>, p: int, k: int, n: int)
    requires
        1 <= k < n <= nodes.len(),
        tree::is_child(nodes, k, p),
        on[k],
    ensures
        ({
            let g = tree::gather(nodes, t, on, p, n);
            &&& t[k].oldest != UNKNOWN_MTIME ==> g.oldest != UNKNOWN_MTIME && g.oldest <= t[k].oldest
            &&& t[k].latest != UNKNOWN_MTIME ==> g.latest != UNKNOWN_MTIME && g.latest >= t[k].latest
        }),
    decreases n,
{
    if k < n - 1 {
        lemma_gather_spans(nodes, t, on, p, k, n - 1);
    }
}

/// The two times of a node span those of everything that lies under it.
pub proof fn law_times_span_everything_below(
    nodes: Seq<Node>,
    done: Seq<Node>,
    k: int,
    p: int,
    steps: nat,
)
    requires
        finished(nodes, done),
        tree::parents_ok(nodes),
        0 <= k < nodes.len(),
        lies_under(nodes, k, p, steps),
    ensures
        0 <= p < nodes.len(),
        spanned(nodes[k].oldest_modified_ms, nodes[k].latest_modified_ms, done[p]),
        spanned(done[k].oldest_modified_ms, done[k].latest_modified_ms, done[p]),
    decreases steps,
{
    let len = nodes.len() as int;
    let all = tree::everywhere(nodes.len());
    assert(linked_as(nodes, done[k], k));
    if steps > 0 {
        let q = nodes[k].parent as int;
        assert(tree::parent_ok(nodes, k));
        assert(tree::is_child(nodes, k, q));
        lemma_gather_spans(nodes, tree::rolls(done), all, q, k, len);
        assert(linked_as(nodes, done[q], q));
        law_times_span_everything_below(nodes, done, q, p, (steps - 1) as nat);
    }
}

pub proof fn lemma_gather_latest(nodes: Seq<Node>, t: Seq<Roll>, p: int, n: int) -> (k: int)
    requires
        n <= nodes.len(),
        tree::gather(nodes, t, tree::everywhere(nodes.len()), p, n).latest != UNKNOWN_MTIME,
    ensures
        1 <= k < n,
        tree::is_child(nodes, k, p),
        t[k].latest == tree::gather(nodes, t, tree::everywhere(nodes.len()), p, n).latest,
    decreases n,
{
    if n > 1 {
        let g = tree::gather(nodes, t, tree::everywhere(nodes.len()), p, n - 1);
        let whole = tree::gather(nodes, t, tree::everywhere(nodes.len()), p, n);
        if tree::is_child(nodes, n - 1, p) && whole.latest == t[n - 1].latest {
            n - 1
        } else {
            assert(whole.latest == g.latest);
            lemma_gather_latest(nodes, t, p, n - 1)
        }
    } else {
        0
    }
}

pub proof fn lemma_gather_oldest(nodes: Seq<Node>, t: Seq<Roll>, p: int, n: int) -> (k: int)
    requires
        n <= nodes.len(),
        tree::gather(nodes, t, tree::everywhere(nodes.len()), p, n).oldest != UNKNOWN_MTIME,
    ensures
        1 <= k < n,
        tree::is_child(nodes, k, p),
        t[k].oldest == tree::gather(nodes, t, tree::everywhere(nodes.len()), p, n).oldest,
    decreases n,
{
    if n > 1 {
        let g = tree::gather(nodes, t, tree::everywhere(nodes.len()), p, n - 1);
        let whole = tree::gather(nodes, t, tree::everywhere(nodes.len()), p, n);
        if tree::is_child(nodes, n - 1, p) && whole.oldest == t[n - 1].oldest {
            n - 1
        } else {
            assert(whole.oldest == g.oldest);
            lemma_gather_oldest(nodes, t, p, n - 1)
        }
    } else {
        0
    }
}

pub proof fn lemma_under_step(nodes: Seq<Node>, k: int, q: int, p: int, steps: nat)
    requires
        lies_under(nodes, k, q, steps),
        tree::is_child(nodes, q, p),
    ensures
        lies_under(nodes, k, p, steps + 1),
    decreases steps,
{
    if steps > 0 {
        lemma_under_step(nodes, nodes[k].parent as int, q, p, (steps - 1) as nat);
    } else {
        assert(lies_under(nodes, nodes[k].parent as int, p, 0));
    }
}

proof fn lemma_latest_source(nodes: Seq<Node>, done: Seq<Node>, rank: Seq<nat>, p: int) -> (r: (
    int,
    nat,
))
    requires
        finished(nodes, done),
        tree::parents_ok(nodes),
        tree::ranked(nodes, rank),
        0 <= p < nodes.len(),
        done[p].latest_modified_ms != UNKNOWN_MTIME,
    ensures
        0 <= r.0 < nodes.len(),
        lies_under(nodes, r.0, p, r.1),
        nodes[r.0].latest_modified_ms == done[p].latest_modified_ms,
    decreases rank[p],
{
    let len = nodes.len() as int;
    let t = tree::rolls(done);
    assert(linked_as(nodes, done[p], p));
    if nodes[p].latest_modified_ms == done[p].latest_modified_ms {
        (p, 0nat)
    } else {
        let q = lemma_gather_latest(nodes, t, p, len);
        assert(rank[q] < rank[nodes[q].parent as int]);
        let (k, steps) = lemma_latest_source(nodes, done, rank, q);
        lemma_under_step(nodes, k, q, p, steps);
        (k, steps + 1)
    }
}

proof fn lemma_oldest_source(nodes: Seq<Node>, done: Seq<Node>, rank: Seq<nat>, p: int) -> (r: (
    int,
    nat,
))
    requires
        finished(nodes, done),
        tree::parents_ok(nodes),
        tree::ranked(nodes, rank),
        0 <= p < nodes.len(),
        done[p].oldest_modified_ms != UNKNOWN_MTIME,
    ensures
        0 <= r.0 < nodes.len(),
        lies_under(nodes, r.0, p, r.1),
        nodes[r.0].oldest_modified_ms == done[p].oldest_modified_ms,
    decreases rank[p],
{
    let len = nodes.len() as int;
    let t = tree::rolls(done);
    assert(linked_as(nodes, done[p], p));
    if nodes[p].oldest_modified_ms == done[p].oldest_modified_ms {
        (p, 0nat)
    } else {
        let q = lemma_gather_oldest(nodes, t, p, len);
        assert(rank[q] < rank[nodes[q].parent as int]);
        let (k, steps) = lemma_oldest_source(nodes, done, rank, q);
        lemma_under_step(nodes, k, q, p, steps);
        (k, steps + 1)
    }
}

/// The two times of a node are known only from something that lies under it: the latest
/// and the oldest own time of all. Directories add no time of their own unless the table
/// holds one.
pub proof fn law_times_come_from_below(nodes: Seq<Node>, done: Seq<Node>, p: int)
    requires
        finished(nodes, done),
        tree::parents_ok(nodes),
        tree::acyclic(nodes),
        0 <= p < nodes.len(),
    ensures
        done[p].latest_modified_ms != UNKNOWN_MTIME ==> exists|k: int, steps: nat|
            0 <= k < nodes.len() && #[trigger] lies_under(nodes, k, p, steps)
                && nodes[k].latest_modified_ms == done[p].latest_modified_ms,
        done[p].oldest_modified_ms != UNKNOWN_MTIME ==> exists|k: int, steps: nat|
            0 <= k < nodes.len() && #[trigger] lies_under(nodes, k, p, steps)
                && nodes[k].oldest_modified_ms == done[p].oldest_modified_ms,
{
    let rank = choose|rank: Seq<nat>| tree::ranked(nodes, rank);
    if done[p].latest_modified_ms != UNKNOWN_MTIME {
        let (k, steps) = lemma_latest_source(nodes, done, rank, p);
        assert(lies_under(nodes, k, p, steps));
    }
    if done[p].oldest_modified_ms != UNKNOWN_MTIME {
        let (k, steps) = lemma_oldest_source(nodes, done, rank, p);
        assert(lies_under(nodes, k, p, steps));
    }
}

/// Two times that are both unknown, or both known and in order.
spec fn in_order(oldest: i64, latest: i64) -> bool {
    (oldest == UNKNOWN_MTIME) == (latest == UNKNOWN_MTIME) && oldest <= latest
}

proof fn lemma_gather_times(nodes: Seq<Node>, t: Seq<Roll>, on: Seq<bool>, p: int, n: int)
    requires
        n <= nodes.len(),
        forall|k: int|
            1 <= k < n && #[trigger] tree::is_child(nodes, k, p) ==> in_order(
                t[k].oldest,
                t[k].latest,
            ),
    ensures
        in_order(
            tree::gather(nodes, t, on, p, n).oldest,
            tree::gather(nodes, t, on, p, n).latest,
        ),
    decreases n,
{
    if n > 1 {
        lemma_gather_times(nodes, t, on, p, n - 1);
        assert(tree::is_child(nodes, n - 1, p) ==> in_order(t[n - 1].oldest, t[n - 1].latest));
    }
}

proof fn lemma_times(nodes: Seq<Node>, done: Seq<Node>, rank: Seq<nat>, i: int)
    requires
        finished(nodes, done),
        tree::parents_ok(nodes),
        tree::ranked(nodes, rank),
        forall|k: int|
            0 <= k < nodes.len() ==> (#[trigger] nodes[k]).oldest_modified_ms
                == nodes[k].latest_modified_ms,
        0 <= i < nodes.len(),
    ensures
        in_order(done[i].oldest_modified_ms, done[i].latest_modified_ms),
    decreases rank[i],
{
    let t = tree::rolls(done);
    let len = nodes.len() as int;
    assert forall|k: int| 1 <= k < len && #[trigger] tree::is_child(nodes, k, i) implies in_order(
        t[k].oldest,
        t[k].latest,
    ) by {
        assert(rank[k] < rank[nodes[k].parent as int]);
        lemma_times(nodes, done, rank, k);
    }
    lemma_gather_times(nodes, t, tree::everywhere(nodes.len()), i, len);
    assert(linked_as(nodes, done[i], i));
    assert(nodes[i].oldest_modified_ms == nodes[i].latest_modified_ms);
}

proof fn lemma_head_inside(nodes: Seq<Node>, p: int, n: int)
    requires
        fresh(nodes),
        0 <= p < nodes.len() <= u32::MAX,
        n <= nodes.len(),
    ensures
        links::link_ok(head(nodes, p, n), nodes.len()),
    decreases n,
{
    if n > 1 {
        lemma_head_inside(nodes, p, n - 1);
    } else {
        assert(nodes[p].first_child == NONE);
    }
}

/// Whatever was built by adding nodes and then finished passes validation, and its
/// nodes can be selected.
pub proof fn law_finished_is_valid(before: Snapshot, after: Snapshot)
    requires
        before.building(),
        tree::parents_ok(before.nodes@),
        tree::acyclic(before.nodes@),
        finished(before.nodes@, after.nodes@),
        after.version == before.version,
        after.names@ == before.names@,
    ensures
        after.valid(),
        selection::selectable(after.nodes@),
{
    let nodes = before.nodes@;
    let done = after.nodes@;
    let len = nodes.len() as int;
    law_finished_is_linked(nodes, done);
    law_finished_is_rolled(nodes, done);
    let rank = choose|rank: Seq<nat>| tree::ranked(nodes, rank);
    assert(linked_as(nodes, done[0], 0));
    assert forall|i: usize| i < done.len() implies #[trigger] links::node_fault(
        done,
        after.names@.len(),
        i,
    ) is None by {
        let k = i as int;
        let t = tree::rolls(done);
        let all = tree::everywhere(nodes.len());
        lemma_times(nodes, done, rank, k);
        assert(linked_as(nodes, done[k], k));
        lemma_absorbed_roll(nodes, done, all, k);
        assert(nodes[k].oldest_modified_ms == nodes[k].latest_modified_ms);
        if !done[k].dir() {
            assert forall|c: int| 1 <= c < len implies !#[trigger] tree::is_child(nodes, c, k) by {
                if tree::is_child(nodes, c, k) {
                    assert(tree::parent_ok(nodes, c));
                }
            }
            let none = Seq::new(nodes.len(), |j: int| false);
            lemma_gather_none(nodes, t, none, k, len);
            tree::lemma_gather_same(nodes, t, t, all, none, k, len);
        }
        lemma_head_inside(nodes, k, len);
        if k > 0 {
            assert(tree::parent_ok(nodes, k));
            lemma_head_inside(nodes, nodes[k].parent as int, k);
        }
    }
}

/// `k` is `p` or lies somewhere under it.
pub open spec fn under(nodes: Seq<Node>, k: int, p: int) -> bool {
    exists|steps: nat| lies_under(nodes, k, p, steps)
}

/// The own figures of `p` and of everything under it, among the first `n` nodes.
pub open spec fn roll_under(nodes: Seq<Node>, p: int, n: int) -> Roll
    decreases n,
{
    if n <= 0 {
        tree::roll_zero()
    } else if under(nodes, n - 1, p) {
        tree::roll_add(roll_under(nodes, p, n - 1), tree::roll_of(nodes[n - 1]))
    } else {
        roll_under(nodes, p, n - 1)
    }
}

/// The same over the children of `p` below `n`, each with everything under it among the
/// first `m` nodes.
spec fn kids_roll(nodes: Seq<Node>, p: int, n: int, m: int) -> Roll
    decreases n,
{
    if n <= 1 {
        tree::roll_zero()
    } else if tree::is_child(nodes, n - 1, p) {
        tree::roll_add(kids_roll(nodes, p, n - 1, m), roll_under(nodes, n - 1, m))
    } else {
        kids_roll(nodes, p, n - 1, m)
    }
}

/// Whatever lies under a node comes before it in every ranking.
proof fn lemma_under_ranks(nodes: Seq<Node>, rank: Seq<nat>, k: int, p: int, steps: nat)
    requires
        tree::parents_ok(nodes),
        tree::ranked(nodes, rank),
        0 <= k < nodes.len(),
        lies_under(nodes, k, p, steps),
    ensures
        0 <= p < nodes.len(),
        rank[k] + steps <= rank[p],
    decreases steps,
{
    if steps > 0 {
        assert(tree::parent_ok(nodes, k));
        assert(rank[k] < rank[nodes[k].parent as int]);
        lemma_under_ranks(nodes, rank, nodes[k].parent as int, p, (steps - 1) as nat);
    }
}

/// Of two nodes above a third, one lies under the other.
proof fn lemma_under_between(nodes: Seq<Node>, k: int, p: int, q: int, a: nat, b: nat)
    requires
        lies_under(nodes, k, p, a),
        lies_under(nodes, k, q, b),
        a <= b,
    ensures
        lies_under(nodes, p, q, (b - a) as nat),
    decreases a,
{
    if a > 0 {
        lemma_under_between(
            nodes,
            nodes[k].parent as int,
            p,
            q,
            (a - 1) as nat,
            (b - 1) as nat,
        );
    }
}

/// A node lies under at most one child of another.
proof fn lemma_one_child_above(nodes: Seq<Node>, k: int, p: int, c: int, d: int)
    requires
        tree::parents_ok(nodes),
        tree::acyclic(nodes),
        0 <= k < nodes.len(),
        tree::is_child(nodes, c, p),
        tree::is_child(nodes, d, p),
        under(nodes, k, c),
        under(nodes, k, d),
    ensures
        c == d,
{
    let rank = choose|rank: Seq<nat>| tree::ranked(nodes, rank);
    let a = choose|steps: nat| lies_under(nodes, k, c, steps);
    let b = choose|steps: nat| lies_under(nodes, k, d, steps);
    assert(tree::parent_ok(nodes, c));
    assert(rank[c] < rank[p] && rank[d] < rank[p]);
    if a < b {
        lemma_under_between(nodes, k, c, d, a, b);
        lemma_under_ranks(nodes, rank, p, d, (b - a - 1) as nat);
    } else if b < a {
        lemma_under_between(nodes, k, d, c, b, a);
        lemma_under_ranks(nodes, rank, p, c, (a - b - 1) as nat);
    } else {
        lemma_under_between(nodes, k, c, d, a, b);
    }
}

/// What lies under a node is the node itself, or lies under one of its children.
proof fn lemma_under_parts(nodes: Seq<Node>, k: int, p: int)
    requires
        tree::parents_ok(nodes),
        tree::acyclic(nodes),
        0 <= k < nodes.len(),
        0 <= p < nodes.len(),
    ensures
        under(nodes, k, p) <==> (k == p || exists|c: int|
            #[trigger] tree::is_child(nodes, c, p) && under(nodes, k, c)),
        forall|c: int| #[trigger] tree::is_child(nodes, c, p) ==> !under(nodes, p, c),
{
    let rank = choose|rank: Seq<nat>| tree::ranked(nodes, rank);
    if k == p {
        assert(lies_under(nodes, k, p, 0));
    }
    if under(nodes, k, p) && k != p {
        let steps = choose|steps: nat| lies_under(nodes, k, p, steps);
        let c = lemma_last_way(nodes, k, p, steps);
        assert(under(nodes, k, c));
    }
    if exists|c: int| #[trigger] tree::is_child(nodes, c, p) && under(nodes, k, c) {
        let c = choose|c: int| #[trigger] tree::is_child(nodes, c, p) && under(nodes, k, c);
        let steps = choose|steps: nat| lies_under(nodes, k, c, steps);
        lemma_under_step(nodes, k, c, p, steps);
    }
    assert forall|c: int| #[trigger] tree::is_child(nodes, c, p) implies !under(nodes, p, c) by {
        if under(nodes, p, c) {
            let steps = choose|steps: nat| lies_under(nodes, p, c, steps);
            lemma_under_ranks(nodes, rank, p, c, steps);
            assert(rank[c] < rank[nodes[c].parent as int]);
        }
    }
}

/// The child of `p` through which a way leads to it.
proof fn lemma_last_way(nodes: Seq<Node>, k: int, p: int, steps: nat) -> (c: int)
    requires
        lies_under(nodes, k, p, steps),
        steps > 0,
    ensures
        tree::is_child(nodes, c, p),
        lies_under(nodes, k, c, (steps - 1) as nat),
    decreases steps,
{
    if steps == 1 {
        assert(lies_under(nodes, nodes[k].parent as int, p, 0));
        k
    } else {
        lemma_last_way(nodes, nodes[k].parent as int, p, (steps - 1) as nat)
    }
}

/// One node more counts under exactly the child that it lies under.
proof fn lemma_kids_roll_step(nodes: Seq<Node>, p: int, n: int, m: int)
    requires
        tree::parents_ok(nodes),
        tree::acyclic(nodes),
        n <= nodes.len(),
        0 < m <= nodes.len(),
    ensures
        kids_roll(nodes, p, n, m) == if exists|c: int|
            #[trigger] tree::is_child(nodes, c, p) && c < n && under(nodes, m - 1, c) {
            tree::roll_add(kids_roll(nodes, p, n, m - 1), tree::roll_of(nodes[m - 1]))
        } else {
            kids_roll(nodes, p, n, m - 1)
        },
    decreases n,
{
    if n > 1 {
        lemma_kids_roll_step(nodes, p, n - 1, m);
        let own = tree::roll_of(nodes[m - 1]);
        let before = kids_roll(nodes, p, n - 1, m - 1);
        if tree::is_child(nodes, n - 1, p) {
            let last = roll_under(nodes, n - 1, m - 1);
            tree::lemma_roll_add(before, last, own);
            tree::lemma_roll_add(before, own, last);
            if under(nodes, m - 1, n - 1) {
                assert forall|c: int| #[trigger] tree::is_child(nodes, c, p) && c < n - 1 implies !under(
                    nodes,
                    m - 1,
                    c,
                ) by {
                    if under(nodes, m - 1, c) {
                        lemma_one_child_above(nodes, m - 1, p, c, n - 1);
                    }
                }
            }
        }
    }
}

proof fn lemma_kids_roll_none(nodes: Seq<Node>, p: int, n: int)
    ensures
        kids_roll(nodes, p, n, 0) == tree::roll_zero(),
    decreases n,
{
    if n > 1 {
        lemma_kids_roll_none(nodes, p, n - 1);
        tree::lemma_roll_add(tree::roll_zero(), tree::roll_zero(), tree::roll_zero());
    }
}

/// A node and everything under it are its own figures and those under its children.
proof fn lemma_roll_parts(nodes: Seq<Node>, p: int, m: int)
    requires
        tree::parents_ok(nodes),
        tree::acyclic(nodes),
        0 <= p < nodes.len(),
        0 <= m <= nodes.len(),
    ensures
        roll_under(nodes, p, m) == if p < m {
            tree::roll_add(
                tree::roll_of(nodes[p]),
                kids_roll(nodes, p, nodes.len() as int, m),
            )
        } else {
            kids_roll(nodes, p, nodes.len() as int, m)
        },
    decreases m,
{
    let len = nodes.len() as int;
    if m == 0 {
        lemma_kids_roll_none(nodes, p, len);
    } else {
        lemma_roll_parts(nodes, p, m - 1);
        lemma_kids_roll_step(nodes, p, len, m);
        lemma_under_parts(nodes, m - 1, p);
        let kids = kids_roll(nodes, p, len, m - 1);
        tree::lemma_roll_add(tree::roll_of(nodes[p]), kids, tree::roll_of(nodes[m - 1]));
        if m - 1 == p {
            tree::lemma_roll_add(kids, tree::roll_of(nodes[p]), tree::roll_zero());
        }
    }
}

proof fn lemma_gather_under(nodes: Seq<Node>, t: Seq<Roll>, p: int, n: int)
    requires
        n <= nodes.len(),
        forall|c: int|
            1 <= c < n && #[trigger] tree::is_child(nodes, c, p) ==> t[c] == roll_under(
                nodes,
                c,
                nodes.len() as int,
            ),
    ensures
        tree::gather(nodes, t, tree::everywhere(nodes.len()), p, n) == kids_roll(
            nodes,
            p,
            n,
            nodes.len() as int,
        ),
    decreases n,
{
    if n > 1 {
        lemma_gather_under(nodes, t, p, n - 1);
    }
}

proof fn lemma_totals_under(nodes: Seq<Node>, done: Seq<Node>, rank: Seq<nat>, p: int)
    requires
        tree::parents_ok(nodes),
        tree::ranked(nodes, rank),
        finished(nodes, done),
        0 <= p < nodes.len(),
    ensures
        tree::roll_of(done[p]) == roll_under(nodes, p, nodes.len() as int),
    decreases rank[p],
{
    let len = nodes.len() as int;
    let t = tree::rolls(done);
    assert forall|c: int| 1 <= c < len && #[trigger] tree::is_child(nodes, c, p) implies t[c]
        == roll_under(nodes, c, len) by {
        assert(rank[c] < rank[nodes[c].parent as int]);
        lemma_totals_under(nodes, done, rank, c);
    }
    lemma_gather_under(nodes, t, p, len);
    assert(linked_as(nodes, done[p], p));
    lemma_absorbed_roll(nodes, done, tree::everywhere(nodes.len()), p);
    lemma_roll_parts(nodes, p, len);
}

/// The totals of every node are those of its whole subtree: each figure is the sum of the
/// own figures of the node and of everything under it, each counted once, and its times
/// are the oldest and the latest known of them.
pub proof fn law_totals_are_those_of_the_subtree(nodes: Seq<Node>, done: Seq<Node>, p: int)
    requires
        tree::parents_ok(nodes),
        tree::acyclic(nodes),
        finished(nodes, done),
        0 <= p < nodes.len(),
    ensures
        tree::roll_of(done[p]) == roll_under(nodes, p, nodes.len() as int),
{
    let rank = choose|rank: Seq<nat>| tree::ranked(nodes, rank);
    lemma_totals_under(nodes, done, rank, p);
}

/// The children of a finished node are exactly the nodes that name it as their parent, each
/// of them once; parents and names stay as they were.
pub proof fn law_children_are_listed_once(nodes: Seq<Node>, done: Seq<Node>, i: int, j: u32)
    requires
        fresh(nodes),
        nodes.len() <= u32::MAX,
        tree::parents_ok(nodes),
        tree::acyclic(nodes),
        finished(nodes, done),
        0 <= i < nodes.len(),
    ensures
        tree::kids(done, i).no_duplicates(),
        tree::kids(done, i).contains(j) <==> tree::is_child(nodes, j as int, i),
        j < nodes.len() ==> done[j as int].parent == nodes[j as int].parent
            && done[j as int].name_start == nodes[j as int].name_start && done[j as int].name_len
            == nodes[j as int].name_len,
{
    law_finished_is_linked(nodes, done);
    assert(tree::chain_ok(done, i));
    tree::lemma_kids(done, i);
    if j < nodes.len() {
        assert(linked_as(nodes, done[j as int], j as int));
    }
    let kids = tree::kids(done, i);
    if kids.contains(j) {
        let w = kids.index_of(j);
        assert(kids[w] == j);
    }
    if tree::is_child(nodes, j as int, i) {
        assert(tree::kids(done, done[j as int].parent as int).contains(j));
    }
}

/// `b` holds the entries of `a` in another order: entry `i` of `a` stands at `to[i]`.
pub open spec fn reordered(a: Seq<Node>, b: Seq<Node>, to: Seq<int>) -> bool {
    &&& a.len() == b.len() == to.len()
    &&& forall|i: int| 0 <= i < a.len() ==> 0 <= #[trigger] to[i] < a.len()
    &&& to.no_duplicates()
    &&& a.len() > 0 ==> to[0] == 0
    &&& forall|i: int|
        0 <= i < a.len() ==> tree::roll_of(b[#[trigger] to[i]]) == tree::roll_of(a[i])
    &&& forall|i: int|
        1 <= i < a.len() ==> b[#[trigger] to[i]].parent == to[a[i].parent as int]
}

/// The sum of a list.
spec fn roll_sum(v: Seq<Roll>) -> Roll
    decreases v.len(),
{
    if v.len() == 0 {
        tree::roll_zero()
    } else {
        tree::roll_add(roll_sum(v.drop_last()), v.last())
    }
}

proof fn lemma_sum_without(v: Seq<Roll>, j: int)
    requires
        0 <= j < v.len(),
    ensures
        roll_sum(v) == tree::roll_add(roll_sum(v.remove(j)), v[j]),
    decreases v.len(),
{
    if j == v.len() - 1 {
        assert(v.remove(j) =~= v.drop_last());
    } else {
        lemma_sum_without(v.drop_last(), j);
        let rest = v.drop_last().remove(j);
        assert(v.remove(j).drop_last() =~= rest);
        assert(v.remove(j).last() == v.last());
        tree::lemma_roll_add(roll_sum(rest), v[j], v.last());
    }
}

/// A list and its reordering have the same sum.
proof fn lemma_sum_reordered(v: Seq<Roll>, w: Seq<Roll>, to: Seq<int>)
    requires
        v.len() == w.len() == to.len(),
        to.no_duplicates(),
        forall|i: int| 0 <= i < v.len() ==> 0 <= #[trigger] to[i] < v.len() && w[to[i]] == v[i],
    ensures
        roll_sum(v) == roll_sum(w),
    decreases v.len(),
{
    if v.len() > 0 {
        let n = v.len() - 1;
        let j = to[n];
        let closer = Seq::new(
            n as nat,
            |i: int|
                if to[i] < j {
                    to[i]
                } else {
                    to[i] - 1
                },
        );
        assert forall|i: int| 0 <= i < n implies 0 <= #[trigger] closer[i] < n && w.remove(
            j,
        )[closer[i]] == v.drop_last()[i] by {
            assert(to[i] != to[n]);
            assert(w[to[i]] == v[i]);
        }
        assert forall|a: int, b: int| 0 <= a < b < n implies closer[a] != closer[b] by {
            assert(to[a] != to[b] && to[a] != to[n] && to[b] != to[n]);
        }
        lemma_sum_reordered(v.drop_last(), w.remove(j), closer);
        lemma_sum_without(w, j);
    }
}

/// What every node adds to the subtree of `p`.
spec fn shares(nodes: Seq<Node>, p: int, n: nat) -> Seq<Roll> {
    Seq::new(
        n,
        |k: int|
            if under(nodes, k, p) {
                tree::roll_of(nodes[k])
            } else {
                tree::roll_zero()
            },
    )
}

proof fn lemma_shares(nodes: Seq<Node>, p: int, n: nat)
    ensures
        roll_sum(shares(nodes, p, n)) == roll_under(nodes, p, n as int),
    decreases n,
{
    if n > 0 {
        lemma_shares(nodes, p, (n - 1) as nat);
        assert(shares(nodes, p, n).drop_last() =~= shares(nodes, p, (n - 1) as nat));
        let before = roll_under(nodes, p, n - 1);
        tree::lemma_roll_add(before, tree::roll_zero(), tree::roll_zero());
    }
}

proof fn lemma_under_reordered(a: Seq<Node>, b: Seq<Node>, to: Seq<int>, k: int, p: int, steps: nat)
    requires
        reordered(a, b, to),
        tree::parents_ok(a),
        0 <= k < a.len(),
        0 <= p < a.len(),
    ensures
        lies_under(a, k, p, steps) <==> lies_under(b, to[k], to[p], steps),
    decreases steps,
{
    if steps == 0 {
        if k != p {
            assert(to[k] != to[p]);
        }
    } else {
        if k >= 1 {
            assert(to[k] != to[0]);
            assert(tree::parent_ok(a, k));
            lemma_under_reordered(a, b, to, a[k].parent as int, p, (steps - 1) as nat);
            assert(b[to[k]].parent == to[a[k].parent as int]);
        }
    }
}

/// Adding the same entries in another order gives every entry the same totals.
pub proof fn law_order_changes_no_totals(
    a: Seq<Node>,
    b: Seq<Node>,
    to: Seq<int>,
    first: Seq<Node>,
    second: Seq<Node>,
    i: int,
)
    requires
        reordered(a, b, to),
        tree::parents_ok(a),
        tree::acyclic(a),
        finished(a, first),
        tree::parents_ok(b),
        tree::acyclic(b),
        finished(b, second),
        0 <= i < a.len(),
    ensures
        tree::roll_of(second[to[i]]) == tree::roll_of(first[i]),
{
    let len = a.len();
    law_totals_are_those_of_the_subtree(a, first, i);
    law_totals_are_those_of_the_subtree(b, second, to[i]);
    lemma_shares(a, i, len);
    lemma_shares(b, to[i], len);
    let v = shares(a, i, len);
    let w = shares(b, to[i], len);
    assert forall|k: int| 0 <= k < len implies 0 <= #[trigger] to[k] < len && w[to[k]] == v[k] by {
        assert(under(a, k, i) <==> under(b, to[k], to[i])) by {
            if under(a, k, i) {
                let steps = choose|steps: nat| lies_under(a, k, i, steps);
                lemma_under_reordered(a, b, to, k, i, steps);
            }
            if under(b, to[k], to[i]) {
                let steps = choose|steps: nat| lies_under(b, to[k], to[i], steps);
                lemma_under_reordered(a, b, to, k, i, steps);
            }
        }
        assert(tree::roll_of(b[to[k]]) == tree::roll_of(a[k]));
    }
    lemma_sum_reordered(v, w, to);
}

/// What the nodes at and below `p`, of the first `n`, take together.
pub open spec fn space_below(nodes: Seq<Node>, p: int, n: int) -> int
    decreases n,
{
    if n <= 0 {
        0
    } else {
        space_below(nodes, p, n - 1) + (if under(nodes, n - 1, p) {
            nodes[n - 1].allocated as int
        } else {
            0
        })
    }
}

/// How long the nodes at and below `p`, of the first `n`, are together.
pub open spec fn length_below(nodes: Seq<Node>, p: int, n: int) -> int
    decreases n,
{
    if n <= 0 {
        0
    } else {
        length_below(nodes, p, n - 1) + (if under(nodes, n - 1, p) {
            nodes[n - 1].logical as int
        } else {
            0
        })
    }
}

/// How many of the first `n` nodes at and below `p` are files, and how many are not.
pub open spec fn entries_below(nodes: Seq<Node>, p: int, n: int, files: bool) -> int
    decreases n,
{
    if n <= 0 {
        0
    } else {
        entries_below(nodes, p, n - 1, files) + (if under(nodes, n - 1, p) && (nodes[n - 1].flags & 1
            == 0) == files {
            1int
        } else {
            0
        })
    }
}

proof fn lemma_sums_below(nodes: Seq<Node>, p: int, n: int)
    requires
        0 <= n <= nodes.len(),
        counted(nodes),
    ensures
        roll_under(nodes, p, n).allocated == space_below(nodes, p, n),
        roll_under(nodes, p, n).logical == length_below(nodes, p, n),
        roll_under(nodes, p, n).files == entries_below(nodes, p, n, true),
        roll_under(nodes, p, n).dirs == entries_below(nodes, p, n, false),
    decreases n,
{
    if n > 0 {
        lemma_sums_below(nodes, p, n - 1);
        assert(nodes[n - 1].files + nodes[n - 1].dirs == 1);
    }
}

/// The totals of an entry are the plain sums over all that lies at and below it: space,
/// length, files and directories.
pub proof fn law_totals_are_plain_sums(nodes: Seq<Node>, done: Seq<Node>, p: int)
    requires
        tree::parents_ok(nodes),
        tree::acyclic(nodes),
        counted(nodes),
        finished(nodes, done),
        0 <= p < nodes.len(),
    ensures
        done[p].allocated == space_below(nodes, p, nodes.len() as int),
        done[p].logical == length_below(nodes, p, nodes.len() as int),
        done[p].files == entries_below(nodes, p, nodes.len() as int, true),
        done[p].dirs == entries_below(nodes, p, nodes.len() as int, false),
{
    law_totals_are_those_of_the_subtree(nodes, done, p);
    lemma_sums_below(nodes, p, nodes.len() as int);
    assert(tree::roll_of(done[p]).allocated == done[p].allocated);
}

proof fn lemma_carried_bits(x: u16)
    by (bit_vector)
    ensures
        (x & 88u16) & 8u16 == x & 8u16,
        (x & 88u16) & 16u16 == x & 16u16,
        (x & 88u16) & 64u16 == x & 64u16,
        (x & 88u16) & 1u16 == 0,
        (x & 88u16) & 2u16 == 0,
        (x & 88u16) & 4u16 == 0,
        (x & 88u16) & 32u16 == 0,
        0u16 & 1u16 == 0 && 0u16 & 2u16 == 0 && 0u16 & 4u16 == 0 && 0u16 & 8u16 == 0 && 0u16 & 16u16
            == 0 && 0u16 & 64u16 == 0 && 0u16 & 32u16 == 0,
{
}

proof fn lemma_flags_below(nodes: Seq<Node>, p: int, n: int)
    requires
        0 <= n <= nodes.len(),
    ensures
        (roll_under(nodes, p, n).flags & 8 != 0) == exists|k: int|
            0 <= k < n && under(nodes, k, p) && (#[trigger] nodes[k]).flags & 8 != 0,
        (roll_under(nodes, p, n).flags & 16 != 0) == exists|k: int|
            0 <= k < n && under(nodes, k, p) && (#[trigger] nodes[k]).flags & 16 != 0,
        (roll_under(nodes, p, n).flags & 64 != 0) == exists|k: int|
            0 <= k < n && under(nodes, k, p) && (#[trigger] nodes[k]).flags & 64 != 0,
    decreases n,
{
    lemma_carried_bits(0);
    if n > 0 {
        lemma_flags_below(nodes, p, n - 1);
        let before = roll_under(nodes, p, n - 1).flags;
        let own = nodes[n - 1].flags;
        lemma_carried_bits(own);
        model::lemma_flags(before, own & 88);
        let now = roll_under(nodes, p, n).flags;
        if under(nodes, n - 1, p) {
            assert(nodes[n - 1].flags == own);
        }
        if before & 8 != 0 {
            let k = choose|k: int|
                0 <= k < n - 1 && under(nodes, k, p) && (#[trigger] nodes[k]).flags & 8 != 0;
            assert(0 <= k < n && nodes[k].flags & 8 != 0);
        }
        if before & 16 != 0 {
            let k = choose|k: int|
                0 <= k < n - 1 && under(nodes, k, p) && (#[trigger] nodes[k]).flags & 16 != 0;
            assert(0 <= k < n && nodes[k].flags & 16 != 0);
        }
        if before & 64 != 0 {
            let k = choose|k: int|
                0 <= k < n - 1 && under(nodes, k, p) && (#[trigger] nodes[k]).flags & 64 != 0;
            assert(0 <= k < n && nodes[k].flags & 64 != 0);
        }
        assert(now & 8 != 0 ==> before & 8 != 0 || under(nodes, n - 1, p) && own & 8 != 0);
        assert(now & 16 != 0 ==> before & 16 != 0 || under(nodes, n - 1, p) && own & 16 != 0);
        assert(now & 64 != 0 ==> before & 64 != 0 || under(nodes, n - 1, p) && own & 64 != 0);
    }
}

/// An entry is marked as estimated, incomplete or of unknown time exactly if it or something
/// below it is.
pub proof fn law_doubts_are_carried_up(nodes: Seq<Node>, done: Seq<Node>, p: int)
    requires
        tree::parents_ok(nodes),
        tree::acyclic(nodes),
        finished(nodes, done),
        0 <= p < nodes.len(),
    ensures
        (done[p].flags & 8 != 0) == exists|k: int|
            0 <= k < nodes.len() && under(nodes, k, p) && (#[trigger] nodes[k]).flags & 8 != 0,
        (done[p].flags & 16 != 0) == exists|k: int|
            0 <= k < nodes.len() && under(nodes, k, p) && (#[trigger] nodes[k]).flags & 16 != 0,
        (done[p].flags & 64 != 0) == exists|k: int|
            0 <= k < nodes.len() && under(nodes, k, p) && (#[trigger] nodes[k]).flags & 64 != 0,
{
    law_totals_are_those_of_the_subtree(nodes, done, p);
    lemma_flags_below(nodes, p, nodes.len() as int);
    lemma_carried_bits(done[p].flags);
    assert(tree::roll_of(done[p]).flags == done[p].flags & 88);
}

proof fn lemma_gathered_kinds(
    nodes: Seq<Node>,
    t: Seq<Roll>,
    on: Seq<bool>,
    p: int,
    n: int,
)
    requires
        n <= t.len(),
        forall|k: int|
            0 <= k < t.len() ==> (#[trigger] t[k]).flags & 1 == 0 && t[k].flags & 2 == 0
                && t[k].flags & 4 == 0,
    ensures
        tree::gather(nodes, t, on, p, n).flags & 1 == 0,
        tree::gather(nodes, t, on, p, n).flags & 2 == 0,
        tree::gather(nodes, t, on, p, n).flags & 4 == 0,
    decreases n,
{
    lemma_carried_bits(0);
    if n > 1 {
        lemma_gathered_kinds(nodes, t, on, p, n - 1);
        model::lemma_flags(tree::gather(nodes, t, on, p, n - 1).flags, t[n - 1].flags);
        assert(t[n - 1].flags & 1 == 0);
    }
}

/// Totals do not change what an entry is: a directory, a link elsewhere, or a hard link.
pub proof fn law_totals_do_not_change_the_kind(nodes: Seq<Node>, done: Seq<Node>, p: int)
    requires
        finished(nodes, done),
        0 <= p < nodes.len(),
    ensures
        (done[p].flags & 1 != 0) == (nodes[p].flags & 1 != 0),
        (done[p].flags & 2 != 0) == (nodes[p].flags & 2 != 0),
        (done[p].flags & 4 != 0) == (nodes[p].flags & 4 != 0),
{
    let t = tree::rolls(done);
    let on = tree::everywhere(nodes.len());
    assert forall|k: int| 0 <= k < t.len() implies (#[trigger] t[k]).flags & 1 == 0 && t[k].flags & 2
        == 0 && t[k].flags & 4 == 0 by {
        lemma_carried_bits(done[k].flags);
    }
    lemma_gathered_kinds(nodes, t, on, p, nodes.len() as int);
    let g = tree::gather(nodes, t, on, p, nodes.len() as int);
    assert(linked_as(nodes, done[p], p));
    assert(absorbed(nodes[p], done[p], g));
    model::lemma_flags(nodes[p].flags, g.flags);
}

/// Totals are refused exactly where they no longer fit, and the first that does not is told.
pub proof fn law_totals_are_refused_where_they_do_not_fit(r: Roll)
    ensures
        first_excess(r) is None <==> r.logical <= u64::MAX && r.allocated <= u64::MAX && r.files
            <= u32::MAX && r.dirs <= u32::MAX,
        first_excess(r) == Some(IndexError::LogicalOverflow) <==> r.logical > u64::MAX,
        first_excess(r) == Some(IndexError::AllocatedOverflow) <==> r.logical <= u64::MAX
            && r.allocated > u64::MAX,
        first_excess(r) == Some(IndexError::FileOverflow) ==> r.files > u32::MAX,
        first_excess(r) == Some(IndexError::DirectoryOverflow) ==> r.dirs > u32::MAX,
{
}

/// A total is refused exactly if one of its sums does not fit, and told by the first.
pub proof fn law_excess_is_told_by_the_first_sum(r: Roll)
    ensures
        first_excess(r) is None <==> r.logical < 0x1_0000_0000_0000_0000 && r.allocated
            < 0x1_0000_0000_0000_0000 && r.files < 0x1_0000_0000 && r.dirs < 0x1_0000_0000,
        first_excess(r) == Some(IndexError::LogicalOverflow) <==> r.logical
            >= 0x1_0000_0000_0000_0000,
        first_excess(r) == Some(IndexError::AllocatedOverflow) ==> r.allocated
            >= 0x1_0000_0000_0000_0000,
        first_excess(r) == Some(IndexError::FileOverflow) ==> r.files >= 0x1_0000_0000,
        first_excess(r) == Some(IndexError::DirectoryOverflow) ==> r.dirs >= 0x1_0000_0000,
{
}

} // verus!
