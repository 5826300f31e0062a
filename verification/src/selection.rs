//! Tree checkbox state, independent of pagination and expansion. A partially checked
//! directory is kept; only selected descendant objects are eligible for deletion.
use crate::model::{Node, Snapshot, NONE};
use crate::tree;
use crate::tree::Count;
use crate::walk;
use vstd::prelude::*;

verus! {

/// Sizes and counts of a set of objects.
#[derive(Debug, Clone, Copy, PartialEq, Eq, Structural)]
pub struct Tally {
    pub allocated: u64,
    pub logical: u64,
    pub files: u32,
    pub dirs: u32,
}

impl View for Tally {
    type V = Count;

    open spec fn view(&self) -> Count {
        Count {
            allocated: self.allocated as nat,
            logical: self.logical as nat,
            files: self.files as nat,
            dirs: self.dirs as nat,
        }
    }
}

impl Default for Tally {
    fn default() -> (t: Self)
        ensures
            t@ == tree::count_zero(),
    {
        Tally { allocated: 0, logical: 0, files: 0, dirs: 0 }
    }
}

impl Tally {
    /// The tally of a node's whole subtree.
    pub fn of(n: &Node) -> (t: Self)
        ensures
            t@ == tree::count_of(*n),
    {
        Tally { allocated: n.allocated, logical: n.logical, files: n.files, dirs: n.dirs }
    }

    pub fn items(self) -> (r: u64)
        ensures
            r == self@.items(),
    {
        self.files as u64 + self.dirs as u64
    }

    pub fn add(self, other: Self) -> (t: Self)
        requires
            self.allocated + other.allocated <= u64::MAX,
            self.logical + other.logical <= u64::MAX,
            self.files + other.files <= u32::MAX,
            self.dirs + other.dirs <= u32::MAX,
        ensures
            t@ == tree::count_add(self@, other@),
    {
        Tally {
            allocated: self.allocated + other.allocated,
            logical: self.logical + other.logical,
            files: self.files + other.files,
            dirs: self.dirs + other.dirs,
        }
    }
}

/// Which nodes of a tree are selected, and what the selection below each node amounts to.
#[derive(Debug)]
pub struct TreeSelection {
    selected: Vec<bool>,
    totals: Vec<Tally>,
}

impl Clone for TreeSelection {
    fn clone(&self) -> (r: Self)
        ensures
            r.marks() == self.marks(),
            r.sums() == self.sums(),
    {
        let r = TreeSelection { selected: self.selected.clone(), totals: self.totals.clone() };
        assert(r.selected@ =~= self.selected@);
        assert(r.totals@ =~= self.totals@);
        r
    }
}

/// The selection below `p` is that of its children, and `p` itself if it is selected; a
/// selected node has all its children selected.
pub open spec fn settled_at(nodes: Seq<Node>, marks: Seq<bool>, sums: Seq<Count>, p: int) -> bool {
    &&& sums[p] == tree::count_add(
        tree::count_over(sums, tree::kids(nodes, p)),
        if marks[p] {
            tree::own_count(nodes, p)
        } else {
            tree::count_zero()
        },
    )
    &&& marks[p] ==> forall|k: u32| #[trigger] tree::kids(nodes, p).contains(k) ==> marks[k as int]
}

pub open spec fn settled(nodes: Seq<Node>, marks: Seq<bool>, sums: Seq<Count>) -> bool {
    &&& marks.len() == nodes.len()
    &&& sums.len() == nodes.len()
    &&& forall|p: int| 0 <= p < nodes.len() ==> #[trigger] settled_at(nodes, marks, sums, p)
}

/// 0 = nothing selected, 1 = partly, 2 = the whole subtree.
pub open spec fn state_of(nodes: Seq<Node>, sums: Seq<Count>, id: int) -> int {
    if sums[id].items() == 0 {
        0
    } else if sums[id].items() == tree::count_of(nodes[id]).items() {
        2
    } else {
        1
    }
}

/// A tree whose figures are rolled up and whose root has no parent.
pub open spec fn selectable(nodes: Seq<Node>) -> bool {
    &&& tree::linked(nodes)
    &&& tree::rolled(nodes)
    &&& nodes[0].parent == NONE
}

proof fn lemma_count_over_same(a: Seq<Count>, b: Seq<Count>, ids: Seq<u32>)
    requires
        forall|j: int| 0 <= j < ids.len() ==> a[(#[trigger] ids[j]) as int] == b[ids[j] as int],
    ensures
        tree::count_over(a, ids) == tree::count_over(b, ids),
    decreases ids.len(),
{
    if ids.len() > 0 {
        lemma_count_over_same(a, b, ids.drop_last());
        assert(a[ids[ids.len() - 1] as int] == b[ids[ids.len() - 1] as int]);
    }
}

proof fn lemma_count_over_zero(a: Seq<Count>, ids: Seq<u32>)
    requires
        forall|j: int| 0 <= j < ids.len() ==> a[(#[trigger] ids[j]) as int] == tree::count_zero(),
    ensures
        tree::count_over(a, ids) == tree::count_zero(),
    decreases ids.len(),
{
    if ids.len() > 0 {
        lemma_count_over_zero(a, ids.drop_last());
        assert(a[ids[ids.len() - 1] as int] == tree::count_zero());
    }
}

/// A prefix of a list counts no more than the list.
proof fn lemma_count_over_prefix(a: Seq<Count>, ids: Seq<u32>, n: int)
    requires
        0 <= n <= ids.len(),
    ensures
        tree::count_over(a, ids.subrange(0, n)).within(tree::count_over(a, ids)),
    decreases ids.len() - n,
{
    if n == ids.len() {
        assert(ids.subrange(0, n) =~= ids);
    } else {
        lemma_count_over_prefix(a, ids, n + 1);
        assert(ids.subrange(0, n + 1).drop_last() =~= ids.subrange(0, n));
    }
}

/// The selection below a node is within the node's figures; it is all of them exactly
/// when everything below is selected, and nothing exactly when nothing is.
proof fn lemma_state(nodes: Seq<Node>, rank: Seq<nat>, marks: Seq<bool>, sums: Seq<Count>, p: int)
    requires
        tree::linked(nodes),
        tree::rolled(nodes),
        tree::ranked(nodes, rank),
        marks.len() == nodes.len(),
        sums.len() == nodes.len(),
        0 <= p < nodes.len(),
        forall|q: int|
            0 <= q < nodes.len() && #[trigger] walk::under(nodes, p, q) ==> settled_at(
                nodes,
                marks,
                sums,
                q,
            ),
    ensures
        sums[p].within(tree::count_of(nodes[p])),
        sums[p].items() == tree::count_of(nodes[p]).items() <==> marks[p],
        sums[p].items() == 0 ==> sums[p] == tree::count_zero(),
        marks[p] ==> sums[p] == tree::count_of(nodes[p]),
        marks[p] ==> forall|q: int|
            0 <= q < nodes.len() && #[trigger] walk::under(nodes, p, q) ==> marks[q],
        sums[p].items() == 0 <==> forall|q: int|
            0 <= q < nodes.len() && #[trigger] walk::under(nodes, p, q) ==> !marks[q],
    decreases rank[p] + 1, 0nat,
{
    let ks = tree::kids(nodes, p);
    walk::lemma_under_self(nodes, p);
    assert(tree::chain_ok(nodes, p));
    tree::lemma_kids(nodes, p);
    assert(settled_at(nodes, marks, sums, p));
    assert(tree::rolled_at(nodes, p));
    assert forall|j: int| 0 <= j < ks.len() implies 1 <= (#[trigger] ks[j]) && rank[ks[j] as int]
        < rank[p] && walk::under(nodes, p, ks[j] as int) by {
        assert(ks.contains(ks[j]));
        assert(rank[ks[j] as int] < rank[nodes[ks[j] as int].parent as int]);
        walk::lemma_under_parent(nodes, p, ks[j] as int);
    }
    lemma_state_list(nodes, rank, marks, sums, ks, p);
    let below = tree::count_over(sums, ks);
    let full = tree::count_over(tree::counts(nodes), ks);
    if marks[p] {
        assert forall|j: int| 0 <= j < ks.len() implies marks[(#[trigger] ks[j]) as int] by {
            assert(ks.contains(ks[j]));
        }
        assert(below == full);
    }
    // What lies below `p` is `p` itself or lies below one of its children.
    assert forall|q: int| 0 <= q < nodes.len() && walk::under(nodes, p, q) && q != p implies exists|
        j: int,
    | 0 <= j < ks.len() && walk::under(nodes, (#[trigger] ks[j]) as int, q) by {
        let j = lemma_below_kid(nodes, rank, p, q);
        assert(walk::under(nodes, ks[j] as int, q));
    }
    assert forall|q: int|
        0 <= q < nodes.len() && #[trigger] walk::under(nodes, p, q) && marks[p] implies marks[q] by {
        if q != p {
            let j = choose|j: int| 0 <= j < ks.len() && walk::under(nodes, ks[j] as int, q);
            assert(marks[ks[j] as int]);
        }
    }
    if sums[p].items() == 0 {
        assert(below.items() == 0);
        assert forall|q: int| 0 <= q < nodes.len() && #[trigger] walk::under(nodes, p, q) implies !marks[q] by {
            if q != p {
                let j = choose|j: int| 0 <= j < ks.len() && walk::under(nodes, ks[j] as int, q);
                assert(sums[ks[j] as int].items() == 0);
            }
        }
    }
    if forall|q: int| 0 <= q < nodes.len() && #[trigger] walk::under(nodes, p, q) ==> !marks[q] {
        assert(!marks[p]);
        assert forall|j: int| 0 <= j < ks.len() implies sums[(#[trigger] ks[j]) as int].items() == 0 by {
            assert forall|q: int|
                0 <= q < nodes.len() && #[trigger] walk::under(nodes, ks[j] as int, q) implies !marks[q] by {
                walk::lemma_under_trans(nodes, p, ks[j] as int, q);
            }
        }
        assert(below.items() == 0);
    }
}

/// What lies strictly below `p` lies below one of its children.
proof fn lemma_below_kid(nodes: Seq<Node>, rank: Seq<nat>, p: int, q: int) -> (j: int)
    requires
        tree::linked(nodes),
        tree::ranked(nodes, rank),
        0 <= p < nodes.len(),
        0 <= q < nodes.len(),
        walk::under(nodes, p, q),
        p != q,
    ensures
        0 <= j < tree::kids(nodes, p).len(),
        walk::under(nodes, tree::kids(nodes, p)[j] as int, q),
    decreases nodes.len() - rank[q],
{
    walk::lemma_under_parent(nodes, p, q);
    let up = nodes[q].parent as int;
    let ks = tree::kids(nodes, p);
    assert(nodes[q].parent < nodes.len());
    assert(rank[q] < rank[up]);
    assert(rank[up] < nodes.len());
    if up == p {
        assert(ks.contains(q as u32));
        let j = ks.index_of(q as u32);
        walk::lemma_under_self(nodes, q);
        j
    } else {
        let j = lemma_below_kid(nodes, rank, p, up);
        walk::lemma_under_parent(nodes, ks[j] as int, q);
        j
    }
}

proof fn lemma_state_list(
    nodes: Seq<Node>,
    rank: Seq<nat>,
    marks: Seq<bool>,
    sums: Seq<Count>,
    ids: Seq<u32>,
    p: int,
)
    requires
        tree::linked(nodes),
        tree::rolled(nodes),
        tree::ranked(nodes, rank),
        marks.len() == nodes.len(),
        sums.len() == nodes.len(),
        0 <= p < nodes.len(),
        forall|j: int|
            0 <= j < ids.len() ==> (#[trigger] ids[j]) < nodes.len() && rank[ids[j] as int]
                < rank[p] && walk::under(nodes, p, ids[j] as int),
        forall|q: int|
            0 <= q < nodes.len() && #[trigger] walk::under(nodes, p, q) ==> settled_at(
                nodes,
                marks,
                sums,
                q,
            ),
    ensures
        tree::count_over(sums, ids).within(tree::count_over(tree::counts(nodes), ids)),
        tree::count_over(sums, ids).items() == 0 ==> tree::count_over(sums, ids)
            == tree::count_zero(),
        tree::count_over(sums, ids).items() == 0 <==> forall|j: int|
            0 <= j < ids.len() ==> sums[(#[trigger] ids[j]) as int].items() == 0,
        (forall|j: int| 0 <= j < ids.len() ==> marks[(#[trigger] ids[j]) as int])
            ==> tree::count_over(sums, ids) == tree::count_over(tree::counts(nodes), ids),
        forall|j: int|
            0 <= j < ids.len() ==> ({
                let k = (#[trigger] ids[j]) as int;
                &&& sums[k].items() == tree::count_of(nodes[k]).items() <==> marks[k]
                &&& marks[k] ==> forall|q: int|
                    0 <= q < nodes.len() && #[trigger] walk::under(nodes, k, q) ==> marks[q]
                &&& sums[k].items() == 0 <==> forall|q: int|
                    0 <= q < nodes.len() && #[trigger] walk::under(nodes, k, q) ==> !marks[q]
            }),
    decreases rank[p], ids.len(),
{
    if ids.len() > 0 {
        let last = ids.last() as int;
        let rest = ids.drop_last();
        assert(ids[ids.len() - 1] == last);
        assert forall|q: int| 0 <= q < nodes.len() && #[trigger] walk::under(nodes, last, q) implies settled_at(
            nodes,
            marks,
            sums,
            q,
        ) by {
            walk::lemma_under_trans(nodes, p, last, q);
        }
        lemma_state(nodes, rank, marks, sums, last);
        lemma_state_list(nodes, rank, marks, sums, rest, p);
        assert forall|j: int| 0 <= j < ids.len() implies ({
            let k = (#[trigger] ids[j]) as int;
            &&& sums[k].items() == tree::count_of(nodes[k]).items() <==> marks[k]
            &&& marks[k] ==> forall|q: int|
                0 <= q < nodes.len() && #[trigger] walk::under(nodes, k, q) ==> marks[q]
            &&& sums[k].items() == 0 <==> forall|q: int|
                0 <= q < nodes.len() && #[trigger] walk::under(nodes, k, q) ==> !marks[q]
        }) by {
            if j < rest.len() {
                assert(rest[j] == ids[j]);
            }
        }
        if forall|j: int| 0 <= j < ids.len() ==> marks[(#[trigger] ids[j]) as int] {
            assert forall|j: int| 0 <= j < rest.len() implies marks[(#[trigger] rest[j]) as int] by {
                assert(marks[ids[j] as int]);
            }
            assert(marks[ids[ids.len() - 1] as int]);
        }
        if tree::count_over(sums, ids).items() == 0 {
            assert forall|j: int| 0 <= j < ids.len() implies sums[(#[trigger] ids[j]) as int].items() == 0 by {
                if j < rest.len() {
                    assert(rest[j] == ids[j]);
                }
            }
        }
        if forall|j: int| 0 <= j < ids.len() ==> sums[(#[trigger] ids[j]) as int].items() == 0 {
            assert forall|j: int| 0 <= j < rest.len() implies sums[(#[trigger] rest[j]) as int].items() == 0 by {
                assert(sums[ids[j] as int].items() == 0);
            }
            assert(sums[ids[ids.len() - 1] as int].items() == 0);
        }
    }
}

/// The two parts of a selection, over mathematical counts.
pub open spec fn views(totals: Seq<Tally>) -> Seq<Count> {
    Seq::new(totals.len(), |i: int| totals[i]@)
}

/// All children of `a` are wholly selected.
pub open spec fn kids_full(nodes: Seq<Node>, sums: Seq<Count>, a: int) -> bool {
    forall|k: u32|
        #[trigger] tree::kids(nodes, a).contains(k) ==> state_of(nodes, sums, k as int) == 2
}

/// `after` is `before` with everything below `id` checked or unchecked: an ancestor of
/// `id` is selected exactly when all its children are wholly selected, and nothing else
/// changes.
pub open spec fn subtree_set(
    nodes: Seq<Node>,
    before: TreeSelection,
    after: TreeSelection,
    id: int,
    checked: bool,
) -> bool {
    &&& after.fits(nodes)
    &&& forall|j: int|
        0 <= j < nodes.len() && walk::under(nodes, id, j) ==> #[trigger] after.marks()[j] == checked
    &&& forall|j: int|
        0 <= j < nodes.len() && !walk::under(nodes, id, j) && !walk::under(nodes, j, id)
            ==> #[trigger] after.marks()[j] == before.marks()[j] && after.sums()[j]
            == before.sums()[j]
    &&& forall|a: int|
        0 <= a < nodes.len() && walk::under(nodes, a, id) && a != id ==> #[trigger] after.marks()[a]
            == kids_full(nodes, after.sums(), a)
}

/// The state of the climb from `id` to the root: everything is settled but the
/// ancestors from `parent` upwards.
spec fn climbing(
    nodes: Seq<Node>,
    marks0: Seq<bool>,
    sums0: Seq<Count>,
    marks: Seq<bool>,
    sums: Seq<Count>,
    id: int,
    checked: bool,
    parent: u32,
) -> bool {
    &&& marks.len() == nodes.len()
    &&& sums.len() == nodes.len()
    &&& parent == NONE || (parent < nodes.len() && walk::under(nodes, parent as int, id) && parent
        != id)
    &&& forall|q: int|
        0 <= q < nodes.len() && !(parent != NONE && walk::under(nodes, q, parent as int))
            ==> #[trigger] settled_at(nodes, marks, sums, q)
    &&& forall|j: int|
        0 <= j < nodes.len() && walk::under(nodes, id, j) ==> #[trigger] marks[j] == checked
    &&& forall|j: int|
        0 <= j < nodes.len() && !walk::under(nodes, id, j) && !walk::under(nodes, j, id)
            ==> #[trigger] marks[j] == marks0[j] && sums[j] == sums0[j]
    &&& forall|a: int|
        0 <= a < nodes.len() && walk::under(nodes, a, id) && a != id && !(parent != NONE
            && walk::under(nodes, a, parent as int)) ==> #[trigger] marks[a] == kids_full(
            nodes,
            sums,
            a,
        )
}

/// A listed child is a child.
proof fn lemma_kid_parent(nodes: Seq<Node>, q: int, k: u32)
    requires
        tree::linked(nodes),
        0 <= q < nodes.len(),
        tree::kids(nodes, q).contains(k),
    ensures
        1 <= k < nodes.len(),
        nodes[k as int].parent == q,
        walk::under(nodes, q, k as int),
{
    assert(tree::chain_ok(nodes, q));
    tree::lemma_kids(nodes, q);
    let j = tree::kids(nodes, q).index_of(k);
    assert(tree::kids(nodes, q)[j] == k);
    walk::lemma_under_self(nodes, q);
    walk::lemma_under_parent(nodes, q, k as int);
}

proof fn lemma_climb_step(
    nodes: Seq<Node>,
    rank: Seq<nat>,
    marks0: Seq<bool>,
    sums0: Seq<Count>,
    marks: Seq<bool>,
    sums: Seq<Count>,
    id: int,
    checked: bool,
    a: u32,
    mark: bool,
    sum: Count,
)
    requires
        selectable(nodes),
        tree::ranked(nodes, rank),
        climbing(nodes, marks0, sums0, marks, sums, id, checked, a),
        0 <= id < nodes.len(),
        a != NONE,
        mark == kids_full(nodes, sums, a as int),
        sum == tree::count_add(
            tree::count_over(sums, tree::kids(nodes, a as int)),
            if mark {
                tree::own_count(nodes, a as int)
            } else {
                tree::count_zero()
            },
        ),
    ensures
        climbing(
            nodes,
            marks0,
            sums0,
            marks.update(a as int, mark),
            sums.update(a as int, sum),
            id,
            checked,
            nodes[a as int].parent,
        ),
        nodes[a as int].parent != NONE ==> rank[a as int] < rank[nodes[a as int].parent as int],
{
    let ai = a as int;
    let up = nodes[ai].parent;
    let marks2 = marks.update(ai, mark);
    let sums2 = sums.update(ai, sum);
    let len = nodes.len() as int;
    if ai != 0 {
        assert(nodes[ai].parent < len);
        assert(rank[ai] < rank[up as int]);
        walk::lemma_under_self(nodes, up as int);
        walk::lemma_under_parent(nodes, up as int, ai);
        walk::lemma_under_trans(nodes, up as int, ai, id);
        walk::lemma_under_rank(nodes, rank, ai, id);
    }
    walk::lemma_under_self(nodes, ai);
    lemma_kids_not_waiting(nodes, rank, ai);
    assert forall|q: int|
        0 <= q < len && !(up != NONE && walk::under(nodes, q, up as int)) implies #[trigger] settled_at(
        nodes,
        marks2,
        sums2,
        q,
    ) by {
        let ks = tree::kids(nodes, q);
        assert(tree::chain_ok(nodes, q));
        tree::lemma_kids(nodes, q);
        assert forall|k: u32| #[trigger] ks.contains(k) implies k != a by {
            lemma_kid_parent(nodes, q, k);
            if k == a {
                walk::lemma_under_self(nodes, q);
            }
        }
        assert forall|j: int| 0 <= j < ks.len() implies sums[(#[trigger] ks[j]) as int] == sums2[ks[j] as int] by {
            assert(ks.contains(ks[j]));
        }
        lemma_count_over_same(sums, sums2, ks);
        if q == ai {
            if mark {
                assert forall|k: u32| #[trigger] ks.contains(k) implies marks2[k as int] by {
                    lemma_kid_parent(nodes, q, k);
                    assert forall|r: int| 0 <= r < len && #[trigger] walk::under(nodes, k as int, r) implies settled_at(
                        nodes,
                        marks,
                        sums,
                        r,
                    ) by {
                        lemma_not_waiting(nodes, rank, ai, k as int, r);
                    }
                    lemma_state(nodes, rank, marks, sums, k as int);
                }
            }
        } else {
            if walk::under(nodes, q, ai) {
                walk::lemma_under_parent(nodes, q, ai);
            }
            assert(settled_at(nodes, marks, sums, q));
        }
    }
    assert forall|j: int|
        0 <= j < len && walk::under(nodes, id, j) implies #[trigger] marks2[j] == checked by {
        if j == ai {
            walk::lemma_under_rank(nodes, rank, id, ai);
            walk::lemma_under_rank(nodes, rank, ai, id);
        }
    }
    assert forall|x: int|
        0 <= x < len && walk::under(nodes, x, id) && x != id && !(up != NONE && walk::under(
            nodes,
            x,
            up as int,
        )) implies #[trigger] marks2[x] == kids_full(nodes, sums2, x) by {
        assert forall|k: u32| #[trigger] tree::kids(nodes, x).contains(k) implies sums2[k as int]
            == sums[k as int] by {
            lemma_kid_parent(nodes, x, k);
            if k == a {
                walk::lemma_under_self(nodes, x);
            }
        }
        assert(kids_full(nodes, sums2, x) == kids_full(nodes, sums, x)) by {
            if kids_full(nodes, sums, x) {
                assert forall|k: u32| #[trigger] tree::kids(nodes, x).contains(k) implies state_of(
                    nodes,
                    sums2,
                    k as int,
                ) == 2 by {
                    assert(sums2[k as int] == sums[k as int]);
                }
            }
            if kids_full(nodes, sums2, x) {
                assert forall|k: u32| #[trigger] tree::kids(nodes, x).contains(k) implies state_of(
                    nodes,
                    sums,
                    k as int,
                ) == 2 by {
                    assert(sums2[k as int] == sums[k as int]);
                    assert(state_of(nodes, sums2, k as int) == 2);
                }
            }
        }
        if x != ai {
            if walk::under(nodes, x, ai) {
                walk::lemma_under_parent(nodes, x, ai);
            }
            assert(marks[x] == kids_full(nodes, sums, x));
        }
    }
    assert forall|j: int|
        0 <= j < len && !walk::under(nodes, id, j) && !walk::under(nodes, j, id) implies #[trigger] marks2[j]
        == marks0[j] && sums2[j] == sums0[j] by {
        assert(marks[j] == marks0[j]);
    }
}

/// Nothing below a child of `a` is an ancestor of `a`.
proof fn lemma_not_waiting(nodes: Seq<Node>, rank: Seq<nat>, a: int, k: int, r: int)
    requires
        tree::linked(nodes),
        tree::ranked(nodes, rank),
        0 <= a < nodes.len(),
        1 <= k < nodes.len(),
        nodes[k].parent == a,
        0 <= r < nodes.len(),
        walk::under(nodes, k, r),
    ensures
        !walk::under(nodes, r, a),
{
    assert(rank[k] < rank[nodes[k].parent as int]);
    walk::lemma_under_rank(nodes, rank, k, r);
    if walk::under(nodes, r, a) {
        walk::lemma_under_rank(nodes, rank, r, a);
    }
}

proof fn lemma_kids_not_waiting(nodes: Seq<Node>, rank: Seq<nat>, a: int)
    requires
        tree::linked(nodes),
        tree::ranked(nodes, rank),
        0 <= a < nodes.len(),
    ensures
        forall|k: u32, r: int|
            0 <= r < nodes.len() && #[trigger] tree::kids(nodes, a).contains(k)
                && #[trigger] walk::under(nodes, k as int, r) ==> !walk::under(nodes, r, a),
{
    assert forall|k: u32, r: int|
        0 <= r < nodes.len() && #[trigger] tree::kids(nodes, a).contains(k)
            && #[trigger] walk::under(nodes, k as int, r) implies !walk::under(nodes, r, a) by {
        lemma_kid_parent(nodes, a, k);
        lemma_not_waiting(nodes, rank, a, k as int, r);
    }
}

/// Marking a whole subtree leaves only the ancestors of its top unsettled.
#[verifier::spinoff_prover]
proof fn lemma_subtree_set(
    nodes: Seq<Node>,
    rank: Seq<nat>,
    marks0: Seq<bool>,
    sums0: Seq<Count>,
    marks: Seq<bool>,
    sums: Seq<Count>,
    id: int,
    checked: bool,
)
    requires
        selectable(nodes),
        tree::ranked(nodes, rank),
        settled(nodes, marks0, sums0),
        marks.len() == nodes.len(),
        sums.len() == nodes.len(),
        0 <= id < nodes.len(),
        forall|j: int|
            0 <= j < nodes.len() ==> if walk::under(nodes, id, j) {
                #[trigger] marks[j] == checked && sums[j] == if checked {
                    tree::count_of(nodes[j])
                } else {
                    tree::count_zero()
                }
            } else {
                marks[j] == marks0[j] && sums[j] == sums0[j]
            },
    ensures
        climbing(nodes, marks0, sums0, marks, sums, id, checked, nodes[id].parent),
{
    let len = nodes.len() as int;
    let up = nodes[id].parent;
    walk::lemma_under_self(nodes, id);
    if id != 0 {
        assert(nodes[id].parent < len);
        assert(rank[id] < rank[up as int]);
        walk::lemma_under_self(nodes, up as int);
        walk::lemma_under_parent(nodes, up as int, id);
    }
    assert forall|q: int|
        0 <= q < len && !(up != NONE && walk::under(nodes, q, up as int)) implies #[trigger] settled_at(
        nodes,
        marks,
        sums,
        q,
    ) by {
        let ks = tree::kids(nodes, q);
        assert(marks[q] == if walk::under(nodes, id, q) { checked } else { marks0[q] });
        assert(tree::chain_ok(nodes, q));
        tree::lemma_kids(nodes, q);
        if walk::under(nodes, id, q) {
            assert forall|k: u32| #[trigger] ks.contains(k) implies 1 <= k < len && walk::under(
                nodes,
                id,
                k as int,
            ) by {
                lemma_kid_parent(nodes, q, k);
                walk::lemma_under_parent(nodes, id, k as int);
            }
            if checked {
                assert forall|j: int| 0 <= j < ks.len() implies sums[(#[trigger] ks[j]) as int]
                    == tree::counts(nodes)[ks[j] as int] by {
                    assert(ks.contains(ks[j]));
                    assert(marks[ks[j] as int] == checked);
                }
                lemma_count_over_same(sums, tree::counts(nodes), ks);
                assert(tree::rolled_at(nodes, q));
            } else {
                assert forall|j: int| 0 <= j < ks.len() implies sums[(#[trigger] ks[j]) as int]
                    == tree::count_zero() by {
                    assert(ks.contains(ks[j]));
                    assert(marks[ks[j] as int] == checked);
                }
                lemma_count_over_zero(sums, ks);
            }
        } else {
            assert(settled_at(nodes, marks0, sums0, q));
            assert forall|k: u32| #[trigger] ks.contains(k) implies 1 <= k < len && !walk::under(
                nodes,
                id,
                k as int,
            ) by {
                lemma_kid_parent(nodes, q, k);
                walk::lemma_under_parent(nodes, id, k as int);
                if k == id {
                    walk::lemma_under_self(nodes, q);
                }
            }
            assert forall|j: int| 0 <= j < ks.len() implies sums[(#[trigger] ks[j]) as int]
                == sums0[ks[j] as int] by {
                assert(ks.contains(ks[j]));
                assert(marks[ks[j] as int] == marks0[ks[j] as int]);
            }
            lemma_count_over_same(sums, sums0, ks);
        }
    }
    assert forall|a: int|
        0 <= a < len && walk::under(nodes, a, id) && a != id && !(up != NONE && walk::under(
            nodes,
            a,
            up as int,
        )) implies #[trigger] marks[a] == kids_full(nodes, sums, a) by {
        walk::lemma_under_parent(nodes, a, id);
    }
    assert forall|j: int| 0 <= j < len && walk::under(nodes, id, j) implies #[trigger] marks[j]
        == checked by {}
    assert forall|j: int|
        0 <= j < len && !walk::under(nodes, id, j) && !walk::under(nodes, j, id) implies #[trigger] marks[j]
        == marks0[j] && sums[j] == sums0[j] by {}
}

impl TreeSelection {
    /// Which nodes are selected.
    pub closed spec fn marks(&self) -> Seq<bool> {
        self.selected@
    }

    /// What the selection below each node amounts to.
    pub closed spec fn sums(&self) -> Seq<Count> {
        views(self.totals@)
    }

    /// The selection belongs to this tree and its totals are right.
    pub open spec fn fits(&self, nodes: Seq<Node>) -> bool {
        settled(nodes, self.marks(), self.sums())
    }

    pub fn all(tree: &Snapshot) -> (r: Self)
        ensures
            r.marks() == Seq::new(tree.nodes@.len(), |i: int| true),
            r.sums() == tree::counts(tree.nodes@),
            tree::linked(tree.nodes@) && tree::rolled(tree.nodes@) ==> r.fits(tree.nodes@),
    {
        let mut totals: Vec<Tally> = Vec::new();
        let mut i: usize = 0;
        while i < tree.nodes.len()
            invariant
                i <= tree.nodes.len(),
                totals@.len() == i,
                forall|k: int| 0 <= k < i ==> (#[trigger] totals@[k])@ == tree::count_of(tree.nodes@[k]),
            decreases tree.nodes.len() - i,
        {
            totals.push(Tally::of(&tree.nodes[i]));
            i += 1;
        }
        let r = TreeSelection { selected: vec![true;tree.nodes.len()], totals };
        proof {
            let nodes = tree.nodes@;
            assert(r.marks() =~= Seq::new(nodes.len(), |i: int| true));
            assert(r.sums() =~= tree::counts(nodes));
            if tree::linked(nodes) && tree::rolled(nodes) {
                assert forall|p: int| 0 <= p < nodes.len() implies #[trigger] settled_at(
                    nodes,
                    r.marks(),
                    r.sums(),
                    p,
                ) by {
                    assert(tree::rolled_at(nodes, p));
                    assert forall|k: u32| #[trigger] tree::kids(nodes, p).contains(k) implies r.marks()[k as int] by {
                        lemma_kid_parent(nodes, p, k);
                    }
                }
            }
        }
        r
    }

    pub fn totals(&self, id: u32) -> (r: Tally)
        requires
            id < self.sums().len(),
        ensures
            r@ == self.sums()[id as int],
    {
        self.totals[id as usize]
    }

    pub fn selected(&self, id: u32) -> (r: bool)
        requires
            id < self.marks().len(),
        ensures
            r == self.marks()[id as int],
    {
        self.selected[id as usize]
    }

    pub fn bits(&self) -> (r: Vec<bool>)
        ensures
            r@ == self.marks(),
    {
        let r: Vec<bool> = self.selected.clone();
        assert(r@ =~= self.selected@);
        r
    }

    /// 0 = unchecked, 1 = partially checked, 2 = whole subtree checked.
    pub fn state(&self, tree: &Snapshot, id: u32) -> (r: i32)
        requires
            id < self.sums().len(),
            id < tree.nodes.len(),
        ensures
            r == state_of(tree.nodes@, self.sums(), id as int),
    {
        let n: Node = tree.nodes[id as usize];
        let count: u64 = self.totals(id).items();
        if count == 0 {
            0
        } else if count == n.files as u64 + n.dirs as u64 {
            2
        } else {
            1
        }
    }

    #[verifier::rlimit(50)]
    #[verifier::spinoff_prover]
    /// Checks or unchecks everything below `id`, and brings every ancestor in line.
    pub fn set_subtree(&mut self, tree: &Snapshot, id: u32, checked: bool)
        requires
            selectable(tree.nodes@),
            old(self).fits(tree.nodes@),
            id < tree.nodes.len(),
        ensures
            subtree_set(tree.nodes@, *old(self), *final(self), id as int, checked),
    {
        let ghost nodes = tree.nodes@;
        let ghost len = nodes.len() as int;
        let ghost enter = |k: u32| true;
        let ghost rank = choose|rank: Seq<nat>| tree::ranked(nodes, rank);
        let ghost all = walk::order(nodes, enter, id);
        let ghost mut done: Seq<u32> = Seq::empty();
        let ghost marks0 = self.marks();
        let ghost sums0 = self.sums();
        let mut stack: Vec<u32> = Vec::new();
        stack.push(id);
        proof {
            walk::lemma_order_sound(nodes, enter, rank, id);
            assert(stack@ =~= seq![id]);
            assert(stack@.drop_last() =~= Seq::<u32>::empty());
            assert(walk::orders(nodes, enter, stack@.drop_last()) =~= Seq::<u32>::empty());
            assert(all =~= done + walk::orders(nodes, enter, stack@));
        }
        while stack.len() > 0
            invariant
                nodes == tree.nodes@,
                len == nodes.len(),
                tree::linked(nodes),
                self.marks().len() == len,
                self.sums().len() == len,
                marks0.len() == len,
                sums0.len() == len,
                enter == (|k: u32| true),
                all == done + walk::orders(nodes, enter, stack@),
                all.no_duplicates(),
                forall|j: int| 0 <= j < all.len() ==> (#[trigger] all[j]) < len,
                forall|j: int|
                    0 <= j < len ==> if done.contains(j as u32) {
                        #[trigger] self.marks()[j] == checked && self.sums()[j] == if checked {
                            tree::count_of(nodes[j])
                        } else {
                            tree::count_zero()
                        }
                    } else {
                        self.marks()[j] == marks0[j] && self.sums()[j] == sums0[j]
                    },
            decreases all.len() - done.len(),
        {
            let ghost before = stack@;
            let i: u32 = match stack.pop() {
                Some(i) => i,
                None => 0,
            };
            proof {
                assert(before =~= stack@.push(i));
                assert(before.contains(i)) by {
                    assert(before[before.len() - 1] == i);
                }
                walk::lemma_orders_member(nodes, enter, before, i);
                let w = walk::orders(nodes, enter, before).index_of(i);
                assert(all[done.len() + w] == i);
                walk::lemma_orders_pop(nodes, enter, stack@, i);
                assert(tree::chain_ok(nodes, i as int));
            }
            let ghost marks1 = self.marks();
            let ghost sums1 = self.sums();
            assert forall|j: int| 0 <= j < len implies if done.contains(j as u32) {
                #[trigger] marks1[j] == checked && sums1[j] == if checked {
                    tree::count_of(nodes[j])
                } else {
                    tree::count_zero()
                }
            } else {
                marks1[j] == marks0[j] && sums1[j] == sums0[j]
            } by {
                assert(self.marks()[j] == marks1[j]);
            }
            let t: Tally = if checked {
                Tally::of(&tree.nodes[i as usize])
            } else {
                Tally::default()
            };
            self.selected.set(i as usize, checked);
            self.totals.set(i as usize, t);
            let mut kids: Vec<u32> = tree.child_ids(i);
            let ghost rest = stack@;
            stack.append(&mut kids);
            proof {
                assert(stack@ =~= rest + tree::kids(nodes, i as int));
                assert(self.marks() =~= marks1.update(i as int, checked));
                assert(self.sums() =~= sums1.update(i as int, t@));
                let done2 = done.push(i);
                assert(done + (seq![i] + walk::orders(nodes, enter, stack@)) =~= done2
                    + walk::orders(nodes, enter, stack@));
                assert forall|j: int| 0 <= j < len implies if done2.contains(j as u32) {
                    #[trigger] self.marks()[j] == checked && self.sums()[j] == if checked {
                        tree::count_of(nodes[j])
                    } else {
                        tree::count_zero()
                    }
                } else {
                    self.marks()[j] == marks0[j] && self.sums()[j] == sums0[j]
                } by {
                    if j == i {
                        assert(done2[done.len() as int] == i);
                        assert(done2.contains(j as u32));
                    } else {
                        if done.contains(j as u32) {
                            let w = done.index_of(j as u32);
                            assert(done2[w] == j);
                        }
                        if done2.contains(j as u32) {
                            let w = done2.index_of(j as u32);
                            assert(done[w] == j);
                        }
                    }
                }
                done = done2;
            }
        }
        proof {
            assert(walk::orders(nodes, enter, stack@) =~= Seq::<u32>::empty());
            assert(all =~= done);
            assert forall|j: int| 0 <= j < len implies if walk::under(nodes, id as int, j) {
                #[trigger] self.marks()[j] == checked && self.sums()[j] == if checked {
                    tree::count_of(nodes[j])
                } else {
                    tree::count_zero()
                }
            } else {
                self.marks()[j] == marks0[j] && self.sums()[j] == sums0[j]
            } by {
                if walk::under(nodes, id as int, j) {
                    walk::lemma_order_complete(nodes, enter, id, j);
                } else {
                    if all.contains(j as u32) {
                        let w = all.index_of(j as u32);
                        assert(walk::under(nodes, id as int, all[w] as int));
                    }
                }
            }
            lemma_subtree_set(
                nodes,
                rank,
                marks0,
                sums0,
                self.marks(),
                self.sums(),
                id as int,
                checked,
            );
        }
        let mut parent: u32 = tree.nodes[id as usize].parent;
        while parent != NONE
            invariant
                nodes == tree.nodes@,
                len == nodes.len(),
                selectable(nodes),
                id < len,
                tree::ranked(nodes, rank),
                climbing(
                    nodes,
                    marks0,
                    sums0,
                    self.marks(),
                    self.sums(),
                    id as int,
                    checked,
                    parent,
                ),
            decreases
                    if parent == NONE {
                        0
                    } else {
                        len - rank[parent as int]
                    },
        {
            let node: Node = tree.nodes[parent as usize];
            let ghost a = parent as int;
            let ghost marks1 = self.marks();
            let ghost sums1 = self.sums();
            let ghost counts = tree::counts(nodes);
            assert(tree::chain_ok(nodes, a));
            assert(tree::rolled_at(nodes, a));
            let kids: Vec<u32> = tree.child_ids(parent);
            proof {
                tree::lemma_kids(nodes, a);
                lemma_kids_not_waiting(nodes, rank, a);
                assert forall|j: int| 0 <= j < kids@.len() implies 1 <= (#[trigger] kids@[j]) < len
                    && sums1[kids@[j] as int].within(counts[kids@[j] as int]) && (
                state_of(nodes, sums1, kids@[j] as int) == 2 ==> sums1[kids@[j] as int]
                    == counts[kids@[j] as int]) by {
                    let k = kids@[j];
                    assert(kids@.contains(k));
                    lemma_kid_parent(nodes, a, k);
                    assert forall|r: int|
                        0 <= r < len && #[trigger] walk::under(nodes, k as int, r) implies settled_at(
                        nodes,
                        marks1,
                        sums1,
                        r,
                    ) by {}
                    lemma_state(nodes, rank, marks1, sums1, k as int);
                }
                lemma_count_over_within(sums1, counts, kids@);
            }
            let mut children_total = Tally::default();
            let mut selected_total = Tally::default();
            let mut all: bool = true;
            let mut i: usize = 0;
            assert(kids@.subrange(0, 0) =~= Seq::<u32>::empty());
            while i < kids.len()
                invariant
                    i <= kids.len(),
                    nodes == tree.nodes@,
                    len == nodes.len(),
                    a == parent,
                    a < len,
                    node == nodes[a],
                    kids@ == tree::kids(nodes, a),
                    tree::rolled_at(nodes, a),
                    counts == tree::counts(nodes),
                    self.marks() == marks1,
                    self.sums() == sums1,
                    sums1.len() == len,
                    tree::count_over(sums1, kids@).within(tree::count_over(counts, kids@)),
                    forall|j: int| 0 <= j < kids@.len() ==> 1 <= (#[trigger] kids@[j]) < len,
                    children_total@ == tree::count_over(counts, kids@.subrange(0, i as int)),
                    selected_total@ == tree::count_over(sums1, kids@.subrange(0, i as int)),
                    all == forall|j: int|
                        0 <= j < i ==> state_of(nodes, sums1, (#[trigger] kids@[j]) as int) == 2,
                decreases kids.len() - i,
            {
                let child: u32 = kids[i];
                proof {
                    lemma_count_over_prefix(counts, kids@, i + 1);
                    lemma_count_over_prefix(sums1, kids@, i + 1);
                    assert(kids@.subrange(0, i + 1).drop_last() =~= kids@.subrange(0, i as int));
                    assert(kids@.subrange(0, i + 1).last() == child);
                }
                children_total = children_total.add(Tally::of(&tree.nodes[child as usize]));
                selected_total = selected_total.add(self.totals(child));
                let full: bool = self.state(tree, child) == 2;
                all = all && full;
                i += 1;
            }
            proof {
                assert(kids@.subrange(0, i as int) =~= kids@);
                assert(all == kids_full(nodes, sums1, a)) by {
                    if all {
                        assert forall|k: u32| #[trigger] tree::kids(nodes, a).contains(k) implies state_of(
                            nodes,
                            sums1,
                            k as int,
                        ) == 2 by {
                            let w = kids@.index_of(k);
                            assert(kids@[w] == k);
                        }
                    } else {
                        let j = choose|j: int|
                            0 <= j < i && state_of(nodes, sums1, (#[trigger] kids@[j]) as int) != 2;
                        assert(tree::kids(nodes, a).contains(kids@[j]));
                    }
                }
                if all {
                    assert forall|j: int| 0 <= j < kids@.len() implies sums1[(#[trigger] kids@[j]) as int]
                        == counts[kids@[j] as int] by {
                        assert(state_of(nodes, sums1, kids@[j] as int) == 2);
                    }
                    lemma_count_over_same(sums1, counts, kids@);
                }
            }
            if all {
                let own = Tally {
                    allocated: node.allocated.saturating_sub(children_total.allocated),
                    logical: node.logical.saturating_sub(children_total.logical),
                    files: if node.is_dir() {
                        0
                    } else {
                        1
                    },
                    dirs: if node.is_dir() {
                        1
                    } else {
                        0
                    },
                };
                assert(own@ == tree::own_count(nodes, a));
                selected_total = selected_total.add(own);
            }
            proof {
                lemma_climb_step(
                    nodes,
                    rank,
                    marks0,
                    sums0,
                    marks1,
                    sums1,
                    id as int,
                    checked,
                    parent,
                    all,
                    selected_total@,
                );
            }
            self.selected.set(parent as usize, all);
            self.totals.set(parent as usize, selected_total);
            assert(self.marks() =~= marks1.update(a, all));
            assert(self.sums() =~= sums1.update(a, selected_total@));
            parent = node.parent;
        }
    }

    pub fn len(&self) -> (r: usize)
        ensures
            r == self.marks().len(),
    {
        self.selected.len()
    }

    pub fn is_empty(&self) -> (r: bool)
        ensures
            r == (self.marks().len() == 0),
    {
        self.selected.len() == 0
    }
}

proof fn lemma_count_over_within(a: Seq<Count>, b: Seq<Count>, ids: Seq<u32>)
    requires
        forall|j: int|
            0 <= j < ids.len() ==> a[(#[trigger] ids[j]) as int].within(b[ids[j] as int]),
    ensures
        tree::count_over(a, ids).within(tree::count_over(b, ids)),
    decreases ids.len(),
{
    if ids.len() > 0 {
        lemma_count_over_within(a, b, ids.drop_last());
        assert(a[ids[ids.len() - 1] as int].within(b[ids[ids.len() - 1] as int]));
    }
}

/// The walk that descends into partly selected nodes only.
pub open spec fn partly(nodes: Seq<Node>, sums: Seq<Count>) -> spec_fn(u32) -> bool {
    |k: u32| state_of(nodes, sums, k as int) == 1
}

pub open spec fn wholly(nodes: Seq<Node>, sums: Seq<Count>) -> spec_fn(u32) -> bool {
    |k: u32| state_of(nodes, sums, k as int) == 2
}

/// The topmost wholly selected nodes, in the order of the walk from the root.
pub open spec fn roots_of(nodes: Seq<Node>, sums: Seq<Count>) -> Seq<u32> {
    walk::order(nodes, partly(nodes, sums), 0).filter(wholly(nodes, sums))
}

impl TreeSelection {
    /// Top-level selected subtrees, so nested children are never double-counted.
    pub fn selected_roots(&self, tree: &Snapshot) -> (r: Vec<u32>)
        requires
            tree::linked(tree.nodes@),
            self.fits(tree.nodes@),
        ensures
            r@ == roots_of(tree.nodes@, self.sums()),
    {
        let ghost nodes = tree.nodes@;
        let ghost enter = partly(nodes, self.sums());
        let ghost keep = wholly(nodes, self.sums());
        let ghost rank = choose|rank: Seq<nat>| tree::ranked(nodes, rank);
        let ghost all = walk::order(nodes, enter, 0);
        let ghost mut done: Seq<u32> = Seq::empty();
        let mut roots: Vec<u32> = Vec::new();
        let mut stack: Vec<u32> = Vec::new();
        stack.push(0);
        proof {
            walk::lemma_order_sound(nodes, enter, rank, 0);
            assert(stack@ =~= seq![0u32]);
            assert(stack@.drop_last() =~= Seq::<u32>::empty());
            assert(walk::orders(nodes, enter, stack@.drop_last()) =~= Seq::<u32>::empty());
            assert(all =~= done + walk::orders(nodes, enter, stack@));
            reveal(Seq::filter);
        }
        while stack.len() > 0
            invariant
                nodes == tree.nodes@,
                tree::linked(nodes),
                self.fits(nodes),
                enter == partly(nodes, self.sums()),
                keep == wholly(nodes, self.sums()),
                all == done + walk::orders(nodes, enter, stack@),
                forall|j: int| 0 <= j < all.len() ==> (#[trigger] all[j]) < nodes.len(),
                roots@ == done.filter(keep),
            decreases all.len() - done.len(),
        {
            let ghost before = stack@;
            let id: u32 = match stack.pop() {
                Some(i) => i,
                None => 0,
            };
            proof {
                assert(before =~= stack@.push(id));
                assert(before[before.len() - 1] == id);
                assert(before.contains(id));
                walk::lemma_orders_member(nodes, enter, before, id);
                let w = walk::orders(nodes, enter, before).index_of(id);
                assert(all[done.len() + w] == id);
                walk::lemma_orders_pop(nodes, enter, stack@, id);
                assert(tree::chain_ok(nodes, id as int));
                assert(done.push(id).drop_last() =~= done);
                reveal(Seq::filter);
            }
            let ghost rest = stack@;
            let state: i32 = self.state(tree, id);
            if state == 2 {
                roots.push(id);
            } else if state == 1 {
                let mut kids: Vec<u32> = tree.child_ids(id);
                stack.append(&mut kids);
                assert(stack@ =~= rest + tree::kids(nodes, id as int));
            }
            proof {
                assert(done + (seq![id] + walk::orders(nodes, enter, stack@)) =~= done.push(id)
                    + walk::orders(nodes, enter, stack@));
                done = done.push(id);
            }
        }
        proof {
            assert(walk::orders(nodes, enter, stack@) =~= Seq::<u32>::empty());
            assert(all =~= done);
        }
        roots
    }
}

/// State 2 means that everything below is selected, state 0 that nothing is.
pub proof fn law_state_tells_the_subtree(sel: TreeSelection, nodes: Seq<Node>, p: int)
    requires
        selectable(nodes),
        sel.fits(nodes),
        0 <= p < nodes.len(),
    ensures
        state_of(nodes, sel.sums(), p) == 2 <==> forall|q: int|
            0 <= q < nodes.len() && #[trigger] walk::under(nodes, p, q) ==> sel.marks()[q],
        state_of(nodes, sel.sums(), p) == 0 <==> forall|q: int|
            0 <= q < nodes.len() && #[trigger] walk::under(nodes, p, q) ==> !sel.marks()[q],
{
    let rank = choose|rank: Seq<nat>| tree::ranked(nodes, rank);
    lemma_state(nodes, rank, sel.marks(), sel.sums(), p);
    walk::lemma_under_self(nodes, p);
    lemma_items_positive(nodes, p);
}

/// Every subtree of a rolled-up tree holds at least its own top.
proof fn lemma_items_positive(nodes: Seq<Node>, p: int)
    requires
        tree::rolled(nodes),
        0 <= p < nodes.len(),
    ensures
        tree::count_of(nodes[p]).items() > 0,
{
    assert(tree::rolled_at(nodes, p));
}

/// A partially checked directory is never itself selected.
pub proof fn law_partial_is_kept(sel: TreeSelection, nodes: Seq<Node>, p: int)
    requires
        selectable(nodes),
        sel.fits(nodes),
        0 <= p < nodes.len(),
        state_of(nodes, sel.sums(), p) == 1,
    ensures
        !sel.marks()[p],
{
    let rank = choose|rank: Seq<nat>| tree::ranked(nodes, rank);
    lemma_state(nodes, rank, sel.marks(), sel.sums(), p);
}

/// A selected node is selected with everything below it.
pub proof fn law_selected_is_closed(sel: TreeSelection, nodes: Seq<Node>, p: int, q: int)
    requires
        selectable(nodes),
        sel.fits(nodes),
        0 <= p < nodes.len(),
        0 <= q < nodes.len(),
        walk::under(nodes, p, q),
        sel.marks()[p],
    ensures
        sel.marks()[q],
{
    let rank = choose|rank: Seq<nat>| tree::ranked(nodes, rank);
    lemma_state(nodes, rank, sel.marks(), sel.sums(), p);
}

/// The number of listed nodes that are marked.
pub open spec fn marked_in(marks: Seq<bool>, ids: Seq<u32>) -> nat
    decreases ids.len(),
{
    if ids.len() == 0 {
        0
    } else {
        marked_in(marks, ids.drop_last()) + if marks[ids.last() as int] {
            1nat
        } else {
            0nat
        }
    }
}

proof fn lemma_marked_append(marks: Seq<bool>, a: Seq<u32>, b: Seq<u32>)
    ensures
        marked_in(marks, a + b) == marked_in(marks, a) + marked_in(marks, b),
    decreases b.len(),
{
    if b.len() == 0 {
        assert(a + b =~= a);
    } else {
        lemma_marked_append(marks, a, b.drop_last());
        assert((a + b).drop_last() =~= a + b.drop_last());
    }
}

/// The item count of a node's total is the number of selected nodes below it.
pub proof fn law_totals_count_selected(sel: TreeSelection, nodes: Seq<Node>, p: u32)
    requires
        selectable(nodes),
        sel.fits(nodes),
        p < nodes.len(),
    ensures
        sel.sums()[p as int].items() == marked_in(
            sel.marks(),
            walk::order(nodes, |k: u32| true, p),
        ),
{
    let rank = choose|rank: Seq<nat>| tree::ranked(nodes, rank);
    lemma_items_marked(nodes, rank, sel.marks(), sel.sums(), p);
}

proof fn lemma_items_marked(
    nodes: Seq<Node>,
    rank: Seq<nat>,
    marks: Seq<bool>,
    sums: Seq<Count>,
    p: u32,
)
    requires
        tree::linked(nodes),
        tree::ranked(nodes, rank),
        settled(nodes, marks, sums),
        p < nodes.len(),
    ensures
        sums[p as int].items() == marked_in(marks, walk::order(nodes, |k: u32| true, p)),
    decreases rank[p as int] + 1, 0nat,
{
    let enter = |k: u32| true;
    let ks = tree::kids(nodes, p as int);
    walk::lemma_order_unfold(nodes, enter, p);
    assert(settled_at(nodes, marks, sums, p as int));
    assert forall|j: int| 0 <= j < ks.len() implies (#[trigger] ks[j]) < nodes.len() && rank[ks[j] as int]
        < rank[p as int] by {
        assert(ks.contains(ks[j]));
        lemma_kid_parent(nodes, p as int, ks[j]);
        assert(rank[ks[j] as int] < rank[nodes[ks[j] as int].parent as int]);
    }
    lemma_items_marked_list(nodes, rank, marks, sums, ks, rank[p as int]);
    lemma_marked_append(marks, seq![p], walk::orders(nodes, enter, ks));
    reveal_with_fuel(marked_in, 2);
    assert(seq![p].drop_last() =~= Seq::<u32>::empty());
}

proof fn lemma_items_marked_list(
    nodes: Seq<Node>,
    rank: Seq<nat>,
    marks: Seq<bool>,
    sums: Seq<Count>,
    ids: Seq<u32>,
    bound: nat,
)
    requires
        tree::linked(nodes),
        tree::ranked(nodes, rank),
        settled(nodes, marks, sums),
        forall|j: int|
            0 <= j < ids.len() ==> (#[trigger] ids[j]) < nodes.len() && rank[ids[j] as int] < bound,
    ensures
        tree::count_over(sums, ids).items() == marked_in(
            marks,
            walk::orders(nodes, |k: u32| true, ids),
        ),
    decreases bound, ids.len(),
{
    let enter = |k: u32| true;
    if ids.len() > 0 {
        lemma_items_marked(nodes, rank, marks, sums, ids.last());
        lemma_items_marked_list(nodes, rank, marks, sums, ids.drop_last(), bound);
        lemma_marked_append(
            marks,
            walk::order(nodes, enter, ids.last()),
            walk::orders(nodes, enter, ids.drop_last()),
        );
    }
}

/// The figures of the selected roots add up to the whole selection: nothing selected is
/// missed and nothing is counted twice.
pub proof fn law_roots_add_up(sel: TreeSelection, nodes: Seq<Node>)
    requires
        selectable(nodes),
        sel.fits(nodes),
    ensures
        tree::count_over(tree::counts(nodes), roots_of(nodes, sel.sums())) == sel.sums()[0],
        roots_of(nodes, sel.sums()).no_duplicates(),
{
    let rank = choose|rank: Seq<nat>| tree::ranked(nodes, rank);
    lemma_roots(nodes, rank, sel.marks(), sel.sums(), 0);
    let all = walk::order(nodes, partly(nodes, sel.sums()), 0);
    walk::lemma_order_sound(nodes, partly(nodes, sel.sums()), rank, 0);
    lemma_filter_distinct(all, wholly(nodes, sel.sums()));
}

/// A selected node whose parent is not selected.
pub open spec fn topmost(nodes: Seq<Node>, marks: Seq<bool>, k: int) -> bool {
    &&& marks[k]
    &&& k == 0 || !marks[nodes[k].parent as int]
}

/// The selected roots are the selected nodes that have no selected parent, each once.
pub proof fn law_roots_are_topmost(sel: TreeSelection, nodes: Seq<Node>)
    requires
        selectable(nodes),
        sel.fits(nodes),
    ensures
        roots_of(nodes, sel.sums()).no_duplicates(),
        forall|k: u32| #[trigger]
            roots_of(nodes, sel.sums()).contains(k) <==> k < nodes.len() && topmost(
                nodes,
                sel.marks(),
                k as int,
            ),
{
    let rank = choose|rank: Seq<nat>| tree::ranked(nodes, rank);
    let sums = sel.sums();
    let marks = sel.marks();
    let enter = partly(nodes, sums);
    let keep = wholly(nodes, sums);
    let all = walk::order(nodes, enter, 0);
    law_roots_add_up(sel, nodes);
    walk::lemma_order_sound(nodes, enter, rank, 0);
    walk::lemma_order_members(nodes, enter, rank, 0);
    assert forall|k: u32| #[trigger] roots_of(nodes, sums).contains(k) implies k < nodes.len()
        && topmost(nodes, marks, k as int) by {
        let w = roots_of(nodes, sums).index_of(k);
        all.lemma_filter_contains_rev(keep, k);
        all.lemma_filter_pred(keep, w);
        assert(all[all.index_of(k)] < nodes.len());
        lemma_state(nodes, rank, marks, sums, k as int);
        if k != 0 {
            let q = nodes[k as int].parent;
            assert(walk::reached(nodes, enter, all, k));
            law_partial_is_kept(sel, nodes, q as int);
        }
    }
    assert forall|k: u32| k < nodes.len() && topmost(nodes, marks, k as int) implies #[trigger] roots_of(
        nodes,
        sums,
    ).contains(k) by {
        lemma_state(nodes, rank, marks, sums, k as int);
        lemma_items_positive(nodes, k as int);
        walk::lemma_under_self(nodes, k as int);
        if k != 0 {
            walk::lemma_under_self(nodes, nodes[k as int].parent as int);
            lemma_way_is_partly(sel, nodes, rank, k, nodes[k as int].parent);
            assert(walk::reached(nodes, enter, all, k));
        }
        assert(all.contains(k));
        assert(keep(k));
        all.lemma_filter_contains(keep, all.index_of(k));
    }
}

/// The walk for the roots comes by every node above a topmost one.
proof fn lemma_way_is_partly(
    sel: TreeSelection,
    nodes: Seq<Node>,
    rank: Seq<nat>,
    k: u32,
    a: u32,
)
    requires
        selectable(nodes),
        sel.fits(nodes),
        tree::ranked(nodes, rank),
        1 <= k < nodes.len(),
        topmost(nodes, sel.marks(), k as int),
        a < nodes.len(),
        walk::under(nodes, a as int, nodes[k as int].parent as int),
    ensures
        partly(nodes, sel.sums())(a),
        walk::order(nodes, partly(nodes, sel.sums()), 0).contains(a),
    decreases nodes.len() - rank[a as int],
{
    let enter = partly(nodes, sel.sums());
    let all = walk::order(nodes, enter, 0);
    let q = nodes[k as int].parent as int;
    walk::lemma_order_members(nodes, enter, rank, 0);
    walk::lemma_under_parent(nodes, a as int, k as int);
    if sel.marks()[a as int] {
        law_selected_is_closed(sel, nodes, a as int, q);
    }
    law_state_tells_the_subtree(sel, nodes, a as int);
    walk::lemma_under_self(nodes, a as int);
    assert(partly(nodes, sel.sums())(a));
    if a != 0 {
        let b = nodes[a as int].parent;
        walk::lemma_under_self(nodes, b as int);
        walk::lemma_under_parent(nodes, b as int, a as int);
        walk::lemma_under_trans(nodes, b as int, a as int, q);
        assert(rank[a as int] < rank[nodes[a as int].parent as int]);
        lemma_way_is_partly(sel, nodes, rank, k, b);
        assert(walk::reached(nodes, enter, all, a));
    }
}

/// No selected root lies below another, and a node is selected exactly if it lies in the
/// subtree of a selected root; that root is then the only one.
pub proof fn law_roots_part_the_selection(sel: TreeSelection, nodes: Seq<Node>)
    requires
        selectable(nodes),
        sel.fits(nodes),
    ensures
        forall|a: u32, b: u32|
            #![trigger roots_of(nodes, sel.sums()).contains(a), roots_of(nodes, sel.sums()).contains(b)]
            roots_of(nodes, sel.sums()).contains(a) && roots_of(nodes, sel.sums()).contains(b) && a
                != b ==> !walk::under(nodes, a as int, b as int),
        forall|n: int|
            0 <= n < nodes.len() ==> (#[trigger] sel.marks()[n] <==> exists|r: u32| #[trigger]
                roots_of(nodes, sel.sums()).contains(r) && walk::under(nodes, r as int, n)),
        forall|n: int, a: u32, b: u32|
            #![trigger walk::under(nodes, a as int, n), walk::under(nodes, b as int, n)]
            0 <= n < nodes.len() && roots_of(nodes, sel.sums()).contains(a) && roots_of(
                nodes,
                sel.sums(),
            ).contains(b) && walk::under(nodes, a as int, n) && walk::under(nodes, b as int, n)
                ==> a == b,
{
    let rank = choose|rank: Seq<nat>| tree::ranked(nodes, rank);
    let roots = roots_of(nodes, sel.sums());
    law_roots_are_topmost(sel, nodes);
    assert forall|a: u32, b: u32|
        #![trigger roots.contains(a), roots.contains(b)]
        roots.contains(a) && roots.contains(b) && a != b implies !walk::under(
        nodes,
        a as int,
        b as int,
    ) by {
        if walk::under(nodes, a as int, b as int) {
            walk::lemma_under_parent(nodes, a as int, b as int);
            law_selected_is_closed(sel, nodes, a as int, nodes[b as int].parent as int);
        }
    }
    assert forall|n: int| 0 <= n < nodes.len() implies (#[trigger] sel.marks()[n] <==> exists|
        r: u32,
    | #[trigger]
        roots.contains(r) && walk::under(nodes, r as int, n)) by {
        if sel.marks()[n] {
            let r = lemma_topmost_above(sel, nodes, rank, n);
            assert(roots.contains(r));
        }
        if exists|r: u32| #[trigger] roots.contains(r) && walk::under(nodes, r as int, n) {
            let r = choose|r: u32| #[trigger]
                roots.contains(r) && walk::under(nodes, r as int, n);
            law_selected_is_closed(sel, nodes, r as int, n);
        }
    }
    assert forall|n: int, a: u32, b: u32|
        #![trigger walk::under(nodes, a as int, n), walk::under(nodes, b as int, n)]
        0 <= n < nodes.len() && roots.contains(a) && roots.contains(b) && walk::under(
            nodes,
            a as int,
            n,
        ) && walk::under(nodes, b as int, n) implies a == b by {
        walk::lemma_under_line(nodes, a as int, b as int, n);
    }
}

/// Above a selected node, or at it, stands a topmost one.
proof fn lemma_topmost_above(sel: TreeSelection, nodes: Seq<Node>, rank: Seq<nat>, n: int) -> (r: u32)
    requires
        selectable(nodes),
        sel.fits(nodes),
        tree::ranked(nodes, rank),
        0 <= n < nodes.len(),
        sel.marks()[n],
    ensures
        r < nodes.len(),
        topmost(nodes, sel.marks(), r as int),
        walk::under(nodes, r as int, n),
    decreases nodes.len() - rank[n],
{
    if topmost(nodes, sel.marks(), n) {
        walk::lemma_under_self(nodes, n);
        n as u32
    } else {
        let q = nodes[n].parent as int;
        assert(rank[n] < rank[nodes[n].parent as int]);
        let r = lemma_topmost_above(sel, nodes, rank, q);
        walk::lemma_under_parent(nodes, r as int, n);
        r
    }
}

proof fn lemma_filter_distinct(s: Seq<u32>, keep: spec_fn(u32) -> bool)
    requires
        s.no_duplicates(),
    ensures
        s.filter(keep).no_duplicates(),
        forall|x: u32| #[trigger] s.filter(keep).contains(x) ==> s.contains(x),
    decreases s.len(),
{
    reveal(Seq::filter);
    if s.len() > 0 {
        let t = s.drop_last();
        lemma_filter_distinct(t, keep);
        let f = t.filter(keep);
        assert forall|x: u32| #[trigger] s.filter(keep).contains(x) implies s.contains(x) by {
            if f.contains(x) {
                assert(t.contains(x));
                let w = t.index_of(x);
                assert(s[w] == x);
            } else {
                let w = s.filter(keep).index_of(x);
                assert(w == f.len());
                assert(s[s.len() - 1] == x);
            }
        }
        if keep(s.last()) {
            assert(s.filter(keep) =~= f.push(s.last()));
            if f.contains(s.last()) {
                assert(t.contains(s.last()));
                let w = t.index_of(s.last());
                assert(s[w] == s[s.len() - 1]);
            }
            assert forall|a: int, b: int|
                0 <= a < s.filter(keep).len() && 0 <= b < s.filter(keep).len() && a != b implies s.filter(
            keep)[a] != s.filter(keep)[b] by {
                if a == f.len() {
                    assert(f.contains(f[b]));
                } else if b == f.len() {
                    assert(f.contains(f[a]));
                }
            }
        }
    }
}

proof fn lemma_filter_append(a: Seq<u32>, b: Seq<u32>, keep: spec_fn(u32) -> bool)
    ensures
        (a + b).filter(keep) == a.filter(keep) + b.filter(keep),
    decreases b.len(),
{
    reveal(Seq::filter);
    if b.len() == 0 {
        assert(a + b =~= a);
        assert(a.filter(keep) + b.filter(keep) =~= a.filter(keep));
    } else {
        lemma_filter_append(a, b.drop_last(), keep);
        assert((a + b).drop_last() =~= a + b.drop_last());
        assert((a + b).filter(keep) =~= a.filter(keep) + b.filter(keep));
    }
}

proof fn lemma_count_over_append(c: Seq<Count>, a: Seq<u32>, b: Seq<u32>)
    ensures
        tree::count_over(c, a + b) == tree::count_add(
            tree::count_over(c, a),
            tree::count_over(c, b),
        ),
    decreases b.len(),
{
    if b.len() == 0 {
        assert(a + b =~= a);
    } else {
        lemma_count_over_append(c, a, b.drop_last());
        assert((a + b).drop_last() =~= a + b.drop_last());
    }
}

proof fn lemma_roots(
    nodes: Seq<Node>,
    rank: Seq<nat>,
    marks: Seq<bool>,
    sums: Seq<Count>,
    p: u32,
)
    requires
        tree::linked(nodes),
        tree::rolled(nodes),
        tree::ranked(nodes, rank),
        settled(nodes, marks, sums),
        p < nodes.len(),
    ensures
        tree::count_over(
            tree::counts(nodes),
            walk::order(nodes, partly(nodes, sums), p).filter(wholly(nodes, sums)),
        ) == sums[p as int],
    decreases rank[p as int] + 1, 0nat,
{
    let enter = partly(nodes, sums);
    let keep = wholly(nodes, sums);
    let ks = tree::kids(nodes, p as int);
    let c = tree::counts(nodes);
    walk::lemma_order_unfold(nodes, enter, p);
    assert(settled_at(nodes, marks, sums, p as int));
    lemma_state(nodes, rank, marks, sums, p as int);
    reveal(Seq::filter);
    reveal_with_fuel(tree::count_over, 2);
    assert(seq![p].drop_last() =~= Seq::<u32>::empty());
    let own = seq![p].filter(keep);
    assert(Seq::<u32>::empty().filter(keep) =~= Seq::<u32>::empty());
    assert(seq![p].drop_last().filter(keep) =~= Seq::<u32>::empty());
    assert(seq![p].last() == p);
    if enter(p) {
        assert(!keep(p));
        assert forall|j: int| 0 <= j < ks.len() implies (#[trigger] ks[j]) < nodes.len()
            && rank[ks[j] as int] < rank[p as int] by {
            assert(ks.contains(ks[j]));
            lemma_kid_parent(nodes, p as int, ks[j]);
            assert(rank[ks[j] as int] < rank[nodes[ks[j] as int].parent as int]);
        }
        lemma_roots_list(nodes, rank, marks, sums, ks, rank[p as int]);
        lemma_filter_append(seq![p], walk::orders(nodes, enter, ks), keep);
        assert(own =~= Seq::<u32>::empty());
        assert(own + walk::orders(nodes, enter, ks).filter(keep) =~= walk::orders(
            nodes,
            enter,
            ks,
        ).filter(keep));
    } else {
        assert(walk::order(nodes, enter, p) =~= seq![p]);
        if keep(p) {
            assert(own =~= seq![p]);
        } else {
            assert(own =~= Seq::<u32>::empty());
        }
    }
}

proof fn lemma_roots_list(
    nodes: Seq<Node>,
    rank: Seq<nat>,
    marks: Seq<bool>,
    sums: Seq<Count>,
    ids: Seq<u32>,
    bound: nat,
)
    requires
        tree::linked(nodes),
        tree::rolled(nodes),
        tree::ranked(nodes, rank),
        settled(nodes, marks, sums),
        forall|j: int|
            0 <= j < ids.len() ==> (#[trigger] ids[j]) < nodes.len() && rank[ids[j] as int] < bound,
    ensures
        tree::count_over(
            tree::counts(nodes),
            walk::orders(nodes, partly(nodes, sums), ids).filter(wholly(nodes, sums)),
        ) == tree::count_over(sums, ids),
    decreases bound, ids.len(),
{
    let enter = partly(nodes, sums);
    let keep = wholly(nodes, sums);
    if ids.len() > 0 {
        lemma_roots(nodes, rank, marks, sums, ids.last());
        lemma_roots_list(nodes, rank, marks, sums, ids.drop_last(), bound);
        let top = walk::order(nodes, enter, ids.last());
        let rest = walk::orders(nodes, enter, ids.drop_last());
        lemma_filter_append(top, rest, keep);
        lemma_count_over_append(tree::counts(nodes), top.filter(keep), rest.filter(keep));
    } else {
        reveal(Seq::filter);
        assert(walk::orders(nodes, enter, ids).filter(keep) =~= Seq::<u32>::empty());
    }
}

/// A total without items means that nothing below is selected.
pub proof fn lemma_nothing_marked(nodes: Seq<Node>, marks: Seq<bool>, sums: Seq<Count>, p: int)
    requires
        selectable(nodes),
        settled(nodes, marks, sums),
        0 <= p < nodes.len(),
        sums[p].items() == 0,
    ensures
        forall|q: int| 0 <= q < nodes.len() && #[trigger] walk::under(nodes, p, q) ==> !marks[q],
{
    let rank = choose|rank: Seq<nat>| tree::ranked(nodes, rank);
    lemma_state(nodes, rank, marks, sums, p);
}

/// What is selected below a node is within the node's figures.
pub proof fn lemma_within(nodes: Seq<Node>, marks: Seq<bool>, sums: Seq<Count>, p: int)
    requires
        selectable(nodes),
        settled(nodes, marks, sums),
        0 <= p < nodes.len(),
    ensures
        sums[p].within(tree::count_of(nodes[p])),
{
    let rank = choose|rank: Seq<nat>| tree::ranked(nodes, rank);
    lemma_state(nodes, rank, marks, sums, p);
}

/// The topmost selected nodes are nodes of the tree.
pub proof fn lemma_roots_inside(nodes: Seq<Node>, sums: Seq<Count>)
    requires
        tree::linked(nodes),
    ensures
        forall|i: int|
            0 <= i < roots_of(nodes, sums).len() ==> (#[trigger] roots_of(nodes, sums)[i])
                < nodes.len(),
{
    let rank = choose|rank: Seq<nat>| tree::ranked(nodes, rank);
    let all = walk::order(nodes, partly(nodes, sums), 0);
    walk::lemma_order_sound(nodes, partly(nodes, sums), rank, 0);
    let roots = roots_of(nodes, sums);
    assert forall|i: int| 0 <= i < roots.len() implies (#[trigger] roots[i]) < nodes.len() by {
        all.lemma_filter_contains_rev(wholly(nodes, sums), roots[i]);
        let w = all.index_of(roots[i]);
        assert(all[w] < nodes.len());
    }
}

proof fn lemma_count_over_grows(c: Seq<Count>, ids: Seq<u32>, a: int, b: int)
    requires
        0 <= a <= b <= ids.len(),
    ensures
        tree::count_over(c, ids.subrange(0, a)).within(tree::count_over(c, ids.subrange(0, b))),
    decreases b,
{
    if a < b {
        lemma_count_over_grows(c, ids, a, b - 1);
        assert(ids.subrange(0, b).drop_last() =~= ids.subrange(0, b - 1));
    }
}

/// Whether a node's figures are its own and those of its children.
fn adds_up_at(s: &Snapshot, p: u32) -> (r: bool)
    requires
        tree::linked(s.nodes@),
        p < s.nodes.len(),
    ensures
        r == tree::rolled_at(s.nodes@, p as int),
{
    assert(tree::chain_ok(s.nodes@, p as int));
    let ids: Vec<u32> = s.child_ids(p);
    let ghost c = tree::counts(s.nodes@);
    let mut allocated: u64 = 0;
    let mut logical: u64 = 0;
    let mut files: u64 = 0;
    let mut dirs: u64 = 0;
    let mut i: usize = 0;
    assert(ids@.subrange(0, 0) =~= Seq::<u32>::empty());
    proof {
        tree::lemma_kids(s.nodes@, p as int);
        assert(ids@.subrange(0, ids@.len() as int) =~= ids@);
    }
    let n: Node = s.nodes[p as usize];
    while i < ids.len()
        invariant
            i <= ids@.len(),
            ids@ == tree::kids(s.nodes@, p as int),
            ids@.subrange(0, ids@.len() as int) == ids@,
            forall|j: int| 0 <= j < ids@.len() ==> (#[trigger] ids@[j]) < s.nodes@.len(),
            c == tree::counts(s.nodes@),
            n == s.nodes@[p as int],
            tree::count_over(c, ids@.subrange(0, i as int)) == (Count {
                allocated: allocated as nat,
                logical: logical as nat,
                files: files as nat,
                dirs: dirs as nat,
            }),
        decreases ids@.len() - i,
    {
        let k: &Node = &s.nodes[ids[i] as usize];
        let a: Option<u64> = allocated.checked_add(k.allocated);
        let l: Option<u64> = logical.checked_add(k.logical);
        let f: Option<u64> = files.checked_add(k.files as u64);
        let d: Option<u64> = dirs.checked_add(k.dirs as u64);
        proof {
            assert(ids@.subrange(0, i + 1).drop_last() =~= ids@.subrange(0, i as int));
            lemma_count_over_grows(c, ids@, i + 1, ids@.len() as int);
        }
        if let (Some(a), Some(l), Some(f), Some(d)) = (a, l, f, d) {
            allocated = a;
            logical = l;
            files = f;
            dirs = d;
        } else {
            return false;
        }
        i += 1;
    }
    if allocated > n.allocated || logical > n.logical {
        return false;
    }
    if n.is_dir() {
        n.files as u64 == files && n.dirs > 0 && n.dirs as u64 - 1 == dirs
    } else {
        n.files > 0 && n.files as u64 - 1 == files && n.dirs as u64 == dirs
    }
}

/// Whether the nodes of a valid snapshot can be selected: its figures add up, and its root
/// has no parent.
pub fn can_select(s: &Snapshot) -> (r: bool)
    requires
        s.valid(),
    ensures
        r == selectable(s.nodes@),
{
    if s.nodes[0].parent != NONE {
        return false;
    }
    let total: usize = s.nodes.len();
    let mut i: usize = 0;
    while i < total
        invariant
            i <= total == s.nodes@.len(),
            s.valid(),
            forall|p: int| 0 <= p < i ==> #[trigger] tree::rolled_at(s.nodes@, p),
        decreases total - i,
    {
        if !adds_up_at(s, i as u32) {
            assert(!tree::rolled_at(s.nodes@, i as int));
            return false;
        }
        i += 1;
    }
    true
}

/// Ticking an entry takes it and everything below it, and unticking leaves all of that; what
/// lies elsewhere stays as it was.
pub proof fn law_ticking_takes_everything_below(
    nodes: Seq<Node>,
    before: TreeSelection,
    after: TreeSelection,
    id: int,
    checked: bool,
)
    requires
        selectable(nodes),
        0 <= id < nodes.len(),
        subtree_set(nodes, before, after, id, checked),
    ensures
        state_of(nodes, after.sums(), id) == (if checked {
            2int
        } else {
            0int
        }),
        forall|j: int|
            0 <= j < nodes.len() && walk::under(nodes, id, j) ==> #[trigger] after.marks()[j]
                == checked,
        forall|j: int|
            0 <= j < nodes.len() && !walk::under(nodes, id, j) && !walk::under(nodes, j, id)
                ==> #[trigger] after.marks()[j] == before.marks()[j],
{
    law_state_tells_the_subtree(after, nodes, id);
    if checked {
        assert forall|q: int| 0 <= q < nodes.len() && #[trigger] walk::under(nodes, id, q) implies (
        after.marks()[q]) by {
            assert(after.marks()[q] == checked);
        }
    } else {
        assert forall|q: int| 0 <= q < nodes.len() && #[trigger] walk::under(nodes, id, q) implies (
        !after.marks()[q]) by {
            assert(after.marks()[q] == checked);
        }
    }
}

/// A directory above a ticked entry is ticked itself exactly if all in it are whole.
pub proof fn law_folders_are_ticked_when_whole(
    nodes: Seq<Node>,
    before: TreeSelection,
    after: TreeSelection,
    id: int,
    checked: bool,
    a: int,
)
    requires
        subtree_set(nodes, before, after, id, checked),
        0 <= a < nodes.len(),
        walk::under(nodes, a, id),
        a != id,
    ensures
        after.marks()[a] <==> forall|k: u32| #[trigger]
            tree::kids(nodes, a).contains(k) ==> after.sums()[k as int].items() > 0
                && after.sums()[k as int].items() == nodes[k as int].files + nodes[k as int].dirs,
{
    assert(after.marks()[a] == kids_full(nodes, after.sums(), a));
    if kids_full(nodes, after.sums(), a) {
        assert forall|k: u32| #[trigger] tree::kids(nodes, a).contains(k) implies after.sums()[k as int].items()
            > 0 && after.sums()[k as int].items() == nodes[k as int].files
            + nodes[k as int].dirs by {
            assert(state_of(nodes, after.sums(), k as int) == 2);
        }
    } else {
        let k = choose|k: u32|
            #[trigger] tree::kids(nodes, a).contains(k) && state_of(nodes, after.sums(), k as int)
                != 2;
        assert(tree::kids(nodes, a).contains(k));
    }
}

} // verus!
