//! The mathematical tree behind a snapshot's node table.
use crate::model;
use crate::model::{Node, CARRIED, NONE, UNKNOWN_MTIME};
use vstd::prelude::*;

verus! {

/// `k` is a child of `p`: every node but the root hangs below its parent.
pub open spec fn is_child(nodes: Seq<Node>, k: int, p: int) -> bool {
    1 <= k < nodes.len() && nodes[k].parent == p
}

/// Every node but the root has an existing directory other than itself as parent.
pub open spec fn parent_ok(nodes: Seq<Node>, i: int) -> bool {
    &&& nodes[i].parent < nodes.len()
    &&& nodes[i].parent != i
    &&& nodes[nodes[i].parent as int].dir()
}

pub open spec fn parents_ok(nodes: Seq<Node>) -> bool {
    forall|i: int| 1 <= i < nodes.len() ==> #[trigger] parent_ok(nodes, i)
}

/// A numbering under which every child comes before its parent.
pub open spec fn ranked(nodes: Seq<Node>, rank: Seq<nat>) -> bool {
    &&& rank.len() == nodes.len()
    &&& forall|i: int| 0 <= i < nodes.len() ==> #[trigger] rank[i] < nodes.len()
    &&& forall|i: int|
        1 <= i < nodes.len() && nodes[i].parent < nodes.len() ==> #[trigger] rank[i]
            < rank[nodes[i].parent as int]
}

/// No node is its own ancestor.
pub open spec fn acyclic(nodes: Seq<Node>) -> bool {
    exists|rank: Seq<nat>| ranked(nodes, rank)
}

/// What a node passes up to its parent.
#[verifier::ext_equal]
pub struct Roll {
    pub logical: nat,
    pub allocated: nat,
    pub files: nat,
    pub dirs: nat,
    pub oldest: i64,
    pub latest: i64,
    pub flags: u16,
}

pub open spec fn roll_zero() -> Roll {
    Roll {
        logical: 0,
        allocated: 0,
        files: 0,
        dirs: 0,
        oldest: UNKNOWN_MTIME,
        latest: UNKNOWN_MTIME,
        flags: 0,
    }
}

pub open spec fn roll_of(n: Node) -> Roll {
    Roll {
        logical: n.logical as nat,
        allocated: n.allocated as nat,
        files: n.files as nat,
        dirs: n.dirs as nat,
        oldest: n.oldest_modified_ms,
        latest: n.latest_modified_ms,
        flags: n.flags & CARRIED,
    }
}

pub open spec fn roll_add(a: Roll, b: Roll) -> Roll {
    Roll {
        logical: a.logical + b.logical,
        allocated: a.allocated + b.allocated,
        files: a.files + b.files,
        dirs: a.dirs + b.dirs,
        oldest: model::oldest_of(a.oldest, b.oldest),
        latest: model::latest_of(a.latest, b.latest),
        flags: a.flags | b.flags,
    }
}

/// The sum of `t[k]` over the children `k < n` of `p` for which `on[k]` holds.
pub open spec fn gather(nodes: Seq<Node>, t: Seq<Roll>, on: Seq<bool>, p: int, n: int) -> Roll
    decreases n,
{
    if n <= 1 {
        roll_zero()
    } else {
        let r = gather(nodes, t, on, p, n - 1);
        if is_child(nodes, n - 1, p) && on[n - 1] {
            roll_add(r, t[n - 1])
        } else {
            r
        }
    }
}

pub open spec fn everywhere(len: nat) -> Seq<bool> {
    Seq::new(len, |i: int| true)
}

pub open spec fn rolls(nodes: Seq<Node>) -> Seq<Roll> {
    Seq::new(nodes.len(), |i: int| roll_of(nodes[i]))
}

proof fn lemma_or(a: u16, b: u16, c: u16)
    by (bit_vector)
    ensures
        a | b == b | a,
        (a | b) | c == a | (b | c),
        a | 0 == a,
{
}

pub proof fn lemma_roll_add(a: Roll, b: Roll, c: Roll)
    ensures
        roll_add(a, b) == roll_add(b, a),
        roll_add(roll_add(a, b), c) == roll_add(a, roll_add(b, c)),
        roll_add(a, roll_zero()) == a,
        roll_add(roll_add(a, b), c) == roll_add(roll_add(a, c), b),
{
    lemma_or(a.flags, b.flags, c.flags);
    lemma_or(b.flags, c.flags, a.flags);
    lemma_or(a.flags, c.flags, b.flags);
}

/// Only the switched-on children of `p` matter to `gather`.
pub proof fn lemma_gather_same(
    nodes: Seq<Node>,
    t: Seq<Roll>,
    u: Seq<Roll>,
    on: Seq<bool>,
    off: Seq<bool>,
    p: int,
    n: int,
)
    requires
        n <= nodes.len(),
        forall|k: int| 1 <= k < n && #[trigger] is_child(nodes, k, p) ==> on[k] == off[k],
        forall|k: int|
            1 <= k < n && #[trigger] is_child(nodes, k, p) && on[k] ==> t[k] == u[k],
    ensures
        gather(nodes, t, on, p, n) == gather(nodes, u, off, p, n),
    decreases n,
{
    if n > 1 {
        lemma_gather_same(nodes, t, u, on, off, p, n - 1);
        assert(is_child(nodes, n - 1, p) ==> on[n - 1] == off[n - 1]);
    }
}

/// Switching on one more child adds its share.
pub proof fn lemma_gather_more(
    nodes: Seq<Node>,
    t: Seq<Roll>,
    on: Seq<bool>,
    p: int,
    j: int,
    n: int,
)
    requires
        on.len() == nodes.len(),
        1 <= j < nodes.len(),
        n <= nodes.len(),
        !on[j],
    ensures
        gather(nodes, t, on.update(j, true), p, n) == (if is_child(nodes, j, p) && j < n {
            roll_add(gather(nodes, t, on, p, n), t[j])
        } else {
            gather(nodes, t, on, p, n)
        }),
    decreases n,
{
    if n > 1 {
        lemma_gather_more(nodes, t, on, p, j, n - 1);
        if is_child(nodes, j, p) && j < n - 1 {
            lemma_roll_add(gather(nodes, t, on, p, n - 1), t[j], t[n - 1]);
        }
    }
}

/// Every switched-on child's share, and the whole over fewer children, is bounded by
/// the whole.
pub proof fn lemma_gather_bound(
    nodes: Seq<Node>,
    t: Seq<Roll>,
    on: Seq<bool>,
    off: Seq<bool>,
    p: int,
    n: int,
)
    requires
        n <= nodes.len(),
        forall|k: int| 1 <= k < n && #[trigger] is_child(nodes, k, p) && on[k] ==> off[k],
    ensures
        gather(nodes, t, on, p, n).logical <= gather(nodes, t, off, p, n).logical,
        gather(nodes, t, on, p, n).allocated <= gather(nodes, t, off, p, n).allocated,
        gather(nodes, t, on, p, n).files <= gather(nodes, t, off, p, n).files,
        gather(nodes, t, on, p, n).dirs <= gather(nodes, t, off, p, n).dirs,
    decreases n,
{
    if n > 1 {
        lemma_gather_bound(nodes, t, on, off, p, n - 1);
        assert(is_child(nodes, n - 1, p) && on[n - 1] ==> off[n - 1]);
    }
}

/// The switched-off children of `p` below `n`.
pub open spec fn pending(nodes: Seq<Node>, on: Seq<bool>, p: int, n: int) -> nat
    decreases n,
{
    if n <= 1 {
        0
    } else if is_child(nodes, n - 1, p) && !on[n - 1] {
        pending(nodes, on, p, n - 1) + 1
    } else {
        pending(nodes, on, p, n - 1)
    }
}

pub proof fn lemma_pending_bound(nodes: Seq<Node>, on: Seq<bool>, p: int, n: int)
    requires
        1 <= n,
    ensures
        pending(nodes, on, p, n) < n,
    decreases n,
{
    if n > 1 {
        lemma_pending_bound(nodes, on, p, n - 1);
    }
}

/// Switching on a child takes one off its parent's count and leaves the others.
pub proof fn lemma_pending_less(nodes: Seq<Node>, on: Seq<bool>, p: int, j: int, n: int)
    requires
        on.len() == nodes.len(),
        0 <= j < nodes.len(),
        n <= nodes.len(),
        !on[j],
    ensures
        pending(nodes, on.update(j, true), p, n) == pending(nodes, on, p, n) - (if is_child(
            nodes,
            j,
            p,
        ) && j < n {
            1int
        } else {
            0int
        }),
    decreases n,
{
    if n > 1 {
        lemma_pending_less(nodes, on, p, j, n - 1);
    }
}

pub proof fn lemma_pending_zero(nodes: Seq<Node>, on: Seq<bool>, p: int, n: int)
    requires
        n <= nodes.len(),
    ensures
        pending(nodes, on, p, n) == 0 <==> (forall|k: int|
            1 <= k < n && #[trigger] is_child(nodes, k, p) ==> on[k]),
    decreases n,
{
    if n > 1 {
        lemma_pending_zero(nodes, on, p, n - 1);
        if pending(nodes, on, p, n) == 0 {
            assert forall|k: int| 1 <= k < n && #[trigger] is_child(nodes, k, p) implies on[k] by {
                assert(k < n - 1 || k == n - 1);
            }
        }
    }
}

/// The number of positions of `on` that are off.
pub open spec fn off_count(on: Seq<bool>) -> nat
    decreases on.len(),
{
    if on.len() == 0 {
        0
    } else {
        off_count(on.drop_last()) + if on.last() {
            0nat
        } else {
            1nat
        }
    }
}

pub proof fn lemma_off_count_update(on: Seq<bool>, j: int)
    requires
        0 <= j < on.len(),
        !on[j],
    ensures
        off_count(on.update(j, true)) == off_count(on) - 1,
        off_count(on) > 0,
    decreases on.len(),
{
    if j == on.len() - 1 {
        assert(on.update(j, true).drop_last() =~= on.drop_last());
    } else {
        lemma_off_count_update(on.drop_last(), j);
        assert(on.update(j, true).drop_last() =~= on.drop_last().update(j, true));
    }
}

pub proof fn lemma_off_count_zero(on: Seq<bool>)
    ensures
        off_count(on) == 0 <==> (forall|i: int| 0 <= i < on.len() ==> #[trigger] on[i]),
        off_count(on) <= on.len(),
        (forall|i: int| 0 <= i < on.len() ==> !#[trigger] on[i]) ==> off_count(on) == on.len(),
    decreases on.len(),
{
    if on.len() > 0 {
        let rest = on.drop_last();
        lemma_off_count_zero(rest);
        if off_count(on) == 0 {
            assert forall|i: int| 0 <= i < on.len() implies #[trigger] on[i] by {
                if i < rest.len() {
                    assert(rest[i]);
                }
            }
        }
        if forall|i: int| 0 <= i < on.len() ==> #[trigger] on[i] {
            assert forall|i: int| 0 <= i < rest.len() implies #[trigger] rest[i] by {
                assert(on[i]);
            }
            assert(on[on.len() - 1]);
        }
        if forall|i: int| 0 <= i < on.len() ==> !#[trigger] on[i] {
            assert forall|i: int| 0 <= i < rest.len() implies !#[trigger] rest[i] by {
                assert(!on[i]);
            }
            assert(!on[on.len() - 1]);
        }
    }
}

/// The nodes met from `c` along the sibling links, at most `fuel` of them.
pub open spec fn chain(nodes: Seq<Node>, c: u32, fuel: nat) -> Seq<u32>
    decreases fuel,
{
    if fuel == 0 || c >= nodes.len() {
        Seq::empty()
    } else {
        seq![c] + chain(nodes, nodes[c as int].next_sibling, (fuel - 1) as nat)
    }
}

/// The sibling links from `c` come to their end within `fuel` steps.
pub open spec fn chain_ends(nodes: Seq<Node>, c: u32, fuel: nat) -> bool
    decreases fuel,
{
    c == NONE || (c < nodes.len() && fuel > 0 && chain_ends(
        nodes,
        nodes[c as int].next_sibling,
        (fuel - 1) as nat,
    ))
}

/// The children of `i` in chain order.
pub open spec fn kids(nodes: Seq<Node>, i: int) -> Seq<u32> {
    chain(nodes, nodes[i].first_child, nodes.len())
}

/// The child chain of `i` ends, and holds children of `i` only.
pub open spec fn chain_ok(nodes: Seq<Node>, i: int) -> bool {
    &&& chain_ends(nodes, nodes[i].first_child, nodes.len())
    &&& forall|j: int|
        0 <= j < kids(nodes, i).len() ==> nodes[(#[trigger] kids(nodes, i)[j]) as int].parent == i
}

/// The links form a tree over all nodes: every node but the root stands in the child
/// chain of its parent, the root in none, and nothing is its own ancestor.
pub open spec fn linked(nodes: Seq<Node>) -> bool {
    &&& 0 < nodes.len() <= u32::MAX
    &&& forall|i: int| 0 <= i < nodes.len() ==> #[trigger] chain_ok(nodes, i)
    &&& forall|i: int|
        0 <= i < nodes.len() ==> !(#[trigger] kids(nodes, i)).contains(0)
    &&& forall|k: int|
        1 <= k < nodes.len() ==> (#[trigger] nodes[k]).parent < nodes.len() && kids(
            nodes,
            nodes[k].parent as int,
        ).contains(k as u32)
    &&& acyclic(nodes)
}

/// More fuel than an ending chain needs changes nothing.
pub proof fn lemma_chain_fuel(nodes: Seq<Node>, c: u32, f: nat, g: nat)
    requires
        nodes.len() <= u32::MAX,
        chain_ends(nodes, c, f),
        f <= g,
    ensures
        chain_ends(nodes, c, g),
        chain(nodes, c, f) == chain(nodes, c, g),
        chain(nodes, c, f).len() <= f,
    decreases f,
{
    if c != NONE {
        lemma_chain_fuel(nodes, nodes[c as int].next_sibling, (f - 1) as nat, (g - 1) as nat);
    }
}

/// Every entry of an ending chain starts the rest of that chain.
pub proof fn lemma_chain_suffix(nodes: Seq<Node>, c: u32, f: nat, j: int)
    requires
        nodes.len() <= u32::MAX,
        chain_ends(nodes, c, f),
        0 <= j < chain(nodes, c, f).len(),
    ensures
        chain(nodes, c, f)[j] < nodes.len(),
        chain_ends(nodes, chain(nodes, c, f)[j], f),
        chain(nodes, chain(nodes, c, f)[j], f) == chain(nodes, c, f).subrange(
            j,
            chain(nodes, c, f).len() as int,
        ),
    decreases f,
{
    let all = chain(nodes, c, f);
    if j == 0 {
        assert(all.subrange(0, all.len() as int) =~= all);
    } else {
        let d = nodes[c as int].next_sibling;
        let g = (f - 1) as nat;
        let rest = chain(nodes, d, g);
        lemma_chain_suffix(nodes, d, g, j - 1);
        lemma_chain_fuel(nodes, rest[j - 1], g, f);
        assert(all[j] == rest[j - 1]);
        assert(all.subrange(j, all.len() as int) =~= rest.subrange(j - 1, rest.len() as int));
    }
}

/// An ending chain meets no node twice.
pub proof fn lemma_chain_distinct(nodes: Seq<Node>, c: u32, f: nat)
    requires
        nodes.len() <= u32::MAX,
        chain_ends(nodes, c, f),
    ensures
        chain(nodes, c, f).no_duplicates(),
        forall|j: int|
            0 <= j < chain(nodes, c, f).len() ==> (#[trigger] chain(nodes, c, f)[j]) < nodes.len(),
{
    let all = chain(nodes, c, f);
    assert forall|i: int, j: int| 0 <= i < all.len() && 0 <= j < all.len() && i != j implies all[i]
        != all[j] by {
        lemma_chain_suffix(nodes, c, f, i);
        lemma_chain_suffix(nodes, c, f, j);
        assert(all.subrange(i, all.len() as int).len() != all.subrange(
            j,
            all.len() as int,
        ).len());
    }
    assert forall|j: int| 0 <= j < all.len() implies (#[trigger] all[j]) < nodes.len() by {
        lemma_chain_suffix(nodes, c, f, j);
    }
}

/// The children of a tree node are distinct, exist, and hang below it.
pub proof fn lemma_kids(nodes: Seq<Node>, i: int)
    requires
        nodes.len() <= u32::MAX,
        0 <= i < nodes.len(),
        chain_ok(nodes, i),
    ensures
        kids(nodes, i).no_duplicates(),
        kids(nodes, i).len() <= nodes.len(),
        forall|j: int|
            0 <= j < kids(nodes, i).len() ==> (#[trigger] kids(nodes, i)[j]) < nodes.len()
                && nodes[kids(nodes, i)[j] as int].parent == i,
{
    lemma_chain_distinct(nodes, nodes[i].first_child, nodes.len());
    lemma_chain_fuel(nodes, nodes[i].first_child, nodes.len(), nodes.len());
}

/// Sizes and counts, without a machine bound.
#[verifier::ext_equal]
pub struct Count {
    pub allocated: nat,
    pub logical: nat,
    pub files: nat,
    pub dirs: nat,
}

impl Count {
    pub open spec fn items(self) -> nat {
        self.files + self.dirs
    }

    pub open spec fn within(self, other: Count) -> bool {
        &&& self.allocated <= other.allocated
        &&& self.logical <= other.logical
        &&& self.files <= other.files
        &&& self.dirs <= other.dirs
    }
}

pub open spec fn count_zero() -> Count {
    Count { allocated: 0, logical: 0, files: 0, dirs: 0 }
}

pub open spec fn count_add(a: Count, b: Count) -> Count {
    Count {
        allocated: a.allocated + b.allocated,
        logical: a.logical + b.logical,
        files: a.files + b.files,
        dirs: a.dirs + b.dirs,
    }
}

pub open spec fn count_of(n: Node) -> Count {
    Count {
        allocated: n.allocated as nat,
        logical: n.logical as nat,
        files: n.files as nat,
        dirs: n.dirs as nat,
    }
}

pub open spec fn counts(nodes: Seq<Node>) -> Seq<Count> {
    Seq::new(nodes.len(), |i: int| count_of(nodes[i]))
}

/// The sum of `c` over the listed nodes.
pub open spec fn count_over(c: Seq<Count>, ids: Seq<u32>) -> Count
    decreases ids.len(),
{
    if ids.len() == 0 {
        count_zero()
    } else {
        count_add(count_over(c, ids.drop_last()), c[ids.last() as int])
    }
}

/// What a node itself adds to the totals of its children.
pub open spec fn own_count(nodes: Seq<Node>, p: int) -> Count {
    let below = count_over(counts(nodes), kids(nodes, p));
    Count {
        allocated: (nodes[p].allocated - below.allocated) as nat,
        logical: (nodes[p].logical - below.logical) as nat,
        files: if nodes[p].dir() {
            0
        } else {
            1
        },
        dirs: if nodes[p].dir() {
            1
        } else {
            0
        },
    }
}

/// The node's figures are its own and those of its children.
pub open spec fn rolled_at(nodes: Seq<Node>, p: int) -> bool {
    let below = count_over(counts(nodes), kids(nodes, p));
    &&& below.allocated <= nodes[p].allocated
    &&& below.logical <= nodes[p].logical
    &&& count_of(nodes[p]) == count_add(below, own_count(nodes, p))
}

/// Every node's figures are its own and those of its children.
pub open spec fn rolled(nodes: Seq<Node>) -> bool {
    forall|p: int| 0 <= p < nodes.len() ==> #[trigger] rolled_at(nodes, p)
}

pub proof fn lemma_count_over_head(c: Seq<Count>, k: u32, rest: Seq<u32>)
    ensures
        count_over(c, seq![k] + rest) == count_add(c[k as int], count_over(c, rest)),
    decreases rest.len(),
{
    let all = seq![k] + rest;
    if rest.len() == 0 {
        assert(all.drop_last() =~= Seq::<u32>::empty());
        assert(count_over(c, all.drop_last()) == count_zero());
        assert(count_over(c, rest) == count_zero());
    } else {
        lemma_count_over_head(c, k, rest.drop_last());
        assert(all.drop_last() =~= seq![k] + rest.drop_last());
    }
}

} // verus!
