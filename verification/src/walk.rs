//! Subtrees and depth-first order.
use crate::model::{Node, Snapshot};
use crate::tree;
use vstd::prelude::*;

verus! {

/// The ancestor of `j` that lies `k` steps up, or -1 past the root.
pub open spec fn up(nodes: Seq<Node>, j: int, k: nat) -> int
    decreases k,
{
    if k == 0 {
        j
    } else if 1 <= j < nodes.len() {
        up(nodes, nodes[j].parent as int, (k - 1) as nat)
    } else {
        -1
    }
}

/// `j` is `i` or lies below it.
pub open spec fn under(nodes: Seq<Node>, i: int, j: int) -> bool {
    exists|k: nat| #[trigger] up(nodes, j, k) == i
}

pub proof fn lemma_under_self(nodes: Seq<Node>, i: int)
    ensures
        under(nodes, i, i),
{
    assert(up(nodes, i, 0) == i);
}

/// Below `i` means below some child of `i`, or `i` itself.
pub proof fn lemma_under_parent(nodes: Seq<Node>, i: int, j: int)
    requires
        0 <= i,
    ensures
        i != j && under(nodes, i, j) ==> 1 <= j < nodes.len() && under(
            nodes,
            i,
            nodes[j].parent as int,
        ),
        1 <= j < nodes.len() && under(nodes, i, nodes[j].parent as int) ==> under(nodes, i, j),
{
    if i != j && under(nodes, i, j) {
        let k = choose|k: nat| #[trigger] up(nodes, j, k) == i;
        assert(up(nodes, nodes[j].parent as int, (k - 1) as nat) == i);
    }
    if 1 <= j < nodes.len() && under(nodes, i, nodes[j].parent as int) {
        let k = choose|k: nat| #[trigger] up(nodes, nodes[j].parent as int, k) == i;
        assert(up(nodes, j, k + 1) == i);
    }
}

pub proof fn lemma_up_rank(nodes: Seq<Node>, rank: Seq<nat>, j: int, k: nat)
    requires
        tree::ranked(nodes, rank),
        0 <= j < nodes.len(),
        0 <= up(nodes, j, k) < nodes.len(),
    ensures
        k > 0 ==> rank[j] < rank[up(nodes, j, k)],
    decreases k,
{
    if k > 0 {
        let p = nodes[j].parent as int;
        assert(1 <= j);
        assert(up(nodes, j, k) == up(nodes, p, (k - 1) as nat));
        if p >= nodes.len() {
            lemma_up_outside(nodes, p, (k - 1) as nat);
        }
        assert(rank[j] < rank[p]);
        lemma_up_rank(nodes, rank, p, (k - 1) as nat);
    }
}

proof fn lemma_up_outside(nodes: Seq<Node>, j: int, k: nat)
    requires
        j >= nodes.len(),
    ensures
        up(nodes, j, k) < 0 || up(nodes, j, k) >= nodes.len(),
{
}

/// Ranks grow strictly on the way up.
pub proof fn lemma_under_rank(nodes: Seq<Node>, rank: Seq<nat>, i: int, j: int)
    requires
        tree::ranked(nodes, rank),
        0 <= i < nodes.len(),
        0 <= j < nodes.len(),
        under(nodes, i, j),
    ensures
        i == j || rank[j] < rank[i],
{
    let k = choose|k: nat| #[trigger] up(nodes, j, k) == i;
    lemma_up_rank(nodes, rank, j, k);
}

pub proof fn lemma_up_up(nodes: Seq<Node>, j: int, a: nat, b: nat)
    ensures
        up(nodes, j, a + b) == up(nodes, up(nodes, j, a), b) || up(nodes, j, a + b) == -1,
    decreases a,
{
    if a > 0 && 1 <= j < nodes.len() {
        lemma_up_up(nodes, nodes[j].parent as int, (a - 1) as nat, b);
    }
}

/// Two ancestors of one node lie on one line.
pub proof fn lemma_under_line(nodes: Seq<Node>, a: int, b: int, j: int)
    requires
        0 <= a,
        0 <= b,
        under(nodes, a, j),
        under(nodes, b, j),
    ensures
        under(nodes, a, b) || under(nodes, b, a),
{
    let k = choose|k: nat| #[trigger] up(nodes, j, k) == a;
    let l = choose|l: nat| #[trigger] up(nodes, j, l) == b;
    if k <= l {
        lemma_up_up(nodes, j, k, (l - k) as nat);
        assert(up(nodes, a, (l - k) as nat) == b);
    } else {
        lemma_up_up(nodes, j, l, (k - l) as nat);
        assert(up(nodes, b, (k - l) as nat) == a);
    }
}

pub proof fn lemma_under_trans(nodes: Seq<Node>, a: int, b: int, c: int)
    requires
        0 <= a,
        under(nodes, a, b),
        under(nodes, b, c),
    ensures
        under(nodes, a, c),
    decreases choose|k: nat| #[trigger] up(nodes, c, k) == b,
{
    let k = choose|k: nat| #[trigger] up(nodes, c, k) == b;
    let l = choose|l: nat| #[trigger] up(nodes, b, l) == a;
    lemma_up_join(nodes, c, k, l);
    assert(up(nodes, c, k + l) == a);
}

proof fn lemma_up_join(nodes: Seq<Node>, j: int, a: nat, b: nat)
    ensures
        up(nodes, up(nodes, j, a), b) >= 0 ==> up(nodes, j, a + b) == up(
            nodes,
            up(nodes, j, a),
            b,
        ),
    decreases a,
{
    if a > 0 {
        if 1 <= j < nodes.len() {
            lemma_up_join(nodes, nodes[j].parent as int, (a - 1) as nat, b);
        } else {
            assert(up(nodes, -1, b) == -1);
        }
    }
}

/// The subtrees of two different children do not meet.
pub proof fn lemma_kids_apart(nodes: Seq<Node>, a: int, b: int, j: int)
    requires
        tree::acyclic(nodes),
        1 <= a < nodes.len(),
        1 <= b < nodes.len(),
        a != b,
        nodes[a].parent == nodes[b].parent,
        nodes[a].parent < nodes.len(),
        under(nodes, a, j),
        under(nodes, b, j),
    ensures
        a == b,
{
    let rank = choose|rank: Seq<nat>| tree::ranked(nodes, rank);
    let p = nodes[a].parent as int;
    assert(rank[a] < rank[p]);
    assert(rank[b] < rank[nodes[b].parent as int]);
    lemma_under_line(nodes, a, b, j);
    if under(nodes, a, b) {
        lemma_under_parent(nodes, a, b);
        lemma_under_rank(nodes, rank, a, p);
    } else {
        lemma_under_parent(nodes, b, a);
        lemma_under_rank(nodes, rank, b, p);
    }
}

/// The nodes met by a stack-driven walk that starts at `i` and descends into the nodes
/// for which `enter` holds; children are stacked in chain order, so the last is met first.
pub open spec fn walk(nodes: Seq<Node>, enter: spec_fn(u32) -> bool, i: u32, fuel: nat) -> Seq<u32>
    decreases fuel, 0nat,
{
    if fuel == 0 {
        Seq::empty()
    } else {
        seq![i] + if enter(i) {
            walk_list(nodes, enter, tree::kids(nodes, i as int), (fuel - 1) as nat)
        } else {
            Seq::empty()
        }
    }
}

/// The nodes met when the listed nodes are taken off the stack one after the other.
pub open spec fn walk_list(
    nodes: Seq<Node>,
    enter: spec_fn(u32) -> bool,
    ids: Seq<u32>,
    fuel: nat,
) -> Seq<u32>
    decreases fuel, ids.len() + 1,
{
    if ids.len() == 0 {
        Seq::empty()
    } else {
        walk(nodes, enter, ids.last(), fuel) + walk_list(nodes, enter, ids.drop_last(), fuel)
    }
}

/// The depth-first order from `i`.
pub open spec fn order(nodes: Seq<Node>, enter: spec_fn(u32) -> bool, i: u32) -> Seq<u32> {
    walk(nodes, enter, i, nodes.len())
}

/// The depth-first order over a stack.
pub open spec fn orders(nodes: Seq<Node>, enter: spec_fn(u32) -> bool, ids: Seq<u32>) -> Seq<u32> {
    walk_list(nodes, enter, ids, nodes.len())
}

proof fn lemma_walk_fuel(
    nodes: Seq<Node>,
    enter: spec_fn(u32) -> bool,
    rank: Seq<nat>,
    i: u32,
    f: nat,
    g: nat,
)
    requires
        tree::linked(nodes),
        tree::ranked(nodes, rank),
        i < nodes.len(),
        rank[i as int] < f,
        rank[i as int] < g,
    ensures
        walk(nodes, enter, i, f) == walk(nodes, enter, i, g),
    decreases rank[i as int] + 1, 0nat,
{
    let ks = tree::kids(nodes, i as int);
    assert(tree::chain_ok(nodes, i as int));
    tree::lemma_kids(nodes, i as int);
    assert forall|j: int| 0 <= j < ks.len() implies (#[trigger] ks[j]) < nodes.len() && rank[ks[j] as int]
        < rank[i as int] by {
        assert(ks.contains(ks[j]));
        assert(rank[ks[j] as int] < rank[nodes[ks[j] as int].parent as int]);
    }
    lemma_walk_list_fuel(nodes, enter, rank, ks, (f - 1) as nat, (g - 1) as nat, rank[i as int]);
}

proof fn lemma_walk_list_fuel(
    nodes: Seq<Node>,
    enter: spec_fn(u32) -> bool,
    rank: Seq<nat>,
    ids: Seq<u32>,
    f: nat,
    g: nat,
    bound: nat,
)
    requires
        tree::linked(nodes),
        tree::ranked(nodes, rank),
        forall|j: int|
            0 <= j < ids.len() ==> (#[trigger] ids[j]) < nodes.len() && rank[ids[j] as int] < bound,
        bound <= f,
        bound <= g,
    ensures
        walk_list(nodes, enter, ids, f) == walk_list(nodes, enter, ids, g),
    decreases bound, ids.len(),
{
    if ids.len() > 0 {
        lemma_walk_fuel(nodes, enter, rank, ids.last(), f, g);
        lemma_walk_list_fuel(nodes, enter, rank, ids.drop_last(), f, g, bound);
    }
}

/// In a tree, the order from `i` is `i` and then the orders of the children it enters.
pub proof fn lemma_order_unfold(nodes: Seq<Node>, enter: spec_fn(u32) -> bool, i: u32)
    requires
        tree::linked(nodes),
        i < nodes.len(),
    ensures
        order(nodes, enter, i) == seq![i] + (if enter(i) {
            orders(nodes, enter, tree::kids(nodes, i as int))
        } else {
            Seq::<u32>::empty()
        }),
{
    let rank = choose|rank: Seq<nat>| tree::ranked(nodes, rank);
    let ks = tree::kids(nodes, i as int);
    assert(tree::chain_ok(nodes, i as int));
    tree::lemma_kids(nodes, i as int);
    assert forall|j: int| 0 <= j < ks.len() implies (#[trigger] ks[j]) < nodes.len() && rank[ks[j] as int]
        < rank[i as int] by {
        assert(ks.contains(ks[j]));
        assert(rank[ks[j] as int] < rank[nodes[ks[j] as int].parent as int]);
    }
    assert(rank[i as int] < nodes.len());
    lemma_walk_list_fuel(
        nodes,
        enter,
        rank,
        ks,
        (nodes.len() - 1) as nat,
        nodes.len(),
        rank[i as int],
    );
}

/// What is stacked last is met first.
pub proof fn lemma_orders_append(
    nodes: Seq<Node>,
    enter: spec_fn(u32) -> bool,
    a: Seq<u32>,
    b: Seq<u32>,
)
    ensures
        orders(nodes, enter, a + b) == orders(nodes, enter, b) + orders(nodes, enter, a),
    decreases b.len(),
{
    if b.len() == 0 {
        assert(a + b =~= a);
        assert(orders(nodes, enter, b) + orders(nodes, enter, a) =~= orders(nodes, enter, a));
    } else {
        lemma_orders_append(nodes, enter, a, b.drop_last());
        assert((a + b).drop_last() =~= a + b.drop_last());
        assert(orders(nodes, enter, a + b) =~= orders(nodes, enter, b) + orders(nodes, enter, a));
    }
}

/// One step of a stack-driven walk: the top is met, and its children take its place.
pub proof fn lemma_orders_pop(nodes: Seq<Node>, enter: spec_fn(u32) -> bool, rest: Seq<u32>, i: u32)
    requires
        tree::linked(nodes),
        i < nodes.len(),
    ensures
        orders(nodes, enter, rest.push(i)) == seq![i] + orders(
            nodes,
            enter,
            if enter(i) {
                rest + tree::kids(nodes, i as int)
            } else {
                rest
            },
        ),
{
    lemma_order_unfold(nodes, enter, i);
    assert(rest.push(i).drop_last() =~= rest);
    if enter(i) {
        lemma_orders_append(nodes, enter, rest, tree::kids(nodes, i as int));
    }
    assert(orders(nodes, enter, rest.push(i)) =~= seq![i] + orders(
        nodes,
        enter,
        if enter(i) {
            rest + tree::kids(nodes, i as int)
        } else {
            rest
        },
    ));
}

/// `k` was reached from its parent: the walk met the parent and entered it.
pub open spec fn reached(nodes: Seq<Node>, enter: spec_fn(u32) -> bool, met: Seq<u32>, k: u32) -> bool {
    &&& 1 <= k < nodes.len()
    &&& met.contains(nodes[k as int].parent)
    &&& enter(nodes[k as int].parent)
}

/// The walk meets its start and, of the other nodes, just those whose parent it enters.
pub proof fn lemma_order_members(
    nodes: Seq<Node>,
    enter: spec_fn(u32) -> bool,
    rank: Seq<nat>,
    i: u32,
)
    requires
        tree::linked(nodes),
        tree::ranked(nodes, rank),
        i < nodes.len(),
    ensures
        order(nodes, enter, i).contains(i),
        forall|k: u32| #[trigger]
            order(nodes, enter, i).contains(k) ==> k == i || reached(
                nodes,
                enter,
                order(nodes, enter, i),
                k,
            ),
        forall|k: u32| #[trigger]
            reached(nodes, enter, order(nodes, enter, i), k) ==> order(nodes, enter, i).contains(k),
    decreases rank[i as int] + 1, 0nat,
{
    lemma_order_unfold(nodes, enter, i);
    let all = order(nodes, enter, i);
    assert(all[0] == i);
    if enter(i) {
        let ks = tree::kids(nodes, i as int);
        let below = orders(nodes, enter, ks);
        assert(tree::chain_ok(nodes, i as int));
        tree::lemma_kids(nodes, i as int);
        assert forall|j: int| 0 <= j < ks.len() implies 1 <= (#[trigger] ks[j]) < nodes.len()
            && rank[ks[j] as int] < rank[i as int] by {
            assert(ks.contains(ks[j]));
            assert(rank[ks[j] as int] < rank[nodes[ks[j] as int].parent as int]);
        }
        lemma_orders_members(nodes, enter, rank, ks, rank[i as int]);
        assert(all == seq![i] + below);
        assert forall|x: u32| #[trigger] below.contains(x) implies all.contains(x) by {
            let w = below.index_of(x);
            assert(all[w + 1] == x);
        }
        assert forall|x: u32| #[trigger] all.contains(x) && x != i implies below.contains(x) by {
            let w = all.index_of(x);
            assert(below[w - 1] == x);
        }
        assert forall|k: u32| #[trigger] all.contains(k) implies k == i || reached(
            nodes,
            enter,
            all,
            k,
        ) by {
            if k != i {
                assert(below.contains(k));
                if ks.contains(k) {
                    let w = ks.index_of(k);
                    assert(ks[w] == k);
                } else {
                    assert(reached(nodes, enter, below, k));
                    assert(all.contains(nodes[k as int].parent));
                }
            }
        }
        assert forall|k: u32| #[trigger] reached(nodes, enter, all, k) implies all.contains(k) by {
            let q = nodes[k as int].parent;
            if q == i {
                assert(tree::kids(nodes, nodes[k as int].parent as int).contains(k));
                assert(below.contains(k));
            } else {
                assert(below.contains(q));
                assert(reached(nodes, enter, below, k));
                assert(below.contains(k));
            }
        }
    } else {
        assert(all =~= seq![i]);
        assert forall|k: u32| #[trigger] all.contains(k) implies k == i by {}
    }
}

proof fn lemma_orders_members(
    nodes: Seq<Node>,
    enter: spec_fn(u32) -> bool,
    rank: Seq<nat>,
    ids: Seq<u32>,
    bound: nat,
)
    requires
        tree::linked(nodes),
        tree::ranked(nodes, rank),
        forall|j: int|
            0 <= j < ids.len() ==> (#[trigger] ids[j]) < nodes.len() && rank[ids[j] as int] < bound,
    ensures
        forall|k: u32| #[trigger] ids.contains(k) ==> orders(nodes, enter, ids).contains(k),
        forall|k: u32| #[trigger]
            orders(nodes, enter, ids).contains(k) ==> ids.contains(k) || reached(
                nodes,
                enter,
                orders(nodes, enter, ids),
                k,
            ),
        forall|k: u32| #[trigger]
            reached(nodes, enter, orders(nodes, enter, ids), k) ==> orders(
                nodes,
                enter,
                ids,
            ).contains(k),
    decreases bound, ids.len(),
{
    let all = orders(nodes, enter, ids);
    if ids.len() > 0 {
        let fore = ids.drop_last();
        let top = order(nodes, enter, ids.last());
        let rest = orders(nodes, enter, fore);
        lemma_order_members(nodes, enter, rank, ids.last());
        lemma_orders_members(nodes, enter, rank, fore, bound);
        assert(all == top + rest);
        assert forall|x: u32| #[trigger] all.contains(x) <==> top.contains(x) || rest.contains(x) by {
            if top.contains(x) {
                assert(all[top.index_of(x)] == x);
            }
            if rest.contains(x) {
                assert(all[top.len() + rest.index_of(x)] == x);
            }
            if all.contains(x) {
                let w = all.index_of(x);
                if w < top.len() {
                    assert(top[w] == x);
                } else {
                    assert(rest[w - top.len()] == x);
                }
            }
        }
        assert forall|x: u32| #[trigger] ids.contains(x) <==> x == ids.last() || fore.contains(x) by {
            if fore.contains(x) {
                assert(ids[fore.index_of(x)] == x);
            }
            if ids.contains(x) && x != ids.last() {
                assert(fore[ids.index_of(x)] == x);
            }
        }
        assert forall|k: u32| #[trigger] all.contains(k) implies ids.contains(k) || reached(
            nodes,
            enter,
            all,
            k,
        ) by {
            if top.contains(k) {
                assert(k == ids.last() || reached(nodes, enter, top, k));
            } else {
                assert(fore.contains(k) || reached(nodes, enter, rest, k));
            }
        }
        assert forall|k: u32| #[trigger] reached(nodes, enter, all, k) implies all.contains(k) by {
            if top.contains(nodes[k as int].parent) {
                assert(reached(nodes, enter, top, k));
            } else {
                assert(reached(nodes, enter, rest, k));
            }
        }
    }
}

/// Everything the walk meets exists and lies below its start, and is met once.
pub proof fn lemma_order_sound(
    nodes: Seq<Node>,
    enter: spec_fn(u32) -> bool,
    rank: Seq<nat>,
    i: u32,
)
    requires
        tree::linked(nodes),
        tree::ranked(nodes, rank),
        i < nodes.len(),
    ensures
        order(nodes, enter, i).no_duplicates(),
        forall|j: int|
            0 <= j < order(nodes, enter, i).len() ==> (#[trigger] order(nodes, enter, i)[j])
                < nodes.len() && under(nodes, i as int, order(nodes, enter, i)[j] as int),
    decreases rank[i as int] + 1, 0nat,
{
    lemma_order_unfold(nodes, enter, i);
    lemma_under_self(nodes, i as int);
    let all = order(nodes, enter, i);
    if enter(i) {
        let ks = tree::kids(nodes, i as int);
        assert(tree::chain_ok(nodes, i as int));
        tree::lemma_kids(nodes, i as int);
        assert forall|j: int| 0 <= j < ks.len() implies (#[trigger] ks[j]) != 0 && rank[ks[j] as int]
            < rank[i as int] by {
            assert(ks.contains(ks[j]));
            assert(rank[ks[j] as int] < rank[nodes[ks[j] as int].parent as int]);
        }
        lemma_orders_sound(nodes, enter, rank, ks, i as int);
        let below = orders(nodes, enter, ks);
        assert forall|j: int| 0 <= j < below.len() implies (#[trigger] below[j]) != i && under(
            nodes,
            i as int,
            below[j] as int,
        ) by {
            let k = choose|k: int| 0 <= k < ks.len() && under(nodes, ks[k] as int, below[j] as int);
            lemma_under_rank(nodes, rank, ks[k] as int, below[j] as int);
            lemma_under_parent(nodes, i as int, ks[k] as int);
            lemma_under_trans(nodes, i as int, ks[k] as int, below[j] as int);
        }
        assert forall|a: int, b: int| 0 <= a < b < all.len() implies all[a] != all[b] by {
            assert(all[b] == below[b - 1]);
            if a > 0 {
                assert(all[a] == below[a - 1]);
            }
        }
        assert forall|j: int| 0 <= j < all.len() implies (#[trigger] all[j]) < nodes.len() && under(
            nodes,
            i as int,
            all[j] as int,
        ) by {
            if j > 0 {
                assert(all[j] == below[j - 1]);
            }
        }
    } else {
        assert(all =~= seq![i]);
    }
}

proof fn lemma_orders_sound(
    nodes: Seq<Node>,
    enter: spec_fn(u32) -> bool,
    rank: Seq<nat>,
    ids: Seq<u32>,
    p: int,
)
    requires
        tree::linked(nodes),
        tree::ranked(nodes, rank),
        0 <= p < nodes.len(),
        ids.no_duplicates(),
        forall|j: int|
            0 <= j < ids.len() ==> 1 <= (#[trigger] ids[j]) < nodes.len() && nodes[ids[j] as int].parent
                == p && rank[ids[j] as int] < rank[p],
    ensures
        orders(nodes, enter, ids).no_duplicates(),
        forall|j: int|
            0 <= j < orders(nodes, enter, ids).len() ==> (#[trigger] orders(nodes, enter, ids)[j])
                < nodes.len() && exists|k: int|
                0 <= k < ids.len() && under(
                    nodes,
                    ids[k] as int,
                    orders(nodes, enter, ids)[j] as int,
                ),
    decreases rank[p], ids.len(),
{
    if ids.len() > 0 {
        let top = order(nodes, enter, ids.last());
        let rest = orders(nodes, enter, ids.drop_last());
        let all = orders(nodes, enter, ids);
        lemma_order_sound(nodes, enter, rank, ids.last());
        lemma_orders_sound(nodes, enter, rank, ids.drop_last(), p);
        assert(all == top + rest);
        assert forall|j: int| 0 <= j < all.len() implies (#[trigger] all[j]) < nodes.len() && exists|
            k: int,
        |
            0 <= k < ids.len() && under(nodes, ids[k] as int, all[j] as int) by {
            if j < top.len() {
                assert(all[j] == top[j]);
                assert(under(nodes, ids[ids.len() - 1] as int, all[j] as int));
            } else {
                let r = j - top.len();
                assert(all[j] == rest[r]);
                let k = choose|k: int|
                    0 <= k < ids.drop_last().len() && under(
                        nodes,
                        ids.drop_last()[k] as int,
                        rest[r] as int,
                    );
                assert(under(nodes, ids[k] as int, all[j] as int));
            }
        }
        assert forall|a: int, b: int| 0 <= a < b < all.len() implies all[a] != all[b] by {
            if b < top.len() {
                assert(all[a] == top[a] && all[b] == top[b]);
            } else {
                let r = b - top.len();
                assert(all[b] == rest[r]);
                if a < top.len() {
                    assert(all[a] == top[a]);
                    let k = choose|k: int|
                        0 <= k < ids.drop_last().len() && under(
                            nodes,
                            ids.drop_last()[k] as int,
                            rest[r] as int,
                        );
                    if all[a] == all[b] {
                        assert(ids[k] != ids.last());
                        lemma_kids_apart(
                            nodes,
                            ids.last() as int,
                            ids[k] as int,
                            all[a] as int,
                        );
                    }
                } else {
                    assert(all[a] == rest[a - top.len()]);
                }
            }
        }
    }
}

/// A walk that enters every node meets everything below its start.
pub proof fn lemma_order_complete(nodes: Seq<Node>, enter: spec_fn(u32) -> bool, i: u32, j: int)
    requires
        tree::linked(nodes),
        i < nodes.len(),
        forall|k: u32| under(nodes, i as int, k as int) && k != j ==> #[trigger] enter(k),
        0 <= j < nodes.len(),
        under(nodes, i as int, j),
    ensures
        order(nodes, enter, i).contains(j as u32),
{
    let k = choose|k: nat| #[trigger] up(nodes, j, k) == i as int;
    lemma_under_self(nodes, j);
    lemma_order_complete_at(nodes, enter, i, j, j, k);
}

proof fn lemma_order_complete_at(
    nodes: Seq<Node>,
    enter: spec_fn(u32) -> bool,
    i: u32,
    j: int,
    target: int,
    k: nat,
)
    requires
        tree::linked(nodes),
        i < nodes.len(),
        forall|k: u32| under(nodes, i as int, k as int) && k != target ==> #[trigger] enter(k),
        0 <= j < nodes.len(),
        0 <= target < nodes.len(),
        under(nodes, j, target),
        up(nodes, j, k) == i,
    ensures
        order(nodes, enter, i).contains(j as u32),
    decreases k,
{
    lemma_order_unfold(nodes, enter, i);
    if k == 0 {
        assert(order(nodes, enter, i)[0] == i);
    } else {
        let p = nodes[j].parent as int;
        let rank = choose|rank: Seq<nat>| tree::ranked(nodes, rank);
        assert(nodes[j].parent < nodes.len());
        lemma_under_self(nodes, j);
        lemma_under_parent(nodes, p, j);
        lemma_under_self(nodes, p);
        lemma_under_trans(nodes, p, j, target);
        lemma_order_complete_at(nodes, enter, i, p, target, (k - 1) as nat);
        assert(up(nodes, p, (k - 1) as nat) == i);
        assert(under(nodes, i as int, p));
        assert(p != target) by {
            assert(rank[j] < rank[p]);
            lemma_under_rank(nodes, rank, j, target);
        }
        assert(enter(p as u32));
        lemma_order_descends(nodes, enter, rank, i, p as u32, j as u32);
    }
}

/// If the walk meets and enters `p`, it meets the children of `p`.
proof fn lemma_order_descends(
    nodes: Seq<Node>,
    enter: spec_fn(u32) -> bool,
    rank: Seq<nat>,
    i: u32,
    p: u32,
    j: u32,
)
    requires
        tree::linked(nodes),
        tree::ranked(nodes, rank),
        i < nodes.len(),
        p < nodes.len(),
        order(nodes, enter, i).contains(p),
        enter(p),
        tree::kids(nodes, p as int).contains(j),
    ensures
        order(nodes, enter, i).contains(j),
    decreases rank[i as int] + 1, 0nat,
{
    lemma_order_unfold(nodes, enter, i);
    let all = order(nodes, enter, i);
    if enter(i) {
        let ks = tree::kids(nodes, i as int);
        let below = orders(nodes, enter, ks);
        assert(tree::chain_ok(nodes, i as int));
        tree::lemma_kids(nodes, i as int);
        if p == i {
            lemma_orders_member(nodes, enter, ks, j);
            let w = below.index_of(j);
            assert(all[w + 1] == j);
        } else {
            assert forall|j: int| 0 <= j < ks.len() implies rank[(#[trigger] ks[j]) as int]
                < rank[i as int] by {
                assert(ks.contains(ks[j]));
                assert(rank[ks[j] as int] < rank[nodes[ks[j] as int].parent as int]);
            }
            let w = all.index_of(p);
            assert(below[w - 1] == p);
            lemma_orders_descend(nodes, enter, rank, ks, p, j, rank[i as int]);
            let v = below.index_of(j);
            assert(all[v + 1] == j);
        }
    }
}

proof fn lemma_orders_descend(
    nodes: Seq<Node>,
    enter: spec_fn(u32) -> bool,
    rank: Seq<nat>,
    ids: Seq<u32>,
    p: u32,
    j: u32,
    bound: nat,
)
    requires
        tree::linked(nodes),
        tree::ranked(nodes, rank),
        forall|j: int|
            0 <= j < ids.len() ==> (#[trigger] ids[j]) < nodes.len() && rank[ids[j] as int] < bound,
        p < nodes.len(),
        orders(nodes, enter, ids).contains(p),
        enter(p),
        tree::kids(nodes, p as int).contains(j),
    ensures
        orders(nodes, enter, ids).contains(j),
    decreases bound, ids.len(),
{
    let all = orders(nodes, enter, ids);
    let w = all.index_of(p);
    if ids.len() > 0 {
        let top = order(nodes, enter, ids.last());
        let rest = orders(nodes, enter, ids.drop_last());
        assert(all == top + rest);
        if w < top.len() {
            assert(top[w] == p);
            lemma_order_descends(nodes, enter, rank, ids.last(), p, j);
            let v = top.index_of(j);
            assert(all[v] == j);
        } else {
            assert(rest[w - top.len()] == p);
            lemma_orders_descend(nodes, enter, rank, ids.drop_last(), p, j, bound);
            let v = rest.index_of(j);
            assert(all[top.len() + v] == j);
        }
    }
}

/// Every stacked node is met.
pub proof fn lemma_orders_member(
    nodes: Seq<Node>,
    enter: spec_fn(u32) -> bool,
    ids: Seq<u32>,
    j: u32,
)
    requires
        nodes.len() > 0,
        ids.contains(j),
    ensures
        orders(nodes, enter, ids).contains(j),
    decreases ids.len(),
{
    let all = orders(nodes, enter, ids);
    let w = ids.index_of(j);
    let top = order(nodes, enter, ids.last());
    let rest = orders(nodes, enter, ids.drop_last());
    assert(all == top + rest);
    if w == ids.len() - 1 {
        assert(top[0] == j);
        assert(all[0] == j);
    } else {
        assert(ids.drop_last()[w] == j);
        lemma_orders_member(nodes, enter, ids.drop_last(), j);
        let v = rest.index_of(j);
        assert(all[top.len() + v] == j);
    }
}

/// The walk that descends everywhere.
pub open spec fn everything() -> spec_fn(u32) -> bool {
    |k: u32| true
}

/// In a walk, every node but the first comes after its parent.
pub proof fn lemma_order_parent_first(
    nodes: Seq<Node>,
    enter: spec_fn(u32) -> bool,
    rank: Seq<nat>,
    i: u32,
    b: int,
) -> (a: int)
    requires
        tree::linked(nodes),
        tree::ranked(nodes, rank),
        i < nodes.len(),
        0 < b < order(nodes, enter, i).len(),
    ensures
        0 <= a < b,
        order(nodes, enter, i)[a] == nodes[order(nodes, enter, i)[b] as int].parent,
    decreases rank[i as int] + 1, 0nat,
{
    lemma_order_unfold(nodes, enter, i);
    let all = order(nodes, enter, i);
    let ks = tree::kids(nodes, i as int);
    let below = orders(nodes, enter, ks);
    assert(enter(i));
    assert(all[b] == below[b - 1]);
    assert(tree::chain_ok(nodes, i as int));
    tree::lemma_kids(nodes, i as int);
    assert forall|j: int| 0 <= j < ks.len() implies rank[(#[trigger] ks[j]) as int]
        < rank[i as int] by {
        assert(ks.contains(ks[j]));
        assert(rank[ks[j] as int] < rank[nodes[ks[j] as int].parent as int]);
    }
    let a = lemma_orders_parent_first(nodes, enter, rank, ks, i, b - 1);
    if a >= 0 {
        assert(all[a + 1] == below[a]);
    }
    a + 1
}

proof fn lemma_orders_parent_first(
    nodes: Seq<Node>,
    enter: spec_fn(u32) -> bool,
    rank: Seq<nat>,
    ids: Seq<u32>,
    p: u32,
    b: int,
) -> (a: int)
    requires
        tree::linked(nodes),
        tree::ranked(nodes, rank),
        p < nodes.len(),
        forall|j: int|
            0 <= j < ids.len() ==> (#[trigger] ids[j]) < nodes.len() && nodes[ids[j] as int].parent
                == p && rank[ids[j] as int] < rank[p as int],
        0 <= b < orders(nodes, enter, ids).len(),
    ensures
        -1 <= a < b,
        a == -1 ==> nodes[orders(nodes, enter, ids)[b] as int].parent == p,
        a >= 0 ==> orders(nodes, enter, ids)[a] == nodes[orders(
            nodes,
            enter,
            ids,
        )[b] as int].parent,
    decreases rank[p as int], ids.len(),
{
    let all = orders(nodes, enter, ids);
    let top = order(nodes, enter, ids.last());
    let rest = orders(nodes, enter, ids.drop_last());
    assert(all == top + rest);
    if b < top.len() {
        assert(all[b] == top[b]);
        if b == 0 {
            lemma_order_unfold(nodes, enter, ids.last());
            assert(ids[ids.len() - 1] == top[0]);
            -1
        } else {
            let a = lemma_order_parent_first(nodes, enter, rank, ids.last(), b);
            assert(all[a] == top[a]);
            a
        }
    } else {
        assert(all[b] == rest[b - top.len()]);
        let a = lemma_orders_parent_first(
            nodes,
            enter,
            rank,
            ids.drop_last(),
            p,
            b - top.len(),
        );
        if a >= 0 {
            assert(all[a + top.len()] == rest[a]);
            a + top.len()
        } else {
            -1
        }
    }
}

impl Snapshot {
    /// Everything below `id`, parents before children.
    pub fn subtree_order(&self, id: u32) -> (r: Vec<u32>)
        requires
            tree::linked(self.nodes@),
            id < self.nodes.len(),
        ensures
            r@ == order(self.nodes@, everything(), id),
    {
        let ghost nodes = self.nodes@;
        let ghost enter = everything();
        let ghost rank = choose|rank: Seq<nat>| tree::ranked(nodes, rank);
        let ghost all = order(nodes, enter, id);
        let mut done: Vec<u32> = Vec::new();
        let mut stack: Vec<u32> = Vec::new();
        stack.push(id);
        proof {
            lemma_order_sound(nodes, enter, rank, id);
            assert(stack@ =~= seq![id]);
            assert(stack@.drop_last() =~= Seq::<u32>::empty());
            assert(orders(nodes, enter, stack@.drop_last()) =~= Seq::<u32>::empty());
            assert(all =~= done@ + orders(nodes, enter, stack@));
        }
        while stack.len() > 0
            invariant
                nodes == self.nodes@,
                tree::linked(nodes),
                enter == everything(),
                all == done@ + orders(nodes, enter, stack@),
                forall|j: int| 0 <= j < all.len() ==> (#[trigger] all[j]) < nodes.len(),
            decreases all.len() - done@.len(),
        {
            let ghost before = stack@;
            let i: u32 = match stack.pop() {
                Some(i) => i,
                None => 0,
            };
            proof {
                lemma_stack_top(nodes, enter, all, done@, before, stack@, i);
                lemma_orders_pop(nodes, enter, stack@, i);
                assert(tree::chain_ok(nodes, i as int));
            }
            let ghost rest = stack@;
            let ghost had = done@;
            done.push(i);
            let mut kids: Vec<u32> = self.child_ids(i);
            stack.append(&mut kids);
            assert(stack@ =~= rest + tree::kids(nodes, i as int));
            assert(had + (seq![i] + orders(nodes, enter, stack@)) =~= done@ + orders(
                nodes,
                enter,
                stack@,
            ));
        }
        assert(orders(nodes, enter, stack@) =~= Seq::<u32>::empty());
        assert(all =~= done@);
        done
    }
}

/// The top of the stack is still to be met, so it exists.
pub proof fn lemma_stack_top(
    nodes: Seq<Node>,
    enter: spec_fn(u32) -> bool,
    all: Seq<u32>,
    done: Seq<u32>,
    before: Seq<u32>,
    rest: Seq<u32>,
    i: u32,
)
    requires
        nodes.len() > 0,
        all == done + orders(nodes, enter, before),
        forall|j: int| 0 <= j < all.len() ==> (#[trigger] all[j]) < nodes.len(),
        before.len() > 0,
        i == before.last(),
        rest == before.drop_last(),
    ensures
        i < nodes.len(),
        before == rest.push(i),
        done.len() < all.len(),
{
    assert(before =~= rest.push(i));
    assert(before[before.len() - 1] == i);
    assert(before.contains(i));
    lemma_orders_member(nodes, enter, before, i);
    let w = orders(nodes, enter, before).index_of(i);
    assert(all[done.len() + w] == i);
}

} // verus!
