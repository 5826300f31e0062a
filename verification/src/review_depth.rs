//! The tree of what is marked is shown down to its last level.
use crate::forest;
use crate::model::Snapshot;
use crate::review;
use crate::review::Scene;
use crate::review_tree;
use crate::review_tree::{Forest, Location};
use crate::tree;
use vstd::prelude::*;

verus! {

/// The rank of what hangs below a key is smaller than that of the key.
spec fn falls(f: Forest, trees: Seq<&Snapshot>, rank: spec_fn(i32) -> int) -> bool {
    forall|key: i32, c: i32|
        f.place(key as int) is Some && #[trigger] review_tree::child_keys(
            f,
            trees,
            key as int,
        ).contains(c) ==> #[trigger] rank(c) < rank(key)
}

spec fn key_count(f: Forest) -> nat {
    f.entry_count as nat + f.groups@.len()
}

/// Different keys are no more than there are keys.
proof fn lemma_crowd(f: Forest, path: Seq<i32>)
    requires
        f.keys_ok(),
        path.no_duplicates(),
        forall|i: int| 0 <= i < path.len() ==> f.place((#[trigger] path[i]) as int) is Some,
    ensures
        path.len() <= key_count(f),
{
    let n = key_count(f) as int;
    let wide = path.map_values(|k: i32| k as int);
    assert forall|i: int, j: int| 0 <= i < wide.len() && 0 <= j < wide.len() && i != j implies wide[i]
        != wide[j] by {
        assert(path[i] != path[j]);
    }
    wide.unique_seq_to_set();
    vstd::set_lib::lemma_int_range(0, n);
    assert forall|k: int| wide.to_set().contains(k) implies vstd::set_lib::set_int_range(
        0,
        n,
    ).contains(k) by {
        let i = choose|i: int| 0 <= i < wide.len() && wide[i] == k;
        assert(f.place(path[i] as int) is Some);
    }
    vstd::set_lib::lemma_len_subset(wide.to_set(), vstd::set_lib::set_int_range(0, n));
}

/// With as many levels left as there are other keys, more levels change nothing.
proof fn lemma_enough(
    s: Scene,
    rank: spec_fn(i32) -> int,
    path: Seq<i32>,
    key: i32,
    depth: int,
    a: nat,
    b: nat,
)
    requires
        s.forest.keys_ok(),
        falls(s.forest, s.trees, rank),
        path.no_duplicates(),
        forall|i: int|
            0 <= i < path.len() ==> s.forest.place((#[trigger] path[i]) as int) is Some && rank(
                path[i],
            ) > rank(key),
        path.len() + a >= key_count(s.forest),
        a <= b,
    ensures
        review::rows_at(s, key, depth, a) == review::rows_at(s, key, depth, b),
    decreases a, 0nat,
{
    if s.forest.place(key as int) is Some {
        let longer = path.push(key);
        assert forall|i: int, j: int|
            0 <= i < longer.len() && 0 <= j < longer.len() && i != j implies longer[i] != longer[j] by {
            if i < path.len() && j < path.len() {
                assert(path[i] != path[j]);
            } else if i < path.len() {
                assert(rank(path[i]) > rank(key));
            } else {
                assert(rank(path[j]) > rank(key));
            }
        }
        assert forall|i: int| 0 <= i < longer.len() implies s.forest.place(
            (#[trigger] longer[i]) as int,
        ) is Some by {
            if i < path.len() {
                assert(longer[i] == path[i]);
            }
        }
        lemma_crowd(s.forest, longer);
        assert(a >= 1);
        match review::limit_of(s.expanded, key) {
            None => {},
            Some(limit) => {
                let kids = review_tree::display_keys(s.forest, s.trees, key as int);
                lemma_enough_list(
                    s,
                    rank,
                    longer,
                    key,
                    kids,
                    review::shown_count(kids.len(), limit),
                    depth + 1,
                    (a - 1) as nat,
                    (b - 1) as nat,
                );
            },
        }
    }
}

proof fn lemma_enough_list(
    s: Scene,
    rank: spec_fn(i32) -> int,
    path: Seq<i32>,
    key: i32,
    kids: Seq<i32>,
    n: nat,
    depth: int,
    a: nat,
    b: nat,
)
    requires
        s.forest.keys_ok(),
        falls(s.forest, s.trees, rank),
        s.forest.place(key as int) is Some,
        kids == review_tree::display_keys(s.forest, s.trees, key as int),
        n <= kids.len(),
        path.no_duplicates(),
        forall|i: int|
            0 <= i < path.len() ==> s.forest.place((#[trigger] path[i]) as int) is Some && rank(
                path[i],
            ) >= rank(key),
        path.len() + a >= key_count(s.forest),
        a <= b,
    ensures
        review::rows_of(s, kids, n, depth, a) == review::rows_of(s, kids, n, depth, b),
    decreases a, n + 1,
{
    if n > 0 {
        lemma_enough_list(s, rank, path, key, kids, (n - 1) as nat, depth, a, b);
        let c = kids[n - 1];
        review_tree::lemma_displayed(s.forest, s.trees, key as int, n - 1);
        assert(rank(c) < rank(key));
        lemma_enough(s, rank, path, c, depth, a, b);
    }
}

spec fn length_sum(f: Forest, n: nat) -> nat
    decreases n,
{
    if n == 0 {
        0
    } else {
        length_sum(f, (n - 1) as nat) + forest::group_view(f.groups@[n - 1]).names().len()
    }
}

proof fn lemma_length_sum(f: Forest, n: nat, g: int)
    requires
        0 <= g < n,
    ensures
        forest::group_view(f.groups@[g]).names().len() <= length_sum(f, n),
    decreases n,
{
    if g < n - 1 {
        lemma_length_sum(f, (n - 1) as nat, g);
    }
}

/// Ranks of the nodes of a tree.
spec fn tree_rank(t: Snapshot) -> Seq<nat> {
    choose|rank: Seq<nat>| tree::ranked(t.nodes@, rank)
}

/// A rank for every key: groups stand above entries, and shorter paths above longer ones.
spec fn key_rank(f: Forest, trees: Seq<&Snapshot>) -> spec_fn(i32) -> int {
    |key: i32|
        match f.place(key as int) {
            Some(Location::Entry { target, node }) => tree_rank(
                *trees[target as int],
            )[node as int] as int,
            Some(Location::Group(g)) => f.entry_count + 1 + length_sum(f, f.groups@.len())
                - forest::group_view(f.groups@[g as int]).names().len(),
            None => -1,
        }
}

proof fn lemma_entry_place(f: Forest, trees: Seq<&Snapshot>, key: int)
    requires
        f.belongs_to(trees),
        0 <= key < f.entry_count,
    ensures
        f.place(key) matches Some(Location::Entry { target, node }) && target < trees.len() && node
            < trees[target as int].nodes@.len() && key == f.offsets@[target as int] + node,
{
    lemma_some_target(f, key, f.offsets@.len() - 1);
    let t = choose|t: int| review_tree::between(f.offsets@, t, key);
    assert(f.offsets@.len() == f.offsets.len());
    f.lemma_place(key, t);
    f.lemma_entry(trees, t);
}

proof fn lemma_some_target(f: Forest, key: int, n: int)
    requires
        f.keys_ok(),
        0 <= n < f.offsets@.len(),
        0 <= key < f.offsets@[n],
    ensures
        exists|t: int| review_tree::between(f.offsets@, t, key),
    decreases n,
{
    if n == 0 {
    } else if key >= f.offsets@[n - 1] {
        assert(review_tree::between(f.offsets@, n - 1, key));
    } else {
        lemma_some_target(f, key, n - 1);
    }
}

proof fn lemma_offset_within(f: Forest, trees: Seq<&Snapshot>, t: int)
    requires
        f.belongs_to(trees),
        0 <= t < trees.len(),
        trees[t].nodes@.len() > 0,
    ensures
        0 <= review_tree::offset_of(trees, t) < f.entry_count,
        trees[t].nodes@.len() <= f.entry_count,
        f.place(review_tree::offset_of(trees, t) as int) == Some(
            Location::Entry { target: t as usize, node: 0 },
        ),
{
    f.lemma_entry(trees, t);
    let last = f.offsets@.len() - 1;
    assert(f.offsets@[t] == review_tree::offset_of(trees, t));
    assert(f.offsets@[t + 1] <= f.offsets@[last]);
    f.lemma_place(f.offsets@[t] as int, t);
}

proof fn lemma_group_falls(f: Forest, trees: Seq<&Snapshot>, key: i32, g: usize, c: i32)
    requires
        forest::joined_forest(trees, f),
        forall|t: int| 0 <= t < trees.len() ==> tree::linked(#[trigger] trees[t].nodes@),
        f.place(key as int) == Some(Location::Group(g)),
        g < f.groups@.len(),
        f.groups@[g as int].children@.contains(c),
    ensures
        key_rank(f, trees)(c) < key_rank(f, trees)(key),
{
    let gs = forest::group_views(f.groups@);
    let count = f.entry_count as int;
    let n = trees.len() as int;
    assert(gs[g as int] == forest::group_view(f.groups@[g as int]));
    assert(forest::children_right(trees, gs, count, n, g as int));
    assert(gs[g as int].children.contains(c));
    lemma_length_sum(f, f.groups@.len(), g as int);
    if forest::group_below(gs, c - count, gs[g as int].names()) {
        let h = c - count;
        assert(gs[h] == forest::group_view(f.groups@[h]));
        assert(f.groups@.len() == f.groups.len());
        assert(f.place(c as int) == Some(Location::Group(h as usize)));
        lemma_drive_has_names(f, trees, h);
        assert(gs[h].names().drop_last().len() == gs[h].names().len() - 1);
    } else {
        let u = choose|u: int|
            #[trigger] forest::target_below(trees, n, u, gs[g as int].names()) && c
                == review_tree::offset_of(trees, u);
        assert(tree::linked(trees[u].nodes@));
        assert(f.offsets@.len() == f.offsets.len());
        lemma_offset_within(f, trees, u);
        let r = tree_rank(*trees[u]);
        assert(tree::acyclic(trees[u].nodes@));
        assert(r[0] < trees[u].nodes@.len());
    }
}

#[verifier::spinoff_prover]
#[verifier::rlimit(40)]
proof fn lemma_entry_falls(
    f: Forest,
    trees: Seq<&Snapshot>,
    key: i32,
    target: usize,
    node: u32,
    c: i32,
)
    requires
        f.belongs_to(trees),
        forall|t: int| 0 <= t < trees.len() ==> tree::linked(#[trigger] trees[t].nodes@),
        f.place(key as int) == Some(Location::Entry { target, node }),
        0 <= key < f.entry_count,
        review_tree::child_keys(f, trees, key as int).contains(c),
    ensures
        key_rank(f, trees)(c) < key_rank(f, trees)(key),
{
    lemma_entry_place(f, trees, key as int);
    let nodes = trees[target as int].nodes@;
    assert(tree::linked(nodes));
    assert(tree::chain_ok(nodes, node as int));
    tree::lemma_kids(nodes, node as int);
    let kids = tree::kids(nodes, node as int);
    let all = review_tree::child_keys(f, trees, key as int);
    let j = choose|j: int| 0 <= j < all.len() && all[j] == c;
    let k = kids[j];
    f.lemma_entry(trees, target as int);
    let last = f.offsets@.len() - 1;
    assert(f.offsets@[target + 1] <= f.offsets@[last]);
    assert(c == f.offsets@[target as int] + k);
    f.lemma_place(c as int, target as int);
    let r = tree_rank(*trees[target as int]);
    assert(tree::acyclic(nodes));
    assert(tree::ranked(nodes, r));
    assert(k != 0) by {
        assert(!kids.contains(0));
        assert(kids[j] == k);
    }
    assert(r[k as int] < r[nodes[k as int].parent as int]);
}

/// The ranks of a joined forest fall.
proof fn lemma_falls(f: Forest, trees: Seq<&Snapshot>)
    requires
        forest::joined_forest(trees, f),
        forall|t: int| 0 <= t < trees.len() ==> tree::linked(#[trigger] trees[t].nodes@),
    ensures
        falls(f, trees, key_rank(f, trees)),
{
    let rank = key_rank(f, trees);
    assert forall|key: i32, c: i32|
        f.place(key as int) is Some && #[trigger] review_tree::child_keys(
            f,
            trees,
            key as int,
        ).contains(c) implies #[trigger] rank(c) < rank(key) by {
        match f.place(key as int) {
            Some(Location::Group(g)) => {
                assert(f.groups@.len() == f.groups.len());
                lemma_group_falls(f, trees, key, g, c);
            },
            Some(Location::Entry { target, node }) => {
                assert(key < f.entry_count);
                lemma_entry_falls(f, trees, key, target, node, c);
            },
            None => {},
        }
    }
}

/// What is no drive lies below something.
proof fn lemma_drive_has_names(f: Forest, trees: Seq<&Snapshot>, h: int)
    requires
        forest::joined_forest(trees, f),
        0 <= h < f.groups@.len(),
        !f.groups@[h].drive,
    ensures
        forest::group_view(f.groups@[h]).names().len() > 0,
{
    let gs = forest::group_views(f.groups@);
    assert(gs[h] == forest::group_view(f.groups@[h]));
    assert(forest::named_right(trees, gs[h]));
    assert(forest::targets_right(trees, trees.len() as int, 0, gs[h]));
    let u = gs[h].targets[0];
    assert(gs[h].targets.contains(u));
    assert(forest::reached(trees, trees.len() as int, 0, u as int, gs[h].names()));
}

/// Every level of a joined forest is shown: with more levels there are no more rows.
pub proof fn law_rows_reach_every_level(s: Scene, more: nat)
    requires
        forest::joined_forest(s.trees, s.forest),
        forall|t: int| 0 <= t < s.trees.len() ==> tree::linked(#[trigger] s.trees[t].nodes@),
        s.forest.entry_count + s.forest.groups@.len() <= i32::MAX,
        more >= review::levels(s.forest),
    ensures
        review::tree_rows(s) == review::rows_of(
            s,
            s.forest.roots@,
            s.forest.roots@.len(),
            0,
            more,
        ),
{
    lemma_falls(s.forest, s.trees);
    lemma_all_levels(s, s.forest.roots@, s.forest.roots@.len(), review::levels(s.forest), more);
}

proof fn lemma_all_levels(s: Scene, keys: Seq<i32>, n: nat, a: nat, b: nat)
    requires
        s.forest.keys_ok(),
        falls(s.forest, s.trees, key_rank(s.forest, s.trees)),
        a >= key_count(s.forest),
        a <= b,
        n <= keys.len(),
    ensures
        review::rows_of(s, keys, n, 0, a) == review::rows_of(s, keys, n, 0, b),
    decreases n,
{
    if n > 0 {
        lemma_all_levels(s, keys, (n - 1) as nat, a, b);
        lemma_enough(
            s,
            key_rank(s.forest, s.trees),
            Seq::empty(),
            keys[n - 1],
            0,
            a,
            b,
        );
    }
}

} // verus!
