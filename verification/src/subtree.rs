//! Cutting one directory or file, with everything below it, out of a snapshot.
use crate::model;
use crate::model::{FindError, Node, ScanStats, Snapshot, NONE};
use crate::text;
use crate::tree;
use crate::walk;
use vstd::prelude::*;

verus! {

/// Why nothing can be cut out.
#[derive(Clone, Copy, Debug, PartialEq, Eq, Structural)]
pub enum CutError {
    Find(FindError),
    /// The names would exceed the compact limits.
    TooLarge,
}

/// The new number of a node, if it is cut out too.
pub open spec fn placed(ids: Seq<u32>, id: u32) -> u32 {
    if ids.contains(id) {
        ids.index_of(id) as u32
    } else {
        NONE
    }
}

/// The names of the first `n` nodes that are cut out, one behind the other. The first one
/// needs none.
pub open spec fn cut_names(nodes: Seq<Node>, names: Seq<u16>, ids: Seq<u32>, n: nat) -> Seq<u16>
    decreases n,
{
    if n <= 1 {
        Seq::empty()
    } else {
        cut_names(nodes, names, ids, (n - 1) as nat) + model::units_at(
            nodes,
            names,
            ids[n - 1] as int,
        )
    }
}

/// A node as it is cut out: the same figures, with the new numbers.
pub open spec fn cut_node(nodes: Seq<Node>, names: Seq<u16>, ids: Seq<u32>, k: int) -> Node {
    let n = nodes[ids[k] as int];
    Node {
        parent: if k == 0 {
            NONE
        } else {
            placed(ids, n.parent)
        },
        first_child: placed(ids, n.first_child),
        next_sibling: if k == 0 {
            NONE
        } else {
            placed(ids, n.next_sibling)
        },
        name_start: cut_names(nodes, names, ids, k as nat).len() as u32,
        name_len: if k == 0 {
            0
        } else {
            n.name_len
        },
        ..n
    }
}

/// Everything at or below a node, parents first.
pub open spec fn cut_ids(s: Snapshot, id: u32) -> Seq<u32> {
    walk::order(s.nodes@, walk::everything(), id)
}

pub open spec fn same_stats(a: ScanStats, b: ScanStats) -> bool {
    &&& a.backend == b.backend
    &&& a.started_unix == b.started_unix
    &&& a.elapsed_ms == b.elapsed_ms
    &&& a.threads == b.threads
    &&& a.records_read == b.records_read
    &&& a.raw_bytes_read == b.raw_bytes_read
    &&& a.errors == b.errors
    &&& a.complete == b.complete
    &&& a.peak_working_set_bytes == b.peak_working_set_bytes
    &&& a.index_bytes == b.index_bytes
    &&& a.warnings@ == b.warnings@
}

fn copy_stats(s: &ScanStats) -> (r: ScanStats)
    ensures
        same_stats(r, *s),
{
    ScanStats {
        backend: s.backend.clone(),
        started_unix: s.started_unix,
        elapsed_ms: s.elapsed_ms,
        threads: s.threads,
        records_read: s.records_read,
        raw_bytes_read: s.raw_bytes_read,
        errors: s.errors,
        complete: s.complete,
        peak_working_set_bytes: s.peak_working_set_bytes,
        index_bytes: s.index_bytes,
        warnings: text::copy_list(&s.warnings),
    }
}

/// The new number of every node.
fn places(ids: &Vec<u32>, len: usize) -> (r: Vec<u32>)
    requires
        ids@.no_duplicates(),
        ids@.len() <= len <= u32::MAX,
        forall|k: int| 0 <= k < ids@.len() ==> (#[trigger] ids@[k]) < len,
    ensures
        r@.len() == len,
        forall|i: int| 0 <= i < len ==> #[trigger] r@[i] == placed(ids@, i as u32),
{
    let mut r: Vec<u32> = vec![NONE; len];
    let mut k: usize = 0;
    while k < ids.len()
        invariant
            k <= ids@.len() <= len <= u32::MAX,
            r@.len() == len,
            ids@.no_duplicates(),
            forall|j: int| 0 <= j < ids@.len() ==> (#[trigger] ids@[j]) < len,
            forall|j: int| 0 <= j < k ==> r@[(#[trigger] ids@[j]) as int] == j,
            forall|i: int|
                0 <= i < len && !ids@.subrange(0, k as int).contains(i as u32) ==> #[trigger] r@[i]
                    == NONE,
        decreases ids@.len() - k,
    {
        let ghost had = r@;
        let ghost before = ids@.subrange(0, k as int);
        let id: usize = ids[k] as usize;
        r.set(id, k as u32);
        k += 1;
        proof {
            let now = ids@.subrange(0, k as int);
            assert forall|j: int| 0 <= j < k implies r@[(#[trigger] ids@[j]) as int] == j by {
                if j < k - 1 {
                    assert(ids@[j] != ids@[k - 1]);
                    assert(had[ids@[j] as int] == j);
                }
            }
            assert forall|i: int| 0 <= i < len && !now.contains(i as u32) implies #[trigger] r@[i]
                == NONE by {
                assert(now[k - 1] == ids@[k - 1]);
                assert(i != id);
                if before.contains(i as u32) {
                    let w = before.index_of(i as u32);
                    assert(now[w] == i as u32);
                }
                assert(had[i] == NONE);
            }
        }
    }
    proof {
        assert(ids@.subrange(0, k as int) =~= ids@);
        assert forall|i: int| 0 <= i < len implies #[trigger] r@[i] == placed(ids@, i as u32) by {
            if ids@.contains(i as u32) {
                let w = ids@.index_of(i as u32);
                assert(ids@[w] == i as u32);
                assert(r@[ids@[w] as int] == w);
            }
        }
    }
    r
}

fn place_of(places: &Vec<u32>, id: u32) -> (r: u32)
    ensures
        r == (if id < places@.len() {
            places@[id as int]
        } else {
            NONE
        }),
{
    if (id as usize) < places.len() {
        places[id as usize]
    } else {
        NONE
    }
}

impl Snapshot {
    /// The part of the snapshot at a path, as a snapshot of its own. What is known of a
    /// node counts only what lies below it, so it stays the same.
    pub fn subtree(&self, path: &str) -> (r: Result<Snapshot, CutError>)
        requires
            tree::linked(self.nodes@),
            model::names_inside(self.nodes@, self.names@.len()),
            model::parents_inside(self.nodes@),
            self.nodes.len() <= u32::MAX,
        ensures
            match model::found(*self, path@) {
                Err(e) => r == Err::<Snapshot, CutError>(CutError::Find(e)),
                Ok(id) => {
                    let ids = cut_ids(*self, id);
                    let names = cut_names(self.nodes@, self.names@, ids, ids.len());
                    match r {
                        Ok(s) => {
                            &&& names.len() <= u32::MAX
                            &&& s.version == self.version
                            &&& s.root@ == model::path_at(
                                self.root@,
                                self.nodes@,
                                self.names@,
                                id,
                                self.nodes@.len(),
                            )
                            &&& s.volume == self.volume
                            &&& same_stats(s.stats, self.stats)
                            &&& s.names@ == names
                            &&& s.nodes@.len() == ids.len()
                            &&& forall|k: int|
                                0 <= k < ids.len() ==> #[trigger] s.nodes@[k] == cut_node(
                                    self.nodes@,
                                    self.names@,
                                    ids,
                                    k,
                                )
                        },
                        Err(e) => e == CutError::TooLarge && names.len() > u32::MAX,
                    }
                },
            },
            r matches Ok(s) ==> tree::linked(s.nodes@) && model::names_inside(
                s.nodes@,
                s.names@.len(),
            ) && model::parents_inside(s.nodes@) && s.nodes@[0].parent == NONE && (tree::rolled(
                self.nodes@,
            ) ==> tree::rolled(s.nodes@)),
    {
        let id: u32 = match self.find(path) {
            Ok(id) => id,
            Err(e) => {
                return Err(CutError::Find(e));
            },
        };
        let ids: Vec<u32> = self.subtree_order(id);
        let ghost rank = choose|rank: Seq<nat>| tree::ranked(self.nodes@, rank);
        proof {
            walk::lemma_order_sound(self.nodes@, walk::everything(), rank, id);
            lemma_few(ids@, self.nodes@.len());
        }
        let places: Vec<u32> = places(&ids, self.nodes.len());
        let mut nodes: Vec<Node> = Vec::new();
        let mut names: Vec<u16> = Vec::new();
        let mut k: usize = 0;
        while k < ids.len()
            invariant
                k <= ids@.len(),
                nodes@.len() == k,
                ids@ == cut_ids(*self, id),
                model::names_inside(self.nodes@, self.names@.len()),
                forall|j: int| 0 <= j < ids@.len() ==> (#[trigger] ids@[j]) < self.nodes@.len(),
                places@.len() == self.nodes@.len() <= u32::MAX,
                forall|i: int|
                    0 <= i < places@.len() ==> #[trigger] places@[i] == placed(ids@, i as u32),
                names@ == cut_names(self.nodes@, self.names@, ids@, k as nat),
                names@.len() <= u32::MAX,
                forall|j: int|
                    0 <= j < k ==> #[trigger] nodes@[j] == cut_node(
                        self.nodes@,
                        self.names@,
                        ids@,
                        j,
                    ),
                model::found(*self, path@) == Ok::<u32, FindError>(id),
            decreases ids@.len() - k,
        {
            let from: u32 = ids[k];
            let mut n: Node = self.nodes[from as usize];
            proof {
                assert(ids@[k as int] < self.nodes@.len());
                lemma_outside(ids@, self.nodes@.len(), n.parent);
                lemma_outside(ids@, self.nodes@.len(), n.first_child);
                lemma_outside(ids@, self.nodes@.len(), n.next_sibling);
                assert(n.name_start + n.name_len <= self.names@.len());
            }
            n.first_child = place_of(&places, n.first_child);
            n.parent = place_of(&places, n.parent);
            n.next_sibling = place_of(&places, n.next_sibling);
            n.name_start = names.len() as u32;
            if k == 0 {
                n.parent = NONE;
                n.next_sibling = NONE;
                n.name_len = 0;
            } else {
                let units: &[u16] = self.name_units(from);
                let room: usize = 0xffff_ffff - names.len();
                if units.len() > room {
                    proof {
                        lemma_names_grow(
                            self.nodes@,
                            self.names@,
                            ids@,
                            (k + 1) as nat,
                            ids@.len(),
                        );
                    }
                    return Err(CutError::TooLarge);
                }
                names.extend_from_slice(units);
                assert(units@.len() == n.name_len);
            }
            nodes.push(n);
            k += 1;
            proof {
                assert(names@ =~= cut_names(self.nodes@, self.names@, ids@, k as nat));
                assert(nodes@[k - 1] == cut_node(self.nodes@, self.names@, ids@, k - 1));
            }
        }
        proof {
            law_cuts_are_linked(self.nodes@, self.names@, id, nodes@);
            lemma_names_cut(self.nodes@, self.names@, ids@, nodes@);
            if tree::rolled(self.nodes@) {
                law_cuts_are_rolled(self.nodes@, self.names@, id, nodes@);
            }
        }
        Ok(
            Snapshot {
                version: self.version,
                root: self.path(id),
                volume: self.volume.clone(),
                stats: copy_stats(&self.stats),
                nodes,
                names,
            },
        )
    }
}

proof fn lemma_outside(ids: Seq<u32>, len: nat, id: u32)
    requires
        forall|j: int| 0 <= j < ids.len() ==> (#[trigger] ids[j]) < len,
    ensures
        id >= len ==> placed(ids, id) == NONE,
{
    if id >= len && ids.contains(id) {
        assert(ids[ids.index_of(id)] == id);
    }
}

/// Different numbers below a bound are at most as many.
proof fn lemma_few(ids: Seq<u32>, len: nat)
    requires
        ids.no_duplicates(),
        forall|j: int| 0 <= j < ids.len() ==> (#[trigger] ids[j]) < len,
    ensures
        ids.len() <= len,
{
    let all = vstd::set_lib::set_int_range(0, len as int);
    let as_int = ids.map_values(|i: u32| i as int);
    vstd::set_lib::lemma_int_range(0, len as int);
    as_int.unique_seq_to_set();
    assert forall|x: int| as_int.to_set().contains(x) implies all.contains(x) by {
        let w = as_int.index_of(x);
        assert(as_int[w] == ids[w] as int);
    }
    vstd::set_lib::lemma_len_subset(as_int.to_set(), all);
}

proof fn lemma_names_grow(nodes: Seq<Node>, names: Seq<u16>, ids: Seq<u32>, a: nat, b: nat)
    requires
        a <= b,
    ensures
        cut_names(nodes, names, ids, a).len() <= cut_names(nodes, names, ids, b).len(),
    decreases b,
{
    if a < b {
        lemma_names_grow(nodes, names, ids, a, (b - 1) as nat);
    }
}

proof fn lemma_names_cut(nodes: Seq<Node>, names: Seq<u16>, ids: Seq<u32>, done: Seq<Node>)
    requires
        model::names_inside(nodes, names.len()),
        forall|k: int| 0 <= k < ids.len() ==> (#[trigger] ids[k]) < nodes.len(),
        done.len() == ids.len(),
        forall|k: int| 0 <= k < ids.len() ==> #[trigger] done[k] == cut_node(nodes, names, ids, k),
        cut_names(nodes, names, ids, ids.len()).len() <= u32::MAX,
    ensures
        model::names_inside(done, cut_names(nodes, names, ids, ids.len()).len()),
{
    let all = cut_names(nodes, names, ids, ids.len()).len();
    assert forall|k: int| 0 <= k < done.len() implies (#[trigger] done[k]).name_start
        + done[k].name_len <= all by {
        assert(done[k] == cut_node(nodes, names, ids, k));
        lemma_names_grow(nodes, names, ids, k as nat, ids.len());
        if k > 0 {
            assert(ids[k] < nodes.len());
            assert(nodes[ids[k] as int].name_start + nodes[ids[k] as int].name_len <= names.len());
            assert(model::units_at(nodes, names, ids[k] as int).len()
                == nodes[ids[k] as int].name_len);
            lemma_names_grow(nodes, names, ids, (k + 1) as nat, ids.len());
        }
    }
}

proof fn lemma_placed(ids: Seq<u32>, k: int)
    requires
        ids.no_duplicates(),
        0 <= k < ids.len() <= u32::MAX,
    ensures
        placed(ids, ids[k]) == k,
{
    assert(ids.contains(ids[k]));
    assert(ids[ids.index_of(ids[k])] == ids[k]);
}

/// What a cut keeps of the whole: its first number is that of the node itself, children
/// come along with their parents, and the node is nobody's child in it.
spec fn closed(nodes: Seq<Node>, ids: Seq<u32>) -> bool {
    &&& 0 < ids.len() <= nodes.len()
    &&& ids.no_duplicates()
    &&& forall|k: int| 0 <= k < ids.len() ==> (#[trigger] ids[k]) < nodes.len()
    &&& forall|k: int, j: int|
        0 <= k < ids.len() && 0 <= j < tree::kids(nodes, ids[k] as int).len() ==> ids.contains(
            #[trigger] tree::kids(nodes, ids[k] as int)[j],
        ) && tree::kids(nodes, ids[k] as int)[j] != ids[0]
    &&& forall|k: int|
        0 < k < ids.len() ==> (#[trigger] ids[k]) != 0 && ids.subrange(0, k).contains(
            nodes[ids[k] as int].parent,
        )
}

proof fn lemma_closed(nodes: Seq<Node>, id: u32)
    requires
        tree::linked(nodes),
        id < nodes.len(),
    ensures
        closed(nodes, walk::order(nodes, walk::everything(), id)),
{
    let enter = walk::everything();
    let ids = walk::order(nodes, enter, id);
    let rank = choose|rank: Seq<nat>| tree::ranked(nodes, rank);
    walk::lemma_order_sound(nodes, enter, rank, id);
    walk::lemma_order_unfold(nodes, enter, id);
    assert(ids[0] == id);
    lemma_few(ids, nodes.len());
    assert forall|k: int, j: int|
        0 <= k < ids.len() && 0 <= j < tree::kids(nodes, ids[k] as int).len() implies ids.contains(
        #[trigger] tree::kids(nodes, ids[k] as int)[j],
    ) && tree::kids(nodes, ids[k] as int)[j] != ids[0] by {
        let p = ids[k] as int;
        let c = tree::kids(nodes, p)[j];
        assert(tree::chain_ok(nodes, p));
        tree::lemma_kids(nodes, p);
        assert(tree::kids(nodes, p).contains(c));
        assert(nodes[c as int].parent == p);
        assert(c != 0);
        walk::lemma_under_parent(nodes, id as int, c as int);
        walk::lemma_order_complete(nodes, enter, id, c as int);
        if c == id {
            walk::lemma_under_rank(nodes, rank, id as int, p);
            assert(rank[c as int] < rank[nodes[c as int].parent as int]);
        }
    }
    assert forall|k: int| 0 < k < ids.len() implies (#[trigger] ids[k]) != 0 && ids.subrange(
        0,
        k,
    ).contains(nodes[ids[k] as int].parent) by {
        let a = walk::lemma_order_parent_first(nodes, enter, rank, id, k);
        assert(ids.subrange(0, k)[a] == ids[a]);
        if ids[k] == 0 {
            walk::lemma_under_parent(nodes, id as int, 0);
            assert(ids[0] != ids[k]);
        }
    }
}

/// The nodes that are cut out hang together as they did.
proof fn lemma_chain_cut(
    nodes: Seq<Node>,
    names: Seq<u16>,
    ids: Seq<u32>,
    done: Seq<Node>,
    c: u32,
    f: nat,
)
    requires
        nodes.len() <= u32::MAX,
        closed(nodes, ids),
        done.len() == ids.len(),
        forall|k: int| 0 <= k < ids.len() ==> #[trigger] done[k] == cut_node(nodes, names, ids, k),
        tree::chain_ends(nodes, c, f),
        forall|j: int|
            0 <= j < tree::chain(nodes, c, f).len() ==> ids.contains(
                #[trigger] tree::chain(nodes, c, f)[j],
            ) && tree::chain(nodes, c, f)[j] != ids[0],
    ensures
        tree::chain_ends(done, placed(ids, c), f),
        tree::chain(done, placed(ids, c), f) == tree::chain(nodes, c, f).map_values(
            |x: u32| placed(ids, x),
        ),
    decreases f,
{
    let all = tree::chain(nodes, c, f);
    if c == NONE {
        lemma_outside(ids, nodes.len(), c);
        assert(all =~= Seq::<u32>::empty());
        assert(tree::chain(done, placed(ids, c), f) =~= all.map_values(|x: u32| placed(ids, x)));
    } else {
        let next = nodes[c as int].next_sibling;
        let g = (f - 1) as nat;
        let rest = tree::chain(nodes, next, g);
        assert(all == seq![c] + rest);
        assert(all[0] == c);
        assert forall|j: int| 0 <= j < rest.len() implies ids.contains(#[trigger] rest[j])
            && rest[j] != ids[0] by {
            assert(all[j + 1] == rest[j]);
        }
        lemma_chain_cut(nodes, names, ids, done, next, g);
        let k = ids.index_of(c);
        assert(ids[k] == c);
        lemma_placed(ids, k);
        assert(done[k] == cut_node(nodes, names, ids, k));
        assert(done[k].next_sibling == placed(ids, next));
        assert(tree::chain(done, k as u32, f) == seq![k as u32] + tree::chain(
            done,
            placed(ids, next),
            g,
        ));
        assert(tree::chain(done, k as u32, f) =~= all.map_values(|x: u32| placed(ids, x)));
    }
}

/// A chain needs no more fuel than it has members.
proof fn lemma_chain_short(nodes: Seq<Node>, c: u32, f: nat, g: nat)
    requires
        nodes.len() <= u32::MAX,
        tree::chain_ends(nodes, c, f),
        tree::chain(nodes, c, f).len() <= g,
    ensures
        tree::chain_ends(nodes, c, g),
        tree::chain(nodes, c, g) == tree::chain(nodes, c, f),
    decreases f,
{
    if c != NONE {
        let next = nodes[c as int].next_sibling;
        let rest = tree::chain(nodes, next, (f - 1) as nat);
        assert(tree::chain(nodes, c, f) == seq![c] + rest);
        assert(rest.len() + 1 == tree::chain(nodes, c, f).len());
        lemma_chain_short(nodes, next, (f - 1) as nat, (g - 1) as nat);
    }
}

proof fn lemma_kids_cut(
    nodes: Seq<Node>,
    names: Seq<u16>,
    ids: Seq<u32>,
    done: Seq<Node>,
    k: int,
)
    requires
        tree::linked(nodes),
        closed(nodes, ids),
        done.len() == ids.len(),
        forall|i: int| 0 <= i < ids.len() ==> #[trigger] done[i] == cut_node(nodes, names, ids, i),
        0 <= k < ids.len(),
    ensures
        tree::chain_ends(done, done[k].first_child, done.len()),
        tree::kids(done, k) == tree::kids(nodes, ids[k] as int).map_values(
            |x: u32| placed(ids, x),
        ),
{
    let p = ids[k] as int;
    let c = nodes[p].first_child;
    let f = nodes.len();
    assert(tree::chain_ok(nodes, p));
    assert(tree::kids(nodes, p) == tree::chain(nodes, c, f));
    assert forall|j: int| 0 <= j < tree::chain(nodes, c, f).len() implies ids.contains(
        #[trigger] tree::chain(nodes, c, f)[j],
    ) && tree::chain(nodes, c, f)[j] != ids[0] by {
        assert(ids.contains(tree::kids(nodes, ids[k] as int)[j]));
    }
    lemma_chain_cut(nodes, names, ids, done, c, f);
    assert(done[k] == cut_node(nodes, names, ids, k));
    let mapped = tree::chain(done, done[k].first_child, f);
    tree::lemma_chain_distinct(done, done[k].first_child, f);
    lemma_few(mapped, done.len());
    lemma_chain_short(done, done[k].first_child, f, done.len());
}

/// What is cut out of a linked snapshot is linked itself.
pub proof fn law_cuts_are_linked(nodes: Seq<Node>, names: Seq<u16>, id: u32, done: Seq<Node>)
    requires
        tree::linked(nodes),
        id < nodes.len(),
        ({
            let ids = walk::order(nodes, walk::everything(), id);
            &&& done.len() == ids.len()
            &&& forall|k: int|
                0 <= k < ids.len() ==> #[trigger] done[k] == cut_node(nodes, names, ids, k)
        }),
    ensures
        tree::linked(done),
        model::parents_inside(done),
{
    let ids = walk::order(nodes, walk::everything(), id);
    let m = ids.len() as int;
    lemma_closed(nodes, id);
    assert forall|k: int| 0 <= k < m implies #[trigger] tree::chain_ok(done, k) && !tree::kids(
        done,
        k,
    ).contains(0) by {
        lemma_kids_cut(nodes, names, ids, done, k);
        lemma_placed(ids, k);
        let ks = tree::kids(done, k);
        let from = tree::kids(nodes, ids[k] as int);
        assert(tree::chain_ok(nodes, ids[k] as int));
        assert forall|j: int| 0 <= j < ks.len() implies done[(#[trigger] ks[j]) as int].parent == k
            && ks[j] != 0 by {
            let x = from[j];
            assert(ids.contains(tree::kids(nodes, ids[k] as int)[j]));
            let w = ids.index_of(x);
            assert(ids[w] == x);
            lemma_placed(ids, w);
            assert(ks[j] == w);
            assert(done[w] == cut_node(nodes, names, ids, w));
            assert(nodes[x as int].parent == ids[k]);
        }
    }
    assert forall|k: int| 0 <= k < m implies !(#[trigger] tree::kids(done, k)).contains(0) by {
        assert(tree::chain_ok(done, k));
    }
    assert forall|k: int| 1 <= k < m implies (#[trigger] done[k]).parent < k && tree::kids(
        done,
        done[k].parent as int,
    ).contains(k as u32) by {
        let before = ids.subrange(0, k);
        let p = nodes[ids[k] as int].parent;
        assert(before.contains(p));
        let a = before.index_of(p);
        assert(ids[a] == p);
        lemma_placed(ids, a);
        lemma_placed(ids, k);
        assert(done[k] == cut_node(nodes, names, ids, k));
        lemma_kids_cut(nodes, names, ids, done, a);
        let from = tree::kids(nodes, p as int);
        assert(ids[k] != 0);
        assert(nodes[ids[k] as int].parent == p);
        assert(from.contains(ids[k]));
        let w = from.index_of(ids[k]);
        assert(tree::kids(done, a)[w] == placed(ids, from[w]));
    }
    let rank = Seq::new(done.len(), |k: int| (m - 1 - k) as nat);
    assert(tree::ranked(done, rank));
    assert forall|k: int| 0 <= k < done.len() implies (#[trigger] done[k]).parent == NONE
        || done[k].parent < done.len() by {
        if k == 0 {
            assert(done[k] == cut_node(nodes, names, ids, k));
        }
    }
}

proof fn lemma_counts_cut(
    nodes: Seq<Node>,
    names: Seq<u16>,
    ids: Seq<u32>,
    done: Seq<Node>,
    from: Seq<u32>,
)
    requires
        closed(nodes, ids),
        done.len() == ids.len(),
        nodes.len() <= u32::MAX,
        forall|i: int| 0 <= i < ids.len() ==> #[trigger] done[i] == cut_node(nodes, names, ids, i),
        forall|j: int| 0 <= j < from.len() ==> ids.contains(#[trigger] from[j]),
    ensures
        tree::count_over(tree::counts(done), from.map_values(|x: u32| placed(ids, x)))
            == tree::count_over(tree::counts(nodes), from),
    decreases from.len(),
{
    let mapped = from.map_values(|x: u32| placed(ids, x));
    if from.len() > 0 {
        lemma_counts_cut(nodes, names, ids, done, from.drop_last());
        assert(mapped.drop_last() =~= from.drop_last().map_values(|x: u32| placed(ids, x)));
        let x = from[from.len() - 1];
        assert(ids.contains(x));
        let w = ids.index_of(x);
        assert(ids[w] == x);
        lemma_placed(ids, w);
        assert(done[w] == cut_node(nodes, names, ids, w));
    }
}

/// What is cut out of a snapshot whose figures add up adds up itself.
pub proof fn law_cuts_are_rolled(nodes: Seq<Node>, names: Seq<u16>, id: u32, done: Seq<Node>)
    requires
        tree::linked(nodes),
        tree::rolled(nodes),
        id < nodes.len(),
        ({
            let ids = walk::order(nodes, walk::everything(), id);
            &&& done.len() == ids.len()
            &&& forall|k: int|
                0 <= k < ids.len() ==> #[trigger] done[k] == cut_node(nodes, names, ids, k)
        }),
    ensures
        tree::rolled(done),
{
    let ids = walk::order(nodes, walk::everything(), id);
    lemma_closed(nodes, id);
    assert forall|k: int| 0 <= k < done.len() implies #[trigger] tree::rolled_at(done, k) by {
        let p = ids[k] as int;
        let from = tree::kids(nodes, p);
        assert(tree::rolled_at(nodes, p));
        lemma_kids_cut(nodes, names, ids, done, k);
        assert forall|j: int| 0 <= j < from.len() implies ids.contains(#[trigger] from[j]) by {
            assert(ids.contains(tree::kids(nodes, ids[k] as int)[j]));
        }
        lemma_counts_cut(nodes, names, ids, done, from);
        assert(done[k] == cut_node(nodes, names, ids, k));
    }
}

proof fn lemma_cut_prefix(nodes: Seq<Node>, names: Seq<u16>, ids: Seq<u32>, k: nat, n: nat)
    requires
        k <= n,
    ensures
        cut_names(nodes, names, ids, k).len() <= cut_names(nodes, names, ids, n).len(),
        cut_names(nodes, names, ids, n).subrange(
            0,
            cut_names(nodes, names, ids, k).len() as int,
        ) == cut_names(nodes, names, ids, k),
    decreases n,
{
    let a = cut_names(nodes, names, ids, k);
    if k < n {
        lemma_cut_prefix(nodes, names, ids, k, (n - 1) as nat);
        let b = cut_names(nodes, names, ids, (n - 1) as nat);
        let c = cut_names(nodes, names, ids, n);
        assert(c.subrange(0, a.len() as int) =~= b.subrange(0, a.len() as int));
    } else {
        assert(a.subrange(0, a.len() as int) =~= a);
    }
}

/// What is cut out keeps the sizes, times, counts and flags of each entry, its name, and the
/// folder it lies in.
pub proof fn law_cuts_keep_what_they_hold(
    nodes: Seq<Node>,
    names: Seq<u16>,
    ids: Seq<u32>,
    k: int,
)
    requires
        0 <= k < ids.len() <= u32::MAX,
        cut_names(nodes, names, ids, ids.len()).len() <= u32::MAX,
        ids[k] < nodes.len(),
        model::names_inside(nodes, names.len()),
    ensures
        ({
            let n = cut_node(nodes, names, ids, k);
            let from = nodes[ids[k] as int];
            let all = cut_names(nodes, names, ids, ids.len());
            &&& n.logical == from.logical && n.allocated == from.allocated
            &&& n.oldest_modified_ms == from.oldest_modified_ms && n.latest_modified_ms
                == from.latest_modified_ms
            &&& n.flags == from.flags && n.files == from.files && n.dirs == from.dirs
            &&& k == 0 ==> n.parent == 0xffff_ffff && n.name_len == 0
            &&& k > 0 && ids.contains(from.parent) ==> n.parent < ids.len() && ids[n.parent as int]
                == from.parent
            &&& k > 0 ==> all.subrange(n.name_start as int, n.name_start + n.name_len)
                == names.subrange(from.name_start as int, from.name_start + from.name_len)
        }),
{
    let n = cut_node(nodes, names, ids, k);
    let from = nodes[ids[k] as int];
    let all = cut_names(nodes, names, ids, ids.len());
    let front = cut_names(nodes, names, ids, k as nat);
    lemma_cut_prefix(nodes, names, ids, k as nat, ids.len());
    if k > 0 {
        let next = cut_names(nodes, names, ids, (k + 1) as nat);
        let own = model::units_at(nodes, names, ids[k] as int);
        lemma_cut_prefix(nodes, names, ids, (k + 1) as nat, ids.len());
        assert(next == front + own);
        assert(own.len() == from.name_len);
        assert(all.subrange(front.len() as int, (front.len() + own.len()) as int) =~= own) by {
            assert forall|i: int| 0 <= i < own.len() implies all[front.len() + i] == own[i] by {
                assert(all.subrange(0, next.len() as int)[front.len() + i] == next[front.len() + i]);
            }
        }
    }
}

} // verus!
