//! Comparing two scans of one place, entry by entry.
use crate::model;
use crate::model::{FindError, Node, Snapshot, HARDLINK};
use crate::order;
use crate::text;
use crate::tree;
use crate::treemap::Table;
use crate::walk;
use vstd::prelude::*;
use vstd::relations::*;
use vstd::string::*;

verus! {

/// How two scans compare.
#[derive(Debug)]
pub struct Comparison {
    pub equal: bool,
    pub left_nodes: usize,
    pub right_nodes: usize,
    pub left_complete: bool,
    pub right_complete: bool,
    pub root_logical_equal: bool,
    pub root_allocated_equal: bool,
    pub differences: u64,
    pub examples: Vec<String>,
}

/// What is compared of an entry.
#[derive(Clone, Copy, Debug, PartialEq, Eq, Structural)]
pub struct Entry {
    pub oldest_modified_ms: i64,
    pub latest_modified_ms: i64,
    pub logical: u64,
    pub allocated: u64,
    pub is_dir: bool,
    pub hardlink: bool,
}

pub open spec fn entry_of(n: Node) -> Entry {
    Entry {
        oldest_modified_ms: n.oldest_modified_ms,
        latest_modified_ms: n.latest_modified_ms,
        logical: n.logical,
        allocated: n.allocated,
        is_dir: n.dir(),
        hardlink: n.flags & HARDLINK != 0,
    }
}

/// A name below a place that has itself a name or none.
pub open spec fn extended_key(base: Seq<u16>, name: Seq<u16>) -> Seq<u16> {
    base + (if base.len() > 0 {
        seq![92u16]
    } else {
        Seq::empty()
    }) + name
}

/// The names of the last `steps` nodes down to `id`.
pub open spec fn key_at(t: Table, id: int, steps: nat) -> Seq<u16>
    decreases steps,
{
    if steps == 0 {
        Seq::empty()
    } else {
        extended_key(
            key_at(t, t.nodes[id].parent as int, (steps - 1) as nat),
            model::units_at(t.nodes, t.names, id),
        )
    }
}

/// How far a node lies below another.
pub open spec fn steps_to(nodes: Seq<Node>, scope: int, id: int) -> nat {
    choose|k: nat| #[trigger] walk::up(nodes, id, k) == scope
}

/// The path of a node relative to the scope.
pub open spec fn rel_key(t: Table, scope: u32, id: u32) -> Seq<u16> {
    key_at(t, id as int, steps_to(t.nodes, scope as int, id as int))
}

pub open spec fn visited(t: Table, scope: u32) -> Seq<u32> {
    walk::order(t.nodes, walk::everything(), scope)
}

pub open spec fn visited_keys(t: Table, scope: u32) -> Seq<Seq<u16>> {
    visited(t, scope).map_values(|id: u32| rel_key(t, scope, id))
}

/// By path, and of one path by the order of the walk.
pub open spec fn key_first(keys: Seq<Seq<u16>>, a: usize, b: usize) -> bool {
    let ka = keys[a as int];
    let kb = keys[b as int];
    order::lex_below(order::unit_numbers(ka), order::unit_numbers(kb)) || (ka == kb && a <= b)
}

pub open spec fn by_key(keys: Seq<Seq<u16>>) -> Seq<usize> {
    order::numbers(keys.len()).sort_by(|a: usize, b: usize| key_first(keys, a, b))
}

/// Of the first `n` of a sorted list, those that no entry of the same path follows.
pub open spec fn latest(keys: Seq<Seq<u16>>, q: Seq<usize>, n: nat) -> Seq<usize>
    decreases n,
{
    if n == 0 {
        Seq::empty()
    } else {
        let before = latest(keys, q, (n - 1) as nat);
        if n < q.len() && keys[q[n - 1] as int] == keys[q[n as int] as int] {
            before
        } else {
            before.push(q[n - 1])
        }
    }
}

/// An entry under its relative path.
pub struct Listed {
    pub key: Seq<u16>,
    pub entry: Entry,
}

/// Everything below the scope by relative path; of several entries under one path, the
/// one that the walk met last.
pub open spec fn listed(t: Table, scope: u32) -> Seq<Listed> {
    let ids = visited(t, scope);
    let keys = visited_keys(t, scope);
    latest(keys, by_key(keys), keys.len()).map_values(
        |i: usize|
            Listed { key: keys[i as int], entry: entry_of(t.nodes[ids[i as int] as int]) },
    )
}

pub open spec fn lookup(l: Seq<Listed>, key: Seq<u16>) -> Option<Entry>
    decreases l.len(),
{
    if l.len() == 0 {
        None
    } else if l.last().key == key {
        Some(l.last().entry)
    } else {
        lookup(l.drop_last(), key)
    }
}

/// Space is compared of single files only: what a shared file takes is counted at one of
/// its names.
pub open spec fn differs(a: Entry, b: Entry) -> bool {
    ||| a.oldest_modified_ms != b.oldest_modified_ms
    ||| a.latest_modified_ms != b.latest_modified_ms
    ||| a.logical != b.logical
    ||| a.is_dir != b.is_dir
    ||| !a.is_dir && !a.hardlink && !b.hardlink && a.allocated != b.allocated
}

pub open spec fn entry_text(e: Entry) -> Seq<char> {
    "Entry { oldest_modified_ms: "@ + text::signed_of(e.oldest_modified_ms as int)
        + ", latest_modified_ms: "@ + text::signed_of(e.latest_modified_ms as int) + ", logical: "@
        + text::decimal_of(e.logical as nat) + ", allocated: "@ + text::decimal_of(
        e.allocated as nat,
    ) + ", is_dir: "@ + text::yes_no(e.is_dir) + ", hardlink: "@ + text::yes_no(e.hardlink) + " }"@
}

/// What is said of an entry of the left side.
pub open spec fn left_note(l: Listed, right: Seq<Listed>) -> Seq<Seq<char>> {
    match lookup(right, l.key) {
        None => seq!["only left: "@ + text::utf16_text(l.key)],
        Some(o) => if differs(l.entry, o) {
            seq![
                text::utf16_text(l.key) + ": left="@ + entry_text(l.entry) + "; right="@
                    + entry_text(o),
            ]
        } else {
            Seq::empty()
        },
    }
}

/// What is said of an entry of the right side.
pub open spec fn right_note(r: Listed, left: Seq<Listed>) -> Seq<Seq<char>> {
    if lookup(left, r.key) is None {
        seq!["only right: "@ + text::utf16_text(r.key)]
    } else {
        Seq::empty()
    }
}

pub open spec fn left_notes(l: Seq<Listed>, right: Seq<Listed>) -> Seq<Seq<char>>
    decreases l.len(),
{
    if l.len() == 0 {
        Seq::empty()
    } else {
        left_notes(l.drop_last(), right) + left_note(l.last(), right)
    }
}

pub open spec fn right_notes(r: Seq<Listed>, left: Seq<Listed>) -> Seq<Seq<char>>
    decreases r.len(),
{
    if r.len() == 0 {
        Seq::empty()
    } else {
        right_notes(r.drop_last(), left) + right_note(r.last(), left)
    }
}

/// All differences between two lists.
pub open spec fn all_notes(a: Seq<Listed>, b: Seq<Listed>) -> Seq<Seq<char>> {
    left_notes(a, b) + right_notes(b, a)
}

pub open spec fn first_forty(v: Seq<Seq<char>>) -> Seq<Seq<char>> {
    if v.len() > 40 {
        v.subrange(0, 40)
    } else {
        v
    }
}

pub open spec fn ascending(keys: Seq<Seq<u16>>) -> bool {
    forall|i: int, j: int|
        0 <= i < j < keys.len() ==> order::lex_below(
            order::unit_numbers(#[trigger] keys[i]),
            order::unit_numbers(#[trigger] keys[j]),
        )
}

proof fn lemma_key_order(keys: Seq<Seq<u16>>)
    ensures
        total_ordering(|a: usize, b: usize| key_first(keys, a, b)),
{
    let le = |a: usize, b: usize| key_first(keys, a, b);
    let num = |a: usize| order::unit_numbers(keys[a as int]);
    assert forall|a: usize, b: usize| #[trigger] le(a, b) && #[trigger] le(b, a) implies a == b by {
        order::lemma_lex_total(num(a), num(b));
    }
    assert forall|a: usize, b: usize, c: usize| #[trigger]
        le(a, b) && #[trigger] le(b, c) implies le(a, c) by {
        if order::lex_below(num(a), num(b)) && order::lex_below(num(b), num(c)) {
            order::lemma_lex_trans(num(a), num(b), num(c));
        }
    }
    assert forall|a: usize, b: usize| #[trigger] le(a, b) || #[trigger] le(b, a) by {
        order::lemma_lex_total(num(a), num(b));
        order::lemma_unit_numbers(keys[a as int], keys[b as int]);
    }
}

/// There is one way down from the scope to a node.
proof fn lemma_steps_unique(nodes: Seq<Node>, scope: int, id: int, k: nat)
    requires
        tree::linked(nodes),
        0 <= scope < nodes.len(),
        0 <= id < nodes.len(),
        walk::up(nodes, id, k) == scope,
    ensures
        steps_to(nodes, scope, id) == k,
{
    let l = steps_to(nodes, scope, id);
    let rank = choose|rank: Seq<nat>| tree::ranked(nodes, rank);
    if k < l {
        walk::lemma_up_up(nodes, id, k, (l - k) as nat);
        walk::lemma_up_rank(nodes, rank, scope, (l - k) as nat);
    } else if l < k {
        walk::lemma_up_up(nodes, id, l, (k - l) as nat);
        walk::lemma_up_rank(nodes, rank, scope, (k - l) as nat);
    }
}

/// The relative path of a node continues that of its parent.
proof fn lemma_key_below(t: Table, scope: u32, id: u32)
    requires
        tree::linked(t.nodes),
        scope < t.nodes.len(),
        id < t.nodes.len(),
        walk::under(t.nodes, scope as int, id as int),
    ensures
        id == scope ==> rel_key(t, scope, id) == Seq::<u16>::empty(),
        id != scope ==> t.nodes[id as int].parent < t.nodes.len() && rel_key(t, scope, id)
            == extended_key(
            rel_key(t, scope, t.nodes[id as int].parent),
            model::units_at(t.nodes, t.names, id as int),
        ),
{
    if id == scope {
        assert(walk::up(t.nodes, id as int, 0) == scope);
        lemma_steps_unique(t.nodes, scope as int, id as int, 0);
    } else {
        walk::lemma_under_parent(t.nodes, scope as int, id as int);
        let p = t.nodes[id as int].parent;
        assert(t.nodes[id as int].parent < t.nodes.len());
        let k = steps_to(t.nodes, scope as int, p as int);
        assert(walk::up(t.nodes, p as int, k) == scope);
        assert(walk::up(t.nodes, id as int, k + 1) == scope);
        lemma_steps_unique(t.nodes, scope as int, id as int, k + 1);
    }
}

fn relative_keys(s: &Snapshot, scope: u32, ids: &Vec<u32>) -> (r: Vec<Vec<u16>>)
    requires
        tree::linked(s.nodes@),
        model::names_inside(s.nodes@, s.names@.len()),
        scope < s.nodes.len(),
        ids@ == visited(s.table(), scope),
    ensures
        r@.map_values(|k: Vec<u16>| k@) == visited_keys(s.table(), scope),
        r@.len() == ids@.len(),
{
    let ghost t = s.table();
    let ghost want = visited_keys(t, scope);
    let ghost rank = choose|rank: Seq<nat>| tree::ranked(t.nodes, rank);
    let nodes: usize = s.nodes.len();
    let mut place: Vec<usize> = vec![0usize; nodes];
    let mut out: Vec<Vec<u16>> = Vec::new();
    let mut i: usize = 0;
    proof {
        walk::lemma_order_sound(t.nodes, walk::everything(), rank, scope);
        walk::lemma_order_unfold(t.nodes, walk::everything(), scope);
        assert(ids@[0] == scope);
    }
    while i < ids.len()
        invariant
            i <= ids@.len(),
            t == s.table(),
            want == visited_keys(t, scope),
            ids@ == visited(t, scope),
            ids@.len() > 0,
            ids@[0] == scope,
            ids@.no_duplicates(),
            scope < t.nodes.len(),
            tree::linked(t.nodes),
            tree::ranked(t.nodes, rank),
            model::names_inside(t.nodes, t.names.len()),
            forall|k: int|
                0 <= k < ids@.len() ==> (#[trigger] ids@[k]) < t.nodes.len() && walk::under(
                    t.nodes,
                    scope as int,
                    ids@[k] as int,
                ),
            place@.len() == t.nodes.len(),
            out@.len() == i,
            forall|k: int| 0 <= k < i ==> place@[(#[trigger] ids@[k]) as int] == k,
            forall|k: int| 0 <= k < i ==> (#[trigger] out@[k])@ == want[k],
        decreases ids@.len() - i,
    {
        let id: u32 = ids[i];
        let mut key: Vec<u16> = Vec::new();
        proof {
            lemma_key_below(t, scope, id);
            assert(t.nodes[id as int].name_start + t.nodes[id as int].name_len <= t.names.len());
            assert(want[i as int] == rel_key(t, scope, id));
        }
        if i > 0 {
            let ghost mut a: int = 0;
            proof {
                a = walk::lemma_order_parent_first(
                    t.nodes,
                    walk::everything(),
                    rank,
                    scope,
                    i as int,
                );
                assert(ids@[a] == t.nodes[id as int].parent);
                assert(place@[ids@[a] as int] == a);
                assert(out@[a]@ == want[a]);
                assert(ids@[i as int] != ids@[0]);
            }
            let parent: u32 = s.nodes[id as usize].parent;
            let base: &Vec<u16> = &out[place[parent as usize]];
            key.extend_from_slice(base.as_slice());
            if base.len() > 0 {
                key.push(92);
            }
            key.extend_from_slice(s.name_units(id));
            assert(key@ =~= extended_key(
                want[a],
                model::units_at(t.nodes, t.names, id as int),
            ));
        }
        place.set(id as usize, i);
        out.push(key);
        i += 1;
        proof {
            assert forall|k: int| 0 <= k < i implies place@[(#[trigger] ids@[k]) as int] == k by {
                if k < i - 1 {
                    assert(ids@[k] != ids@[i - 1]);
                }
            }
        }
    }
    assert(out@.map_values(|k: Vec<u16>| k@) =~= want);
    out
}

fn same_key(a: &Vec<u16>, b: &Vec<u16>) -> (r: bool)
    ensures
        r == (a@ == b@),
{
    proof {
        order::lemma_lex_total(order::unit_numbers(a@), order::unit_numbers(b@));
        order::lemma_unit_numbers(a@, b@);
    }
    !order::units_below(a, b) && !order::units_below(b, a)
}

/// No path is kept twice, and the kept ones ascend.
proof fn lemma_latest(keys: Seq<Seq<u16>>, q: Seq<usize>, n: nat)
    requires
        n <= q.len(),
        order::in_order(q, |a: usize, b: usize| key_first(keys, a, b)),
        forall|k: int| 0 <= k < q.len() ==> (#[trigger] q[k]) < keys.len(),
    ensures
        forall|a: int|
            0 <= a < latest(keys, q, n).len() ==> (#[trigger] latest(keys, q, n)[a]) < keys.len(),
        forall|a: int, b: int|
            0 <= a < b < latest(keys, q, n).len() ==> order::lex_below(
                order::unit_numbers(keys[(#[trigger] latest(keys, q, n)[a]) as int]),
                order::unit_numbers(keys[(#[trigger] latest(keys, q, n)[b]) as int]),
            ),
        n < q.len() ==> forall|a: int|
            0 <= a < latest(keys, q, n).len() ==> order::lex_below(
                order::unit_numbers(keys[(#[trigger] latest(keys, q, n)[a]) as int]),
                order::unit_numbers(keys[q[n as int] as int]),
            ),
    decreases n,
{
    if n > 0 {
        lemma_latest(keys, q, (n - 1) as nat);
        let had = latest(keys, q, (n - 1) as nat);
        let kept = latest(keys, q, n);
        let at = q[n - 1];
        if n < q.len() {
            let le = |a: usize, b: usize| key_first(keys, a, b);
            assert(le(q[n - 1], q[n as int]));
            assert forall|a: int| 0 <= a < kept.len() implies order::lex_below(
                order::unit_numbers(keys[(#[trigger] kept[a]) as int]),
                order::unit_numbers(keys[q[n as int] as int]),
            ) by {
                if a < had.len() {
                    assert(kept[a] == had[a]);
                    if keys[at as int] != keys[q[n as int] as int] {
                        order::lemma_lex_trans(
                            order::unit_numbers(keys[had[a] as int]),
                            order::unit_numbers(keys[at as int]),
                            order::unit_numbers(keys[q[n as int] as int]),
                        );
                    }
                }
            }
        }
        assert forall|a: int, b: int| 0 <= a < b < kept.len() implies order::lex_below(
            order::unit_numbers(keys[(#[trigger] kept[a]) as int]),
            order::unit_numbers(keys[(#[trigger] kept[b]) as int]),
        ) by {
            assert(kept[a] == had[a]);
            if b < had.len() {
                assert(kept[b] == had[b]);
            }
        }
    }
}

/// Every path is kept, or comes again.
proof fn lemma_latest_complete(keys: Seq<Seq<u16>>, q: Seq<usize>, n: nat, k: int)
    requires
        n <= q.len(),
        0 <= k < n,
    ensures
        ({
            let kept = latest(keys, q, n);
            ||| n < q.len() && keys[q[k] as int] == keys[q[n as int] as int]
            ||| exists|c: int|
                0 <= c < kept.len() && keys[(#[trigger] kept[c]) as int] == keys[q[k] as int]
        }),
    decreases n,
{
    let had = latest(keys, q, (n - 1) as nat);
    let kept = latest(keys, q, n);
    if k < n - 1 {
        lemma_latest_complete(keys, q, (n - 1) as nat, k);
    }
    if k < n - 1 && keys[q[k] as int] != keys[q[n - 1] as int] {
        let c = choose|c: int|
            0 <= c < had.len() && keys[(#[trigger] had[c]) as int] == keys[q[k] as int];
        assert(kept[c] == had[c]);
    } else if kept.len() > had.len() {
        assert(kept[had.len() as int] == q[n - 1]);
    }
}

/// The entries below a scope, with their paths.
struct Entries {
    keys: Vec<Vec<u16>>,
    rows: Vec<Entry>,
}

impl Entries {
    spec fn list(&self) -> Seq<Listed> {
        Seq::new(
            self.keys@.len(),
            |i: int| Listed { key: self.keys@[i]@, entry: self.rows@[i] },
        )
    }

    spec fn sorted(&self) -> bool {
        &&& self.keys@.len() == self.rows@.len()
        &&& ascending(self.keys@.map_values(|k: Vec<u16>| k@))
    }
}

fn entry(n: &Node) -> (r: Entry)
    ensures
        r == entry_of(*n),
{
    Entry {
        oldest_modified_ms: n.oldest_modified_ms,
        latest_modified_ms: n.latest_modified_ms,
        logical: n.logical,
        allocated: n.allocated,
        is_dir: n.is_dir(),
        hardlink: n.flags & HARDLINK != 0,
    }
}

fn copy_key(k: &Vec<u16>) -> (r: Vec<u16>)
    ensures
        r@ == k@,
{
    let mut out: Vec<u16> = Vec::new();
    out.extend_from_slice(k.as_slice());
    assert(out@ =~= k@);
    out
}

fn entries(s: &Snapshot, scope: u32) -> (r: Entries)
    requires
        tree::linked(s.nodes@),
        model::names_inside(s.nodes@, s.names@.len()),
        scope < s.nodes.len(),
    ensures
        r.list() == listed(s.table(), scope),
        r.sorted(),
        r.keys@.len() <= s.nodes@.len(),
        exists|i: int| 0 <= i < r.keys@.len() && (#[trigger] r.keys@[i])@.len() == 0,
{
    let ghost t = s.table();
    let ghost rank = choose|rank: Seq<nat>| tree::ranked(t.nodes, rank);
    let ids: Vec<u32> = s.subtree_order(scope);
    let keys: Vec<Vec<u16>> = relative_keys(s, scope, &ids);
    let ghost want = visited_keys(t, scope);
    let n: usize = keys.len();
    proof {
        walk::lemma_order_sound(t.nodes, walk::everything(), rank, scope);
        walk::lemma_order_unfold(t.nodes, walk::everything(), scope);
        assert(ids@[0] == scope);
        lemma_key_below(t, scope, scope);
        lemma_key_order(want);
        assert forall|i: int| 0 <= i < n implies (#[trigger] keys@[i])@ == want[i] by {
            assert(keys@.map_values(|k: Vec<u16>| k@)[i] == keys@[i]@);
        }
        lemma_distinct_bound(ids@, t.nodes.len());
    }
    let first = |a: usize, b: usize| -> (r: bool)
        requires
            a < n,
            b < n,
            n == keys@.len(),
        ensures
            r == key_first(keys@.map_values(|k: Vec<u16>| k@), a, b),
        {
            proof {
                order::lemma_lex_total(
                    order::unit_numbers(keys@[a as int]@),
                    order::unit_numbers(keys@[b as int]@),
                );
                order::lemma_unit_numbers(keys@[a as int]@, keys@[b as int]@);
            }
            order::units_below(&keys[a], &keys[b]) || (!order::units_below(&keys[b], &keys[a])
                && a <= b)
        };
    let q: Vec<usize> = order::rank(
        n,
        first,
        Ghost(|a: usize, b: usize| key_first(want, a, b)),
    );
    let mut out: Vec<Vec<u16>> = Vec::new();
    let mut rows: Vec<Entry> = Vec::new();
    let ghost mut kept = Seq::<usize>::empty();
    let ghost show = |i: usize|
        Listed { key: want[i as int], entry: entry_of(t.nodes[ids@[i as int] as int]) };
    let mut i: usize = 0;
    while i < n
        invariant
            i <= n,
            n == keys@.len(),
            n == ids@.len(),
            n == want.len(),
            n == q@.len(),
            t == s.table(),
            forall|k: int| 0 <= k < n ==> (#[trigger] q@[k]) < n,
            forall|k: int| 0 <= k < n ==> (#[trigger] keys@[k])@ == want[k],
            forall|k: int| 0 <= k < n ==> (#[trigger] ids@[k]) < t.nodes.len(),
            order::in_order(q@, |a: usize, b: usize| key_first(want, a, b)),
            kept == latest(want, q@, i as nat),
            kept.len() == out@.len(),
            kept.len() == rows@.len(),
            kept.len() <= i,
            forall|k: int|
                0 <= k < kept.len() ==> (#[trigger] kept[k]) < n && out@[k]@ == want[kept[k] as int]
                    && rows@[k] == entry_of(t.nodes[ids@[kept[k] as int] as int]),
        decreases n - i,
    {
        let at: usize = q[i];
        let again: bool = i + 1 < n && same_key(&keys[at], &keys[q[i + 1]]);
        if !again {
            out.push(copy_key(&keys[at]));
            rows.push(entry(&s.nodes[ids[at] as usize]));
            proof {
                kept = kept.push(at);
            }
        }
        i += 1;
    }
    let r = Entries { keys: out, rows };
    proof {
        assert(r.list() =~= kept.map_values(show));
        assert(kept.map_values(show) =~= listed(t, scope));
        let ks = r.keys@.map_values(|k: Vec<u16>| k@);
        lemma_latest(want, q@, n as nat);
        assert forall|a: int, b: int| 0 <= a < b < ks.len() implies order::lex_below(
            order::unit_numbers(#[trigger] ks[a]),
            order::unit_numbers(#[trigger] ks[b]),
        ) by {
            assert(ks[a] == want[kept[a] as int]);
            assert(ks[b] == want[kept[b] as int]);
        }
        let num = order::numbers(n as nat);
        assert(num[0] == 0usize);
        order::lemma_same_members(num, q@, 0);
        let w = q@.index_of(0usize);
        assert(want[0] == Seq::<u16>::empty());
        lemma_latest_complete(want, q@, n as nat, w);
        let c = choose|c: int|
            0 <= c < kept.len() && want[(#[trigger] kept[c]) as int] == want[q@[w] as int];
        assert(r.keys@[c]@.len() == 0);
    }
    r
}

/// Distinct numbers below `n` are no more than `n`.
proof fn lemma_distinct_bound(ids: Seq<u32>, n: nat)
    requires
        ids.no_duplicates(),
        forall|i: int| 0 <= i < ids.len() ==> (#[trigger] ids[i]) < n,
    ensures
        ids.len() <= n,
{
    ids.unique_seq_to_set();
    let all = ids.to_set().map(|x: u32| x as int);
    let range = vstd::set_lib::set_int_range(0, n as int);
    vstd::set_lib::lemma_int_range(0, n as int);
    assert(all.subset_of(range)) by {
        assert forall|x: int| all.contains(x) implies range.contains(x) by {
            let y = choose|y: u32| ids.to_set().contains(y) && y as int == x;
            assert(ids.contains(y));
        }
    }
    vstd::set_lib::lemma_map_size(ids.to_set(), all, |x: u32| x as int);
    vstd::set_lib::lemma_len_subset(all, range);
}

proof fn lemma_lookup_none(l: Seq<Listed>, key: Seq<u16>)
    requires
        forall|i: int| 0 <= i < l.len() ==> (#[trigger] l[i]).key != key,
    ensures
        lookup(l, key) is None,
    decreases l.len(),
{
    if l.len() > 0 {
        assert(l[l.len() - 1].key != key);
        assert forall|i: int| 0 <= i < l.drop_last().len() implies (#[trigger] l.drop_last()[i]).key
            != key by {
            assert(l[i].key != key);
        }
        lemma_lookup_none(l.drop_last(), key);
    }
}

proof fn lemma_lookup_some(l: Seq<Listed>, i: int)
    requires
        0 <= i < l.len(),
        forall|j: int| i < j < l.len() ==> (#[trigger] l[j]).key != l[i].key,
    ensures
        lookup(l, l[i].key) == Some(l[i].entry),
    decreases l.len(),
{
    if i < l.len() - 1 {
        assert(l[l.len() - 1].key != l[i].key);
        let rest = l.drop_last();
        assert(rest[i] == l[i]);
        assert forall|j: int| i < j < rest.len() implies (#[trigger] rest[j]).key != rest[i].key by {
            assert(l[j].key != l[i].key);
        }
        lemma_lookup_some(rest, i);
    }
}

impl Entries {
    fn find(&self, key: &Vec<u16>) -> (r: Option<Entry>)
        requires
            self.sorted(),
        ensures
            r == lookup(self.list(), key@),
    {
        let ghost ks = self.keys@.map_values(|k: Vec<u16>| k@);
        let ghost me = order::unit_numbers(key@);
        let mut lo: usize = 0;
        let mut hi: usize = self.keys.len();
        while lo < hi
            invariant
                lo <= hi <= self.keys@.len(),
                self.sorted(),
                ks == self.keys@.map_values(|k: Vec<u16>| k@),
                me == order::unit_numbers(key@),
                forall|k: int|
                    0 <= k < lo ==> order::lex_below(order::unit_numbers(#[trigger] ks[k]), me),
                forall|k: int|
                    hi <= k < ks.len() ==> order::lex_below(
                        me,
                        order::unit_numbers(#[trigger] ks[k]),
                    ),
            decreases hi - lo,
        {
            let mid: usize = lo + (hi - lo) / 2;
            assert(ks[mid as int] == self.keys@[mid as int]@);
            if order::units_below(&self.keys[mid], key) {
                proof {
                    assert forall|k: int| 0 <= k < mid + 1 implies order::lex_below(
                        order::unit_numbers(#[trigger] ks[k]),
                        me,
                    ) by {
                        if k < mid {
                            order::lemma_lex_trans(
                                order::unit_numbers(ks[k]),
                                order::unit_numbers(ks[mid as int]),
                                me,
                            );
                        }
                    }
                }
                lo = mid + 1;
            } else if order::units_below(key, &self.keys[mid]) {
                proof {
                    assert forall|k: int| mid <= k < ks.len() implies order::lex_below(
                        me,
                        order::unit_numbers(#[trigger] ks[k]),
                    ) by {
                        if k > mid {
                            order::lemma_lex_trans(
                                me,
                                order::unit_numbers(ks[mid as int]),
                                order::unit_numbers(ks[k]),
                            );
                        }
                    }
                }
                hi = mid;
            } else {
                proof {
                    order::lemma_lex_total(order::unit_numbers(ks[mid as int]), me);
                    order::lemma_unit_numbers(ks[mid as int], key@);
                    let l = self.list();
                    assert forall|j: int| mid < j < l.len() implies (#[trigger] l[j]).key
                        != l[mid as int].key by {
                        assert(ks[j] == l[j].key);
                        assert(order::lex_below(
                            order::unit_numbers(ks[mid as int]),
                            order::unit_numbers(ks[j]),
                        ));
                        order::lemma_lex_total(
                            order::unit_numbers(ks[mid as int]),
                            order::unit_numbers(ks[j]),
                        );
                    }
                    lemma_lookup_some(l, mid as int);
                }
                return Some(self.rows[mid]);
            }
        }
        proof {
            let l = self.list();
            assert forall|j: int| 0 <= j < l.len() implies (#[trigger] l[j]).key != key@ by {
                assert(ks[j] == l[j].key);
                order::lemma_lex_total(order::unit_numbers(ks[j]), me);
            }
            lemma_lookup_none(l, key@);
        }
        None
    }
}

fn describe(e: &Entry) -> (r: String)
    ensures
        r@ == entry_text(*e),
{
    let mut out: String = "Entry { oldest_modified_ms: ".to_owned();
    out.append(&text::signed(e.oldest_modified_ms));
    out.append(", latest_modified_ms: ");
    out.append(&text::signed(e.latest_modified_ms));
    out.append(", logical: ");
    out.append(&text::decimal(e.logical));
    out.append(", allocated: ");
    out.append(&text::decimal(e.allocated));
    out.append(", is_dir: ");
    out.append(text::word(e.is_dir));
    out.append(", hardlink: ");
    out.append(text::word(e.hardlink));
    out.append(" }");
    out
}

/// Differences counted, and the first of them kept.
struct Tally {
    count: u64,
    examples: Vec<String>,
}

impl Tally {
    spec fn holds(&self, notes: Seq<Seq<char>>) -> bool {
        &&& self.count == notes.len()
        &&& text::views(self.examples@) == first_forty(notes)
    }

    fn put(&mut self, note: String, Ghost(notes): Ghost<Seq<Seq<char>>>)
        requires
            old(self).holds(notes),
            notes.len() < u64::MAX,
        ensures
            final(self).holds(notes.push(note@)),
    {
        let ghost had = text::views(self.examples@);
        self.count = self.count + 1;
        if self.examples.len() < 40 {
            proof {
                assert(had.len() == self.examples@.len());
                assert(notes.len() < 40);
            }
            self.examples.push(note);
            assert(text::views(self.examples@) =~= had.push(note@));
        }
        assert(text::views(self.examples@) =~= first_forty(notes.push(note@)));
    }
}

fn count_left(a: &Entries, b: &Entries, out: &mut Tally)
    requires
        a.sorted(),
        b.sorted(),
        old(out).holds(Seq::empty()),
        a.keys@.len() <= u32::MAX,
    ensures
        final(out).holds(left_notes(a.list(), b.list())),
        left_notes(a.list(), b.list()).len() <= a.keys@.len(),
{
    let ghost la = a.list();
    let ghost lb = b.list();
    let ghost mut notes = Seq::<Seq<char>>::empty();
    let mut i: usize = 0;
    assert(la.subrange(0, 0) =~= Seq::<Listed>::empty());
    while i < a.keys.len()
        invariant
            i <= a.keys@.len(),
            a.keys@.len() <= u32::MAX,
            a.sorted(),
            b.sorted(),
            la == a.list(),
            lb == b.list(),
            notes == left_notes(la.subrange(0, i as int), lb),
            notes.len() <= i,
            out.holds(notes),
        decreases a.keys@.len() - i,
    {
        let ghost now = la.subrange(0, i + 1);
        let ghost had = notes;
        proof {
            assert(now.drop_last() =~= la.subrange(0, i as int));
            assert(now.last() == la[i as int]);
        }
        match b.find(&a.keys[i]) {
            None => {
                let note: String = text::glue("only left: ", &text::from_utf16(&a.keys[i]));
                out.put(note, Ghost(had));
                proof {
                    notes = had.push(note@);
                    assert(left_notes(now, lb) =~= notes);
                }
            },
            Some(other) => {
                let e: Entry = a.rows[i];
                if e.oldest_modified_ms != other.oldest_modified_ms || e.latest_modified_ms
                    != other.latest_modified_ms || e.logical != other.logical || e.is_dir
                    != other.is_dir || (!e.is_dir && !e.hardlink && !other.hardlink && e.allocated
                    != other.allocated) {
                    let mut note: String = text::from_utf16(&a.keys[i]);
                    note.append(": left=");
                    note.append(&describe(&e));
                    note.append("; right=");
                    note.append(&describe(&other));
                    out.put(note, Ghost(had));
                    proof {
                        notes = had.push(note@);
                        assert(left_notes(now, lb) =~= notes);
                    }
                } else {
                    assert(left_notes(now, lb) =~= notes);
                }
            },
        }
        i += 1;
    }
    assert(la.subrange(0, i as int) =~= la);
}

fn count_right(a: &Entries, b: &Entries, out: &mut Tally, Ghost(seen): Ghost<Seq<Seq<char>>>)
    requires
        a.sorted(),
        b.sorted(),
        old(out).holds(seen),
        seen.len() <= u32::MAX,
        b.keys@.len() <= u32::MAX,
    ensures
        final(out).holds(seen + right_notes(b.list(), a.list())),
{
    let ghost la = a.list();
    let ghost lb = b.list();
    let ghost mut notes = Seq::<Seq<char>>::empty();
    let mut i: usize = 0;
    assert(lb.subrange(0, 0) =~= Seq::<Listed>::empty());
    assert(seen + notes =~= seen);
    while i < b.keys.len()
        invariant
            i <= b.keys@.len(),
            b.keys@.len() <= u32::MAX,
            seen.len() <= u32::MAX,
            a.sorted(),
            b.sorted(),
            la == a.list(),
            lb == b.list(),
            notes == right_notes(lb.subrange(0, i as int), la),
            notes.len() <= i,
            out.holds(seen + notes),
        decreases b.keys@.len() - i,
    {
        let ghost now = lb.subrange(0, i + 1);
        let ghost had = notes;
        proof {
            assert(now.drop_last() =~= lb.subrange(0, i as int));
            assert(now.last() == lb[i as int]);
        }
        match a.find(&b.keys[i]) {
            None => {
                let note: String = text::glue("only right: ", &text::from_utf16(&b.keys[i]));
                out.put(note, Ghost(seen + had));
                proof {
                    notes = had.push(note@);
                    assert((seen + had).push(note@) =~= seen + notes);
                    assert(right_notes(now, la) =~= notes);
                }
            },
            Some(_) => {
                assert(right_notes(now, la) =~= notes);
            },
        }
        i += 1;
    }
    assert(lb.subrange(0, i as int) =~= lb);
}

/// What a comparison of the two scopes must say.
pub open spec fn compares(
    c: Comparison,
    left: Snapshot,
    right: Snapshot,
    a: Seq<Listed>,
    b: Seq<Listed>,
) -> bool {
    let notes = all_notes(a, b);
    let none = Seq::<u16>::empty();
    &&& c.left_nodes == a.len()
    &&& c.right_nodes == b.len()
    &&& c.left_complete == left.stats.complete
    &&& c.right_complete == right.stats.complete
    &&& lookup(a, none) is Some
    &&& lookup(b, none) is Some
    &&& c.root_logical_equal == (lookup(a, none)->0.logical == lookup(b, none)->0.logical)
    &&& c.root_allocated_equal == (lookup(a, none)->0.allocated == lookup(b, none)->0.allocated)
    &&& c.differences == notes.len()
    &&& text::views(c.examples@) == first_forty(notes)
    &&& c.equal == (notes.len() == 0 && c.root_logical_equal && c.root_allocated_equal)
}

/// Compares what two scans found at and below `scope`.
pub fn compare(left: &Snapshot, right: &Snapshot, scope: &str) -> (r: Result<
    Comparison,
    FindError,
>)
    requires
        tree::linked(left.nodes@),
        model::names_inside(left.nodes@, left.names@.len()),
        tree::linked(right.nodes@),
        model::names_inside(right.nodes@, right.names@.len()),
    ensures
        match (model::found(*left, scope@), model::found(*right, scope@)) {
            (Ok(a), Ok(b)) => r matches Ok(c) && compares(
                c,
                *left,
                *right,
                listed(left.table(), a),
                listed(right.table(), b),
            ),
            (Err(e), _) => r matches Err(f) && f == e,
            (Ok(_), Err(e)) => r matches Err(f) && f == e,
        },
{
    let ida: u32 = match left.find(scope) {
        Ok(id) => id,
        Err(e) => {
            return Err(e);
        },
    };
    let idb: u32 = match right.find(scope) {
        Ok(id) => id,
        Err(e) => {
            return Err(e);
        },
    };
    let a: Entries = entries(left, ida);
    let b: Entries = entries(right, idb);
    let none: Vec<u16> = Vec::new();
    let mut root_logical_equal: bool = false;
    let mut root_allocated_equal: bool = false;
    proof {
        assert(none@ =~= Seq::<u16>::empty());
        lemma_root_listed(a);
        lemma_root_listed(b);
    }
    if let (Some(x), Some(y)) = (a.find(&none), b.find(&none)) {
        root_logical_equal = x.logical == y.logical;
        root_allocated_equal = x.allocated == y.allocated;
    }
    let mut found = Tally { count: 0, examples: Vec::new() };
    assert(text::views(found.examples@) =~= first_forty(Seq::empty()));
    count_left(&a, &b, &mut found);
    count_right(&a, &b, &mut found, Ghost(left_notes(a.list(), b.list())));
    Ok(
        Comparison {
            equal: found.count == 0 && root_logical_equal && root_allocated_equal,
            left_nodes: a.keys.len(),
            right_nodes: b.keys.len(),
            left_complete: left.stats.complete,
            right_complete: right.stats.complete,
            root_logical_equal,
            root_allocated_equal,
            differences: found.count,
            examples: found.examples,
        },
    )
}

proof fn lemma_root_listed(e: Entries)
    requires
        e.sorted(),
        exists|i: int| 0 <= i < e.keys@.len() && (#[trigger] e.keys@[i])@.len() == 0,
    ensures
        lookup(e.list(), Seq::empty()) is Some,
{
    let i = choose|i: int| 0 <= i < e.keys@.len() && (#[trigger] e.keys@[i])@.len() == 0;
    let l = e.list();
    assert(l[i].key =~= Seq::<u16>::empty());
    lemma_lookup_hit(l, i);
}

/// What is listed is found.
proof fn lemma_lookup_hit(l: Seq<Listed>, i: int)
    requires
        0 <= i < l.len(),
    ensures
        lookup(l, l[i].key) is Some,
    decreases l.len(),
{
    if i < l.len() - 1 {
        assert(l.drop_last()[i] == l[i]);
        lemma_lookup_hit(l.drop_last(), i);
    }
}

/// No path is listed twice.
proof fn lemma_listed_distinct(t: Table, scope: u32, i: int, j: int)
    requires
        tree::linked(t.nodes),
        scope < t.nodes.len(),
        0 <= i < j < listed(t, scope).len(),
    ensures
        listed(t, scope)[i].key != listed(t, scope)[j].key,
{
    let keys = visited_keys(t, scope);
    let q = by_key(keys);
    let le = |a: usize, b: usize| key_first(keys, a, b);
    let num = order::numbers(keys.len());
    let rank = choose|rank: Seq<nat>| tree::ranked(t.nodes, rank);
    walk::lemma_order_sound(t.nodes, walk::everything(), rank, scope);
    lemma_distinct_bound(visited(t, scope), t.nodes.len());
    lemma_key_order(keys);
    num.lemma_sort_by_ensures(le);
    assert(q.len() == num.len()) by {
        broadcast use vstd::seq_lib::group_to_multiset_ensures;

        assert(q.to_multiset().len() == q.len());
        assert(num.to_multiset().len() == num.len());
    }
    assert forall|k: int| 0 <= k < q.len() implies (#[trigger] q[k]) < keys.len() by {
        order::lemma_same_members(q, num, k);
        let w = num.index_of(q[k]);
        assert(num[w] == q[k]);
    }
    lemma_latest(keys, q, keys.len());
    let kept = latest(keys, q, keys.len());
    assert(order::lex_below(
        order::unit_numbers(keys[kept[i] as int]),
        order::unit_numbers(keys[kept[j] as int]),
    ));
    order::lemma_lex_total(
        order::unit_numbers(keys[kept[i] as int]),
        order::unit_numbers(keys[kept[j] as int]),
    );
}

proof fn lemma_no_notes(l: Seq<Listed>, all: Seq<Listed>)
    requires
        forall|i: int| 0 <= i < l.len() ==> lookup(all, (#[trigger] l[i]).key) == Some(l[i].entry),
    ensures
        left_notes(l, all).len() == 0,
        right_notes(l, all).len() == 0,
    decreases l.len(),
{
    if l.len() > 0 {
        assert(lookup(all, l[l.len() - 1].key) == Some(l[l.len() - 1].entry));
        let rest = l.drop_last();
        assert forall|i: int| 0 <= i < rest.len() implies lookup(all, (#[trigger] rest[i]).key)
            == Some(rest[i].entry) by {
            assert(lookup(all, l[i].key) == Some(l[i].entry));
        }
        lemma_no_notes(rest, all);
    }
}

/// Both lists hold the same keys, with entries that do not differ.
pub open spec fn agree(a: Seq<Listed>, b: Seq<Listed>) -> bool {
    forall|key: Seq<u16>|
        match (#[trigger] lookup(a, key), lookup(b, key)) {
            (None, None) => true,
            (Some(x), Some(y)) => !differs(x, y),
            _ => false,
        }
}

proof fn lemma_lookup_place(l: Seq<Listed>, key: Seq<u16>) -> (i: int)
    requires
        lookup(l, key) is Some,
    ensures
        0 <= i < l.len(),
        l[i].key == key,
        lookup(l, key) == Some(l[i].entry),
    decreases l.len(),
{
    if l.last().key == key {
        l.len() - 1
    } else {
        lemma_lookup_place(l.drop_last(), key)
    }
}

proof fn lemma_lookup_there(l: Seq<Listed>, i: int)
    requires
        0 <= i < l.len(),
    ensures
        lookup(l, l[i].key) is Some,
    decreases l.len(),
{
    if i < l.len() - 1 {
        lemma_lookup_there(l.drop_last(), i);
    }
}

proof fn lemma_left_notes(l: Seq<Listed>, right: Seq<Listed>)
    ensures
        left_notes(l, right).len() == 0 <==> (forall|i: int|
            0 <= i < l.len() ==> left_note(#[trigger] l[i], right).len() == 0),
    decreases l.len(),
{
    if l.len() > 0 {
        let rest = l.drop_last();
        lemma_left_notes(rest, right);
        assert forall|i: int| 0 <= i < rest.len() implies rest[i] == #[trigger] l[i] by {}
        if left_notes(l, right).len() == 0 {
            assert forall|i: int| 0 <= i < l.len() implies left_note(#[trigger] l[i], right).len()
                == 0 by {
                if i < rest.len() {
                    assert(left_note(rest[i], right).len() == 0);
                }
            }
        }
        if forall|i: int| 0 <= i < l.len() ==> left_note(#[trigger] l[i], right).len() == 0 {
            assert forall|i: int| 0 <= i < rest.len() implies left_note(
                #[trigger] rest[i],
                right,
            ).len() == 0 by {
                assert(left_note(l[i], right).len() == 0);
            }
            assert(left_note(l[l.len() - 1], right).len() == 0);
        }
    }
}

proof fn lemma_right_notes(r: Seq<Listed>, left: Seq<Listed>)
    ensures
        right_notes(r, left).len() == 0 <==> (forall|i: int|
            0 <= i < r.len() ==> right_note(#[trigger] r[i], left).len() == 0),
    decreases r.len(),
{
    if r.len() > 0 {
        let rest = r.drop_last();
        lemma_right_notes(rest, left);
        assert forall|i: int| 0 <= i < rest.len() implies rest[i] == #[trigger] r[i] by {}
        if right_notes(r, left).len() == 0 {
            assert forall|i: int| 0 <= i < r.len() implies right_note(#[trigger] r[i], left).len()
                == 0 by {
                if i < rest.len() {
                    assert(right_note(rest[i], left).len() == 0);
                }
            }
        }
        if forall|i: int| 0 <= i < r.len() ==> right_note(#[trigger] r[i], left).len() == 0 {
            assert forall|i: int| 0 <= i < rest.len() implies right_note(
                #[trigger] rest[i],
                left,
            ).len() == 0 by {
                assert(right_note(r[i], left).len() == 0);
            }
            assert(right_note(r[r.len() - 1], left).len() == 0);
        }
    }
}

/// A comparison finds no difference exactly if both scopes hold the same entries: nothing
/// is left out of it.
pub proof fn law_no_difference_means_same_entries(t: Table, a: u32, u: Table, b: u32)
    requires
        tree::linked(t.nodes),
        a < t.nodes.len(),
    ensures
        all_notes(listed(t, a), listed(u, b)).len() == 0 <==> agree(listed(t, a), listed(u, b)),
{
    let l = listed(t, a);
    let r = listed(u, b);
    lemma_left_notes(l, r);
    lemma_right_notes(r, l);
    if all_notes(l, r).len() == 0 {
        assert forall|key: Seq<u16>|
            match (#[trigger] lookup(l, key), lookup(r, key)) {
                (None, None) => true,
                (Some(x), Some(y)) => !differs(x, y),
                _ => false,
            } by {
            if lookup(l, key) is Some {
                let i = lemma_lookup_place(l, key);
                assert(left_note(l[i], r).len() == 0);
            } else if lookup(r, key) is Some {
                let j = lemma_lookup_place(r, key);
                assert(right_note(r[j], l).len() == 0);
            }
        }
    }
    if agree(l, r) {
        assert forall|i: int| 0 <= i < l.len() implies left_note(#[trigger] l[i], r).len() == 0 by {
            assert forall|j: int| i < j < l.len() implies (#[trigger] l[j]).key != l[i].key by {
                lemma_listed_distinct(t, a, i, j);
            }
            lemma_lookup_some(l, i);
            assert(lookup(l, l[i].key) == Some(l[i].entry));
        }
        assert forall|j: int| 0 <= j < r.len() implies right_note(#[trigger] r[j], l).len()
            == 0 by {
            lemma_lookup_there(r, j);
            assert(lookup(l, r[j].key) is Some || lookup(l, r[j].key) is None);
        }
    }
}

/// It does not matter which of two scans is the left one.
pub proof fn law_difference_is_mutual(t: Table, a: u32, u: Table, b: u32)
    requires
        tree::linked(t.nodes),
        a < t.nodes.len(),
        tree::linked(u.nodes),
        b < u.nodes.len(),
    ensures
        all_notes(listed(t, a), listed(u, b)).len() == 0 <==> all_notes(
            listed(u, b),
            listed(t, a),
        ).len() == 0,
{
    let l = listed(t, a);
    let r = listed(u, b);
    law_no_difference_means_same_entries(t, a, u, b);
    law_no_difference_means_same_entries(u, b, t, a);
    if agree(l, r) {
        assert forall|key: Seq<u16>|
            match (#[trigger] lookup(r, key), lookup(l, key)) {
                (None, None) => true,
                (Some(x), Some(y)) => !differs(x, y),
                _ => false,
            } by {
            assert(lookup(l, key) is Some || lookup(l, key) is None);
        }
    }
    if agree(r, l) {
        assert forall|key: Seq<u16>|
            match (#[trigger] lookup(l, key), lookup(r, key)) {
                (None, None) => true,
                (Some(x), Some(y)) => !differs(x, y),
                _ => false,
            } by {
            assert(lookup(r, key) is Some || lookup(r, key) is None);
        }
    }
}

/// How many entries of `l` the other list has not.
spec fn alone(l: Seq<Listed>, other: Seq<Listed>) -> nat
    decreases l.len(),
{
    if l.len() == 0 {
        0
    } else {
        alone(l.drop_last(), other) + if lookup(other, l.last().key) is None {
            1nat
        } else {
            0nat
        }
    }
}

/// The keys under which both lists have entries that differ.
spec fn disputed(a: Seq<Listed>, b: Seq<Listed>) -> Set<Seq<u16>> {
    Set::new(
        |key: Seq<u16>|
            lookup(a, key) is Some && lookup(b, key) is Some && differs(
                lookup(a, key)->0,
                lookup(b, key)->0,
            ),
    )
}

/// Those of them among the first entries.
spec fn disputed_in(l: Seq<Listed>, all: Seq<Listed>, other: Seq<Listed>) -> Set<Seq<u16>>
    decreases l.len(),
{
    if l.len() == 0 {
        Set::empty()
    } else if disputed(all, other).contains(l.last().key) {
        disputed_in(l.drop_last(), all, other).insert(l.last().key)
    } else {
        disputed_in(l.drop_last(), all, other)
    }
}

spec fn apart(l: Seq<Listed>) -> bool {
    forall|i: int, j: int| 0 <= i < j < l.len() ==> (#[trigger] l[i]).key != (#[trigger] l[j]).key
}

/// A list with a key to every entry of its own is counted by the keys.
proof fn lemma_disputed_in(l: Seq<Listed>, all: Seq<Listed>, other: Seq<Listed>)
    requires
        apart(l),
        forall|i: int|
            0 <= i < l.len() ==> lookup(all, (#[trigger] l[i]).key) == Some(l[i].entry),
    ensures
        disputed_in(l, all, other).finite(),
        left_notes(l, other).len() == alone(l, other) + disputed_in(l, all, other).len(),
        forall|key: Seq<u16>| #[trigger]
            disputed_in(l, all, other).contains(key) <==> disputed(all, other).contains(key)
                && exists|i: int| 0 <= i < l.len() && (#[trigger] l[i]).key == key,
    decreases l.len(),
{
    if l.len() > 0 {
        let rest = l.drop_last();
        let last = l.last();
        assert forall|i: int| 0 <= i < rest.len() implies #[trigger] rest[i] == l[i] by {}
        assert forall|i: int| 0 <= i < rest.len() implies lookup(all, (#[trigger] rest[i]).key)
            == Some(rest[i].entry) by {
            assert(lookup(all, l[i].key) == Some(l[i].entry));
        }
        lemma_disputed_in(rest, all, other);
        assert(lookup(all, l[l.len() - 1].key) == Some(last.entry));
        let before = disputed_in(rest, all, other);
        assert(!before.contains(last.key)) by {
            if before.contains(last.key) {
                let i = choose|i: int| 0 <= i < rest.len() && (#[trigger] rest[i]).key == last.key;
                assert(l[i].key != l[l.len() - 1].key);
            }
        }
        assert forall|key: Seq<u16>| #[trigger]
            disputed_in(l, all, other).contains(key) <==> disputed(all, other).contains(key)
                && exists|i: int| 0 <= i < l.len() && (#[trigger] l[i]).key == key by {
            if disputed_in(l, all, other).contains(key) {
                if before.contains(key) {
                    let i = choose|i: int| 0 <= i < rest.len() && (#[trigger] rest[i]).key == key;
                    assert(l[i].key == key);
                } else {
                    assert(l[l.len() - 1].key == key);
                }
            }
            if disputed(all, other).contains(key) && exists|i: int|
                0 <= i < l.len() && (#[trigger] l[i]).key == key {
                let i = choose|i: int| 0 <= i < l.len() && (#[trigger] l[i]).key == key;
                if i < rest.len() {
                    assert(rest[i].key == key);
                }
            }
        }
    }
}

proof fn lemma_right_alone(r: Seq<Listed>, left: Seq<Listed>)
    ensures
        right_notes(r, left).len() == alone(r, left),
    decreases r.len(),
{
    if r.len() > 0 {
        lemma_right_alone(r.drop_last(), left);
    }
}

proof fn lemma_listed_apart(t: Table, scope: u32)
    requires
        tree::linked(t.nodes),
        scope < t.nodes.len(),
    ensures
        apart(listed(t, scope)),
        forall|i: int|
            0 <= i < listed(t, scope).len() ==> lookup(
                listed(t, scope),
                (#[trigger] listed(t, scope)[i]).key,
            ) == Some(listed(t, scope)[i].entry),
{
    let l = listed(t, scope);
    assert forall|i: int, j: int| 0 <= i < j < l.len() implies (#[trigger] l[i]).key != (
    #[trigger] l[j]).key by {
        lemma_listed_distinct(t, scope, i, j);
    }
    assert forall|i: int| 0 <= i < l.len() implies lookup(l, (#[trigger] l[i]).key) == Some(
        l[i].entry,
    ) by {
        lemma_lookup_some(l, i);
    }
}

proof fn lemma_disputed_all(a: Seq<Listed>, b: Seq<Listed>)
    requires
        apart(a),
        forall|i: int| 0 <= i < a.len() ==> lookup(a, (#[trigger] a[i]).key) == Some(a[i].entry),
    ensures
        disputed_in(a, a, b) =~= disputed(a, b),
{
    lemma_disputed_in(a, a, b);
    assert forall|key: Seq<u16>| disputed(a, b).contains(key) implies disputed_in(
        a,
        a,
        b,
    ).contains(key) by {
        let i = lemma_lookup_place(a, key);
        assert(a[i].key == key);
    }
}

/// Both directions of a comparison count the same number of differences.
pub proof fn law_both_directions_count_the_same(t: Table, a: u32, u: Table, b: u32)
    requires
        tree::linked(t.nodes),
        a < t.nodes.len(),
        tree::linked(u.nodes),
        b < u.nodes.len(),
    ensures
        all_notes(listed(t, a), listed(u, b)).len() == all_notes(
            listed(u, b),
            listed(t, a),
        ).len(),
{
    let l = listed(t, a);
    let r = listed(u, b);
    lemma_listed_apart(t, a);
    lemma_listed_apart(u, b);
    lemma_disputed_in(l, l, r);
    lemma_disputed_in(r, r, l);
    lemma_disputed_all(l, r);
    lemma_disputed_all(r, l);
    assert(disputed(l, r) =~= disputed(r, l));
    lemma_right_alone(r, l);
    lemma_right_alone(l, r);
}

/// It does not matter for the result which of two scans is the left one.
pub proof fn law_comparisons_are_mutual(
    c: Comparison,
    d: Comparison,
    left: Snapshot,
    right: Snapshot,
    a: u32,
    b: u32,
)
    requires
        tree::linked(left.nodes@),
        tree::linked(right.nodes@),
        a < left.nodes@.len(),
        b < right.nodes@.len(),
        compares(c, left, right, listed(left.table(), a), listed(right.table(), b)),
        compares(d, right, left, listed(right.table(), b), listed(left.table(), a)),
    ensures
        c.equal == d.equal,
        c.differences == d.differences,
        c.left_nodes == d.right_nodes,
        c.right_nodes == d.left_nodes,
{
    law_both_directions_count_the_same(left.table(), a, right.table(), b);
}

/// A comparison is equal exactly if nothing differs and both roots agree, and it shows as
/// many examples as there are differences, up to forty.
pub proof fn law_comparisons_hang_together(
    c: Comparison,
    left: Snapshot,
    right: Snapshot,
    a: Seq<Listed>,
    b: Seq<Listed>,
)
    requires
        compares(c, left, right, a, b),
    ensures
        c.equal <==> c.differences == 0 && c.root_logical_equal && c.root_allocated_equal,
        c.examples@.len() == (if c.differences < 40 {
            c.differences as int
        } else {
            40
        }),
{
    assert(text::views(c.examples@).len() == c.examples@.len());
}

/// The space of a directory or of a shared file is never a difference.
pub proof fn law_shared_space_is_no_difference(x: Entry, y: Entry)
    requires
        x.is_dir || x.hardlink || y.hardlink,
    ensures
        differs(x, y) <==> differs(x, (Entry { allocated: x.allocated, ..y })),
{
}

/// A scan does not differ from itself.
pub proof fn law_same_scan_is_equal(t: Table, scope: u32)
    requires
        tree::linked(t.nodes),
        scope < t.nodes.len(),
    ensures
        all_notes(listed(t, scope), listed(t, scope)).len() == 0,
{
    let l = listed(t, scope);
    assert forall|i: int| 0 <= i < l.len() implies lookup(l, (#[trigger] l[i]).key) == Some(
        l[i].entry,
    ) by {
        assert forall|j: int| i < j < l.len() implies (#[trigger] l[j]).key != l[i].key by {
            lemma_listed_distinct(t, scope, i, j);
        }
        lemma_lookup_some(l, i);
    }
    lemma_no_notes(l, l);
}

/// Where a listed entry comes from.
proof fn lemma_listed_node(t: Table, scope: u32, i: int) -> (x: u32)
    requires
        tree::linked(t.nodes),
        scope < t.nodes.len(),
        0 <= i < listed(t, scope).len(),
    ensures
        x < t.nodes.len(),
        walk::under(t.nodes, scope as int, x as int),
        listed(t, scope)[i].key == rel_key(t, scope, x),
        listed(t, scope)[i].entry == entry_of(t.nodes[x as int]),
{
    let ids = visited(t, scope);
    let keys = visited_keys(t, scope);
    let q = by_key(keys);
    lemma_sorted_places(t, scope);
    lemma_latest(keys, q, keys.len());
    let kept = latest(keys, q, keys.len());
    let rank = choose|rank: Seq<nat>| tree::ranked(t.nodes, rank);
    walk::lemma_order_sound(t.nodes, walk::everything(), rank, scope);
    assert(kept[i] < keys.len());
    ids[kept[i] as int]
}

proof fn lemma_sorted_places(t: Table, scope: u32)
    requires
        tree::linked(t.nodes),
        scope < t.nodes.len(),
    ensures
        ({
            let keys = visited_keys(t, scope);
            let q = by_key(keys);
            &&& q.len() == keys.len()
            &&& order::in_order(q, |a: usize, b: usize| key_first(keys, a, b))
            &&& forall|k: int| 0 <= k < q.len() ==> (#[trigger] q[k]) < keys.len()
            &&& forall|k: int| 0 <= k < keys.len() ==> q.contains(#[trigger] (k as usize))
            &&& keys.len() <= u32::MAX
        }),
{
    let keys = visited_keys(t, scope);
    let q = by_key(keys);
    let le = |a: usize, b: usize| key_first(keys, a, b);
    let num = order::numbers(keys.len());
    let rank = choose|rank: Seq<nat>| tree::ranked(t.nodes, rank);
    walk::lemma_order_sound(t.nodes, walk::everything(), rank, scope);
    lemma_distinct_bound(visited(t, scope), t.nodes.len());
    lemma_key_order(keys);
    num.lemma_sort_by_ensures(le);
    assert(q.len() == num.len()) by {
        broadcast use vstd::seq_lib::group_to_multiset_ensures;

        assert(q.to_multiset().len() == q.len());
        assert(num.to_multiset().len() == num.len());
    }
    assert forall|k: int| 0 <= k < q.len() implies (#[trigger] q[k]) < keys.len() by {
        order::lemma_same_members(q, num, k);
        let w = num.index_of(q[k]);
        assert(num[w] == q[k]);
    }
    assert forall|k: int| 0 <= k < keys.len() implies q.contains(#[trigger] (k as usize)) by {
        assert(num[k] == k as usize);
        order::lemma_same_members(num, q, k);
    }
}

/// The path of every node below the scope is listed.
proof fn lemma_node_listed(t: Table, scope: u32, x: u32) -> (i: int)
    requires
        tree::linked(t.nodes),
        scope < t.nodes.len(),
        x < t.nodes.len(),
        walk::under(t.nodes, scope as int, x as int),
    ensures
        0 <= i < listed(t, scope).len(),
        listed(t, scope)[i].key == rel_key(t, scope, x),
{
    let ids = visited(t, scope);
    let keys = visited_keys(t, scope);
    let q = by_key(keys);
    walk::lemma_order_complete(t.nodes, walk::everything(), scope, x as int);
    let p = ids.index_of(x);
    assert(0 <= p < ids.len() && ids[p] == x);
    lemma_sorted_places(t, scope);
    assert(q.contains(p as usize));
    let k = q.index_of(p as usize);
    lemma_latest_complete(keys, q, keys.len(), k);
    lemma_latest(keys, q, keys.len());
    let kept = latest(keys, q, keys.len());
    let c = choose|c: int|
        0 <= c < kept.len() && keys[(#[trigger] kept[c]) as int] == keys[q[k] as int];
    c
}

/// Two nodes are the same to a comparison: the times, the length and the kind, and the space
/// of two plain files that are no hard links.
proof fn lemma_agreeing_nodes(t: Table, a: u32, u: Table, b: u32, x: u32) -> (y: u32)
    requires
        tree::linked(t.nodes),
        a < t.nodes.len(),
        tree::linked(u.nodes),
        b < u.nodes.len(),
        all_notes(listed(t, a), listed(u, b)).len() == 0,
        x < t.nodes.len(),
        walk::under(t.nodes, a as int, x as int),
        forall|z: u32|
            z < t.nodes.len() && #[trigger] walk::under(t.nodes, a as int, z as int) && rel_key(
                t,
                a,
                z,
            ) == rel_key(t, a, x) ==> z == x,
    ensures
        y < u.nodes.len(),
        walk::under(u.nodes, b as int, y as int),
        rel_key(u, b, y) == rel_key(t, a, x),
        ({
            let n = t.nodes[x as int];
            let m = u.nodes[y as int];
            &&& n.oldest_modified_ms == m.oldest_modified_ms
            &&& n.latest_modified_ms == m.latest_modified_ms
            &&& n.logical == m.logical
            &&& (n.flags & 1 != 0) == (m.flags & 1 != 0)
            &&& n.flags & 1 == 0 && n.flags & 4 == 0 && m.flags & 4 == 0 ==> n.allocated
                == m.allocated
        }),
{
    let l = listed(t, a);
    let r = listed(u, b);
    let i = lemma_node_listed(t, a, x);
    let z = lemma_listed_node(t, a, i);
    assert(z == x);
    lemma_left_notes(l, r);
    assert(left_note(l[i], r).len() == 0);
    let j = lemma_lookup_place(r, l[i].key);
    lemma_listed_node(u, b, j)
}

/// If a comparison finds no difference, every path that one scan has the other has too, and
/// what lies there agrees in its oldest and latest write, its length and its kind, and, of
/// two plain files that are no hard links, in its space.
pub proof fn law_no_difference_means_same_files(
    c: Comparison,
    left: Snapshot,
    right: Snapshot,
    a: u32,
    b: u32,
)
    requires
        tree::linked(left.nodes@),
        tree::linked(right.nodes@),
        a < left.nodes@.len(),
        b < right.nodes@.len(),
        compares(c, left, right, listed(left.table(), a), listed(right.table(), b)),
        c.differences == 0,
    ensures
        forall|x: u32|
            x < left.nodes@.len() && #[trigger] walk::under(left.nodes@, a as int, x as int) && (
            forall|z: u32|
                z < left.nodes@.len() && #[trigger] walk::under(left.nodes@, a as int, z as int)
                    && rel_key(left.table(), a, z) == rel_key(left.table(), a, x) ==> z == x) ==> (
            exists|y: u32|
                {
                    let n = left.nodes@[x as int];
                    let m = right.nodes@[y as int];
                    &&& y < right.nodes@.len()
                    &&& #[trigger] walk::under(right.nodes@, b as int, y as int)
                    &&& rel_key(left.table(), a, x) == rel_key(right.table(), b, y)
                    &&& n.oldest_modified_ms == m.oldest_modified_ms
                    &&& n.latest_modified_ms == m.latest_modified_ms
                    &&& n.logical == m.logical
                    &&& (n.flags & 1 != 0) == (m.flags & 1 != 0)
                    &&& n.flags & 1 == 0 && n.flags & 4 == 0 && m.flags & 4 == 0 ==> n.allocated
                        == m.allocated
                }),
        forall|x: u32|
            x < right.nodes@.len() && #[trigger] walk::under(right.nodes@, b as int, x as int) && (
            forall|z: u32|
                z < right.nodes@.len() && #[trigger] walk::under(right.nodes@, b as int, z as int)
                    && rel_key(right.table(), b, z) == rel_key(right.table(), b, x) ==> z == x) ==> (
            exists|y: u32|
                {
                    let n = right.nodes@[x as int];
                    let m = left.nodes@[y as int];
                    &&& y < left.nodes@.len()
                    &&& #[trigger] walk::under(left.nodes@, a as int, y as int)
                    &&& rel_key(right.table(), b, x) == rel_key(left.table(), a, y)
                    &&& n.oldest_modified_ms == m.oldest_modified_ms
                    &&& n.latest_modified_ms == m.latest_modified_ms
                    &&& n.logical == m.logical
                    &&& (n.flags & 1 != 0) == (m.flags & 1 != 0)
                    &&& n.flags & 1 == 0 && n.flags & 4 == 0 && m.flags & 4 == 0 ==> n.allocated
                        == m.allocated
                }),
{
    let t = left.table();
    let u = right.table();
    law_difference_is_mutual(t, a, u, b);
    assert forall|x: u32|
        x < left.nodes@.len() && #[trigger] walk::under(left.nodes@, a as int, x as int) && (forall|
            z: u32,
        |
            z < left.nodes@.len() && #[trigger] walk::under(left.nodes@, a as int, z as int)
                && rel_key(t, a, z) == rel_key(t, a, x) ==> z == x) implies (exists|y: u32|
        {
            let n = left.nodes@[x as int];
            let m = right.nodes@[y as int];
            &&& y < right.nodes@.len()
            &&& #[trigger] walk::under(right.nodes@, b as int, y as int)
            &&& rel_key(t, a, x) == rel_key(u, b, y)
            &&& n.oldest_modified_ms == m.oldest_modified_ms
            &&& n.latest_modified_ms == m.latest_modified_ms
            &&& n.logical == m.logical
            &&& (n.flags & 1 != 0) == (m.flags & 1 != 0)
            &&& n.flags & 1 == 0 && n.flags & 4 == 0 && m.flags & 4 == 0 ==> n.allocated
                == m.allocated
        }) by {
        let y = lemma_agreeing_nodes(t, a, u, b, x);
        assert(walk::under(right.nodes@, b as int, y as int));
    }
    assert forall|x: u32|
        x < right.nodes@.len() && #[trigger] walk::under(right.nodes@, b as int, x as int) && (
        forall|z: u32|
            z < right.nodes@.len() && #[trigger] walk::under(right.nodes@, b as int, z as int)
                && rel_key(u, b, z) == rel_key(u, b, x) ==> z == x) implies (exists|y: u32|
        {
            let n = right.nodes@[x as int];
            let m = left.nodes@[y as int];
            &&& y < left.nodes@.len()
            &&& #[trigger] walk::under(left.nodes@, a as int, y as int)
            &&& rel_key(u, b, x) == rel_key(t, a, y)
            &&& n.oldest_modified_ms == m.oldest_modified_ms
            &&& n.latest_modified_ms == m.latest_modified_ms
            &&& n.logical == m.logical
            &&& (n.flags & 1 != 0) == (m.flags & 1 != 0)
            &&& n.flags & 1 == 0 && n.flags & 4 == 0 && m.flags & 4 == 0 ==> n.allocated
                == m.allocated
        }) by {
        let y = lemma_agreeing_nodes(u, b, t, a, x);
        assert(walk::under(left.nodes@, a as int, y as int));
    }
}

/// If a comparison finds no difference, both scans list the same paths, with the same times,
/// lengths and kinds and, of two plain files that are no hard links, the same space.
pub proof fn law_no_difference_means_same_listing(
    c: Comparison,
    left: Snapshot,
    right: Snapshot,
    a: Seq<Listed>,
    b: Seq<Listed>,
    key: Seq<u16>,
)
    requires
        compares(c, left, right, a, b),
        c.differences == 0,
    ensures
        lookup(a, key) is Some <==> lookup(b, key) is Some,
        lookup(a, key) is Some ==> {
            let x = lookup(a, key)->0;
            let y = lookup(b, key)->0;
            &&& x.oldest_modified_ms == y.oldest_modified_ms
            &&& x.latest_modified_ms == y.latest_modified_ms
            &&& x.logical == y.logical
            &&& x.is_dir == y.is_dir
            &&& !x.is_dir && !x.hardlink && !y.hardlink ==> x.allocated == y.allocated
        },
{
    lemma_left_notes(a, b);
    lemma_right_notes(b, a);
    if lookup(a, key) is Some {
        let i = lemma_lookup_place(a, key);
        assert(left_note(a[i], b).len() == 0);
    }
    if lookup(b, key) is Some {
        let j = lemma_lookup_place(b, key);
        assert(right_note(b[j], a).len() == 0);
    }
}

/// A scan with one entry that the other side lacks, or that differs there, is not equal.
pub proof fn law_every_difference_counts(
    c: Comparison,
    left: Snapshot,
    right: Snapshot,
    a: Seq<Listed>,
    b: Seq<Listed>,
    key: Seq<u16>,
)
    requires
        compares(c, left, right, a, b),
        lookup(a, key) is Some,
        lookup(b, key) is None || {
            let x = lookup(a, key)->0;
            let y = lookup(b, key)->0;
            ||| x.oldest_modified_ms != y.oldest_modified_ms
            ||| x.latest_modified_ms != y.latest_modified_ms
            ||| x.logical != y.logical
            ||| x.is_dir != y.is_dir
            ||| !x.is_dir && !x.hardlink && !y.hardlink && x.allocated != y.allocated
        },
    ensures
        c.differences > 0,
        !c.equal,
{
    if c.differences == 0 {
        law_no_difference_means_same_listing(c, left, right, a, b, key);
    }
}

/// The path of an entry below the scope is that of its folder, a backslash unless that is
/// the scope itself, and its own name.
pub proof fn law_paths_are_folder_and_name(t: Table, scope: u32, id: u32)
    requires
        tree::linked(t.nodes),
        scope < t.nodes.len(),
        id < t.nodes.len(),
        walk::under(t.nodes, scope as int, id as int),
        id != scope,
    ensures
        ({
            let folder = rel_key(t, scope, t.nodes[id as int].parent);
            let name = model::units_at(t.nodes, t.names, id as int);
            &&& rel_key(t, scope, scope) == Seq::<u16>::empty()
            &&& folder.len() == 0 ==> rel_key(t, scope, id) == name
            &&& folder.len() > 0 ==> rel_key(t, scope, id) == folder + seq![0x5cu16] + name
        }),
{
    lemma_key_below(t, scope, id);
    walk::lemma_under_self(t.nodes, scope as int);
    lemma_key_below(t, scope, scope);
    let folder = rel_key(t, scope, t.nodes[id as int].parent);
    if folder.len() == 0 {
        assert(folder + Seq::<u16>::empty() + model::units_at(t.nodes, t.names, id as int)
            =~= model::units_at(t.nodes, t.names, id as int));
    }
}

} // verus!
