//! How the targets are joined under their drives and shared ancestors.
use crate::model::Snapshot;
use crate::order;
use crate::path_order;
use crate::platform;
use crate::review_tree;
use crate::review_tree::{Forest, ForestError, Group};
use crate::text;
use vstd::prelude::*;
use vstd::string::*;

verus! {

/// The names of a target's volume.
pub open spec fn volume_names(tree: Snapshot) -> Seq<Seq<char>> {
    platform::path_names(platform::shown(tree.volume.root@))
}

/// The names on the way from the volume to a target, its own included.
pub open spec fn inner_names(tree: Snapshot) -> Seq<Seq<char>> {
    let all = platform::pieces_of(platform::shown(tree.root.words()));
    let skip = volume_names(tree).len();
    if skip <= all.len() {
        all.subrange(skip as int, all.len() as int)
    } else {
        Seq::empty()
    }
}

/// The target lies under its recorded volume.
pub open spec fn under_volume(tree: Snapshot) -> bool {
    let root = platform::shown(tree.root.words());
    let drive = platform::shown(tree.volume.root@);
    &&& platform::absolute_text(drive)
    &&& platform::absolute_text(root)
    &&& platform::key_within(platform::key_of(root), platform::key_of(drive))
}

/// The names of the ancestor of a target at depth `d`; depth 0 is its volume.
pub open spec fn shelf(tree: Snapshot, d: int) -> Seq<Seq<char>> {
    volume_names(tree) + inner_names(tree).subrange(0, d)
}

/// The path of the ancestor of a target at depth `d`.
pub open spec fn shelf_text(tree: Snapshot, d: int) -> Seq<char>
    decreases d,
{
    if d <= 0 {
        platform::shown(tree.volume.root@)
    } else {
        platform::joined(shelf_text(tree, d - 1), inner_names(tree)[d - 1])
    }
}

/// These are the names of a proper ancestor of the target.
pub open spec fn on_path(tree: Snapshot, p: Seq<Seq<char>>) -> bool {
    let v = volume_names(tree).len();
    &&& v <= p.len() < v + inner_names(tree).len()
    &&& p == shelf(tree, p.len() - v)
}

/// A group in mathematical terms.
pub struct GroupV {
    pub path: Seq<char>,
    pub name: Seq<char>,
    pub drive: bool,
    pub children: Seq<i32>,
    pub targets: Seq<usize>,
}

impl GroupV {
    pub open spec fn names(self) -> Seq<Seq<char>> {
        platform::path_names(self.path)
    }

    /// Where its path stands among all paths.
    pub open spec fn place(self) -> Seq<u32> {
        path_order::key_of(text::utf16_of(self.path))
    }
}

pub open spec fn group_view(g: Group) -> GroupV {
    GroupV {
        path: g.path@,
        name: g.name@,
        drive: g.drive,
        children: g.children@,
        targets: g.targets@,
    }
}

pub open spec fn group_views(gs: Seq<Group>) -> Seq<GroupV> {
    gs.map_values(|g: Group| group_view(g))
}

/// Target `u` has been joined down to these names, where targets below `t` are joined
/// wholly and target `t` down to depth `d`.
pub open spec fn reached(
    trees: Seq<&Snapshot>,
    t: int,
    d: int,
    u: int,
    p: Seq<Seq<char>>,
) -> bool {
    ||| 0 <= u < t && u < trees.len() && on_path(*trees[u], p)
    ||| u == t && t < trees.len() && on_path(*trees[t], p) && p.len() < volume_names(
        *trees[t],
    ).len() + d
}

/// Group `h` hangs below the names `p`.
pub open spec fn group_below(gs: Seq<GroupV>, h: int, p: Seq<Seq<char>>) -> bool {
    0 <= h < gs.len() && !gs[h].drive && gs[h].names().drop_last() == p
}

/// Target `u` hangs below the names `p`.
pub open spec fn target_below(
    trees: Seq<&Snapshot>,
    t: int,
    u: int,
    p: Seq<Seq<char>>,
) -> bool {
    0 <= u < t && u < trees.len() && shelf(*trees[u], inner_names(*trees[u]).len() - 1) == p
}

/// The group is known by the first target under it.
pub open spec fn named_right(trees: Seq<&Snapshot>, g: GroupV) -> bool {
    let c = *trees[g.targets[0] as int];
    let e = g.names().len() - volume_names(c).len();
    &&& g.drive == (e == 0)
    &&& g.path == shelf_text(c, e)
    &&& g.name == if e == 0 {
        platform::shown(g.path)
    } else {
        inner_names(c)[e - 1]
    }
}

/// The targets of a group are those under it, each once and in order.
pub open spec fn targets_right(trees: Seq<&Snapshot>, t: int, d: int, g: GroupV) -> bool {
    &&& g.targets.len() > 0
    &&& forall|a: int, b: int| 0 <= a < b < g.targets.len() ==> g.targets[a] < g.targets[b]
    &&& forall|u: usize|
        #[trigger] g.targets.contains(u) <==> reached(trees, t, d, u as int, g.names())
}

/// The children of a group are the groups and targets right below it, each once.
pub open spec fn children_right(
    trees: Seq<&Snapshot>,
    gs: Seq<GroupV>,
    count: int,
    t: int,
    i: int,
) -> bool {
    let g = gs[i];
    &&& g.children.no_duplicates()
    &&& forall|k: i32| #[trigger]
        g.children.contains(k) <==> {
            ||| group_below(gs, k - count, g.names())
            ||| exists|u: int|
                #[trigger] target_below(trees, t, u, g.names()) && k == review_tree::offset_of(
                    trees,
                    u,
                )
        }
}

/// The groups that join the targets below `t`, and target `t` down to depth `d`.
pub open spec fn joining(
    trees: Seq<&Snapshot>,
    count: int,
    gs: Seq<GroupV>,
    roots: Seq<i32>,
    t: int,
    d: int,
) -> bool {
    &&& forall|i: int, j: int|
        0 <= i < j < gs.len() ==> (#[trigger] gs[i]).names() != (#[trigger] gs[j]).names()
    &&& forall|i: int| 0 <= i < gs.len() ==> targets_right(trees, t, d, #[trigger] gs[i])
    &&& forall|i: int| 0 <= i < gs.len() ==> named_right(trees, #[trigger] gs[i])
    &&& forall|u: int, e: int|
        (0 <= u < t && u < trees.len() && 0 <= e < inner_names(*trees[u]).len()) || (u == t && t
            < trees.len() && 0 <= e < d) ==> has_group(gs, #[trigger] shelf(*trees[u], e))
    &&& roots.no_duplicates()
    &&& forall|k: i32| #[trigger] roots.contains(k) <==> 0 <= k - count < gs.len() && gs[k
        - count].drive
    &&& forall|i: int| 0 <= i < gs.len() ==> #[trigger] children_right(trees, gs, count, t, i)
}

pub open spec fn has_group(gs: Seq<GroupV>, p: Seq<Seq<char>>) -> bool {
    exists|i: int| 0 <= i < gs.len() && (#[trigger] gs[i]).names() == p
}

/// The keys fit the trees.
pub open spec fn counted_in(trees: Seq<&Snapshot>, count: int, t: int) -> bool {
    &&& 0 <= t <= trees.len()
    &&& count == review_tree::offset_of(trees, trees.len() as int)
    &&& count <= i32::MAX
    &&& forall|u: int|
        0 <= u < t ==> (#[trigger] trees[u]).nodes@.len() > 0 && inner_names(*trees[u]).len() > 0
}

proof fn lemma_offsets(trees: Seq<&Snapshot>, a: int, b: int)
    requires
        0 <= a <= b <= trees.len(),
    ensures
        review_tree::offset_of(trees, a) <= review_tree::offset_of(trees, b),
        a < b && trees[a].nodes@.len() > 0 ==> review_tree::offset_of(trees, a)
            < review_tree::offset_of(trees, b),
    decreases b - a,
{
    if a < b {
        lemma_offsets(trees, a, b - 1);
    }
}

/// The path of an ancestor has the names of that ancestor.
proof fn lemma_shelf_text(tree: Snapshot, d: int)
    requires
        0 <= d <= inner_names(tree).len(),
        under_volume(tree),
    ensures
        platform::path_names(shelf_text(tree, d)) == shelf(tree, d),
        shelf_text(tree, d).len() > 0,
    decreases d,
{
    if d == 0 {
        assert(shelf(tree, 0) =~= volume_names(tree));
        platform::lemma_absolute(platform::shown(tree.volume.root@));
    } else {
        lemma_shelf_text(tree, d - 1);
        let all = platform::pieces_of(platform::shown(tree.root.words()));
        let k = volume_names(tree).len() + d - 1;
        assert(inner_names(tree)[d - 1] == all[k]);
        platform::lemma_pieces_are_names(platform::shown(tree.root.words()), Seq::empty(), k);
        platform::lemma_names_joined(shelf_text(tree, d - 1), inner_names(tree)[d - 1]);
        assert(shelf(tree, d) =~= shelf(tree, d - 1).push(inner_names(tree)[d - 1]));
    }
}

/// A target joins a group that is there already.
proof fn lemma_touch(
    trees: Seq<&Snapshot>,
    count: int,
    gs: Seq<GroupV>,
    roots: Seq<i32>,
    t: usize,
    d: int,
    i: int,
)
    requires
        joining(trees, count, gs, roots, t as int, d),
        t < trees.len(),
        0 <= d < inner_names(*trees[t as int]).len(),
        0 <= i < gs.len(),
        gs[i].names() == shelf(*trees[t as int], d),
    ensures
        joining(
            trees,
            count,
            gs.update(i, GroupV { targets: gs[i].targets.push(t), ..gs[i] }),
            roots,
            t as int,
            d + 1,
        ),
{
    let tree = *trees[t as int];
    let old_g = gs[i];
    let new_g = GroupV { targets: old_g.targets.push(t), ..old_g };
    let gs2 = gs.update(i, new_g);
    let v = volume_names(tree).len();
    assert(gs[i].names().len() == v + d);
    assert(targets_right(trees, t as int, d, old_g));
    assert(named_right(trees, old_g));
    assert forall|j: int| 0 <= j < gs2.len() implies targets_right(
        trees,
        t as int,
        d + 1,
        #[trigger] gs2[j],
    ) && named_right(trees, gs2[j]) by {
        assert(targets_right(trees, t as int, d, gs[j]));
        assert(named_right(trees, gs[j]));
        if j == i {
            assert forall|a: int| 0 <= a < old_g.targets.len() implies (#[trigger] old_g.targets[a])
                < t by {
                assert(old_g.targets.contains(old_g.targets[a]));
            }
            assert forall|u: usize| #[trigger] new_g.targets.contains(u) <==> reached(
                trees,
                t as int,
                d + 1,
                u as int,
                new_g.names(),
            ) by {
                if new_g.targets.contains(u) && u != t {
                    let w = new_g.targets.index_of(u);
                    assert(old_g.targets[w] == u);
                    assert(old_g.targets.contains(u));
                }
                if reached(trees, t as int, d + 1, u as int, new_g.names()) {
                    if u == t {
                        assert(new_g.targets[old_g.targets.len() as int] == t);
                    } else {
                        assert(old_g.targets.contains(u));
                        let w = old_g.targets.index_of(u);
                        assert(new_g.targets[w] == u);
                    }
                }
                if u == t {
                    assert(new_g.targets[old_g.targets.len() as int] == t);
                    assert(on_path(tree, new_g.names()));
                }
            }
        } else {
            let g = gs[j];
            assert forall|u: usize| #[trigger] g.targets.contains(u) <==> reached(
                trees,
                t as int,
                d + 1,
                u as int,
                g.names(),
            ) by {
                if u == t && on_path(tree, g.names()) && g.names().len() == v + d {
                    if i < j {
                        assert(gs[i].names() != gs[j].names());
                    } else {
                        assert(gs[j].names() != gs[i].names());
                    }
                }
            }
        }
    }
    assert forall|a: int, b: int| 0 <= a < b < gs2.len() implies (#[trigger] gs2[a]).names()
        != (#[trigger] gs2[b]).names() by {
        assert(gs[a].names() != gs[b].names());
    }
    assert forall|u: int, e: int|
        (0 <= u < t && u < trees.len() && 0 <= e < inner_names(*trees[u]).len()) || (u == t && t
            < trees.len() && 0 <= e < d + 1) implies has_group(
        gs2,
        #[trigger] shelf(*trees[u], e),
    ) by {
        if u == t && e == d {
            assert(gs2[i].names() == shelf(tree, d));
        } else {
            assert(has_group(gs, shelf(*trees[u], e)));
            let w = choose|w: int|
                0 <= w < gs.len() && (#[trigger] gs[w]).names() == shelf(*trees[u], e);
            assert(gs2[w].names() == shelf(*trees[u], e));
        }
    }
    assert forall|j: int| 0 <= j < gs2.len() implies #[trigger] children_right(
        trees,
        gs2,
        count,
        t as int,
        j,
    ) by {
        assert(children_right(trees, gs, count, t as int, j));
        assert(gs2[j].names() == gs[j].names());
        assert forall|k: i32| #[trigger] gs2[j].children.contains(k) <==> {
            ||| group_below(gs2, k - count, gs2[j].names())
            ||| exists|u: int|
                #[trigger] target_below(trees, t as int, u, gs2[j].names()) && k
                    == review_tree::offset_of(trees, u)
        } by {
            assert(gs[j].children.contains(k) == gs2[j].children.contains(k));
            assert(group_below(gs2, k - count, gs2[j].names()) == group_below(
                gs,
                k - count,
                gs[j].names(),
            ));
        }
    }
}

/// A target brings a group of its own.
proof fn lemma_create(
    trees: Seq<&Snapshot>,
    count: int,
    gs: Seq<GroupV>,
    roots: Seq<i32>,
    t: usize,
    d: int,
    parent: int,
    fresh: GroupV,
    key: i32,
)
    requires
        joining(trees, count, gs, roots, t as int, d),
        counted_in(trees, count, t as int),
        t < trees.len(),
        0 <= d < inner_names(*trees[t as int]).len(),
        under_volume(*trees[t as int]),
        !has_group(gs, shelf(*trees[t as int], d)),
        d > 0 ==> 0 <= parent < gs.len() && gs[parent].names() == shelf(*trees[t as int], d - 1),
        fresh.path == shelf_text(*trees[t as int], d),
        fresh.drive == (d == 0),
        fresh.children == Seq::<i32>::empty(),
        fresh.targets == seq![t],
        fresh.name == if d == 0 {
            platform::shown(fresh.path)
        } else {
            inner_names(*trees[t as int])[d - 1]
        },
        key == count + gs.len(),
    ensures
        ({
            let held = if d > 0 {
                gs.update(
                    parent,
                    GroupV { children: gs[parent].children.push(key), ..gs[parent] },
                )
            } else {
                gs
            };
            joining(
                trees,
                count,
                held.push(fresh),
                if d == 0 {
                    roots.push(key)
                } else {
                    roots
                },
                t as int,
                d + 1,
            )
        }),
{
    let tree = *trees[t as int];
    let v = volume_names(tree).len();
    let n = gs.len() as int;
    let held = if d > 0 {
        gs.update(parent, GroupV { children: gs[parent].children.push(key), ..gs[parent] })
    } else {
        gs
    };
    let gs2 = held.push(fresh);
    let roots2 = if d == 0 {
        roots.push(key)
    } else {
        roots
    };
    lemma_shelf_text(tree, d);
    let p = fresh.names();
    assert(p == shelf(tree, d));
    assert(p.len() == v + d);
    assert forall|j: int| 0 <= j < n implies (#[trigger] gs2[j]).names() == gs[j].names()
        && gs2[j].targets == gs[j].targets && gs2[j].drive == gs[j].drive && gs2[j].path
        == gs[j].path && gs2[j].name == gs[j].name by {}
    assert forall|j: int| 0 <= j < n implies (#[trigger] gs[j]).names() != p by {
        if gs[j].names() == p {
            assert(has_group(gs, p));
        }
    }
    assert forall|a: int, b: int| 0 <= a < b < gs2.len() implies (#[trigger] gs2[a]).names()
        != (#[trigger] gs2[b]).names() by {
        if b < n {
            assert(gs[a].names() != gs[b].names());
        } else {
            assert(gs[a].names() != p);
        }
    }
    assert forall|j: int| 0 <= j < gs2.len() implies targets_right(
        trees,
        t as int,
        d + 1,
        #[trigger] gs2[j],
    ) && named_right(trees, gs2[j]) by {
        if j < n {
            let g = gs[j];
            assert(targets_right(trees, t as int, d, g));
            assert(named_right(trees, g));
            assert(g.names() != p);
            assert forall|u: usize| #[trigger] gs2[j].targets.contains(u) <==> reached(
                trees,
                t as int,
                d + 1,
                u as int,
                gs2[j].names(),
            ) by {
                assert(g.targets.contains(u) <==> reached(
                    trees,
                    t as int,
                    d,
                    u as int,
                    g.names(),
                ));
            }
        } else {
            assert(gs2[j] == fresh);
            assert forall|u: usize| #[trigger] fresh.targets.contains(u) <==> reached(
                trees,
                t as int,
                d + 1,
                u as int,
                p,
            ) by {
                if u == t {
                    assert(fresh.targets[0] == t);
                    assert(on_path(tree, p));
                } else if reached(trees, t as int, d + 1, u as int, p) {
                    let w = volume_names(*trees[u as int]).len();
                    assert(has_group(gs, shelf(*trees[u as int], p.len() - w)));
                }
            }
        }
    }
    assert forall|u: int, e: int|
        (0 <= u < t && u < trees.len() && 0 <= e < inner_names(*trees[u]).len()) || (u == t && t
            < trees.len() && 0 <= e < d + 1) implies has_group(
        gs2,
        #[trigger] shelf(*trees[u], e),
    ) by {
        if u == t && e == d {
            assert(gs2[n].names() == shelf(tree, d));
        } else {
            assert(has_group(gs, shelf(*trees[u], e)));
            let w = choose|w: int|
                0 <= w < gs.len() && (#[trigger] gs[w]).names() == shelf(*trees[u], e);
            assert(gs2[w].names() == shelf(*trees[u], e));
        }
    }
    assert forall|k: i32| #[trigger] roots2.contains(k) <==> 0 <= k - count < gs2.len() && gs2[k
        - count].drive by {
        if roots.contains(k) {
            let w = roots.index_of(k);
            assert(roots2[w] == k);
        }
        if roots2.contains(k) {
            let w = roots2.index_of(k);
            if w < roots.len() {
                assert(roots[w] == k);
                assert(roots.contains(k));
            }
        }
        if k == key && d == 0 {
            assert(roots2[roots.len() as int] == key);
        }
        if 0 <= k - count < n {
            assert(gs2[k - count].drive == gs[k - count].drive);
        }
    }
    assert(roots2.no_duplicates()) by {
        assert(!roots.contains(key));
        assert forall|a: int, b: int| 0 <= a < roots2.len() && 0 <= b < roots2.len() && a != b implies roots2[a]
            != roots2[b] by {
            if a == roots.len() {
                assert(roots.contains(roots[b]));
            } else if b == roots.len() {
                assert(roots.contains(roots[a]));
            }
        }
    }
    assert forall|j: int| 0 <= j < gs2.len() implies #[trigger] children_right(
        trees,
        gs2,
        count,
        t as int,
        j,
    ) by {
        lemma_create_children(trees, count, gs, gs2, t, d, parent, fresh, key, j);
    }
}

proof fn lemma_create_children(
    trees: Seq<&Snapshot>,
    count: int,
    gs: Seq<GroupV>,
    gs2: Seq<GroupV>,
    t: usize,
    d: int,
    parent: int,
    fresh: GroupV,
    key: i32,
    j: int,
)
    requires
        exists|roots: Seq<i32>| joining(trees, count, gs, roots, t as int, d),
        counted_in(trees, count, t as int),
        t < trees.len(),
        0 <= d < inner_names(*trees[t as int]).len(),
        !has_group(gs, shelf(*trees[t as int], d)),
        d > 0 ==> 0 <= parent < gs.len() && gs[parent].names() == shelf(*trees[t as int], d - 1),
        fresh.names() == shelf(*trees[t as int], d),
        fresh.drive == (d == 0),
        fresh.children == Seq::<i32>::empty(),
        key == count + gs.len(),
        gs2.len() == gs.len() + 1,
        gs2[gs.len() as int] == fresh,
        forall|i: int|
            0 <= i < gs.len() ==> #[trigger] gs2[i] == if d > 0 && i == parent {
                GroupV { children: gs[i].children.push(key), ..gs[i] }
            } else {
                gs[i]
            },
        0 <= j < gs2.len(),
    ensures
        children_right(trees, gs2, count, t as int, j),
{
    let tree = *trees[t as int];
    let n = gs.len() as int;
    let p = fresh.names();
    let roots = choose|roots: Seq<i32>| joining(trees, count, gs, roots, t as int, d);
    assert forall|i: int| 0 <= i < n implies (#[trigger] gs2[i]).names() == gs[i].names()
        && gs2[i].drive == gs[i].drive by {}
    assert(d > 0 ==> p.drop_last() =~= shelf(tree, d - 1));
    let g = gs2[j];
    if j < n {
        assert(children_right(trees, gs, count, t as int, j));
        let was = gs[j].children;
        assert(!was.contains(key)) by {
            if was.contains(key) {
                assert(!group_below(gs, key - count, gs[j].names()));
                let u = choose|u: int|
                    #[trigger] target_below(trees, t as int, u, gs[j].names()) && key
                        == review_tree::offset_of(trees, u);
                assert(trees[u].nodes@.len() > 0);
                lemma_offsets(trees, u, trees.len() as int);
            }
        }
        assert forall|k: i32| #[trigger] g.children.contains(k) <==> {
            ||| group_below(gs2, k - count, g.names())
            ||| exists|u: int|
                #[trigger] target_below(trees, t as int, u, g.names()) && k
                    == review_tree::offset_of(trees, u)
        } by {
            if k == key {
                if d > 0 && j == parent {
                    assert(g.children[was.len() as int] == key);
                    assert(group_below(gs2, key - count, g.names()));
                } else {
                    if group_below(gs2, key - count, g.names()) {
                        if j < parent {
                            assert(gs[j].names() != gs[parent].names());
                        } else {
                            assert(gs[parent].names() != gs[j].names());
                        }
                    }
                }
            } else {
                assert(g.children.contains(k) == was.contains(k)) by {
                    if was.contains(k) {
                        let w = was.index_of(k);
                        assert(g.children[w] == k);
                    }
                    if g.children.contains(k) {
                        let w = g.children.index_of(k);
                        assert(was[w] == k);
                    }
                }
                assert(group_below(gs2, k - count, g.names()) == group_below(
                    gs,
                    k - count,
                    gs[j].names(),
                ));
            }
        }
        assert(g.children.no_duplicates()) by {
            if d > 0 && j == parent {
                assert forall|a: int, b: int|
                    0 <= a < g.children.len() && 0 <= b < g.children.len() && a != b implies g.children[a]
                    != g.children[b] by {
                    if a == was.len() {
                        assert(was.contains(was[b]));
                    } else if b == was.len() {
                        assert(was.contains(was[a]));
                    }
                }
            }
        }
    } else {
        assert(g == fresh);
        assert forall|k: i32| !(#[trigger] g.children.contains(k)) && !group_below(
            gs2,
            k - count,
            p,
        ) && !(exists|u: int|
            #[trigger] target_below(trees, t as int, u, p) && k == review_tree::offset_of(
                trees,
                u,
            )) by {
            if group_below(gs2, k - count, p) {
                let h = k - count;
                if h < n {
                    let c = gs[h].targets[0];
                    assert(targets_right(trees, t as int, d, gs[h]));
                    assert(named_right(trees, gs[h]));
                    assert(gs[h].targets.contains(c));
                    let ct = *trees[c as int];
                    let e = gs[h].names().len() - volume_names(ct).len();
                    assert(on_path(ct, gs[h].names()));
                    assert(gs[h].names().drop_last() =~= shelf(ct, e - 1));
                    assert(has_group(gs, shelf(ct, e - 1)));
                } else {
                    assert(p.drop_last().len() != p.len());
                }
            }
            if exists|u: int|
                #[trigger] target_below(trees, t as int, u, p) && k == review_tree::offset_of(
                    trees,
                    u,
                ) {
                let u = choose|u: int|
                    #[trigger] target_below(trees, t as int, u, p) && k == review_tree::offset_of(
                        trees,
                        u,
                    );
                lemma_names_nonempty(trees, count, gs, roots, t as int, d, u, p);
            }
        }
    }
}

/// A joined target hangs below a group.
proof fn lemma_names_nonempty(
    trees: Seq<&Snapshot>,
    count: int,
    gs: Seq<GroupV>,
    roots: Seq<i32>,
    t: int,
    d: int,
    u: int,
    p: Seq<Seq<char>>,
)
    requires
        joining(trees, count, gs, roots, t, d),
        target_below(trees, t, u, p),
        inner_names(*trees[u]).len() > 0,
    ensures
        has_group(gs, p),
{
    assert(has_group(gs, shelf(*trees[u], inner_names(*trees[u]).len() - 1)));
}

/// A target that is joined all the way is hung below its parent.
proof fn lemma_hang(
    trees: Seq<&Snapshot>,
    count: int,
    gs: Seq<GroupV>,
    roots: Seq<i32>,
    t: usize,
    parent: int,
    key: i32,
)
    requires
        joining(trees, count, gs, roots, t as int, inner_names(*trees[t as int]).len() as int),
        counted_in(trees, count, t as int),
        t < trees.len(),
        trees[t as int].nodes@.len() > 0,
        inner_names(*trees[t as int]).len() > 0,
        0 <= parent < gs.len(),
        gs[parent].names() == shelf(
            *trees[t as int],
            inner_names(*trees[t as int]).len() - 1,
        ),
        key == review_tree::offset_of(trees, t as int),
    ensures
        joining(
            trees,
            count,
            gs.update(parent, GroupV { children: gs[parent].children.push(key), ..gs[parent] }),
            roots,
            t + 1,
            0,
        ),
{
    let tree = *trees[t as int];
    let depth = inner_names(tree).len() as int;
    let gs2 = gs.update(
        parent,
        GroupV { children: gs[parent].children.push(key), ..gs[parent] },
    );
    assert forall|j: int| 0 <= j < gs2.len() implies targets_right(
        trees,
        t + 1,
        0,
        #[trigger] gs2[j],
    ) && named_right(trees, gs2[j]) by {
        assert(targets_right(trees, t as int, depth, gs[j]));
        assert(named_right(trees, gs[j]));
        assert forall|u: usize| #[trigger] gs2[j].targets.contains(u) <==> reached(
            trees,
            t + 1,
            0,
            u as int,
            gs2[j].names(),
        ) by {
            assert(gs[j].targets.contains(u) <==> reached(
                trees,
                t as int,
                depth,
                u as int,
                gs[j].names(),
            ));
        }
    }
    assert forall|a: int, b: int| 0 <= a < b < gs2.len() implies (#[trigger] gs2[a]).names()
        != (#[trigger] gs2[b]).names() by {
        assert(gs[a].names() != gs[b].names());
    }
    assert forall|u: int, e: int|
        (0 <= u < t + 1 && u < trees.len() && 0 <= e < inner_names(*trees[u]).len()) || (u == t + 1
            && t + 1 < trees.len() && 0 <= e < 0) implies has_group(
        gs2,
        #[trigger] shelf(*trees[u], e),
    ) by {
        assert(has_group(gs, shelf(*trees[u], e)));
        let w = choose|w: int|
            0 <= w < gs.len() && (#[trigger] gs[w]).names() == shelf(*trees[u], e);
        assert(gs2[w].names() == shelf(*trees[u], e));
    }
    assert forall|j: int| 0 <= j < gs2.len() implies #[trigger] children_right(
        trees,
        gs2,
        count,
        t + 1,
        j,
    ) by {
        assert(children_right(trees, gs, count, t as int, j));
        let was = gs[j].children;
        let g = gs2[j];
        lemma_offsets(trees, t as int, trees.len() as int);
        assert(!was.contains(key)) by {
            if was.contains(key) {
                assert(!group_below(gs, key - count, gs[j].names()));
                let u = choose|u: int|
                    #[trigger] target_below(trees, t as int, u, gs[j].names()) && key
                        == review_tree::offset_of(trees, u);
                assert(trees[u].nodes@.len() > 0);
                lemma_offsets(trees, u, t as int);
            }
        }
        assert forall|k: i32| #[trigger] g.children.contains(k) <==> {
            ||| group_below(gs2, k - count, g.names())
            ||| exists|u: int|
                #[trigger] target_below(trees, t + 1, u, g.names()) && k
                    == review_tree::offset_of(trees, u)
        } by {
            assert(group_below(gs2, k - count, g.names()) == group_below(
                gs,
                k - count,
                gs[j].names(),
            ));
            if g.children.contains(k) {
                let w = g.children.index_of(k);
                if w < was.len() {
                    assert(was[w] == k);
                    assert(was.contains(k));
                    if !group_below(gs, k - count, gs[j].names()) {
                        let u = choose|u: int|
                            #[trigger] target_below(trees, t as int, u, gs[j].names()) && k
                                == review_tree::offset_of(trees, u);
                        assert(target_below(trees, t + 1, u, g.names()));
                    }
                } else {
                    assert(target_below(trees, t + 1, t as int, g.names()));
                }
            }
            if group_below(gs2, k - count, g.names()) {
                assert(was.contains(k));
                let w = was.index_of(k);
                assert(g.children[w] == k);
            }
            if exists|u: int|
                #[trigger] target_below(trees, t + 1, u, g.names()) && k
                    == review_tree::offset_of(trees, u) {
                let u = choose|u: int|
                    #[trigger] target_below(trees, t + 1, u, g.names()) && k
                        == review_tree::offset_of(trees, u);
                if u == t {
                    if j < parent {
                        assert(gs[j].names() != gs[parent].names());
                    } else if parent < j {
                        assert(gs[parent].names() != gs[j].names());
                    }
                    assert(g.children[was.len() as int] == key);
                } else {
                    assert(target_below(trees, t as int, u, gs[j].names()));
                    assert(was.contains(k));
                    let w = was.index_of(k);
                    assert(g.children[w] == k);
                }
            }
        }
        assert(g.children.no_duplicates()) by {
            if j == parent {
                assert forall|a: int, b: int|
                    0 <= a < g.children.len() && 0 <= b < g.children.len() && a != b implies g.children[a]
                    != g.children[b] by {
                    if a == was.len() {
                        assert(was.contains(was[b]));
                    } else if b == was.len() {
                        assert(was.contains(was[a]));
                    }
                }
            }
        }
    }
    assert forall|k: i32| #[trigger] roots.contains(k) <==> 0 <= k - count < gs2.len() && gs2[k
        - count].drive by {
        if 0 <= k - count < gs.len() {
            assert(gs2[k - count].drive == gs[k - count].drive);
        }
    }
}

/// The roots are in the order of their paths.
pub open spec fn roots_in_order(gs: Seq<GroupV>, count: int, roots: Seq<i32>) -> bool {
    forall|a: int, b: int|
        0 <= a < b < roots.len() ==> !order::key_below(
            gs[#[trigger] roots[b] - count].place(),
            gs[#[trigger] roots[a] - count].place(),
        )
}

/// How many groups the first `t` targets can need at most.
pub open spec fn depth_sum(trees: Seq<&Snapshot>, t: int) -> nat
    decreases t,
{
    if t <= 0 {
        0
    } else {
        depth_sum(trees, t - 1) + inner_names(*trees[t - 1]).len()
    }
}

/// The target can be joined.
pub open spec fn target_ok(tree: Snapshot) -> bool {
    under_volume(tree) && inner_names(tree).len() > 0 && tree.nodes@.len() > 0
}

/// The names of the groups that join the targets below `t`, and target `t` down to depth
/// `d`, in the order in which they are met.
pub open spec fn shelves(trees: Seq<&Snapshot>, t: int, d: int) -> Seq<Seq<Seq<char>>>
    decreases t, d,
{
    if d > 0 {
        let before = shelves(trees, t, d - 1);
        let p = shelf(*trees[t], d - 1);
        if before.contains(p) {
            before
        } else {
            before.push(p)
        }
    } else if t > 0 {
        shelves(trees, t - 1, inner_names(*trees[t - 1]).len() as int)
    } else {
        Seq::empty()
    }
}

pub open spec fn names_of(gs: Seq<GroupV>) -> Seq<Seq<Seq<char>>> {
    gs.map_values(|g: GroupV| g.names())
}

/// Why the targets from `t` on cannot be joined to those before.
pub open spec fn join_fault(trees: Seq<&Snapshot>, t: int) -> Option<ForestError>
    decreases trees.len() - t,
{
    if t >= trees.len() {
        None
    } else if !under_volume(*trees[t]) {
        Some(ForestError::OutsideVolume(t as usize))
    } else if inner_names(*trees[t]).len() == 0 {
        Some(ForestError::VolumeRoot(t as usize))
    } else if review_tree::offset_of(trees, trees.len() as int) + shelves(
        trees,
        t,
        inner_names(*trees[t]).len() as int,
    ).len() > i32::MAX + 1 {
        Some(ForestError::TooManyGroups)
    } else if trees[t].nodes@.len() == 0 {
        Some(ForestError::InvalidTarget(t as usize))
    } else {
        join_fault(trees, t + 1)
    }
}

proof fn lemma_shelves_grow(trees: Seq<&Snapshot>, t: int, d: int, e: int)
    requires
        0 <= d <= e,
    ensures
        shelves(trees, t, d).len() <= shelves(trees, t, e).len(),
    decreases e - d,
{
    if d < e {
        lemma_shelves_grow(trees, t, d, e - 1);
    }
}

/// What joining the targets gives.
pub open spec fn joined_forest(trees: Seq<&Snapshot>, forest: Forest) -> bool {
    &&& forest.belongs_to(trees)
    &&& forest.targets_distinct()
    &&& joining(
        trees,
        forest.entry_count as int,
        group_views(forest.groups@),
        forest.roots@,
        trees.len() as int,
        0,
    )
    &&& names_of(group_views(forest.groups@)) == shelves(trees, trees.len() as int, 0)
    &&& roots_in_order(
        group_views(forest.groups@),
        forest.entry_count as int,
        forest.roots@,
    )
}

/// The group with the names of a path.
fn find_group(groups: &Vec<Group>, path: &str) -> (r: Option<usize>)
    ensures
        match r {
            Some(i) => i < groups@.len() && group_views(groups@)[i as int].names()
                == platform::path_names(path@),
            None => !has_group(group_views(groups@), platform::path_names(path@)),
        },
{
    let ghost gs = group_views(groups@);
    let mut i: usize = 0;
    while i < groups.len()
        invariant
            i <= groups@.len(),
            gs == group_views(groups@),
            forall|k: int|
                0 <= k < i ==> (#[trigger] gs[k]).names() != platform::path_names(path@),
        decreases groups@.len() - i,
    {
        if platform::same_path(&groups[i].path, path) {
            return Some(i);
        }
        i += 1;
    }
    None
}

/// Joins one target down to its parent, and tells the parent.
fn join_target(
    trees: &[&Snapshot],
    groups: &mut Vec<Group>,
    roots: &mut Vec<i32>,
    count: u32,
    t: usize,
) -> (r: Result<usize, ForestError>)
    requires
        t < trees@.len(),
        counted_in(trees@, count as int, t as int),
        joining(
            trees@,
            count as int,
            group_views(old(groups)@),
            old(roots)@,
            t as int,
            0,
        ),
        names_of(group_views(old(groups)@)) == shelves(trees@, t as int, 0),
        old(groups)@.len() <= depth_sum(trees@, t as int),
        count + old(groups)@.len() <= i32::MAX + 1,
    ensures
        match r {
            Ok(parent) => {
                &&& names_of(group_views(final(groups)@)) == shelves(
                    trees@,
                    t as int,
                    inner_names(*trees@[t as int]).len() as int,
                )
                &&& under_volume(*trees@[t as int])
                &&& inner_names(*trees@[t as int]).len() > 0
                &&& joining(
                    trees@,
                    count as int,
                    group_views(final(groups)@),
                    final(roots)@,
                    t as int,
                    inner_names(*trees@[t as int]).len() as int,
                )
                &&& parent < final(groups)@.len()
                &&& group_views(final(groups)@)[parent as int].names() == shelf(
                    *trees@[t as int],
                    inner_names(*trees@[t as int]).len() - 1,
                )
                &&& final(groups)@.len() <= depth_sum(trees@, t + 1)
                &&& count + final(groups)@.len() <= i32::MAX + 1
            },
            Err(ForestError::OutsideVolume(u)) => u == t && !under_volume(*trees@[t as int]),
            Err(ForestError::VolumeRoot(u)) => u == t && under_volume(*trees@[t as int])
                && inner_names(*trees@[t as int]).len() == 0,
            Err(ForestError::TooManyGroups) => under_volume(*trees@[t as int]) && inner_names(
                *trees@[t as int],
            ).len() > 0 && count + depth_sum(trees@, t + 1) > i32::MAX && count + shelves(
                trees@,
                t as int,
                inner_names(*trees@[t as int]).len() as int,
            ).len() > i32::MAX + 1,
            Err(_) => false,
        },
{
    let tree: &Snapshot = trees[t];
    let root: String = platform::display_path(&tree.root.to_text());
    let drive: String = platform::display_path(&tree.volume.root);
    if !(platform::is_absolute(&drive) && platform::is_absolute(&root) && platform::within(
        &root,
        &drive,
    )) {
        return Err(ForestError::OutsideVolume(t));
    }
    let names: Vec<String> = platform::pieces(&root);
    let skip: usize = platform::names_of(&drive).len();
    let ghost all = text::views(names@);
    assert(all.len() == names@.len());
    assert(skip == volume_names(*tree).len());
    if names.len() <= skip {
        assert(inner_names(*tree).len() == 0);
        return Err(ForestError::VolumeRoot(t));
    }
    let all_names: usize = names.len();
    let depth: usize = all_names - skip;
    let mut at: String = drive;
    let mut parent: usize = 0;
    let mut d: usize = 0;
    while d < depth
        invariant
            d <= depth,
            depth == inner_names(*tree).len(),
            depth > 0,
            skip == volume_names(*tree).len(),
            names@.len() == all_names,
            all_names == skip + depth,
            all == text::views(names@),
            all == platform::pieces_of(platform::shown(tree.root.words())),
            t < trees@.len(),
            *tree == *trees@[t as int],
            under_volume(*tree),
            counted_in(trees@, count as int, t as int),
            joining(
                trees@,
                count as int,
                group_views(groups@),
                roots@,
                t as int,
                d as int,
            ),
            names_of(group_views(groups@)) == shelves(trees@, t as int, d as int),
            groups@.len() <= depth_sum(trees@, t as int) + d,
            count + groups@.len() <= i32::MAX + 1,
            at@ == if d == 0 {
                shelf_text(*tree, 0)
            } else {
                shelf_text(*tree, d - 1)
            },
            d > 0 ==> parent < groups@.len() && group_views(groups@)[parent as int].names()
                == shelf(*tree, d - 1),
        decreases depth - d,
    {
        if d > 0 {
            assert(inner_names(*tree)[d - 1] == names@[skip + d - 1]@);
            at = platform::join(&at, &names[skip + (d - 1)]);
        }
        assert(at@ == shelf_text(*tree, d as int));
        proof {
            lemma_shelf_text(*tree, d as int);
        }
        let ghost gs = group_views(groups@);
        proof {
            assert(names_of(gs).len() == gs.len());
            assert forall|k: int| 0 <= k < gs.len() implies #[trigger] names_of(gs)[k]
                == gs[k].names() by {}
        }
        match find_group(groups, &at) {
            Some(i) => {
                assert(names_of(gs)[i as int] == shelf(*tree, d as int));
                groups[i].targets.push(t);
                proof {
                    lemma_touch(trees@, count as int, gs, roots@, t, d as int, i as int);
                    assert(group_views(groups@) =~= gs.update(
                        i as int,
                        GroupV { targets: gs[i as int].targets.push(t), ..gs[i as int] },
                    ));
                    assert(names_of(group_views(groups@)) =~= names_of(gs));
                }
                parent = i;
            },
            None => {
                let index: usize = groups.len();
                proof {
                    let p = shelf(*tree, d as int);
                    if names_of(gs).contains(p) {
                        let k = names_of(gs).index_of(p);
                        assert(gs[k].names() == p);
                        assert(has_group(gs, p));
                    }
                    assert(shelves(trees@, t as int, d + 1) == names_of(gs).push(p));
                }
                if count as u64 + index as u64 > 0x7fff_ffff {
                    proof {
                        lemma_depth_sum(trees@, t as int);
                        lemma_shelves_grow(trees@, t as int, d + 1, depth as int);
                    }
                    return Err(ForestError::TooManyGroups);
                }
                let key: i32 = (count as u64 + index as u64) as i32;
                let name: String = if d == 0 {
                    platform::display_path(&at)
                } else {
                    names[skip + (d - 1)].clone()
                };
                let targets: Vec<usize> = vec![t];
                let fresh = Group {
                    path: at.clone(),
                    name,
                    drive: d == 0,
                    children: Vec::new(),
                    targets,
                };
                let ghost fv = group_view(fresh);
                proof {
                    assert(fresh.targets@ =~= seq![t]);
                    assert(fresh.children@ =~= Seq::<i32>::empty());
                    if d > 0 {
                        assert(inner_names(*tree)[d - 1] == names@[skip + d - 1]@);
                    }
                    lemma_create(
                        trees@,
                        count as int,
                        gs,
                        roots@,
                        t,
                        d as int,
                        parent as int,
                        fv,
                        key,
                    );
                }
                if d == 0 {
                    roots.push(key);
                    groups.push(fresh);
                    assert(group_views(groups@) =~= gs.push(fv));
                } else {
                    groups[parent].children.push(key);
                    let ghost held = gs.update(
                        parent as int,
                        GroupV {
                            children: gs[parent as int].children.push(key),
                            ..gs[parent as int]
                        },
                    );
                    assert(group_views(groups@) =~= held);
                    groups.push(fresh);
                    assert(group_views(groups@) =~= held.push(fv));
                }
                assert(names_of(group_views(groups@)) =~= names_of(gs).push(
                    shelf(*tree, d as int),
                ));
                parent = index;
            },
        }
        d += 1;
    }
    Ok(parent)
}

proof fn lemma_depth_sum(trees: Seq<&Snapshot>, t: int)
    requires
        0 <= t < trees.len(),
    ensures
        depth_sum(trees, t + 1) == depth_sum(trees, t) + inner_names(*trees[t]).len(),
{
}

proof fn lemma_depth_grows(trees: Seq<&Snapshot>, a: int, b: int)
    requires
        0 <= a <= b <= trees.len(),
    ensures
        depth_sum(trees, a) <= depth_sum(trees, b),
    decreases b - a,
{
    if a < b {
        lemma_depth_grows(trees, a, b - 1);
    }
}

impl Forest {
    pub fn new(trees: &[&Snapshot]) -> (r: Result<Self, ForestError>)
        ensures
            r matches Ok(forest) ==> joined_forest(trees@, forest),
            r is Ok ==> forall|t: int| 0 <= t < trees@.len() ==> target_ok(*#[trigger] trees@[t]),
            r matches Err(ForestError::TooManyNodes) ==> review_tree::offset_of(
                trees@,
                trees@.len() as int,
            ) > u32::MAX,
            r matches Err(ForestError::TooLarge) ==> i32::MAX < review_tree::offset_of(
                trees@,
                trees@.len() as int,
            ) <= u32::MAX,
            review_tree::offset_of(trees@, trees@.len() as int) > u32::MAX ==> r matches Err(
                ForestError::TooManyNodes,
            ),
            i32::MAX < review_tree::offset_of(trees@, trees@.len() as int) <= u32::MAX
                ==> r matches Err(ForestError::TooLarge),
            review_tree::offset_of(trees@, trees@.len() as int) <= i32::MAX ==> match join_fault(
                trees@,
                0,
            ) {
                Some(e) => r == Err::<Forest, ForestError>(e),
                None => r is Ok,
            },
            review_tree::offset_of(trees@, trees@.len() as int) + depth_sum(
                trees@,
                trees@.len() as int,
            ) <= i32::MAX && (forall|t: int|
                0 <= t < trees@.len() ==> target_ok(*#[trigger] trees@[t])) ==> r is Ok,
    {
        let n: usize = trees.len();
        let mut offsets: Vec<u32> = Vec::new();
        let mut total: u32 = 0;
        let mut i: usize = 0;
        while i < n
            invariant
                i <= n,
                n == trees@.len(),
                offsets@.len() == i,
                total == review_tree::offset_of(trees@, i as int),
                forall|k: int|
                    0 <= k < i ==> #[trigger] offsets@[k] == review_tree::offset_of(trees@, k),
            decreases n - i,
        {
            offsets.push(total);
            let more: u64 = trees[i].nodes.len() as u64;
            proof {
                lemma_offsets(trees@, i + 1, n as int);
            }
            if more > 0xffff_ffff || total as u64 + more > 0xffff_ffff {
                return Err(ForestError::TooManyNodes);
            }
            total = total + more as u32;
            i += 1;
        }
        offsets.push(total);
        if total > 0x7fff_ffff {
            return Err(ForestError::TooLarge);
        }
        let mut groups: Vec<Group> = Vec::new();
        let mut roots: Vec<i32> = Vec::new();
        let mut t: usize = 0;
        assert(group_views(groups@) =~= Seq::<GroupV>::empty());
        assert(names_of(group_views(groups@)) =~= Seq::<Seq<Seq<char>>>::empty());
        while t < n
            invariant
                t <= n,
                n == trees@.len(),
                total <= i32::MAX,
                total == review_tree::offset_of(trees@, n as int),
                offsets@.len() == n + 1,
                forall|k: int|
                    0 <= k <= n ==> #[trigger] offsets@[k] == review_tree::offset_of(trees@, k),
                counted_in(trees@, total as int, t as int),
                joining(
                    trees@,
                    total as int,
                    group_views(groups@),
                    roots@,
                    t as int,
                    0,
                ),
                names_of(group_views(groups@)) == shelves(trees@, t as int, 0),
                join_fault(trees@, 0) == join_fault(trees@, t as int),
                groups@.len() <= depth_sum(trees@, t as int),
                total + groups@.len() <= i32::MAX + 1,
                forall|u: int| 0 <= u < t ==> target_ok(*#[trigger] trees@[u]),
            decreases n - t,
        {
            proof {
                lemma_depth_grows(trees@, t + 1, n as int);
            }
            let parent: usize = match join_target(trees, &mut groups, &mut roots, total, t) {
                Ok(p) => p,
                Err(e) => {
                    return Err(e);
                },
            };
            if trees[t].nodes.len() == 0 {
                return Err(ForestError::InvalidTarget(t));
            }
            proof {
                lemma_offsets(trees@, t as int, n as int);
            }
            let key: i32 = offsets[t] as i32;
            let ghost gs = group_views(groups@);
            proof {
                lemma_hang(trees@, total as int, gs, roots@, t, parent as int, key);
            }
            groups[parent].children.push(key);
            assert(group_views(groups@) =~= gs.update(
                parent as int,
                GroupV { children: gs[parent as int].children.push(key), ..gs[parent as int] },
            ));
            assert(names_of(group_views(groups@)) =~= names_of(gs));
            assert(names_of(gs).len() == groups@.len());
            t += 1;
        }
        let sorted: Vec<i32> = sort_roots(&groups, &roots, total);
        let forest = Forest { offsets, entry_count: total, groups, roots: sorted };
        proof {
            let gs = group_views(forest.groups@);
            lemma_forest_keys(trees@, forest, n as int);
            assert forall|g: int, k: int|
                0 <= g < forest.groups@.len() && 0 <= k < forest.groups@[g].targets@.len() implies (
            #[trigger] forest.groups@[g].targets@[k]) < trees@.len() by {
                assert(targets_right(trees@, n as int, 0, gs[g]));
                assert(gs[g].targets.contains(gs[g].targets[k]));
            }
            assert forall|g: int| 0 <= g < forest.groups@.len() implies (
            #[trigger] forest.groups@[g]).targets@.no_duplicates() by {
                assert(targets_right(trees@, n as int, 0, gs[g]));
            }
        }
        Ok(forest)
    }
}

proof fn lemma_forest_keys(trees: Seq<&Snapshot>, forest: Forest, n: int)
    requires
        n == trees.len(),
        forest.offsets@.len() == n + 1,
        forest.entry_count <= i32::MAX,
        forest.entry_count == review_tree::offset_of(trees, n),
        forest.entry_count + forest.groups@.len() <= i32::MAX + 1,
        forall|k: int|
            0 <= k <= n ==> #[trigger] forest.offsets@[k] == review_tree::offset_of(trees, k),
    ensures
        forest.keys_ok(),
{
    assert(forest.offsets@[0] == review_tree::offset_of(trees, 0));
    assert forall|i: int, j: int| 0 <= i <= j < forest.offsets@.len() implies #[trigger] forest.offsets@[i]
        <= #[trigger] forest.offsets@[j] by {
        lemma_offsets(trees, i, j);
    }
    assert(forest.offsets@[n] == review_tree::offset_of(trees, n));
}

/// The roots, put in the order of their paths.
fn sort_roots(groups: &Vec<Group>, roots: &Vec<i32>, count: u32) -> (r: Vec<i32>)
    requires
        roots@.no_duplicates(),
        forall|k: i32| #[trigger]
            roots@.contains(k) ==> 0 <= k - count < groups@.len(),
    ensures
        r@.no_duplicates(),
        forall|k: i32| #[trigger] r@.contains(k) <==> roots@.contains(k),
        roots_in_order(group_views(groups@), count as int, r@),
{
    let n: usize = roots.len();
    let ghost gs = group_views(groups@);
    let mut lists: Vec<Vec<u32>> = Vec::new();
    let mut i: usize = 0;
    while i < n
        invariant
            i <= n,
            n == roots@.len(),
            gs == group_views(groups@),
            forall|k: i32| #[trigger] roots@.contains(k) ==> 0 <= k - count < groups@.len(),
            lists@.len() == i,
            forall|k: int|
                0 <= k < i ==> (#[trigger] lists@[k])@ == gs[roots@[k] - count].place(),
        decreases n - i,
    {
        assert(roots@.contains(roots@[i as int]));
        let g: usize = (roots[i] as u32 - count) as usize;
        lists.push(path_order::place(&text::utf16(&groups[g].path)));
        i += 1;
    }
    let ghost le = |a: usize, b: usize|
        !order::key_below(lists@[b as int]@, lists@[a as int]@);
    let first = |a: usize, b: usize| -> (r: bool)
        requires
            a < n,
            b < n,
        ensures
            r == !order::key_below(lists@[b as int]@, lists@[a as int]@),
        {
            !order::keys_below(&lists[b], &lists[a])
        };
    let all: Vec<usize> = order::indices(n);
    proof {
        assert forall|a: usize| #[trigger] all@.contains(a) implies a < n by {
            let w = all@.index_of(a);
            assert(all@[w] == a);
        }
        assert forall|a: usize, b: usize| all@.contains(a) && all@.contains(b) implies #[trigger] le(
            a,
            b,
        ) || le(b, a) by {
            order::lemma_keys_total(lists@[a as int]@, lists@[b as int]@);
        }
        assert forall|a: usize, b: usize, c: usize|
            all@.contains(a) && all@.contains(b) && all@.contains(c) && #[trigger] le(a, b)
                && #[trigger] le(b, c) implies le(a, c) by {
            let va = lists@[a as int]@;
            let vb = lists@[b as int]@;
            let vc = lists@[c as int]@;
            order::lemma_keys_total(va, vb);
            order::lemma_keys_total(vb, vc);
            order::lemma_keys_total(va, vc);
            if order::key_below(va, vb) && order::key_below(vb, vc) {
                order::lemma_keys_trans(va, vb, vc);
            }
        }
        assert(order::orders(all@, le));
    }
    let sorted: Vec<usize> = order::sort(&all, 0, n, first, Ghost(le));
    let mut out: Vec<i32> = Vec::new();
    let mut j: usize = 0;
    let ghost pick = |k: usize| roots@[k as int];
    proof {
        assert(all@.subrange(0, n as int) =~= all@);
        assert forall|k: int| 0 <= k < sorted@.len() implies (#[trigger] sorted@[k]) < n by {
            order::lemma_same_members(sorted@, all@, k);
        }
    }
    while j < n
        invariant
            j <= n,
            n == roots@.len(),
            sorted@.len() == n,
            forall|k: int| 0 <= k < sorted@.len() ==> (#[trigger] sorted@[k]) < n,
            pick == (|k: usize| roots@[k as int]),
            out@ == sorted@.subrange(0, j as int).map_values(pick),
        decreases n - j,
    {
        out.push(roots[sorted[j]]);
        j += 1;
        assert(out@ =~= sorted@.subrange(0, j as int).map_values(pick));
    }
    proof {
        broadcast use vstd::seq_lib::group_to_multiset_ensures;

        assert(sorted@.subrange(0, n as int) =~= sorted@);
        order::lemma_map_rearranged(sorted@, all@, pick);
        assert(all@.map_values(pick) =~= roots@);
        roots@.lemma_multiset_has_no_duplicates();
        out@.lemma_multiset_has_no_duplicates_conv();
        assert forall|k: i32| #[trigger] out@.contains(k) <==> roots@.contains(k) by {
            assert(out@.contains(k) <==> out@.to_multiset().count(k) > 0);
            assert(roots@.contains(k) <==> roots@.to_multiset().count(k) > 0);
        }
        assert forall|a: int, b: int| 0 <= a < b < out@.len() implies !order::key_below(
            gs[#[trigger] out@[b] - count].place(),
            gs[#[trigger] out@[a] - count].place(),
        ) by {
            assert(le(sorted@[a], sorted@[b]));
            assert(out@[a] == roots@[sorted@[a] as int]);
            assert(out@[b] == roots@[sorted@[b] as int]);
        }
    }
    out
}

/// Everything that hangs below a group of a joined forest can be located.
pub proof fn law_children_have_places(trees: Seq<&Snapshot>, forest: Forest, g: int, key: i32)
    requires
        joined_forest(trees, forest),
        forall|t: int| 0 <= t < trees.len() ==> target_ok(*#[trigger] trees[t]),
        0 <= g < forest.groups@.len(),
        forest.groups@[g].children@.contains(key),
    ensures
        forest.place(key as int) is Some,
{
    let gs = group_views(forest.groups@);
    let count = forest.entry_count as int;
    let n = trees.len() as int;
    assert(children_right(trees, gs, count, n, g));
    assert(gs[g].children.contains(key));
    if !group_below(gs, key - count, gs[g].names()) {
        let u = choose|u: int|
            #[trigger] target_below(trees, n, u, gs[g].names()) && key == review_tree::offset_of(
                trees,
                u,
            );
        assert(target_ok(*trees[u]));
        lemma_offsets(trees, u, n);
    }
}

/// Every target hangs below exactly one group, that of the directory that holds it.
pub proof fn law_targets_hang_once(trees: Seq<&Snapshot>, forest: Forest, u: int)
    requires
        joined_forest(trees, forest),
        forall|t: int| 0 <= t < trees.len() ==> target_ok(*#[trigger] trees[t]),
        0 <= u < trees.len(),
    ensures
        exists|g: int|
            0 <= g < forest.groups@.len() && (#[trigger] forest.groups@[g]).children@.contains(
                review_tree::offset_of(trees, u) as i32,
            ),
        forall|g: int, h: int|
            0 <= g < forest.groups@.len() && 0 <= h < forest.groups@.len() && (
            #[trigger] forest.groups@[g]).children@.contains(
                review_tree::offset_of(trees, u) as i32,
            ) && (#[trigger] forest.groups@[h]).children@.contains(
                review_tree::offset_of(trees, u) as i32,
            ) ==> g == h,
{
    let gs = group_views(forest.groups@);
    let count = forest.entry_count as int;
    let n = trees.len() as int;
    let place = shelf(*trees[u], inner_names(*trees[u]).len() - 1);
    assert(target_ok(*trees[u]));
    lemma_offsets(trees, u, n);
    assert(forest.offsets@[n] == review_tree::offset_of(trees, n));
    let key = review_tree::offset_of(trees, u) as i32;
    assert(key == review_tree::offset_of(trees, u) && key < count);
    assert(has_group(gs, place));
    let g0 = choose|i: int| 0 <= i < gs.len() && (#[trigger] gs[i]).names() == place;
    assert(children_right(trees, gs, count, n, g0));
    assert(target_below(trees, n, u, gs[g0].names()));
    assert(gs[g0].children.contains(key));
    assert(forest.groups@[g0].children@ == gs[g0].children);
    assert forall|g: int|
        0 <= g < forest.groups@.len() && (#[trigger] forest.groups@[g]).children@.contains(
            key,
        ) implies gs[g].names() == place by {
        assert(gs[g] == group_view(forest.groups@[g]));
        assert(children_right(trees, gs, count, n, g));
        assert(gs[g].children.contains(key));
        let w = choose|w: int|
            #[trigger] target_below(trees, n, w, gs[g].names()) && key == review_tree::offset_of(
                trees,
                w,
            );
        assert(target_ok(*trees[w]));
        if w < u {
            lemma_offsets(trees, w, u);
        } else if u < w {
            lemma_offsets(trees, u, w);
        }
    }
}

/// Targets with a common ancestor share the group of that ancestor: no two groups stand for
/// the same directory, and every proper ancestor has one.
pub proof fn law_shared_ancestors_are_joined(
    trees: Seq<&Snapshot>,
    forest: Forest,
    u: int,
    v: int,
    d: int,
    e: int,
)
    requires
        joined_forest(trees, forest),
        0 <= u < trees.len(),
        0 <= v < trees.len(),
        0 <= d < inner_names(*trees[u]).len(),
        0 <= e < inner_names(*trees[v]).len(),
        shelf(*trees[u], d) == shelf(*trees[v], e),
    ensures
        exists|g: int|
            0 <= g < forest.groups@.len() && (#[trigger] group_views(forest.groups@)[g]).names()
                == shelf(*trees[u], d) && group_views(forest.groups@)[g].targets.contains(
                u as usize,
            ) && group_views(forest.groups@)[g].targets.contains(v as usize) && forall|h: int|
                0 <= h < forest.groups@.len() && (#[trigger] group_views(
                    forest.groups@,
                )[h]).names() == shelf(*trees[u], d) ==> h == g,
{
    let gs = group_views(forest.groups@);
    let n = trees.len() as int;
    let p = shelf(*trees[u], d);
    assert(has_group(gs, p));
    let g = choose|i: int| 0 <= i < gs.len() && (#[trigger] gs[i]).names() == p;
    assert(targets_right(trees, n, 0, gs[g]));
    assert(p.len() == volume_names(*trees[u]).len() + d);
    assert(p.len() == volume_names(*trees[v]).len() + e);
    assert(on_path(*trees[u], p));
    assert(on_path(*trees[v], p));
    assert(forest.offsets@.len() == forest.offsets.len());
    assert(u == u as usize && v == v as usize);
    assert(reached(trees, n, 0, u, p));
    assert(reached(trees, n, 0, v, p));
    assert(gs[g].targets.contains(u as usize));
    assert(gs[g].targets.contains(v as usize));
    assert forall|h: int| 0 <= h < gs.len() && (#[trigger] gs[h]).names() == p implies h == g by {
        if h < g {
            assert(gs[h].names() != gs[g].names());
        } else if g < h {
            assert(gs[g].names() != gs[h].names());
        }
    }
}

/// Targets can be shown together only if each lies on its volume, is no whole volume, and
/// holds an entry.
pub proof fn law_only_proper_targets_are_joined(trees: Seq<&Snapshot>, t: int, u: int)
    requires
        0 <= t <= u < trees.len(),
        join_fault(trees, t) is None,
    ensures
        under_volume(*trees[u]),
        inner_names(*trees[u]).len() > 0,
        trees[u].nodes@.len() > 0,
    decreases trees.len() - t,
{
    if t < u {
        law_only_proper_targets_are_joined(trees, t + 1, u);
    }
}

/// The folders that are shown above the targets are those on the way from a volume to a
/// target, and every one of these is shown.
pub proof fn law_every_folder_on_the_way_is_shown(
    trees: Seq<&Snapshot>,
    forest: Forest,
    u: int,
    e: int,
)
    requires
        joined_forest(trees, forest),
        0 <= u < trees.len(),
        0 <= e < inner_names(*trees[u]).len(),
    ensures
        exists|i: int|
            0 <= i < forest.groups@.len() && platform::path_names(
                (#[trigger] forest.groups@[i]).path@,
            ) == volume_names(*trees[u]) + inner_names(*trees[u]).subrange(0, e),
{
    let gs = group_views(forest.groups@);
    let p = shelf(*trees[u], e);
    assert(has_group(gs, p));
    let i = choose|i: int| 0 <= i < gs.len() && (#[trigger] gs[i]).names() == p;
    assert(gs[i] == group_view(forest.groups@[i]));
    assert(platform::path_names(forest.groups@[i].path@) == p);
}

} // verus!
