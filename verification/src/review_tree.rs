//! A view-only forest joining all staged targets under their drive and real path
//! ancestors. Group nodes can select targets, but are never deletion objects. Only
//! ancestor nodes are added; the nodes of the snapshots stay where they are and are
//! addressed by stable integer keys.
use crate::model;
use crate::model::{Node, Snapshot};
use crate::order;
use crate::selection;
use crate::selection::{Tally, TreeSelection};
use crate::text;
use crate::tree;
use crate::tree::Count;
use crate::wide::Wide;
use crate::wide;
use vstd::prelude::*;
use vstd::string::*;

verus! {

/// So many children are shown at a time.
pub const PAGE_SIZE: usize = 200;

/// What a key stands for.
#[derive(Clone, Copy, Debug, PartialEq, Eq, Structural)]
pub enum Location {
    Entry { target: usize, node: u32 },
    Group(usize),
}

/// A drive or a directory on the way to targets.
#[derive(Debug)]
pub struct Group {
    pub path: String,
    pub name: String,
    pub drive: bool,
    pub children: Vec<i32>,
    /// Each target appears once, whether or not the group is expanded.
    pub targets: Vec<usize>,
}

#[derive(Debug)]
pub struct Forest {
    /// Where the keys of each target begin, and where those of the last end.
    pub offsets: Vec<u32>,
    pub entry_count: u32,
    pub groups: Vec<Group>,
    pub roots: Vec<i32>,
}

/// Why targets cannot be joined.
#[derive(Clone, Copy, Debug, PartialEq, Eq, Structural)]
pub enum ForestError {
    /// There are more nodes than can be counted.
    TooManyNodes,
    /// There are more nodes than keys.
    TooLarge,
    /// This target does not lie under its recorded volume.
    OutsideVolume(usize),
    /// This target is a whole volume.
    VolumeRoot(usize),
    /// There are no keys left for groups.
    TooManyGroups,
    /// This target has no nodes.
    InvalidTarget(usize),
}

impl ForestError {
    pub open spec fn words(self, root: Seq<char>) -> Seq<char> {
        match self {
            ForestError::TooManyNodes => "too many review nodes"@,
            ForestError::TooLarge => "review tree exceeds UI index limits"@,
            ForestError::OutsideVolume(_) => "target is not under its recorded local volume: "@
                + root,
            ForestError::VolumeRoot(_) => "a volume root is not a deletion target"@,
            ForestError::TooManyGroups => "too many ancestor groups"@,
            ForestError::InvalidTarget(_) => "invalid target root key"@,
        }
    }

    /// What is told of it, where the target concerned is shown as `root`.
    pub fn message(self, root: &str) -> (r: String)
        ensures
            r@ == self.words(root@),
    {
        match self {
            ForestError::TooManyNodes => "too many review nodes".to_owned(),
            ForestError::TooLarge => "review tree exceeds UI index limits".to_owned(),
            ForestError::OutsideVolume(_) => text::glue(
                "target is not under its recorded local volume: ",
                root,
            ),
            ForestError::VolumeRoot(_) => "a volume root is not a deletion target".to_owned(),
            ForestError::TooManyGroups => "too many ancestor groups".to_owned(),
            ForestError::InvalidTarget(_) => "invalid target root key".to_owned(),
        }
    }
}

/// The number of nodes in the first `t` trees.
pub open spec fn offset_of(trees: Seq<&Snapshot>, t: int) -> nat
    decreases t,
{
    if t <= 0 {
        0
    } else {
        offset_of(trees, t - 1) + trees[t - 1].nodes@.len()
    }
}

/// The key of a node, if there is such a node.
pub open spec fn entry_key_of(offsets: Seq<u32>, target: int, node: int) -> Option<i32> {
    if 0 <= target && target + 1 < offsets.len() && offsets[target] + node < offsets[target + 1] {
        Some((offsets[target] + node) as i32)
    } else {
        None
    }
}

/// The key lies between the bounds of target `t`.
pub open spec fn between(offsets: Seq<u32>, t: int, key: int) -> bool {
    0 <= t && t + 1 < offsets.len() && offsets[t] <= key < offsets[t + 1]
}

impl Forest {
    /// The keys of the targets follow one another, and those of the groups come last.
    pub open spec fn keys_ok(&self) -> bool {
        &&& self.offsets@.len() >= 1
        &&& self.offsets@[0] == 0
        &&& forall|i: int, j: int|
            0 <= i <= j < self.offsets@.len() ==> #[trigger] self.offsets@[i]
                <= #[trigger] self.offsets@[j]
        &&& self.offsets@.last() == self.entry_count
        &&& self.entry_count + self.groups@.len() <= i32::MAX + 1
        &&& self.entry_count <= i32::MAX
    }

    /// The keys are those of these trees.
    pub open spec fn belongs_to(&self, trees: Seq<&Snapshot>) -> bool {
        &&& self.keys_ok()
        &&& self.offsets@.len() == trees.len() + 1
        &&& forall|t: int|
            0 <= t <= trees.len() ==> #[trigger] self.offsets@[t] == offset_of(trees, t)
        &&& forall|g: int, k: int|
            0 <= g < self.groups@.len() && 0 <= k < self.groups@[g].targets@.len() ==> (
            #[trigger] self.groups@[g].targets@[k]) < trees.len()
    }

    pub open spec fn place(&self, key: int) -> Option<Location> {
        if key < 0 {
            None
        } else if key >= self.entry_count {
            if key - self.entry_count < self.groups@.len() {
                Some(Location::Group((key - self.entry_count) as usize))
            } else {
                None
            }
        } else {
            let t = choose|t: int| between(self.offsets@, t, key);
            Some(Location::Entry { target: t as usize, node: (key - self.offsets@[t]) as u32 })
        }
    }

    pub fn entry_key(&self, target: usize, node: u32) -> (r: Option<i32>)
        requires
            self.keys_ok(),
        ensures
            r == entry_key_of(self.offsets@, target as int, node as int),
    {
        if target >= self.offsets.len() - 1 {
            return None;
        }
        let start: u32 = self.offsets[target];
        let end: u32 = self.offsets[target + 1];
        let key: u64 = start as u64 + node as u64;
        assert(self.offsets@[target + 1] <= self.offsets@[self.offsets@.len() - 1]);
        if key < end as u64 {
            Some(key as i32)
        } else {
            None
        }
    }

    pub fn group_key(&self, index: usize) -> (r: Option<i32>)
        ensures
            r == if self.entry_count + index <= i32::MAX {
                Some((self.entry_count + index) as i32)
            } else {
                None
            },
    {
        if index > 0x7fff_ffff {
            return None;
        }
        let key: u64 = self.entry_count as u64 + index as u64;
        if key <= 0x7fff_ffff {
            Some(key as i32)
        } else {
            None
        }
    }

    pub fn locate(&self, key: i32) -> (r: Option<Location>)
        requires
            self.keys_ok(),
        ensures
            r == self.place(key as int),
            r matches Some(Location::Entry { target, node }) ==> target + 1 < self.offsets@.len()
                && self.offsets@[target as int] + node == key && key < self.offsets@[target + 1],
    {
        if key < 0 {
            return None;
        }
        let k: u32 = key as u32;
        if k >= self.entry_count {
            let index: usize = (k - self.entry_count) as usize;
            return if index < self.groups.len() {
                Some(Location::Group(index))
            } else {
                None
            };
        }
        let mut low: usize = 0;
        let mut high: usize = self.offsets.len() - 1;
        while high - low > 1
            invariant
                self.keys_ok(),
                low < high < self.offsets@.len(),
                self.offsets@[low as int] <= k < self.offsets@[high as int],
            decreases high - low,
        {
            let mid: usize = low + (high - low) / 2;
            if self.offsets[mid] <= k {
                low = mid;
            } else {
                high = mid;
            }
        }
        proof {
            self.lemma_place(key as int, low as int);
        }
        Some(Location::Entry { target: low, node: k - self.offsets[low] })
    }

    /// A key lies between the bounds of one target only.
    pub proof fn lemma_place(&self, key: int, t: int)
        requires
            self.keys_ok(),
            0 <= t,
            t + 1 < self.offsets@.len(),
            self.offsets@[t] <= key < self.offsets@[t + 1],
            0 <= key < self.entry_count,
        ensures
            self.place(key) == Some(
                Location::Entry { target: t as usize, node: (key - self.offsets@[t]) as u32 },
            ),
    {
        assert(between(self.offsets@, t, key));
        let u = choose|u: int| between(self.offsets@, u, key);
        if u < t {
            assert(self.offsets@[u + 1] <= self.offsets@[t]);
        } else if t < u {
            assert(self.offsets@[t + 1] <= self.offsets@[u]);
        }
    }
}

/// The key of a node leads back to that node.
pub proof fn law_entry_keys_lead_back(forest: Forest, target: usize, node: u32)
    requires
        forest.keys_ok(),
        entry_key_of(forest.offsets@, target as int, node as int) is Some,
    ensures
        forest.place(entry_key_of(forest.offsets@, target as int, node as int)->0 as int) == Some(
            Location::Entry { target, node },
        ),
{
    let key = entry_key_of(forest.offsets@, target as int, node as int)->0 as int;
    let last = forest.offsets@.len() - 1;
    assert(forest.offsets@[target + 1] <= forest.offsets@[last]);
    assert(0 <= forest.offsets@[target as int] <= key);
    forest.lemma_place(key, target as int);
}

/// The key of a group leads back to that group, and no node has it.
pub proof fn law_groups_are_no_entries(forest: Forest, group: usize, target: usize, node: u32)
    requires
        forest.keys_ok(),
        group < forest.groups@.len(),
    ensures
        forest.place(forest.entry_count + group) == Some(Location::Group(group)),
        entry_key_of(forest.offsets@, target as int, node as int) != Some(
            (forest.entry_count + group) as i32,
        ),
{
    if entry_key_of(forest.offsets@, target as int, node as int) is Some {
        let last = forest.offsets@.len() - 1;
        assert(forest.offsets@[target + 1] <= forest.offsets@[last]);
    }
}

/// The figures of the listed targets.
pub open spec fn group_count(c: spec_fn(usize) -> Count, targets: Seq<usize>) -> Count
    decreases targets.len(),
{
    if targets.len() == 0 {
        tree::count_zero()
    } else {
        tree::count_add(group_count(c, targets.drop_last()), c(targets.last()))
    }
}

/// Everything in a target.
pub open spec fn whole(trees: Seq<&Snapshot>) -> spec_fn(usize) -> Count {
    |t: usize| tree::count_of(trees[t as int].nodes@[0])
}

/// Everything selected in a target.
pub open spec fn chosen(choices: Seq<TreeSelection>) -> spec_fn(usize) -> Count {
    |t: usize| choices[t as int].sums()[0]
}

pub open spec fn count_fits(c: Count) -> bool {
    &&& c.allocated <= u64::MAX
    &&& c.logical <= u64::MAX
    &&& c.files <= u32::MAX
    &&& c.dirs <= u32::MAX
}

/// Every selection belongs to its tree.
pub open spec fn choices_ok(trees: Seq<&Snapshot>, choices: Seq<TreeSelection>) -> bool {
    &&& choices.len() == trees.len()
    &&& forall|t: int|
        0 <= t < trees.len() ==> selection::selectable(#[trigger] trees[t].nodes@)
            && choices[t].fits(trees[t].nodes@)
}

/// What is selected under a key, and what there is.
pub open spec fn tallied(
    forest: Forest,
    trees: Seq<&Snapshot>,
    choices: Seq<TreeSelection>,
    key: int,
) -> (Count, Count) {
    match forest.place(key) {
        Some(Location::Entry { target, node }) => (
            choices[target as int].sums()[node as int],
            tree::count_of(trees[target as int].nodes@[node as int]),
        ),
        Some(Location::Group(g)) => (
            group_count(chosen(choices), forest.groups@[g as int].targets@),
            group_count(whole(trees), forest.groups@[g as int].targets@),
        ),
        None => (tree::count_zero(), tree::count_zero()),
    }
}

proof fn lemma_prefix_fits(c: spec_fn(usize) -> Count, targets: Seq<usize>, n: int)
    requires
        0 <= n <= targets.len(),
    ensures
        group_count(c, targets.subrange(0, n)).within(group_count(c, targets)),
    decreases targets.len() - n,
{
    if n == targets.len() {
        assert(targets.subrange(0, n) =~= targets);
    } else {
        lemma_prefix_fits(c, targets, n + 1);
        assert(targets.subrange(0, n + 1).drop_last() =~= targets.subrange(0, n));
    }
}

/// What is selected is within what there is.
proof fn lemma_chosen_within(
    trees: Seq<&Snapshot>,
    choices: Seq<TreeSelection>,
    targets: Seq<usize>,
)
    requires
        choices_ok(trees, choices),
        forall|k: int| 0 <= k < targets.len() ==> (#[trigger] targets[k]) < trees.len(),
    ensures
        group_count(chosen(choices), targets).within(group_count(whole(trees), targets)),
    decreases targets.len(),
{
    if targets.len() > 0 {
        lemma_chosen_within(trees, choices, targets.drop_last());
        let t = targets.last() as int;
        assert(targets[targets.len() - 1] == t);
        assert(selection::selectable(trees[t].nodes@));
        selection::lemma_within(
            trees[t].nodes@,
            choices[t].marks(),
            choices[t].sums(),
            0,
        );
    }
}

impl Forest {
    pub fn path(&self, trees: &[&Snapshot], key: i32) -> (r: Option<Wide>)
        requires
            self.belongs_to(trees@),
            forall|t: int|
                0 <= t < trees@.len() ==> model::names_inside(
                    #[trigger] trees@[t].nodes@,
                    trees@[t].names@.len(),
                ) && model::parents_inside(trees@[t].nodes@) && trees@[t].nodes@.len() <= u32::MAX,
        ensures
            match self.place(key as int) {
                Some(Location::Group(g)) => r is Some && r->0@ == text::utf16_of(
                    self.groups@[g as int].path@,
                ) && r->0.words() == self.groups@[g as int].path@,
                Some(Location::Entry { target, node }) => r is Some && r->0@ == model::path_at(
                    trees@[target as int].root@,
                    trees@[target as int].nodes@,
                    trees@[target as int].names@,
                    node,
                    trees@[target as int].nodes@.len(),
                ),
                None => r is None,
            },
    {
        match self.locate(key) {
            Some(Location::Group(g)) => Some(Wide::of(&self.groups[g].path)),
            Some(Location::Entry { target, node }) => {
                proof {
                    self.lemma_entry(trees@, target as int);
                }
                assert(model::names_inside(
                    trees@[target as int].nodes@,
                    trees@[target as int].names@.len(),
                ));
                Some(trees[target].path(node))
            },
            None => None,
        }
    }

    /// The bounds of a target are as far apart as it has nodes.
    pub proof fn lemma_entry(&self, trees: Seq<&Snapshot>, t: int)
        requires
            self.belongs_to(trees),
            0 <= t,
            t + 1 < self.offsets@.len(),
        ensures
            t < trees.len(),
            self.offsets@[t + 1] == self.offsets@[t] + trees[t].nodes@.len(),
    {
        assert(self.offsets@[t] == offset_of(trees, t));
        assert(self.offsets@[t + 1] == offset_of(trees, t + 1));
    }

    pub open spec fn targets_of(&self, key: int) -> Seq<usize> {
        match self.place(key) {
            Some(Location::Group(g)) => self.groups@[g as int].targets@,
            Some(Location::Entry { target, node }) => seq![target],
            None => Seq::empty(),
        }
    }

    pub fn target_indices(&self, key: i32) -> (r: Vec<usize>)
        requires
            self.keys_ok(),
        ensures
            r@ == self.targets_of(key as int),
    {
        match self.locate(key) {
            Some(Location::Group(g)) => {
                let r: Vec<usize> = self.groups[g].targets.clone();
                assert(r@ =~= self.groups@[g as int].targets@);
                r
            },
            Some(Location::Entry { target, .. }) => {
                let r: Vec<usize> = vec![target];
                assert(r@ =~= seq![target]);
                r
            },
            None => Vec::new(),
        }
    }

    /// Aggregates only marked content: a drive or an unmarked ancestor adds no files, no
    /// bytes and no directory of its own.
    pub fn tally(&self, trees: &[&Snapshot], choices: &[TreeSelection], key: i32) -> (r: (
        Tally,
        Tally,
    ))
        requires
            self.belongs_to(trees@),
            choices_ok(trees@, choices@),
            self.place(key as int) matches Some(Location::Group(g)) ==> count_fits(
                group_count(whole(trees@), self.groups@[g as int].targets@),
            ),
        ensures
            (r.0@, r.1@) == tallied(*self, trees@, choices@, key as int),
    {
        match self.locate(key) {
            Some(Location::Entry { target, node }) => {
                proof {
                    self.lemma_entry(trees@, target as int);
                    assert(selection::selectable(trees@[target as int].nodes@));
                }
                (choices[target].totals(node), Tally::of(&trees[target].nodes[node as usize]))
            },
            Some(Location::Group(g)) => {
                let ghost targets = self.groups@[g as int].targets@;
                let mut selected = Tally::default();
                let mut total = Tally::default();
                let mut i: usize = 0;
                assert(targets.subrange(0, 0) =~= Seq::<usize>::empty());
                proof {
                    lemma_chosen_within(trees@, choices@, targets);
                }
                while i < self.groups[g].targets.len()
                    invariant
                        i <= targets.len(),
                        g < self.groups@.len(),
                        targets == self.groups@[g as int].targets@,
                        self.belongs_to(trees@),
                        choices_ok(trees@, choices@),
                        count_fits(group_count(whole(trees@), targets)),
                        group_count(chosen(choices@), targets).within(
                            group_count(whole(trees@), targets),
                        ),
                        selected@ == group_count(
                            chosen(choices@),
                            targets.subrange(0, i as int),
                        ),
                        total@ == group_count(whole(trees@), targets.subrange(0, i as int)),
                    decreases targets.len() - i,
                {
                    let t: usize = self.groups[g].targets[i];
                    proof {
                        assert(self.groups@[g as int].targets@[i as int] < trees@.len());
                        assert(selection::selectable(trees@[t as int].nodes@));
                        let now = targets.subrange(0, i + 1);
                        assert(now.drop_last() =~= targets.subrange(0, i as int));
                        assert(now.last() == t);
                        lemma_prefix_fits(whole(trees@), targets, i + 1);
                        lemma_prefix_fits(chosen(choices@), targets, i + 1);
                    }
                    selected = selected.add(choices[t].totals(0));
                    total = total.add(Tally::of(&trees[t].nodes[0]));
                    i += 1;
                }
                assert(targets.subrange(0, i as int) =~= targets);
                (selected, total)
            },
            None => (Tally::default(), Tally::default()),
        }
    }

    /// 0 = unchecked, 1 = partially checked, 2 = everything checked.
    pub fn check_state(&self, trees: &[&Snapshot], choices: &[TreeSelection], key: i32) -> (r: i32)
        requires
            self.belongs_to(trees@),
            choices_ok(trees@, choices@),
            self.place(key as int) matches Some(Location::Group(g)) ==> count_fits(
                group_count(whole(trees@), self.groups@[g as int].targets@),
            ),
        ensures
            r == ({
                let (selected, total) = tallied(*self, trees@, choices@, key as int);
                if selected.items() == 0 {
                    0int
                } else if selected.items() == total.items() {
                    2
                } else {
                    1
                }
            }),
    {
        let (selected, total) = self.tally(trees, choices, key);
        if selected.items() == 0 {
            0
        } else if selected.items() == total.items() {
            2
        } else {
            1
        }
    }

    /// The groups of these trees list every target once.
    pub open spec fn targets_distinct(&self) -> bool {
        forall|g: int|
            0 <= g < self.groups@.len() ==> (#[trigger] self.groups@[g]).targets@.no_duplicates()
    }

    /// Checks or unchecks what a key stands for; other targets stay as they are.
    pub fn check(
        &self,
        trees: &[&Snapshot],
        choices: &mut Vec<TreeSelection>,
        key: i32,
        checked: bool,
    )
        requires
            self.belongs_to(trees@),
            self.targets_distinct(),
            choices_ok(trees@, old(choices)@),
        ensures
            choices_ok(trees@, final(choices)@),
            forall|t: int|
                0 <= t < trees@.len() ==> ({
                    let nodes = trees@[t].nodes@;
                    let before = old(choices)@[t];
                    let after = #[trigger] final(choices)@[t];
                    match self.place(key as int) {
                        Some(Location::Group(g)) => if self.groups@[g as int].targets@.contains(
                            t as usize,
                        ) {
                            selection::subtree_set(nodes, before, after, 0, checked)
                        } else {
                            after == before
                        },
                        Some(Location::Entry { target, node }) => if target == t {
                            selection::subtree_set(nodes, before, after, node as int, checked)
                        } else {
                            after == before
                        },
                        None => after == before,
                    }
                }),
    {
        match self.locate(key) {
            Some(Location::Group(g)) => {
                let ghost targets = self.groups@[g as int].targets@;
                let mut i: usize = 0;
                while i < self.groups[g].targets.len()
                    invariant
                        i <= targets.len(),
                        g < self.groups@.len(),
                        targets == self.groups@[g as int].targets@,
                        targets.no_duplicates(),
                        self.belongs_to(trees@),
                        choices_ok(trees@, choices@),
                        choices_ok(trees@, old(choices)@),
                        forall|t: int|
                            0 <= t < trees@.len() ==> if targets.subrange(0, i as int).contains(
                                t as usize,
                            ) {
                                selection::subtree_set(
                                    trees@[t].nodes@,
                                    old(choices)@[t],
                                    #[trigger] choices@[t],
                                    0,
                                    checked,
                                )
                            } else {
                                choices@[t] == old(choices)@[t]
                            },
                    decreases targets.len() - i,
                {
                    let t: usize = self.groups[g].targets[i];
                    let ghost now = choices@;
                    proof {
                        assert(self.groups@[g as int].targets@[i as int] < trees@.len());
                        assert(selection::selectable(trees@[t as int].nodes@));
                        assert(!targets.subrange(0, i as int).contains(t)) by {
                            if targets.subrange(0, i as int).contains(t) {
                                let w = targets.subrange(0, i as int).index_of(t);
                                assert(targets[w] == targets[i as int]);
                            }
                        }
                        assert(now[t as int] == old(choices)@[t as int]);
                    }
                    choices[t].set_subtree(trees[t], 0, checked);
                    proof {
                        let part = targets.subrange(0, i as int);
                        let more = targets.subrange(0, i + 1);
                        assert(more =~= part.push(t));
                        assert forall|u: int| 0 <= u < trees@.len() implies if more.contains(
                            u as usize,
                        ) {
                            selection::subtree_set(
                                trees@[u].nodes@,
                                old(choices)@[u],
                                #[trigger] choices@[u],
                                0,
                                checked,
                            )
                        } else {
                            choices@[u] == old(choices)@[u]
                        } by {
                            if u == t {
                                assert(more[i as int] == t);
                            } else {
                                assert(choices@[u] == now[u]);
                                if part.contains(u as usize) {
                                    let w = part.index_of(u as usize);
                                    assert(more[w] == u);
                                }
                                if more.contains(u as usize) {
                                    let w = more.index_of(u as usize);
                                    assert(part[w] == u);
                                }
                            }
                        }
                        assert forall|u: int| 0 <= u < trees@.len() implies selection::selectable(
                            #[trigger] trees@[u].nodes@,
                        ) && choices@[u].fits(trees@[u].nodes@) by {
                            if u != t {
                                assert(choices@[u] == now[u]);
                            }
                        }
                    }
                    i += 1;
                }
                assert(targets.subrange(0, i as int) =~= targets);
            },
            Some(Location::Entry { target, node }) => {
                let ghost before = choices@;
                proof {
                    self.lemma_entry(trees@, target as int);
                    assert(selection::selectable(trees@[target as int].nodes@));
                }
                choices[target].set_subtree(trees[target], node, checked);
                assert forall|u: int| 0 <= u < trees@.len() implies selection::selectable(
                    #[trigger] trees@[u].nodes@,
                ) && choices@[u].fits(trees@[u].nodes@) by {
                    if u != target {
                        assert(choices@[u] == before[u]);
                    }
                }
            },
            None => {},
        }
    }

    /// The drive and each path leading to a target are shown, the contents of targets are
    /// not yet.
    pub fn initial_expansion(&self) -> (r: Vec<(i32, usize)>)
        requires
            self.keys_ok(),
        ensures
            r@.len() == self.groups@.len(),
            forall|i: int|
                0 <= i < r@.len() ==> (#[trigger] r@[i]).0 == self.entry_count + i && r@[i].1 == (
                if self.groups@[i].children@.len() > PAGE_SIZE {
                    self.groups@[i].children@.len()
                } else {
                    PAGE_SIZE as nat
                }),
    {
        let mut out: Vec<(i32, usize)> = Vec::new();
        let mut i: usize = 0;
        while i < self.groups.len()
            invariant
                i <= self.groups@.len(),
                self.keys_ok(),
                out@.len() == i,
                forall|k: int|
                    0 <= k < i ==> (#[trigger] out@[k]).0 == self.entry_count + k && out@[k].1 == (
                    if self.groups@[k].children@.len() > PAGE_SIZE {
                        self.groups@[k].children@.len()
                    } else {
                        PAGE_SIZE as nat
                    }),
            decreases self.groups@.len() - i,
        {
            let n: usize = self.groups[i].children.len();
            let key: i32 = (self.entry_count as u64 + i as u64) as i32;
            out.push((key, if n > PAGE_SIZE { n } else { PAGE_SIZE }));
            i += 1;
        }
        out
    }
}

/// By what the children of a node are put in order.
pub struct RowKey {
    pub directory: bool,
    pub bytes: nat,
    pub name: Seq<u16>,
}

spec fn row_made(directory: bool, bytes: u64, name: Seq<u16>) -> RowKey {
    RowKey { directory, bytes: bytes as nat, name }
}

/// Directories first, then the larger first, then by name.
pub open spec fn row_first(a: RowKey, b: RowKey) -> bool {
    if a.directory != b.directory {
        a.directory
    } else if a.bytes != b.bytes {
        a.bytes > b.bytes
    } else {
        !order::lex_below(order::unit_numbers(b.name), order::unit_numbers(a.name))
    }
}

proof fn lemma_row_order(a: RowKey, b: RowKey, c: RowKey)
    ensures
        row_first(a, b) || row_first(b, a),
        row_first(a, b) && row_first(b, c) ==> row_first(a, c),
{
    let na = order::unit_numbers(a.name);
    let nb = order::unit_numbers(b.name);
    let nc = order::unit_numbers(c.name);
    order::lemma_lex_total(na, nb);
    order::lemma_lex_total(nb, nc);
    order::lemma_lex_total(na, nc);
    if order::lex_below(na, nb) && order::lex_below(nb, nc) {
        order::lemma_lex_trans(na, nb, nc);
    }
}

/// The name under which a target's root is listed is that of its path.
pub open spec fn entry_units(tree: Snapshot, node: u32) -> Seq<u16> {
    if node == 0 {
        wide::file_name_of(tree.root@)
    } else {
        model::units_at(tree.nodes@, tree.names@, node as int)
    }
}

pub open spec fn row_key(forest: Forest, trees: Seq<&Snapshot>, key: int) -> RowKey {
    match forest.place(key) {
        Some(Location::Group(g)) => RowKey {
            directory: true,
            bytes: group_count(whole(trees), forest.groups@[g as int].targets@).allocated,
            name: text::utf16_of(forest.groups@[g as int].name@),
        },
        Some(Location::Entry { target, node }) => RowKey {
            directory: trees[target as int].nodes@[node as int].dir(),
            bytes: trees[target as int].nodes@[node as int].allocated as nat,
            name: entry_units(*trees[target as int], node),
        },
        None => RowKey { directory: false, bytes: 0, name: Seq::empty() },
    }
}

/// The keys of what hangs below a key, in no particular order.
pub open spec fn child_keys(forest: Forest, trees: Seq<&Snapshot>, key: int) -> Seq<i32> {
    match forest.place(key) {
        Some(Location::Group(g)) => forest.groups@[g as int].children@,
        Some(Location::Entry { target, node }) => tree::kids(
            trees[target as int].nodes@,
            node as int,
        ).map_values(|k: u32| (forest.offsets@[target as int] + k) as i32),
        None => Seq::empty(),
    }
}

/// In display order, and what is the same by position.
pub open spec fn place_first(x: RowKey, y: RowKey, a: usize, b: usize) -> bool {
    row_first(x, y) && (!row_first(y, x) || a <= b)
}

pub open spec fn row_keys(forest: Forest, trees: Seq<&Snapshot>, keys: Seq<i32>) -> Seq<RowKey> {
    Seq::new(keys.len(), |i: int| row_key(forest, trees, keys[i] as int))
}

/// The keys of what hangs below a key, in display order.
pub open spec fn display_keys(forest: Forest, trees: Seq<&Snapshot>, key: int) -> Seq<i32> {
    let keys = child_keys(forest, trees, key);
    let rows = row_keys(forest, trees, keys);
    order::numbers(keys.len()).sort_by(
        |a: usize, b: usize| place_first(rows[a as int], rows[b as int], a, b),
    ).map_values(|k: usize| keys[k as int])
}

proof fn lemma_place_order(rows: Seq<RowKey>)
    ensures
        vstd::relations::total_ordering(
            |a: usize, b: usize| place_first(rows[a as int], rows[b as int], a, b),
        ),
{
    let le = |a: usize, b: usize| place_first(rows[a as int], rows[b as int], a, b);
    assert forall|a: usize| #[trigger] le(a, a) by {
        lemma_row_order(rows[a as int], rows[a as int], rows[a as int]);
    }
    assert forall|a: usize, b: usize, c: usize| #[trigger]
        le(a, b) && #[trigger] le(b, c) implies le(a, c) by {
        let x = rows[a as int];
        let y = rows[b as int];
        let z = rows[c as int];
        lemma_row_order(x, y, z);
        lemma_row_order(z, x, y);
        lemma_row_order(y, z, x);
    }
    assert forall|a: usize, b: usize| #[trigger] le(a, b) || #[trigger] le(b, a) by {
        lemma_row_order(rows[a as int], rows[b as int], rows[a as int]);
    }
}

/// What is displayed below a key hangs below it.
pub proof fn lemma_displayed(forest: Forest, trees: Seq<&Snapshot>, key: int, i: int)
    requires
        0 <= i < display_keys(forest, trees, key).len(),
    ensures
        child_keys(forest, trees, key).contains(display_keys(forest, trees, key)[i]),
{
    let keys = child_keys(forest, trees, key);
    let rows = row_keys(forest, trees, keys);
    let le = |a: usize, b: usize| place_first(rows[a as int], rows[b as int], a, b);
    let all = order::numbers(keys.len());
    let sorted = all.sort_by(le);
    lemma_place_order(rows);
    all.lemma_sort_by_ensures(le);
    order::lemma_same_members(sorted, all, i);
    let w = all.index_of(sorted[i]);
    assert(all[w] == sorted[i]);
    assert(keys[sorted[i] as int] == display_keys(forest, trees, key)[i]);
}

/// Everything that stands under a group has a place, and its size can be told.
pub open spec fn listed(forest: Forest, trees: Seq<&Snapshot>) -> bool {
    &&& forall|g: int, k: int|
        0 <= g < forest.groups@.len() && 0 <= k < forest.groups@[g].children@.len()
            ==> forest.place((#[trigger] forest.groups@[g].children@[k]) as int) is Some
    &&& forall|g: int|
        0 <= g < forest.groups@.len() ==> group_count(
            whole(trees),
            (#[trigger] forest.groups@[g]).targets@,
        ).allocated <= u64::MAX
    &&& forall|t: int|
        0 <= t < trees.len() ==> tree::linked(#[trigger] trees[t].nodes@) && model::names_inside(
            trees[t].nodes@,
            trees[t].names@.len(),
        )
}

impl Forest {
    fn group_bytes(&self, trees: &[&Snapshot], g: usize) -> (r: u64)
        requires
            self.belongs_to(trees@),
            listed(*self, trees@),
            g < self.groups@.len(),
        ensures
            r == group_count(whole(trees@), self.groups@[g as int].targets@).allocated,
    {
        let ghost targets = self.groups@[g as int].targets@;
        let mut sum: u64 = 0;
        let mut i: usize = 0;
        assert(targets.subrange(0, 0) =~= Seq::<usize>::empty());
        while i < self.groups[g].targets.len()
            invariant
                i <= targets.len(),
                g < self.groups@.len(),
                targets == self.groups@[g as int].targets@,
                self.belongs_to(trees@),
                listed(*self, trees@),
                sum == group_count(whole(trees@), targets.subrange(0, i as int)).allocated,
            decreases targets.len() - i,
        {
            let t: usize = self.groups[g].targets[i];
            proof {
                assert(self.groups@[g as int].targets@[i as int] < trees@.len());
                assert(tree::linked(trees@[t as int].nodes@));
                let now = targets.subrange(0, i + 1);
                assert(now.drop_last() =~= targets.subrange(0, i as int));
                assert(now.last() == t);
                lemma_prefix_fits(whole(trees@), targets, i + 1);
            }
            sum = sum + trees[t].nodes[0].allocated;
            i += 1;
        }
        assert(targets.subrange(0, i as int) =~= targets);
        sum
    }

    fn keys_below(&self, trees: &[&Snapshot], key: i32) -> (r: Vec<i32>)
        requires
            self.belongs_to(trees@),
            listed(*self, trees@),
        ensures
            r@ == child_keys(*self, trees@, key as int),
            forall|i: int| 0 <= i < r@.len() ==> self.place(#[trigger] r@[i] as int) is Some,
    {
        match self.locate(key) {
            Some(Location::Group(g)) => {
                let r: Vec<i32> = self.groups[g].children.clone();
                assert(r@ =~= self.groups@[g as int].children@);
                assert forall|i: int| 0 <= i < r@.len() implies self.place(
                    #[trigger] r@[i] as int,
                ) is Some by {
                    assert(self.groups@[g as int].children@[i] == r@[i]);
                }
                r
            },
            Some(Location::Entry { target, node }) => {
                let ghost nodes = trees@[target as int].nodes@;
                proof {
                    self.lemma_entry(trees@, target as int);
                    assert(tree::linked(nodes));
                    assert(tree::chain_ok(nodes, node as int));
                    tree::lemma_kids(nodes, node as int);
                    let last = self.offsets@.len() - 1;
                    assert(self.offsets@[target + 1] <= self.offsets@[last]);
                }
                let kids: Vec<u32> = trees[target].child_ids(node);
                let start: u32 = self.offsets[target];
                let mut out: Vec<i32> = Vec::new();
                let mut i: usize = 0;
                let ghost want = child_keys(*self, trees@, key as int);
                while i < kids.len()
                    invariant
                        i <= kids@.len(),
                        self.keys_ok(),
                        target + 1 < self.offsets@.len(),
                        start == self.offsets@[target as int],
                        kids@ == tree::kids(nodes, node as int),
                        start + nodes.len() == self.offsets@[target + 1],
                        self.offsets@[target + 1] <= self.entry_count,
                        forall|k: int| 0 <= k < kids@.len() ==> (#[trigger] kids@[k]) < nodes.len(),
                        want == kids@.map_values(
                            |k: u32| (self.offsets@[target as int] + k) as i32,
                        ),
                        out@ == want.subrange(0, i as int),
                        forall|k: int|
                            0 <= k < out@.len() ==> self.place(#[trigger] out@[k] as int) is Some,
                    decreases kids@.len() - i,
                {
                    let k: u32 = kids[i];
                    out.push((start + k) as i32);
                    proof {
                        assert(out@ =~= want.subrange(0, i + 1));
                        self.lemma_place(start + k, target as int);
                    }
                    i += 1;
                }
                assert(out@ =~= want);
                out
            },
            None => Vec::new(),
        }
    }

    fn row_of(&self, trees: &[&Snapshot], key: i32) -> (r: (bool, u64, Vec<u16>))
        requires
            self.belongs_to(trees@),
            listed(*self, trees@),
            self.place(key as int) is Some,
        ensures
            ({
                let want = row_key(*self, trees@, key as int);
                r.0 == want.directory && r.1 == want.bytes && r.2@ == want.name
            }),
    {
        match self.locate(key) {
            Some(Location::Group(g)) => {
                (true, self.group_bytes(trees, g), text::utf16(&self.groups[g].name))
            },
            Some(Location::Entry { target, node }) => {
                proof {
                    self.lemma_entry(trees@, target as int);
                    assert(tree::linked(trees@[target as int].nodes@));
                }
                let tree: &Snapshot = trees[target];
                let n: Node = tree.nodes[node as usize];
                let name: Vec<u16> = if node == 0 {
                    wide::file_name(&tree.root.units)
                } else {
                    copy_units(tree.name_units(node))
                };
                (n.is_dir(), n.allocated, name)
            },
            None => (false, 0, Vec::new()),
        }
    }

    /// What hangs below a key, in display order.
    pub fn children(&self, trees: &[&Snapshot], key: i32) -> (r: Vec<i32>)
        requires
            self.belongs_to(trees@),
            listed(*self, trees@),
        ensures
            r@ == display_keys(*self, trees@, key as int),
            forall|i: int| 0 <= i < r@.len() ==> self.place(#[trigger] r@[i] as int) is Some,
            r@.to_multiset() == child_keys(*self, trees@, key as int).to_multiset(),
            forall|i: int, j: int|
                0 <= i < j < r@.len() ==> row_first(
                    row_key(*self, trees@, #[trigger] r@[i] as int),
                    row_key(*self, trees@, #[trigger] r@[j] as int),
                ),
    {
        let keys: Vec<i32> = self.keys_below(trees, key);
        let n: usize = keys.len();
        let ghost rows = row_keys(*self, trees@, keys@);
        let mut dirs: Vec<bool> = Vec::new();
        let mut sizes: Vec<u64> = Vec::new();
        let mut names: Vec<Vec<u16>> = Vec::new();
        let mut i: usize = 0;
        while i < n
            invariant
                i <= n,
                n == keys@.len(),
                self.belongs_to(trees@),
                listed(*self, trees@),
                forall|k: int| 0 <= k < keys@.len() ==> self.place(#[trigger] keys@[k] as int) is Some,
                rows == row_keys(*self, trees@, keys@),
                dirs@.len() == i,
                sizes@.len() == i,
                names@.len() == i,
                forall|k: int|
                    0 <= k < i ==> (#[trigger] rows[k]) == row_made(dirs@[k], sizes@[k], names@[k]@),
            decreases n - i,
        {
            let (directory, bytes, name) = self.row_of(trees, keys[i]);
            dirs.push(directory);
            sizes.push(bytes);
            names.push(name);
            i += 1;
        }
        let first = |a: usize, b: usize| -> (r: bool)
            requires
                a < n,
                b < n,
                n == dirs@.len() == sizes@.len() == names@.len(),
            ensures
                r == place_first(
                    row_made(dirs@[a as int], sizes@[a as int], names@[a as int]@),
                    row_made(dirs@[b as int], sizes@[b as int], names@[b as int]@),
                    a,
                    b,
                ),
            {
                proof {
                    order::lemma_lex_total(
                        order::unit_numbers(names@[a as int]@),
                        order::unit_numbers(names@[b as int]@),
                    );
                }
                if dirs[a] != dirs[b] {
                    dirs[a]
                } else if sizes[a] != sizes[b] {
                    sizes[a] > sizes[b]
                } else {
                    order::units_below(&names[a], &names[b]) || (!order::units_below(
                        &names[b],
                        &names[a],
                    ) && a <= b)
                }
            };
        let ghost le = |a: usize, b: usize| place_first(rows[a as int], rows[b as int], a, b);
        proof {
            lemma_place_order(rows);
            assert forall|a: usize, b: usize, r: bool|
                a < n && b < n && #[trigger] call_ensures(first, (a, b), r) implies r == le(
                a,
                b,
            ) by {
                assert(rows[a as int] == row_made(
                    dirs@[a as int],
                    sizes@[a as int],
                    names@[a as int]@,
                ));
                assert(rows[b as int] == row_made(
                    dirs@[b as int],
                    sizes@[b as int],
                    names@[b as int]@,
                ));
            }
        }
        let sorted: Vec<usize> = order::rank(n, first, Ghost(le));
        let mut out: Vec<i32> = Vec::new();
        let mut j: usize = 0;
        let ghost pick = |k: usize| keys@[k as int];
        while j < n
            invariant
                j <= n,
                n == keys@.len(),
                sorted@.len() == n,
                forall|k: int| 0 <= k < sorted@.len() ==> (#[trigger] sorted@[k]) < n,
                pick == (|k: usize| keys@[k as int]),
                out@ == sorted@.subrange(0, j as int).map_values(pick),
            decreases n - j,
        {
            out.push(keys[sorted[j]]);
            j += 1;
            assert(out@ =~= sorted@.subrange(0, j as int).map_values(pick));
        }
        proof {
            let all = order::numbers(n as nat);
            assert(sorted@.subrange(0, n as int) =~= sorted@);
            order::lemma_map_rearranged(sorted@, all, pick);
            assert(all.map_values(pick) =~= keys@);
            assert forall|a: int, b: int| 0 <= a < b < out@.len() implies row_first(
                row_key(*self, trees@, #[trigger] out@[a] as int),
                row_key(*self, trees@, #[trigger] out@[b] as int),
            ) by {
                assert(le(sorted@[a], sorted@[b]));
                assert(out@[a] == keys@[sorted@[a] as int]);
                assert(out@[b] == keys@[sorted@[b] as int]);
            }
            assert forall|i: int| 0 <= i < out@.len() implies self.place(
                #[trigger] out@[i] as int,
            ) is Some by {
                assert(out@[i] == keys@[sorted@[i] as int]);
            }
        }
        out
    }
}

fn copy_units(v: &[u16]) -> (r: Vec<u16>)
    ensures
        r@ == v@,
{
    let mut out: Vec<u16> = Vec::new();
    out.extend_from_slice(v);
    assert(out@ =~= v@);
    out
}

/// What hangs below a row is shown with the directories first, and of one kind the larger
/// first; everything below it is shown, once.
pub proof fn law_rows_are_shown_by_kind_and_size(
    forest: Forest,
    trees: Seq<&Snapshot>,
    key: int,
    i: int,
    j: int,
)
    requires
        child_keys(forest, trees, key).len() <= usize::MAX,
        0 <= i < j < display_keys(forest, trees, key).len(),
    ensures
        ({
            let a = row_key(forest, trees, display_keys(forest, trees, key)[i] as int);
            let b = row_key(forest, trees, display_keys(forest, trees, key)[j] as int);
            &&& b.directory ==> a.directory
            &&& a.directory == b.directory ==> a.bytes >= b.bytes
        }),
        display_keys(forest, trees, key).len() == child_keys(forest, trees, key).len(),
{
    let keys = child_keys(forest, trees, key);
    let rows = row_keys(forest, trees, keys);
    let le = |a: usize, b: usize| place_first(rows[a as int], rows[b as int], a, b);
    let all = order::numbers(keys.len());
    let sorted = all.sort_by(le);
    lemma_place_order(rows);
    all.lemma_sort_by_ensures(le);
    assert(sorted.len() == all.len()) by {
        broadcast use vstd::seq_lib::group_to_multiset_ensures;

        assert(sorted.to_multiset().len() == sorted.len());
        assert(all.to_multiset().len() == all.len());
    }
    assert forall|k: int| 0 <= k < sorted.len() implies (#[trigger] sorted[k]) < keys.len() by {
        order::lemma_same_members(sorted, all, k);
        let w = all.index_of(sorted[k]);
        assert(all[w] == sorted[k]);
    }
    assert(le(sorted[i], sorted[j]));
    assert(rows[sorted[i] as int] == row_key(forest, trees, keys[sorted[i] as int] as int));
    assert(rows[sorted[j] as int] == row_key(forest, trees, keys[sorted[j] as int] as int));
}

/// The totals of a group are those of its targets, added up; those of an entry are its own.
pub proof fn law_groups_add_up_their_targets(
    c: spec_fn(usize) -> Count,
    targets: Seq<usize>,
    t: usize,
)
    ensures
        group_count(c, targets.push(t)).allocated == group_count(c, targets).allocated
            + c(t).allocated,
        group_count(c, targets.push(t)).logical == group_count(c, targets).logical + c(t).logical,
        group_count(c, targets.push(t)).files == group_count(c, targets).files + c(t).files,
        group_count(c, targets.push(t)).dirs == group_count(c, targets).dirs + c(t).dirs,
        group_count(c, Seq::empty()).files == 0 && group_count(c, Seq::empty()).allocated == 0,
{
    assert(targets.push(t).drop_last() =~= targets);
}

/// The totals of a row: of an entry its own and what is chosen at and below it, of a group
/// those of all its targets.
pub proof fn law_rows_count_their_own(
    forest: Forest,
    trees: Seq<&Snapshot>,
    choices: Seq<TreeSelection>,
    key: int,
)
    ensures
        forest.place(key) matches Some(Location::Entry { target, node }) ==> {
            let (selected, total) = tallied(forest, trees, choices, key);
            let n = trees[target as int].nodes@[node as int];
            &&& total.allocated == n.allocated && total.logical == n.logical
            &&& total.files == n.files && total.dirs == n.dirs
            &&& selected == choices[target as int].sums()[node as int]
        },
        forest.place(key) is None ==> tallied(forest, trees, choices, key).1.items() == 0,
{
}

} // verus!
