//! Checking that a stored node table is the tree it claims to be.
use crate::model::{Node, Snapshot, NONE, UNKNOWN_MTIME};
use crate::text;
use crate::tree;
use vstd::prelude::*;
use vstd::string::*;

verus! {

/// Why a stored snapshot is refused.
#[derive(Clone, Copy, Debug, PartialEq, Eq, Structural)]
pub enum SnapshotError {
    Unsupported,
    InvalidTimes(usize),
    InconsistentFileTimes(usize),
    InvalidName(usize),
    InvalidIndex(usize),
    DuplicateLink,
    CorruptChildChain,
    Unreachable,
}

impl SnapshotError {
    pub open spec fn words(self) -> Seq<char> {
        match self {
            SnapshotError::Unsupported => "unsupported/empty scan cache"@,
            SnapshotError::InvalidTimes(i) => "invalid modification range at "@ + text::decimal_of(i as nat),
            SnapshotError::InconsistentFileTimes(_) => "file has inconsistent last-write times"@,
            SnapshotError::InvalidName(i) => "invalid name range at "@ + text::decimal_of(i as nat),
            SnapshotError::InvalidIndex(i) => "invalid node index at "@ + text::decimal_of(i as nat),
            SnapshotError::DuplicateLink => "cycle/duplicate link in scan cache"@,
            SnapshotError::CorruptChildChain => "corrupt scan child chain"@,
            SnapshotError::Unreachable => "unreachable nodes in scan cache"@,
        }
    }

    /// What is told of it.
    pub fn message(self) -> (r: String)
        ensures
            r@ == self.words(),
    {
        match self {
            SnapshotError::Unsupported => "unsupported/empty scan cache".to_owned(),
            SnapshotError::InvalidTimes(i) => text::glue("invalid modification range at ", &text::decimal(i as u64)),
            SnapshotError::InconsistentFileTimes(_) => "file has inconsistent last-write times".to_owned(),
            SnapshotError::InvalidName(i) => text::glue("invalid name range at ", &text::decimal(i as u64)),
            SnapshotError::InvalidIndex(i) => text::glue("invalid node index at ", &text::decimal(i as u64)),
            SnapshotError::DuplicateLink => "cycle/duplicate link in scan cache".to_owned(),
            SnapshotError::CorruptChildChain => "corrupt scan child chain".to_owned(),
            SnapshotError::Unreachable => "unreachable nodes in scan cache".to_owned(),
        }
    }
}

/// The two times of a node are both known or both unknown, and in order.
pub open spec fn times_ok(n: Node) -> bool {
    (n.oldest_modified_ms == UNKNOWN_MTIME) == (n.latest_modified_ms == UNKNOWN_MTIME)
        && n.oldest_modified_ms <= n.latest_modified_ms
}

pub open spec fn link_ok(link: u32, len: nat) -> bool {
    link == NONE || link < len
}

/// What is wrong with node `i` taken by itself, if anything.
pub open spec fn node_fault(nodes: Seq<Node>, names: nat, i: usize) -> Option<SnapshotError> {
    let n = nodes[i as int];
    if !times_ok(n) {
        Some(SnapshotError::InvalidTimes(i))
    } else if !n.dir() && n.oldest_modified_ms != n.latest_modified_ms {
        Some(SnapshotError::InconsistentFileTimes(i))
    } else if n.name_start + n.name_len > names {
        Some(SnapshotError::InvalidName(i))
    } else if !link_ok(n.parent, nodes.len()) || !link_ok(n.first_child, nodes.len()) || !link_ok(
        n.next_sibling,
        nodes.len(),
    ) {
        Some(SnapshotError::InvalidIndex(i))
    } else {
        None
    }
}

/// Every node by itself is sound.
pub open spec fn nodes_sound(nodes: Seq<Node>, names: nat) -> bool {
    forall|i: usize| i < nodes.len() ==> #[trigger] node_fault(nodes, names, i) is None
}

/// A set of nodes that holds the root and all that hangs below its members.
pub open spec fn closed(nodes: Seq<Node>, s: Seq<bool>) -> bool {
    &&& s.len() == nodes.len()
    &&& s[0]
    &&& forall|i: int, k: u32|
        0 <= i < nodes.len() && s[i] && #[trigger] tree::kids(nodes, i).contains(k) ==> s[k as int]
}

impl Snapshot {
    /// The snapshot is what `validate` accepts.
    pub open spec fn valid(&self) -> bool {
        &&& self.version == 3
        &&& nodes_sound(self.nodes@, self.names@.len())
        &&& tree::linked(self.nodes@)
    }
}

/// What a walk along the links meets, the last link first: the nodes that it has seen, or
/// why it cannot go on. A node that is met twice is linked twice.
pub open spec fn reached(nodes: Seq<Node>, seen: Seq<bool>, stack: Seq<u32>, fuel: nat) -> Result<
    Seq<bool>,
    SnapshotError,
>
    decreases fuel,
{
    if stack.len() == 0 || fuel == 0 {
        Ok(seen)
    } else {
        let i = stack.last() as int;
        if seen[i] {
            Err(SnapshotError::DuplicateLink)
        } else if !tree::chain_ok(nodes, i) {
            Err(SnapshotError::CorruptChildChain)
        } else {
            reached(
                nodes,
                seen.update(i, true),
                stack.drop_last() + tree::kids(nodes, i),
                (fuel - 1) as nat,
            )
        }
    }
}

/// The verdict on the links: a walk from the root that ends has to have seen every node.
pub open spec fn link_verdict(nodes: Seq<Node>) -> Result<(), SnapshotError> {
    match reached(
        nodes,
        Seq::new(nodes.len(), |i: int| false),
        seq![0u32],
        (nodes.len() + 1) as nat,
    ) {
        Err(e) => Err(e),
        Ok(seen) => if seen.contains(false) {
            Err(SnapshotError::Unreachable)
        } else {
            Ok(())
        },
    }
}

/// The first of the nodes from `i` on that is not sound by itself.
pub open spec fn first_fault(nodes: Seq<Node>, names: nat, i: usize) -> Option<SnapshotError>
    decreases nodes.len() - i,
{
    if i >= nodes.len() || i == usize::MAX {
        None
    } else {
        match node_fault(nodes, names, i) {
            Some(e) => Some(e),
            None => first_fault(nodes, names, (i + 1) as usize),
        }
    }
}

/// The verdict on a table: its kind, then every node by itself, then the links.
pub open spec fn verdict(version: u32, nodes: Seq<Node>, names: nat) -> Result<(), SnapshotError> {
    if version != 3 || nodes.len() == 0 {
        Err(SnapshotError::Unsupported)
    } else {
        match first_fault(nodes, names, 0) {
            Some(e) => Err(e),
            None => link_verdict(nodes),
        }
    }
}

/// The state of the walk: `at` gives the step at which a seen node was met.
spec fn walking(nodes: Seq<Node>, seen: Seq<bool>, stack: Seq<u32>, at: Seq<nat>, steps: nat) -> bool {
    &&& seen.len() == nodes.len()
    &&& at.len() == nodes.len()
    &&& steps + tree::off_count(seen) == nodes.len()
    &&& seen[0]
    &&& forall|i: int| 0 <= i < nodes.len() && #[trigger] seen[i] ==> tree::chain_ok(nodes, i) && at[i] < steps
    &&& forall|i: int, k: u32|
        0 <= i < nodes.len() && seen[i] && #[trigger] tree::kids(nodes, i).contains(k)
            ==> stack.contains(k) || (seen[k as int] && k != 0)
    &&& forall|k: int|
        1 <= k < nodes.len() && #[trigger] seen[k] ==> nodes[k].parent < nodes.len()
            && seen[nodes[k].parent as int] && at[nodes[k].parent as int] < at[k]
            && tree::kids(nodes, nodes[k].parent as int).contains(k as u32)
    &&& forall|q: int|
        0 <= q < stack.len() ==> {
            let k = #[trigger] stack[q];
            &&& k < nodes.len()
            &&& nodes[k as int].parent < nodes.len()
            &&& seen[nodes[k as int].parent as int]
            &&& tree::kids(nodes, nodes[k as int].parent as int).contains(k)
            &&& k == 0 || !seen[k as int]
        }
    &&& forall|q: int, r: int|
        0 <= q < r < stack.len() && #[trigger] stack[q] == #[trigger] stack[r] ==> stack[q] == 0
}

/// Meeting a fresh node and stacking its children keeps the state.
proof fn lemma_visit(
    nodes: Seq<Node>,
    seen: Seq<bool>,
    stack: Seq<u32>,
    at: Seq<nat>,
    steps: nat,
    i: u32,
)
    requires
        0 < nodes.len() <= u32::MAX,
        i < nodes.len(),
        seen.len() == nodes.len(),
        at.len() == nodes.len(),
        !seen[i as int],
        tree::chain_ok(nodes, i as int),
        i == 0 ==> stack.len() == 0 && steps == 0 && tree::off_count(seen) == nodes.len()
            && forall|k: int| 0 <= k < nodes.len() ==> !#[trigger] seen[k],
        i != 0 ==> walking(nodes, seen, stack.push(i), at, steps),
    ensures
        walking(
            nodes,
            seen.update(i as int, true),
            stack + tree::kids(nodes, i as int),
            at.update(i as int, steps),
            steps + 1,
        ),
{
    let seen2 = seen.update(i as int, true);
    let own = tree::kids(nodes, i as int);
    let stack2 = stack + own;
    let at2 = at.update(i as int, steps);
    let before = stack.push(i);
    tree::lemma_kids(nodes, i as int);
    tree::lemma_off_count_update(seen, i as int);
    if i != 0 {
        assert(before[stack.len() as int] == i);
    }
    assert forall|q: int| 0 <= q < stack.len() implies #[trigger] stack[q] == before[q] && stack[q]
        != i by {
        if stack[q] == i {
            assert(before[q] == before[stack.len() as int]);
        }
    }
    assert forall|j: int, k: u32|
        0 <= j < nodes.len() && seen2[j] && #[trigger] tree::kids(nodes, j).contains(k) implies stack2.contains(
    k) || (seen2[k as int] && k != 0) by {
        if j == i {
            let w = own.index_of(k);
            assert(stack2[stack.len() + w] == k);
        } else {
            assert(seen[j]);
            tree::lemma_kids(nodes, j);
            let v = tree::kids(nodes, j).index_of(k);
            assert(tree::kids(nodes, j)[v] < nodes.len());
            if before.contains(k) {
                let w = before.index_of(k);
                if w < stack.len() {
                    assert(stack2[w] == k);
                }
            }
        }
    }
    assert forall|q: int| 0 <= q < stack2.len() implies {
        let k = #[trigger] stack2[q];
        &&& k < nodes.len()
        &&& nodes[k as int].parent < nodes.len()
        &&& seen2[nodes[k as int].parent as int]
        &&& tree::kids(nodes, nodes[k as int].parent as int).contains(k)
        &&& k == 0 || !seen2[k as int]
    } by {
        if q < stack.len() {
            assert(stack2[q] == before[q]);
        } else {
            let w = q - stack.len();
            let k = own[w];
            assert(own.contains(k));
            if k != 0 && seen[k as int] {
                assert(seen[nodes[k as int].parent as int]);
            }
            if k == i && k != 0 {
                assert(seen[nodes[before[stack.len() as int] as int].parent as int]);
            }
        }
    }
    assert forall|q: int, r: int|
        0 <= q < r < stack2.len() && #[trigger] stack2[q] == #[trigger] stack2[r] implies stack2[q]
        == 0 by {
        if r < stack.len() {
            assert(before[q] == before[r]);
        } else if q < stack.len() {
            assert(stack2[q] == before[q]);
            assert(seen[nodes[before[q] as int].parent as int]);
            assert(own[r - stack.len()] == stack2[r]);
        } else {
            assert(own[q - stack.len()] == own[r - stack.len()]);
        }
    }
    assert forall|j: int| 0 <= j < nodes.len() && #[trigger] seen2[j] implies tree::chain_ok(
        nodes,
        j,
    ) && at2[j] < steps + 1 by {
        if j != i {
            assert(seen[j]);
        }
    }
    assert forall|k: int| 1 <= k < nodes.len() && #[trigger] seen2[k] implies nodes[k].parent
        < nodes.len() && seen2[nodes[k].parent as int] && at2[nodes[k].parent as int] < at2[k]
        && tree::kids(nodes, nodes[k].parent as int).contains(k as u32) by {
        if k == i {
            assert(before[stack.len() as int] == k);
            assert(seen[nodes[k].parent as int]);
        } else {
            assert(seen[k]);
            assert(seen[nodes[k].parent as int]);
        }
    }
}

/// Everything in a tree is reached from the root.
proof fn lemma_reached(nodes: Seq<Node>, s: Seq<bool>, rank: Seq<nat>, k: int)
    requires
        tree::linked(nodes),
        tree::ranked(nodes, rank),
        closed(nodes, s),
        0 <= k < nodes.len(),
    ensures
        s[k],
    decreases nodes.len() - rank[k],
{
    if k != 0 {
        let p = nodes[k].parent as int;
        assert(rank[k] < rank[p]);
        lemma_reached(nodes, s, rank, p);
        assert(tree::kids(nodes, p).contains(k as u32));
    }
}

impl Snapshot {
    fn check_node(&self, i: usize) -> (r: Result<(), SnapshotError>)
        requires
            i < self.nodes.len(),
        ensures
            r == match node_fault(self.nodes@, self.names@.len(), i) {
                Some(e) => Err(e),
                None => Ok::<(), SnapshotError>(()),
            },
    {
        let n: Node = self.nodes[i];
        let len: usize = self.nodes.len();
        if !((n.oldest_modified_ms == UNKNOWN_MTIME) == (n.latest_modified_ms == UNKNOWN_MTIME)
            && n.oldest_modified_ms <= n.latest_modified_ms) {
            return Err(SnapshotError::InvalidTimes(i));
        }
        if !n.is_dir() && n.oldest_modified_ms != n.latest_modified_ms {
            return Err(SnapshotError::InconsistentFileTimes(i));
        }
        if n.name_start as u64 + n.name_len as u64 > self.names.len() as u64 {
            return Err(SnapshotError::InvalidName(i));
        }
        if !(n.parent == NONE || (n.parent as usize) < len) || !(n.first_child == NONE || (
        n.first_child as usize) < len) || !(n.next_sibling == NONE || (n.next_sibling as usize)
            < len) {
            return Err(SnapshotError::InvalidIndex(i));
        }
        Ok(())
    }

    /// Checks every node by itself, and that the links reach every node exactly once.
    pub fn validate(&self) -> (r: Result<(), SnapshotError>)
        requires
            self.nodes.len() <= u32::MAX,
        ensures
            r is Ok <==> self.valid(),
            r == Err::<(), SnapshotError>(SnapshotError::Unsupported) <==> self.version != 3
                || self.nodes.len() == 0,
            r == verdict(self.version, self.nodes@, self.names@.len()),
            r == Err::<(), SnapshotError>(SnapshotError::DuplicateLink) ==> exists|i: int|
                0 <= i < self.nodes.len() && (#[trigger] tree::kids(self.nodes@, i)).contains(0),
            r == Err::<(), SnapshotError>(SnapshotError::CorruptChildChain) ==> exists|i: int|
                0 <= i < self.nodes.len() && !#[trigger] tree::chain_ok(self.nodes@, i),
            r == Err::<(), SnapshotError>(SnapshotError::Unreachable) ==> exists|s: Seq<bool>|
                #[trigger] closed(self.nodes@, s) && s.contains(false),
    {
        let ghost nodes = self.nodes@;
        let len: usize = self.nodes.len();
        if !(self.version == 3 && len > 0) {
            return Err(SnapshotError::Unsupported);
        }
        let mut i: usize = 0;
        while i < len
            invariant
                i <= len,
                len == self.nodes.len(),
                len > 0,
                self.version == 3,
                first_fault(self.nodes@, self.names@.len(), 0) == first_fault(
                    self.nodes@,
                    self.names@.len(),
                    i,
                ),
                forall|k: usize|
                    k < i ==> #[trigger] node_fault(self.nodes@, self.names@.len(), k) is None,
            decreases len - i,
        {
            match self.check_node(i) {
                Ok(_) => {},
                Err(e) => {
                    assert(Some(e) == node_fault(self.nodes@, self.names@.len(), i));
                    assert(!(e is Unsupported) && !(e is DuplicateLink) && !(
                    e is CorruptChildChain) && !(e is Unreachable));
                    return Err(e);
                },
            }
            i += 1;
        }
        assert(nodes_sound(self.nodes@, self.names@.len()));
        let mut seen: Vec<bool> = vec![false;len];
        let mut pending: Vec<u32> = Vec::new();
        pending.push(0);
        let mut at: Ghost<Seq<nat>> = Ghost(Seq::new(len as nat, |i: int| 0nat));
        let mut steps: Ghost<nat> = Ghost(0);
        proof {
            tree::lemma_off_count_zero(seen@);
            assert(seen@ =~= Seq::new(nodes.len(), |i: int| false));
            assert(pending@ =~= seq![0u32]);
        }
        while pending.len() > 0
            invariant
                reached(
                    nodes,
                    Seq::new(nodes.len(), |i: int| false),
                    seq![0u32],
                    (nodes.len() + 1) as nat,
                ) == reached(nodes, seen@, pending@, tree::off_count(seen@) + 1),
                nodes == self.nodes@,
                len == nodes.len(),
                0 < len <= u32::MAX,
                self.version == 3,
                nodes_sound(self.nodes@, self.names@.len()),
                first_fault(self.nodes@, self.names@.len(), 0) is None,
                seen@.len() == len,
                at@.len() == len,
                steps@ == 0 ==> pending@ =~= seq![0u32] && (forall|k: int|
                    0 <= k < len ==> !#[trigger] seen@[k]) && tree::off_count(seen@) == len,
                steps@ > 0 ==> walking(nodes, seen@, pending@, at@, steps@),
            decreases tree::off_count(seen@),
        {
            let ghost before = pending@;
            let i: u32 = match pending.pop() {
                Some(i) => i,
                None => 0,
            };
            assert(before =~= pending@.push(i));
            assert(before[pending@.len() as int] == i);
            if seen[i as usize] {
                proof {
                    let p = nodes[i as int].parent as int;
                    assert(tree::kids(nodes, p).contains(0));
                }
                return Err(SnapshotError::DuplicateLink);
            }
            proof {
                tree::lemma_off_count_update(seen@, i as int);
            }
            let ghost seen0 = seen@;
            let ghost rest = pending@;
            assert(!tree::chain_ok(nodes, i as int) ==> link_verdict(nodes) == Err::<
                (),
                SnapshotError,
            >(SnapshotError::CorruptChildChain));
            seen.set(i as usize, true);
            let mut c: u32 = self.nodes[i as usize].first_child;
            let mut count: usize = 0;
            assert(node_fault(self.nodes@, self.names@.len(), i as usize) is None);
            assert(rest + Seq::<u32>::empty() =~= rest);
            let ghost mut part: Seq<u32> = Seq::empty();
            assert(part + tree::chain(nodes, c, len as nat) =~= tree::kids(nodes, i as int));
            while c != NONE
                invariant
                    nodes == self.nodes@,
                    len == nodes.len(),
                    0 < len <= u32::MAX,
                    self.version == 3,
                    nodes_sound(self.nodes@, self.names@.len()),
                    first_fault(self.nodes@, self.names@.len(), 0) is None,
                    i < len,
                    !tree::chain_ok(nodes, i as int) ==> link_verdict(nodes) == Err::<
                        (),
                        SnapshotError,
                    >(SnapshotError::CorruptChildChain),
                    count <= len,
                    c == NONE || c < len,
                    tree::chain_ends(nodes, nodes[i as int].first_child, len as nat)
                        == tree::chain_ends(nodes, c, (len - count) as nat),
                    tree::kids(nodes, i as int) == part + tree::chain(
                        nodes,
                        c,
                        (len - count) as nat,
                    ),
                    pending@ == rest + part,
                    forall|j: int|
                        0 <= j < part.len() ==> nodes[(#[trigger] part[j]) as int].parent == i,
                decreases len - count,
            {
                if count == len || self.nodes[c as usize].parent != i {
                    proof {
                        if tree::chain_ok(nodes, i as int) {
                            assert(tree::chain(nodes, c, (len - count) as nat)[0] == c);
                            assert(tree::kids(nodes, i as int)[part.len() as int] == c);
                        }
                        assert(!tree::chain_ok(nodes, i as int));
                    }
                    return Err(SnapshotError::CorruptChildChain);
                }
                count += 1;
                pending.push(c);
                proof {
                    let next = nodes[c as int].next_sibling;
                    assert(node_fault(self.nodes@, self.names@.len(), c as usize) is None);
                    assert(tree::chain(nodes, c, (len - count + 1) as nat) =~= seq![c]
                        + tree::chain(nodes, next, (len - count) as nat));
                    assert(part + (seq![c] + tree::chain(nodes, next, (len - count) as nat))
                        =~= part.push(c) + tree::chain(nodes, next, (len - count) as nat));
                    assert(pending@ =~= rest + part.push(c));
                    part = part.push(c);
                }
                c = self.nodes[c as usize].next_sibling;
            }
            proof {
                assert(tree::chain(nodes, NONE, (len - count) as nat) =~= Seq::<u32>::empty());
                assert(tree::kids(nodes, i as int) =~= part);
                assert(tree::chain_ok(nodes, i as int));
                lemma_visit(nodes, seen0, rest, at@, steps@, i);
                assert(before.drop_last() =~= rest);
                assert(pending@ == rest + tree::kids(nodes, i as int));
                at@ = at@.update(i as int, steps@);
                steps@ = steps@ + 1;
            }
        }
        let mut k: usize = 0;
        assert(steps@ > 0);
        proof {
            assert(closed(nodes, seen@)) by {
                assert forall|i: int, k: u32|
                    0 <= i < nodes.len() && seen@[i] && #[trigger] tree::kids(nodes, i).contains(
                        k,
                    ) implies seen@[k as int] by {
                    assert(!pending@.contains(k));
                }
            }
        }
        while k < len
            invariant
                k <= len,
                link_verdict(nodes) == (if seen@.contains(false) {
                    Err::<(), SnapshotError>(SnapshotError::Unreachable)
                } else {
                    Ok::<(), SnapshotError>(())
                }),
                nodes == self.nodes@,
                len == nodes.len(),
                0 < len <= u32::MAX,
                self.version == 3,
                seen@.len() == len,
                closed(nodes, seen@),
                forall|j: int| 0 <= j < k ==> #[trigger] seen@[j],
                nodes_sound(self.nodes@, self.names@.len()),
                first_fault(self.nodes@, self.names@.len(), 0) is None,
            decreases len - k,
        {
            if !seen[k] {
                proof {
                    assert(seen@.contains(false)) by {
                        assert(seen@[k as int] == false);
                    }
                    if tree::linked(nodes) {
                        let rank = choose|rank: Seq<nat>| tree::ranked(nodes, rank);
                        lemma_reached(nodes, seen@, rank, k as int);
                    }
                }
                return Err(SnapshotError::Unreachable);
            }
            k += 1;
        }
        proof {
            tree::lemma_off_count_zero(seen@);
            let rank = Seq::new(len as nat, |j: int| (len - 1 - at@[j]) as nat);
            assert forall|j: int| 0 <= j < nodes.len() implies #[trigger] rank[j] < nodes.len() by {
                assert(seen@[j]);
            }
            assert forall|j: int|
                1 <= j < nodes.len() && nodes[j].parent < nodes.len() implies #[trigger] rank[j]
                < rank[nodes[j].parent as int] by {
                assert(seen@[j]);
                assert(at@[j] < steps@);
            }
            assert(tree::ranked(nodes, rank));
            assert forall|j: int| 0 <= j < nodes.len() implies #[trigger] tree::chain_ok(nodes, j) by {
                assert(seen@[j]);
            }
            assert forall|j: int| 0 <= j < nodes.len() implies !(#[trigger] tree::kids(
                nodes,
                j,
            )).contains(0) by {
                if tree::kids(nodes, j).contains(0) {
                    assert(seen@[j]);
                    assert(pending@.contains(0u32));
                }
            }
            assert forall|j: int| 1 <= j < nodes.len() implies (#[trigger] nodes[j]).parent
                < nodes.len() && tree::kids(nodes, nodes[j].parent as int).contains(j as u32) by {
                assert(seen@[j]);
            }
            assert(tree::linked(nodes));
        }
        Ok(())
    }
}

proof fn lemma_no_fault_from(nodes: Seq<Node>, names: nat, i: usize, k: int)
    requires
        first_fault(nodes, names, i) is None,
        i <= k < nodes.len() <= u32::MAX,
    ensures
        node_fault(nodes, names, k as usize) is None,
    decreases nodes.len() - i,
{
    if i < k {
        lemma_no_fault_from(nodes, names, (i + 1) as usize, k);
    }
}

/// A scan that is accepted has only nodes whose times are both known or both unknown and in
/// order, the same for a file, whose names lie in the table, and whose links lead to nodes.
pub proof fn law_accepted_nodes_are_in_order(version: u32, nodes: Seq<Node>, names: nat, k: int)
    requires
        verdict(version, nodes, names) is Ok,
        0 <= k < nodes.len() <= u32::MAX,
    ensures
        version == 3,
        ({
            let n = nodes[k];
            let none = 0xffff_ffffu32;
            &&& n.oldest_modified_ms == i64::MIN <==> n.latest_modified_ms == i64::MIN
            &&& n.oldest_modified_ms <= n.latest_modified_ms
            &&& n.flags & 1 == 0 ==> n.oldest_modified_ms == n.latest_modified_ms
            &&& n.name_start + n.name_len <= names
            &&& n.parent == none || n.parent < nodes.len()
            &&& n.first_child == none || n.first_child < nodes.len()
            &&& n.next_sibling == none || n.next_sibling < nodes.len()
        }),
{
    lemma_no_fault_from(nodes, names, 0, k);
}

/// A node is refused exactly for times that are out of order, a name that does not lie within
/// the names, or a link to no node.
pub proof fn law_nodes_are_refused_for_cause(nodes: Seq<Node>, names: nat, i: usize)
    requires
        i < nodes.len(),
    ensures
        ({
            let n = nodes[i as int];
            let linked = link_ok(n.parent, nodes.len()) && link_ok(n.first_child, nodes.len())
                && link_ok(n.next_sibling, nodes.len());
            let settled = n.dir() || n.oldest_modified_ms == n.latest_modified_ms;
            let named = n.name_start + n.name_len <= names;
            let r = node_fault(nodes, names, i);
            &&& r is None <==> times_ok(n) && settled && named && linked
            &&& r == Some(SnapshotError::InvalidTimes(i)) <==> !times_ok(n)
            &&& r == Some(SnapshotError::InconsistentFileTimes(i)) <==> times_ok(n) && !settled
            &&& r == Some(SnapshotError::InvalidName(i)) <==> times_ok(n) && settled && !named
            &&& r == Some(SnapshotError::InvalidIndex(i)) <==> times_ok(n) && settled && named
                && !linked
        }),
{
}

} // verus!
