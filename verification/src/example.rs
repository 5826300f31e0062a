//! A made-up review, for showing the window without any real targets.
use crate::deletion;
use crate::deletion::{Prepared, PreparedTarget};
use crate::git_audit::GitAudit;
use crate::model;
use crate::model::{Node, ScanStats, Snapshot, DIR, NONE, UNKNOWN_MTIME};
use crate::plan;
use crate::plan::{Alert, Level, Plan, Summary, Target};
use crate::platform::{Identity, VolumeInfo};
use crate::rollup;
use crate::selection;
use crate::text;
use crate::tree;
use crate::wide::Wide;
use vstd::prelude::*;
use vstd::string::*;

verus! {

pub const MIB: u64 = 1048576;

pub const GIB: u64 = 1073741824;

/// One entry of a made-up tree. The first entry is the root, which needs no name.
#[derive(Clone, Copy, Debug)]
pub struct Sample {
    pub parent: u32,
    pub name: &'static str,
    pub bytes: u64,
    pub dir: bool,
}

/// The names of the first `n` entries, one behind the other.
pub open spec fn names_to(e: Seq<Sample>, n: nat) -> Seq<u16>
    decreases n,
{
    if n <= 1 {
        Seq::empty()
    } else {
        names_to(e, (n - 1) as nat) + text::utf16_of(e[n - 1].name@)
    }
}

/// An entry before anything is added up.
pub open spec fn node_at(e: Seq<Sample>, i: int) -> Node {
    model::added_node(
        if i == 0 {
            NONE
        } else {
            e[i].parent
        },
        names_to(e, i as nat).len() as u32,
        if i == 0 {
            0
        } else {
            text::utf16_of(e[i].name@).len() as u16
        },
        e[i].bytes,
        e[i].bytes,
        if e[i].dir {
            DIR
        } else {
            0
        },
    )
}

pub open spec fn table(e: Seq<Sample>) -> Seq<Node> {
    Seq::new(e.len(), |i: int| node_at(e, i))
}

pub open spec fn bytes_to(e: Seq<Sample>, n: nat) -> nat
    decreases n,
{
    if n == 0 {
        0
    } else {
        bytes_to(e, (n - 1) as nat) + e[n - 1].bytes as nat
    }
}

/// A small tree: every entry comes after the directory that holds it.
pub open spec fn small(e: Seq<Sample>) -> bool {
    &&& 0 < e.len() <= 1000
    &&& forall|i: int|
        0 <= i < e.len() ==> (#[trigger] e[i]).name@.len() <= 1000 && (i > 0 ==> e[i].parent < i
            && e[e[i].parent as int].dir)
    &&& bytes_to(e, e.len()) <= u64::MAX
}

/// The finished tree of the entries.
pub open spec fn grown(s: Snapshot, e: Seq<Sample>) -> bool {
    &&& rollup::finished(table(e), s.nodes@)
    &&& s.names@ == names_to(e, e.len())
    &&& s.nodes@[0].allocated == bytes_to(e, e.len())
}

proof fn lemma_flags()
    by (bit_vector)
    ensures
        0u16 & 1 == 0,
        1u16 & 1 == 1,
{
}

proof fn lemma_units(s: Seq<char>)
    ensures
        text::utf16_of(s).len() <= 2 * s.len(),
    decreases s.len(),
{
    if s.len() > 0 {
        lemma_units(s.drop_last());
    }
}

proof fn lemma_names(e: Seq<Sample>, n: nat)
    requires
        small(e),
        n <= e.len(),
    ensures
        names_to(e, n).len() <= 2000 * n,
    decreases n,
{
    if n > 1 {
        lemma_names(e, (n - 1) as nat);
        assert(e[n - 1].name@.len() <= 1000);
        lemma_units(e[n - 1].name@);
    }
}

proof fn lemma_names_grow(e: Seq<Sample>, m: nat, n: nat)
    requires
        m <= n,
    ensures
        names_to(e, m).len() <= names_to(e, n).len(),
    decreases n,
{
    if m < n {
        lemma_names_grow(e, m, (n - 1) as nat);
    }
}

proof fn lemma_sum(e: Seq<Sample>, n: nat)
    requires
        n <= e.len(),
    ensures
        rollup::table_sum(table(e), n as int).allocated == bytes_to(e, n),
        rollup::table_sum(table(e), n as int).logical == bytes_to(e, n),
        rollup::table_sum(table(e), n as int).files <= n,
        rollup::table_sum(table(e), n as int).dirs <= n,
    decreases n,
{
    if n > 0 {
        lemma_sum(e, (n - 1) as nat);
    }
}

/// Such a table can be finished, and the result reviewed.
proof fn lemma_small(before: Snapshot, after: Snapshot, e: Seq<Sample>)
    requires
        small(e),
        before.nodes@ == table(e),
        before.names@ == names_to(e, e.len()),
        before.version == 3,
    ensures
        tree::parents_ok(before.nodes@),
        tree::acyclic(before.nodes@),
        forall|f: rollup::IndexError| !rollup::overflows(before.nodes@, f),
        rollup::finished(before.nodes@, after.nodes@) && after.version == before.version
            && after.names == before.names ==> grown(after, e) && deletion::reviewable(after)
            && selection::selectable(after.nodes@),
{
    let nodes = before.nodes@;
    lemma_flags();
    assert forall|i: int| 0 <= i < nodes.len() implies (#[trigger] nodes[i]).dir() == e[i].dir by {
    }
    assert forall|i: int| 1 <= i < nodes.len() implies #[trigger] tree::parent_ok(nodes, i) by {
        assert(e[i].parent < i);
        assert(nodes[e[i].parent as int].dir());
    }
    let rank = Seq::new(nodes.len(), |i: int| (nodes.len() - 1 - i) as nat);
    assert forall|i: int|
        1 <= i < nodes.len() && nodes[i].parent < nodes.len() implies #[trigger] rank[i]
        < rank[nodes[i].parent as int] by {
        assert(e[i].parent < i);
    }
    assert(tree::ranked(nodes, rank));
    lemma_sum(e, e.len());
    assert forall|f: rollup::IndexError| !rollup::overflows(nodes, f) by {
        rollup::law_sums_that_fit_never_overflow(nodes, f);
    }
    assert(model::names_inside(nodes, before.names@.len())) by {
        assert forall|i: int| 0 <= i < nodes.len() implies (#[trigger] nodes[i]).name_start
            + nodes[i].name_len <= before.names@.len() by {
            lemma_names(e, i as nat);
            lemma_names(e, (i + 1) as nat);
            lemma_names_grow(e, (i + 1) as nat, e.len());
            assert(e[i].name@.len() <= 1000);
            lemma_units(e[i].name@);
            if i > 0 {
                assert(names_to(e, (i + 1) as nat) == names_to(e, i as nat) + text::utf16_of(
                    e[i].name@,
                ));
            }
        }
    }
    assert(before.building());
    if rollup::finished(nodes, after.nodes@) && after.version == before.version && after.names
        == before.names {
        rollup::law_finished_is_valid(before, after);
        rollup::law_root_counts_every_node_once(nodes, after.nodes@);
        assert(model::names_inside(after.nodes@, after.names@.len())) by {
            assert forall|i: int| 0 <= i < nodes.len() implies (#[trigger] after.nodes@[i]).name_start
                + after.nodes@[i].name_len <= after.names@.len() by {
                assert(rollup::linked_as(nodes, after.nodes@[i], i));
                assert(nodes[i].name_start + nodes[i].name_len <= before.names@.len());
            }
        }
        assert(model::parents_inside(after.nodes@)) by {
            assert forall|i: int| 1 <= i < nodes.len() implies (#[trigger] after.nodes@[i]).parent
                < nodes.len() by {
                assert(rollup::linked_as(nodes, after.nodes@[i], i));
                assert(tree::parent_ok(nodes, i));
            }
        }
    }
}

/// The head of a tree that nothing was read for. What its index takes depends on how the
/// tables grew.
pub open spec fn sample_stats(s: ScanStats, now: u64) -> bool {
    &&& s.backend@ == "example-metadata"@
    &&& s.started_unix == now
    &&& s.elapsed_ms == 0
    &&& s.threads == 1
    &&& s.records_read == 0
    &&& s.raw_bytes_read == 0
    &&& s.errors == 0
    &&& s.complete
    &&& s.peak_working_set_bytes == 0
    &&& s.warnings@.len() == 0
}

/// The tree of the entries.
fn grow(root: &str, volume: &VolumeInfo, now: u64, e: &Vec<Sample>) -> (s: Snapshot)
    requires
        small(e@),
    ensures
        s.root@ == text::utf16_of(root@),
        s.volume == *volume,
        grown(s, e@),
        deletion::reviewable(s),
        selection::selectable(s.nodes@),
        s.version == 3,
        sample_stats(s.stats, now),
{
    let mut s: Snapshot = Snapshot::new(Wide::of(root), volume.clone(), "example-metadata", 1, now);
    proof {
        lemma_flags();
    }
    let first: Sample = e[0];
    s.nodes.set(
        0,
        Node {
            logical: first.bytes,
            allocated: first.bytes,
            oldest_modified_ms: UNKNOWN_MTIME,
            latest_modified_ms: UNKNOWN_MTIME,
            parent: NONE,
            first_child: NONE,
            next_sibling: NONE,
            name_start: 0,
            name_len: 0,
            flags: if first.dir {
                DIR
            } else {
                0
            },
            files: if first.dir {
                0
            } else {
                1
            },
            dirs: if first.dir {
                1
            } else {
                0
            },
        },
    );
    assert(s.nodes@ =~= table(e@).subrange(0, 1));
    assert(s.names@ =~= names_to(e@, 1));
    let mut i: usize = 1;
    while i < e.len()
        invariant
            1 <= i <= e@.len(),
            small(e@),
            s.nodes@ == table(e@).subrange(0, i as int),
            s.names@ == names_to(e@, i as nat),
            s.version == 3,
            s.root@ == text::utf16_of(root@),
            s.volume == *volume,
            sample_stats(s.stats, now),
        decreases e@.len() - i,
    {
        let x: Sample = e[i];
        let name: Vec<u16> = text::utf16(x.name);
        proof {
            assert(e@[i as int].name@.len() <= 1000);
            lemma_units(x.name@);
            lemma_names(e@, i as nat);
        }
        let flags: u16 = if x.dir {
            DIR
        } else {
            0
        };
        let added = s.push(x.parent, name.as_slice(), x.bytes, x.bytes, flags);
        i += 1;
        assert(added is Ok);
        assert(s.nodes@ =~= table(e@).subrange(0, i as int));
    }
    assert(table(e@).subrange(0, e@.len() as int) =~= table(e@));
    let ghost before = s;
    let done = s.finish();
    proof {
        lemma_small(before, s, e@);
        assert(done is Ok);
    }
    s
}

pub open spec fn build_entries() -> Seq<Sample> {
    seq![
        Sample { parent: 0, name: "", bytes: 0, dir: true },
        Sample { parent: 0, name: "debug", bytes: 0, dir: true },
        Sample { parent: 1, name: "sample-app.exe", bytes: (2 * GIB) as u64, dir: false },
        Sample { parent: 1, name: "sample-app.pdb", bytes: GIB, dir: false },
        Sample { parent: 0, name: "release", bytes: 0, dir: true },
        Sample { parent: 4, name: "sample-app.exe", bytes: GIB, dir: false },
        Sample { parent: 0, name: "build.log", bytes: (24 * MIB) as u64, dir: false },
    ]
}

pub open spec fn cache_entries() -> Seq<Sample> {
    seq![
        Sample { parent: 0, name: "", bytes: 0, dir: true },
        Sample { parent: 0, name: "old-build.zip", bytes: GIB, dir: false },
        Sample { parent: 0, name: "build.json", bytes: (2 * MIB) as u64, dir: false },
    ]
}

pub open spec fn download_entries() -> Seq<Sample> {
    seq![Sample { parent: 0, name: "", bytes: (4 * GIB) as u64, dir: false }]
}

fn build_samples() -> (e: Vec<Sample>)
    ensures
        e@ == build_entries(),
        small(e@),
        bytes_to(e@, e@.len()) == 4 * GIB + 24 * MIB,
{
    let e: Vec<Sample> = vec![
        Sample { parent: 0, name: "", bytes: 0, dir: true },
        Sample { parent: 0, name: "debug", bytes: 0, dir: true },
        Sample { parent: 1, name: "sample-app.exe", bytes: 2 * GIB, dir: false },
        Sample { parent: 1, name: "sample-app.pdb", bytes: GIB, dir: false },
        Sample { parent: 0, name: "release", bytes: 0, dir: true },
        Sample { parent: 4, name: "sample-app.exe", bytes: GIB, dir: false },
        Sample { parent: 0, name: "build.log", bytes: 24 * MIB, dir: false },
    ];
    proof {
        reveal_strlit("");
        reveal_strlit("debug");
        reveal_strlit("sample-app.exe");
        reveal_strlit("sample-app.pdb");
        reveal_strlit("release");
        reveal_strlit("build.log");
        reveal_with_fuel(bytes_to, 8);
        assert(e@ =~= build_entries());
    }
    e
}

fn cache_samples() -> (e: Vec<Sample>)
    ensures
        e@ == cache_entries(),
        small(e@),
        bytes_to(e@, e@.len()) == GIB + 2 * MIB,
{
    let e: Vec<Sample> = vec![
        Sample { parent: 0, name: "", bytes: 0, dir: true },
        Sample { parent: 0, name: "old-build.zip", bytes: GIB, dir: false },
        Sample { parent: 0, name: "build.json", bytes: 2 * MIB, dir: false },
    ];
    proof {
        reveal_strlit("");
        reveal_strlit("old-build.zip");
        reveal_strlit("build.json");
        reveal_with_fuel(bytes_to, 4);
        assert(e@ =~= cache_entries());
    }
    e
}

fn download_samples() -> (e: Vec<Sample>)
    ensures
        e@ == download_entries(),
        small(e@),
        bytes_to(e@, e@.len()) == 4 * GIB,
{
    let e: Vec<Sample> = vec![Sample { parent: 0, name: "", bytes: 4 * GIB, dir: false }];
    proof {
        reveal_strlit("");
        reveal_with_fuel(bytes_to, 2);
        assert(e@ =~= download_entries());
    }
    e
}

/// A target as it would have been marked, with at most one note.
pub open spec fn marked(
    t: Target,
    id: u128,
    tree: Snapshot,
    reason: Seq<char>,
    note: Option<(Level, Seq<char>)>,
) -> bool {
    &&& t.id == id
    &&& t.path@ == tree.root@
    &&& t.reason@ == reason
    &&& t.marked_unix == 0
    &&& t.identity.volume == 0
    &&& t.identity.id@ == Seq::new(16, |i: int| 0u8)
    &&& t.identity.length == 0
    &&& t.identity.allocated == 0
    &&& t.identity.modified == 0
    &&& t.identity.attributes == 0
    &&& t.identity.links == 0
    &&& t.summary == plan::node_summary(tree, 0, 0)
    &&& t.git is None
    &&& match note {
        Some((level, words)) => t.alerts@.len() == 1 && plan::alert_of(level, words, t.alerts@[0]),
        None => t.alerts@.len() == 0,
    }
}

fn mark(id: u128, tree: &Snapshot, reason: &str, note: Option<(Level, &str)>) -> (t: Target)
    requires
        tree.nodes.len() > 0,
        tree.stats.errors == 0,
    ensures
        marked(
            t,
            id,
            *tree,
            reason@,
            match note {
                Some((level, words)) => Some((level, words@)),
                None => None,
            },
        ),
{
    let mut alerts: Vec<Alert> = Vec::new();
    match note {
        Some((level, words)) => {
            alerts.push(Alert { level, text: words.to_owned() });
        },
        None => {},
    }
    Target {
        id,
        path: tree.root.clone(),
        reason: reason.to_owned(),
        marked_unix: 0,
        identity: Identity::default(),
        summary: Summary::from_snapshot(tree),
        git: None,
        alerts,
    }
}

/// A volume that is full, or one with much space.
pub open spec fn sample_volume(v: VolumeInfo, root: Seq<char>, serial: u32, total: int, free: int) -> bool {
    &&& v.root@ == root
    &&& v.filesystem@ == "NTFS"@
    &&& v.serial == serial
    &&& v.total_bytes == total * GIB
    &&& v.free_bytes == free * GIB
    &&& v.device@.len() == 0
    &&& v.cluster_bytes == 0
}

fn volume(root: &str, serial: u32, total: u64, free: u64) -> (v: VolumeInfo)
    requires
        total <= 4096,
        free <= total,
    ensures
        sample_volume(v, root@, serial, total as int, free as int),
{
    let mut v: VolumeInfo = VolumeInfo::default();
    v.root = root.to_owned();
    v.filesystem = "NTFS".to_owned();
    v.serial = serial;
    v.total_bytes = total * GIB;
    v.free_bytes = free * GIB;
    v
}

/// A repository of which nothing is known but one risk.
pub open spec fn sample_audit(a: GitAudit) -> bool {
    &&& a.root@ == "D:\\Projects"@
    &&& text::views(a.risks@) == seq!["示例：未核实远端"@]
    &&& a.git_dir@.len() == 0
    &&& a.branch is None
    &&& !a.bare
    &&& !a.detached
    &&& a.modified == 0
    &&& a.staged == 0
    &&& a.untracked == 0
    &&& a.ignored == 0
    &&& a.conflicts == 0
    &&& a.stashes == 0
    &&& !a.remote_verified
    &&& !a.tracked_history_covered
    &&& !a.all_content_synced
    &&& a.remotes@.len() == 0
    &&& a.local_only_refs@.len() == 0
    &&& a.checked_unix == 0
}

/// One made-up target at its place in the review.
pub open spec fn shown_at(
    p: Prepared,
    i: int,
    root: Seq<char>,
    volume: int,
    e: Seq<Sample>,
    id: u128,
    reason: Seq<char>,
    note: Option<(Level, Seq<char>)>,
) -> bool {
    &&& p.targets@[i].tree.root@ == text::utf16_of(root)
    &&& p.targets@[i].tree.version == 3
    &&& p.targets@[i].tree.volume == p.volumes@[volume]
    &&& sample_stats(p.targets@[i].tree.stats, p.plan.created_unix)
    &&& grown(p.targets@[i].tree, e)
    &&& selection::selectable(p.targets@[i].tree.nodes@)
    &&& marked(p.targets@[i].target, id, p.targets@[i].tree, reason, note)
    &&& marked(p.plan.targets@[i], id, p.targets@[i].tree, reason, note)
}

/// Three made-up targets: a build with a note, a cache with a serious one, and a download
/// on another volume without any. One repository is not covered.
pub fn example_prepared(revision: u128, now: u64, ids: [u128; 3]) -> (p: Prepared)
    ensures
        p.sound(),
        p.deletable(),
        p.risky(),
        p.plan_path@ == "D:\\example-plan.json"@,
        p.plan.schema_version == 1,
        p.plan.revision == revision,
        p.plan.created_unix == now,
        p.plan.updated_unix == now,
        p.plan.targets@.len() == 3,
        p.targets@.len() == 3,
        shown_at(
            p,
            0,
            "D:\\Projects\\target"@,
            0,
            build_entries(),
            ids[0],
            "可重建的 Rust 编译产物"@,
            Some((Level::Warn, "示例：不确定是否仍用于本地调试；用户已确认可重建"@)),
        ),
        shown_at(
            p,
            1,
            "D:\\Cache\\build-history"@,
            0,
            cache_entries(),
            ids[1],
            "过期的构建缓存"@,
            Some((Level::Critical, "示例：无法核实其中是否含唯一产物，删除前请再确认一次"@)),
        ),
        shown_at(
            p,
            2,
            "C:\\Downloads\\archive.zip"@,
            1,
            download_entries(),
            ids[2],
            "已解压，确认不再需要"@,
            None,
        ),
        p.git@.len() == 1,
        sample_audit(p.git@[0]),
        p.problems@.len() == 0,
        p.volumes@.len() == 2,
        sample_volume(p.volumes@[0], "D:\\"@, 1, 200, 6),
        sample_volume(p.volumes@[1], "C:\\"@, 2, 2048, 1024),
        p.total_items == 11,
        p.allocated_upper_bound == 9 * GIB + 26 * MIB,
{
    let d: VolumeInfo = volume("D:\\", 1, 200, 6);
    let c: VolumeInfo = volume("C:\\", 2, 2048, 1024);
    let build: Snapshot = grow("D:\\Projects\\target", &d, now, &build_samples());
    let cache: Snapshot = grow("D:\\Cache\\build-history", &d, now, &cache_samples());
    let download: Snapshot = grow("C:\\Downloads\\archive.zip", &c, now, &download_samples());
    let warn = Some((Level::Warn, "示例：不确定是否仍用于本地调试；用户已确认可重建"));
    let critical = Some((Level::Critical, "示例：无法核实其中是否含唯一产物，删除前请再确认一次"));
    let mut plan: Plan = Plan::new(revision, now);
    let mut marks: Vec<Target> = Vec::new();
    marks.push(mark(ids[0], &build, "可重建的 Rust 编译产物", warn));
    marks.push(mark(ids[1], &cache, "过期的构建缓存", critical));
    marks.push(mark(ids[2], &download, "已解压，确认不再需要", None));
    plan.add_all(marks);
    let items: u64 = (build.nodes.len() + cache.nodes.len() + download.nodes.len()) as u64;
    let space: u64 = build.nodes[0].allocated + cache.nodes[0].allocated
        + download.nodes[0].allocated;
    let mut targets: Vec<PreparedTarget> = Vec::new();
    let first: Target = mark(ids[0], &build, "可重建的 Rust 编译产物", warn);
    targets.push(PreparedTarget { target: first, tree: build });
    let second: Target = mark(ids[1], &cache, "过期的构建缓存", critical);
    targets.push(PreparedTarget { target: second, tree: cache });
    let third: Target = mark(ids[2], &download, "已解压，确认不再需要", None);
    targets.push(PreparedTarget { target: third, tree: download });
    let mut audit: GitAudit = GitAudit::default();
    audit.root = "D:\\Projects".to_owned();
    audit.risks.push("示例：未核实远端".to_owned());
    let mut git: Vec<GitAudit> = Vec::new();
    git.push(audit);
    let mut volumes: Vec<VolumeInfo> = Vec::new();
    volumes.push(d);
    volumes.push(c);
    let p: Prepared = Prepared {
        plan_path: "D:\\example-plan.json".to_owned(),
        plan,
        targets,
        git,
        problems: Vec::new(),
        volumes,
        total_items: items,
        allocated_upper_bound: space,
    };
    assert(text::views(p.git@[0].risks@) =~= seq!["示例：未核实远端"@]);
    assert(p.git@[0].risky());
    p
}

} // verus!
