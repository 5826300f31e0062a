//! Which way a scan takes.
use crate::model;
use crate::model::Snapshot;
use crate::text;
use vstd::prelude::*;
use vstd::string::*;

verus! {

#[derive(Clone, Copy, Debug, PartialEq, Eq, Structural)]
pub enum Backend {
    Auto,
    Ntfs,
    Refs,
    Fs,
}

#[derive(Clone, Copy, Debug, PartialEq, Eq, Structural)]
pub struct ScanOptions {
    pub backend: Backend,
    pub threads: usize,
    pub buffer_mib: usize,
    pub max_memory_mib: usize,
}

impl ScanOptions {
    /// The usual options on a machine with so many processors, if it tells how many.
    pub fn usual(processors: Option<usize>) -> (r: Self)
        ensures
            r.backend == Backend::Auto,
            r.buffer_mib == 8,
            r.max_memory_mib == 1024,
            r.threads == (match processors {
                None => 4,
                Some(n) => if n < 8 {
                    n
                } else {
                    8
                },
            }),
    {
        let threads: usize = match processors {
            None => 4,
            Some(n) => if n < 8 {
                n
            } else {
                8
            },
        };
        ScanOptions { backend: Backend::Auto, threads, buffer_mib: 8, max_memory_mib: 1024 }
    }

    /// The threads of a scan: at least one, at most 64.
    pub fn workers(&self) -> (r: usize)
        ensures
            r == (if self.threads < 1 {
                1
            } else if self.threads > 64 {
                64
            } else {
                self.threads as int
            }),
            1 <= r <= 64,
            1 <= self.threads <= 64 ==> r == self.threads,
    {
        if self.threads < 1 {
            1
        } else if self.threads > 64 {
            64
        } else {
            self.threads
        }
    }

    /// The memory that an index may take, in bytes.
    pub fn memory_limit(&self) -> (r: u64)
        ensures
            r == (if self.max_memory_mib * 1048576 <= u64::MAX {
                self.max_memory_mib * 1048576
            } else {
                u64::MAX as int
            }),
    {
        match (self.max_memory_mib as u64).checked_mul(1048576) {
            Some(n) => n,
            None => 0xffff_ffff_ffff_ffff,
        }
    }
}

/// Whether two texts are the same but for the case of English letters.
pub open spec fn same_ascii(a: Seq<char>, b: Seq<char>) -> bool {
    a.len() == b.len() && forall|i: int|
        0 <= i < a.len() ==> text::lower_ascii(#[trigger] a[i]) == text::lower_ascii(b[i])
}

pub fn eq_ignore_case(a: &str, b: &str) -> (r: bool)
    ensures
        r == same_ascii(a@, b@),
{
    let x: Vec<char> = text::chars_of(a);
    let y: Vec<char> = text::chars_of(b);
    if x.len() != y.len() {
        return false;
    }
    let mut i: usize = 0;
    while i < x.len()
        invariant
            i <= x@.len(),
            x@.len() == y@.len(),
            x@ == a@,
            y@ == b@,
            forall|k: int|
                0 <= k < i ==> text::lower_ascii(#[trigger] x@[k]) == text::lower_ascii(y@[k]),
        decreases x@.len() - i,
    {
        if text::to_lower_ascii(x[i]) != text::to_lower_ascii(y[i]) {
            assert(text::lower_ascii(a@[i as int]) != text::lower_ascii(b@[i as int]));
            return false;
        }
        i += 1;
    }
    true
}

pub open spec fn is_ntfs(filesystem: Seq<char>) -> bool {
    same_ascii(filesystem, "NTFS"@)
}

pub open spec fn is_refs(filesystem: Seq<char>) -> bool {
    same_ascii(filesystem, "ReFS"@)
}

/// Whether a scan reads the volume itself, which takes administrator rights. Only the walk
/// through directories that was asked for does not.
pub fn needs_administrator(backend: Backend, filesystem: &str) -> (r: bool)
    ensures
        r == (backend != Backend::Fs && (backend != Backend::Auto || is_ntfs(filesystem@)
            || is_refs(filesystem@))),
{
    if backend == Backend::Fs {
        false
    } else if backend != Backend::Auto {
        true
    } else {
        eq_ignore_case(filesystem, "NTFS") || eq_ignore_case(filesystem, "ReFS")
    }
}

/// What runs for a chosen backend on a filesystem; one that does not fit is refused.
pub open spec fn runs(backend: Backend, filesystem: Seq<char>) -> Result<Backend, Seq<char>> {
    match backend {
        Backend::Fs => Ok(Backend::Fs),
        Backend::Auto => Ok(
            if is_ntfs(filesystem) {
                Backend::Ntfs
            } else if is_refs(filesystem) {
                Backend::Refs
            } else {
                Backend::Fs
            },
        ),
        Backend::Ntfs => if is_ntfs(filesystem) {
            Ok(Backend::Ntfs)
        } else {
            Err("--backend ntfs requires NTFS; detected "@ + filesystem)
        },
        Backend::Refs => if is_refs(filesystem) {
            Ok(Backend::Refs)
        } else {
            Err("--backend refs requires ReFS; detected "@ + filesystem)
        },
    }
}

pub fn select_backend(backend: Backend, filesystem: &str) -> (r: Result<Backend, String>)
    ensures
        match (r, runs(backend, filesystem@)) {
            (Ok(b), Ok(c)) => b == c,
            (Err(t), Err(u)) => t@ == u,
            _ => false,
        },
{
    let ntfs: bool = eq_ignore_case(filesystem, "NTFS");
    let refs: bool = eq_ignore_case(filesystem, "ReFS");
    match backend {
        Backend::Fs => Ok(Backend::Fs),
        Backend::Auto => Ok(
            if ntfs {
                Backend::Ntfs
            } else if refs {
                Backend::Refs
            } else {
                Backend::Fs
            },
        ),
        Backend::Ntfs => if ntfs {
            Ok(Backend::Ntfs)
        } else {
            Err(text::glue("--backend ntfs requires NTFS; detected ", filesystem))
        },
        Backend::Refs => if refs {
            Ok(Backend::Refs)
        } else {
            Err(text::glue("--backend refs requires ReFS; detected ", filesystem))
        },
    }
}

/// What reads the index of a whole volume, if anything can.
pub fn volume_backend(filesystem: &str) -> (r: Result<Backend, String>)
    ensures
        match r {
            Ok(b) => b == (if is_ntfs(filesystem@) {
                Backend::Ntfs
            } else {
                Backend::Refs
            }) && (is_ntfs(filesystem@) || is_refs(filesystem@)),
            Err(t) => !is_ntfs(filesystem@) && !is_refs(filesystem@) && t@ == "no raw backend for "@
                + filesystem@,
        },
{
    if eq_ignore_case(filesystem, "NTFS") {
        Ok(Backend::Ntfs)
    } else if eq_ignore_case(filesystem, "ReFS") {
        Ok(Backend::Refs)
    } else {
        Err(text::glue("no raw backend for ", filesystem))
    }
}

/// What follows when a backend fails.
#[derive(Debug)]
pub enum AfterFailure {
    /// Walk through the directories instead, and put this remark into the result.
    Fallback(String),
    /// Fail, saying this first.
    Stop(&'static str),
}

/// Only a scan that may choose falls back, and says so; a chosen backend fails.
pub fn after_failure(backend: Backend, error: &str) -> (r: AfterFailure)
    ensures
        match r {
            AfterFailure::Fallback(t) => backend == Backend::Auto && t@
                == "FAST BACKEND FAILED; fs fallback: "@ + error@,
            AfterFailure::Stop(t) => t@ == (match backend {
                Backend::Ntfs => "strict Ntfs backend failed; no silent fallback"@,
                Backend::Refs => "strict Refs backend failed; no silent fallback"@,
                _ => "strict Fs backend failed; no silent fallback"@,
            }) && backend != Backend::Auto,
        },
{
    match backend {
        Backend::Auto => AfterFailure::Fallback(
            text::glue("FAST BACKEND FAILED; fs fallback: ", error),
        ),
        Backend::Ntfs => AfterFailure::Stop("strict Ntfs backend failed; no silent fallback"),
        Backend::Refs => AfterFailure::Stop("strict Refs backend failed; no silent fallback"),
        Backend::Fs => AfterFailure::Stop("strict Fs backend failed; no silent fallback"),
    }
}

/// A chosen backend never gives way to another one.
pub proof fn law_no_silent_fallback(backend: Backend, filesystem: Seq<char>)
    requires
        backend != Backend::Auto,
    ensures
        runs(backend, filesystem) matches Ok(b) ==> b == backend,
{
}

/// Notes how long a scan took and what memory it used.
pub fn record_effort(s: &mut Snapshot, elapsed_ms: u64, peak_bytes: u64)
    ensures
        final(s).version == old(s).version,
        final(s).root == old(s).root,
        final(s).volume == old(s).volume,
        final(s).nodes == old(s).nodes,
        final(s).names == old(s).names,
        final(s).stats.elapsed_ms == elapsed_ms,
        final(s).stats.peak_working_set_bytes == peak_bytes,
        exists|nodes: usize, names: usize| #[trigger]
            final(s).held_in(nodes, names) && final(s).stats.index_bytes == model::index_size_of(
                nodes as int,
                names as int,
            ),
        final(s).stats.index_bytes >= model::index_size_of(
            old(s).nodes@.len() as int,
            old(s).names@.len() as int,
        ),
        final(s).stats.backend == old(s).stats.backend,
        final(s).stats.started_unix == old(s).stats.started_unix,
        final(s).stats.threads == old(s).stats.threads,
        final(s).stats.records_read == old(s).stats.records_read,
        final(s).stats.raw_bytes_read == old(s).stats.raw_bytes_read,
        final(s).stats.errors == old(s).stats.errors,
        final(s).stats.complete == old(s).stats.complete,
        final(s).stats.warnings == old(s).stats.warnings,
{
    s.stats.elapsed_ms = elapsed_ms;
    s.stats.peak_working_set_bytes = peak_bytes;
    let ghost sized = *s;
    let used: u64 = s.index_bytes();
    s.stats.index_bytes = used;
    proof {
        let (nodes, names) = choose|nodes: usize, names: usize| #[trigger]
            sized.held_in(nodes, names) && used == model::index_size_of(
                nodes as int,
                names as int,
            );
        assert(s.held_in(nodes, names));
    }
}

/// The bytes that are read at a time: as many whole records as the buffer holds, and at
/// least one.
pub open spec fn batch_of(buffer_mib: int, record: int) -> int {
    let mib = if buffer_mib < 1 {
        1
    } else if buffer_mib > 64 {
        64
    } else {
        buffer_mib
    };
    let records = mib * 1048576 / record;
    if records < 1 {
        record
    } else {
        records * record
    }
}

/// The bytes that are read at a time.
pub fn batch_bytes(buffer_mib: usize, record: usize) -> (r: usize)
    requires
        record > 0,
    ensures
        r == batch_of(buffer_mib as int, record as int),
        r % record == 0,
        r > 0,
{
    let mib: usize = if buffer_mib < 1 {
        1
    } else if buffer_mib > 64 {
        64
    } else {
        buffer_mib
    };
    let records: usize = mib * 1048576 / record;
    proof {
        assert(records * record <= mib * 1048576) by (nonlinear_arith)
            requires
                records == (mib * 1048576) as int / record as int,
                record > 0,
        ;
        assert((records * record) % (record as int) == 0) by (nonlinear_arith)
            requires
                record > 0,
        ;
        assert(record as int % record as int == 0) by (nonlinear_arith)
            requires
                record > 0,
        ;
        assert(records >= 1 ==> records * record > 0) by (nonlinear_arith)
            requires
                record > 0,
        ;
    }
    if records < 1 {
        record
    } else {
        records * record
    }
}

/// Left to choose, a scan reads the file table of NTFS and the trees of ReFS, whatever the
/// case of the name, and walks through anything else.
pub proof fn law_the_filesystem_chooses_the_reader(filesystem: Seq<char>)
    ensures
        ({
            let f = filesystem;
            let ntfs = f.len() == 4 && (f[0] == 'N' || f[0] == 'n') && (f[1] == 'T' || f[1] == 't')
                && (f[2] == 'F' || f[2] == 'f') && (f[3] == 'S' || f[3] == 's');
            let refs = f.len() == 4 && (f[0] == 'R' || f[0] == 'r') && (f[1] == 'E' || f[1] == 'e')
                && (f[2] == 'F' || f[2] == 'f') && (f[3] == 'S' || f[3] == 's');
            &&& runs(Backend::Auto, f) == Ok::<Backend, Seq<char>>(
                if ntfs {
                    Backend::Ntfs
                } else if refs {
                    Backend::Refs
                } else {
                    Backend::Fs
                },
            )
            &&& runs(Backend::Ntfs, f) is Ok <==> ntfs
            &&& runs(Backend::Refs, f) is Ok <==> refs
            &&& runs(Backend::Fs, f) == Ok::<Backend, Seq<char>>(Backend::Fs)
        }),
{
    reveal_strlit("NTFS");
    reveal_strlit("ReFS");
    let f = filesystem;
    if f.len() == 4 {
        lemma_same_letter(f[0], 'N');
        lemma_same_letter(f[1], 'T');
        lemma_same_letter(f[2], 'F');
        lemma_same_letter(f[3], 'S');
        lemma_same_letter(f[0], 'R');
        lemma_same_letter(f[1], 'e');
        if is_ntfs(f) {
            assert(text::lower_ascii(f[0]) == text::lower_ascii("NTFS"@[0]));
            assert(text::lower_ascii(f[1]) == text::lower_ascii("NTFS"@[1]));
            assert(text::lower_ascii(f[2]) == text::lower_ascii("NTFS"@[2]));
            assert(text::lower_ascii(f[3]) == text::lower_ascii("NTFS"@[3]));
        }
        if is_refs(f) {
            assert(text::lower_ascii(f[0]) == text::lower_ascii("ReFS"@[0]));
            assert(text::lower_ascii(f[1]) == text::lower_ascii("ReFS"@[1]));
            assert(text::lower_ascii(f[2]) == text::lower_ascii("ReFS"@[2]));
            assert(text::lower_ascii(f[3]) == text::lower_ascii("ReFS"@[3]));
        }
    }
}

proof fn lemma_same_letter(c: char, d: char)
    requires
        'A' <= d <= 'Z' || 'a' <= d <= 'z',
    ensures
        text::lower_ascii(c) == text::lower_ascii(d) <==> c == d || ('A' <= d <= 'Z' && c as int
            == d as int + 32) || ('a' <= d <= 'z' && c as int == d as int - 32),
{
}

/// What is read of the file table at once is whole records, at least one, and no more than
/// 64 MiB where a record is less.
pub proof fn law_whole_records_are_read_at_once(buffer_mib: int, record: int)
    requires
        0 < record <= 65536,
    ensures
        batch_of(buffer_mib, record) >= record,
        batch_of(buffer_mib, record) <= 64 * 1048576,
        batch_of(buffer_mib, record) % record == 0,
        1 <= buffer_mib <= 64 ==> batch_of(buffer_mib, record) <= buffer_mib * 1048576 < batch_of(
            buffer_mib,
            record,
        ) + record,
{
    let mib = if buffer_mib < 1 {
        1
    } else if buffer_mib > 64 {
        64
    } else {
        buffer_mib
    };
    let x = mib * 1048576;
    let n = x / record;
    vstd::arithmetic::div_mod::lemma_fundamental_div_mod(x, record);
    assert(record * n == n * record) by (nonlinear_arith);
    assert(n >= 1) by (nonlinear_arith)
        requires
            x == record * n + x % record,
            x >= 1048576,
            record <= 65536,
            0 < record,
            x % record < record,
    ;
    assert(n * record >= record) by (nonlinear_arith)
        requires
            n >= 1,
            record > 0,
    ;
    vstd::arithmetic::div_mod::lemma_mod_multiples_basic(n, record);
}

} // verus!
