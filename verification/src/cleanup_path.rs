//! Which paths may be marked for removal: literal local paths outside protected places.
use crate::platform;
use crate::platform::Identity;
use crate::text;
use vstd::prelude::*;
use vstd::string::*;

verus! {

/// Why a path is no literal local path.
#[derive(Clone, Copy, Debug, PartialEq, Eq, Structural)]
pub enum PathFault {
    Nul,
    NotLocal,
    Glob,
    Stream,
    DriveRelative,
    EscapesRoot,
}

impl PathFault {
    pub fn message(self) -> (r: &'static str)
        ensures
            r@ == (match self {
                PathFault::Nul => "NUL in cleanup path"@,
                PathFault::NotLocal => "only local drive-letter paths are accepted for cleanup"@,
                PathFault::Glob => "cleanup targets are literal paths, never globs"@,
                PathFault::Stream => "alternate data streams/device names are not cleanup targets"@,
                PathFault::DriveRelative => "drive-relative paths such as C:foo are ambiguous"@,
                PathFault::EscapesRoot => "cleanup path escapes its root"@,
            }),
    {
        match self {
            PathFault::Nul => "NUL in cleanup path",
            PathFault::NotLocal => "only local drive-letter paths are accepted for cleanup",
            PathFault::Glob => "cleanup targets are literal paths, never globs",
            PathFault::Stream => "alternate data streams/device names are not cleanup targets",
            PathFault::DriveRelative => "drive-relative paths such as C:foo are ambiguous",
            PathFault::EscapesRoot => "cleanup path escapes its root",
        }
    }
}

pub open spec fn bare_of(s: Seq<char>) -> Seq<char> {
    let long = "\\\\?\\"@;
    if long.is_prefix_of(s) {
        s.subrange(long.len() as int, s.len() as int)
    } else {
        s
    }
}

pub open spec fn upper_ascii(c: char) -> char {
    if 'a' <= c && c <= 'z' {
        (c as u8 - 32) as u8 as char
    } else {
        c
    }
}

pub open spec fn uppered(s: Seq<char>) -> Seq<char> {
    s.map_values(|c: char| upper_ascii(c))
}

/// A colon anywhere but behind a drive letter.
pub open spec fn stray_colon(s: Seq<char>) -> bool {
    exists|i: int| 0 <= i < s.len() && i != 1 && #[trigger] s[i] == ':'
}

/// A drive letter and colon that no separator follows.
pub open spec fn drive_relative(s: Seq<char>) -> bool {
    s.len() >= 2 && s[0] < '\u{80}' && s[1] == ':' && !(s.len() >= 3 && platform::is_separator(
        s[2],
    ))
}

/// What keeps a given text from being a literal local path.
pub open spec fn literal_fault(input: Seq<char>) -> Option<PathFault> {
    let s = bare_of(input);
    if input.contains('\0') {
        Some(PathFault::Nul)
    } else if "\\\\"@.is_prefix_of(s) || "GLOBALROOT"@.is_prefix_of(uppered(s)) {
        Some(PathFault::NotLocal)
    } else if s.contains('*') || s.contains('?') {
        Some(PathFault::Glob)
    } else if stray_colon(s) {
        Some(PathFault::Stream)
    } else if drive_relative(s) {
        Some(PathFault::DriveRelative)
    } else {
        None
    }
}

fn holds(s: &Vec<char>, c: char) -> (r: bool)
    ensures
        r == s@.contains(c),
{
    let mut i: usize = 0;
    while i < s.len()
        invariant
            i <= s@.len(),
            forall|k: int| 0 <= k < i ==> #[trigger] s@[k] != c,
        decreases s@.len() - i,
    {
        if s[i] == c {
            return true;
        }
        i += 1;
    }
    false
}

fn has_stray_colon(s: &Vec<char>) -> (r: bool)
    ensures
        r == stray_colon(s@),
{
    let mut i: usize = 0;
    while i < s.len()
        invariant
            i <= s@.len(),
            forall|k: int| 0 <= k < i && k != 1 ==> #[trigger] s@[k] != ':',
        decreases s@.len() - i,
    {
        if i != 1 && s[i] == ':' {
            return true;
        }
        i += 1;
    }
    false
}

fn upper(s: &Vec<char>) -> (r: Vec<char>)
    ensures
        r@ == uppered(s@),
{
    let mut out: Vec<char> = Vec::new();
    let mut i: usize = 0;
    while i < s.len()
        invariant
            i <= s@.len(),
            out@ == uppered(s@.subrange(0, i as int)),
        decreases s@.len() - i,
    {
        let c: char = s[i];
        if 'a' <= c && c <= 'z' {
            out.push((c as u8 - 32) as char);
        } else {
            out.push(c);
        }
        i += 1;
        assert(out@ =~= uppered(s@.subrange(0, i as int)));
    }
    assert(s@.subrange(0, i as int) =~= s@);
    out
}

fn check_literal(input: &str) -> (r: Option<PathFault>)
    ensures
        r == literal_fault(input@),
{
    let all: Vec<char> = text::chars_of(input);
    if holds(&all, '\0') {
        return Some(PathFault::Nul);
    }
    let long: Vec<char> = text::chars_of("\\\\?\\");
    let s: Vec<char> = if text::begins(&all, &long) {
        text::part(&all, long.len(), all.len())
    } else {
        let n: usize = all.len();
        let copy: Vec<char> = text::part(&all, 0, n);
        assert(copy@ =~= all@);
        copy
    };
    if text::begins(&s, &text::chars_of("\\\\")) || text::begins(
        &upper(&s),
        &text::chars_of("GLOBALROOT"),
    ) {
        return Some(PathFault::NotLocal);
    }
    if holds(&s, '*') || holds(&s, '?') {
        return Some(PathFault::Glob);
    }
    if has_stray_colon(&s) {
        return Some(PathFault::Stream);
    }
    let n: usize = s.len();
    if n >= 2 && s[0] < '\u{80}' && s[1] == ':' && !(n >= 3 && (s[2] == '\\' || s[2] == '/')) {
        return Some(PathFault::DriveRelative);
    }
    None
}

/// The length of what comes before the first separator of an absolute path: a drive,
/// with or without the marker of extended-length paths, or nothing.
pub open spec fn head_len(p: Seq<char>) -> nat {
    let long = "\\\\?\\"@;
    let at = if long.is_prefix_of(p) {
        long.len()
    } else {
        0
    };
    if p.len() >= at + 2 && platform::is_letter(p[at as int]) && p[at as int + 1] == ':' {
        at + 2
    } else {
        at
    }
}

/// The top of the place that an absolute path lies in.
pub open spec fn top_of(p: Seq<char>) -> Seq<char> {
    let n = head_len(p) as int;
    if n < p.len() && platform::is_separator(p[n]) {
        p.subrange(0, n + 1)
    } else {
        p.subrange(0, n) + "\\"@
    }
}

/// The names below the top.
pub open spec fn names_of(p: Seq<char>) -> Seq<Seq<char>> {
    platform::pieces_of(p.subrange(head_len(p) as int, p.len() as int))
}

/// The path of the listed names below a top; the top's own separator is used throughout.
pub open spec fn placed(top: Seq<char>, names: Seq<Seq<char>>) -> Seq<char> {
    top + text::joined_by(names, seq![top.last()])
}

/// Takes double dots away together with the name before them.
pub open spec fn settled(names: Seq<Seq<char>>) -> Option<Seq<Seq<char>>>
    decreases names.len(),
{
    if names.len() == 0 {
        Some(Seq::empty())
    } else {
        match settled(names.drop_last()) {
            None => None,
            Some(front) => if names.last() == ".."@ {
                if front.len() == 0 {
                    None
                } else {
                    Some(front.drop_last())
                }
            } else {
                Some(front.push(names.last()))
            },
        }
    }
}

/// A path split into its top and the names below.
struct Split {
    top: String,
    names: Vec<String>,
}

fn head_length(c: &Vec<char>) -> (r: usize)
    ensures
        r == head_len(c@),
        r <= c@.len(),
{
    let long: Vec<char> = text::chars_of("\\\\?\\");
    let at: usize = if text::begins(c, &long) {
        long.len()
    } else {
        0
    };
    if c.len() - at >= 2 && (('a' <= c[at] && c[at] <= 'z') || ('A' <= c[at] && c[at] <= 'Z'))
        && c[at + 1] == ':' {
        at + 2
    } else {
        at
    }
}

fn split(p: &str) -> (r: Split)
    ensures
        r.top@ == top_of(p@),
        r.top@.len() > 0,
        text::views(r.names@) == names_of(p@),
{
    let c: Vec<char> = text::chars_of(p);
    let n: usize = head_length(&c);
    let top: String = if n < c.len() && (c[n] == '\\' || c[n] == '/') {
        text::text_of(&text::part(&c, 0, n + 1))
    } else {
        text::glue(&text::text_of(&text::part(&c, 0, n)), "\\")
    };
    proof {
        reveal_strlit("\\");
    }
    let rest: String = text::text_of(&text::part(&c, n, c.len()));
    Split { top, names: platform::pieces(&rest) }
}

fn place(top: &str, names: &Vec<String>) -> (r: String)
    requires
        top@.len() > 0,
    ensures
        r@ == placed(top@, text::views(names@)),
{
    let c: Vec<char> = text::chars_of(top);
    let mut sep: String = String::new();
    sep.push(c[c.len() - 1]);
    assert(sep@ =~= seq![top@.last()]);
    text::glue(top, &text::join_by(names, &sep))
}

/// What `absolute` comes to without dots and double dots.
pub open spec fn normal_path(absolute: Seq<char>) -> Option<Seq<char>> {
    match settled(names_of(absolute)) {
        Some(names) => Some(placed(top_of(absolute), names)),
        None => None,
    }
}

/// The literal absolute path of `input`, which the system resolves to `absolute`.
///
/// Device namespaces, streams, globs and drive-relative paths are refused up front.
pub fn literal_absolute(input: &str, absolute: &str) -> (r: Result<String, PathFault>)
    ensures
        match (literal_fault(input@), normal_path(absolute@)) {
            (Some(f), _) => r == Err::<String, PathFault>(f),
            (None, None) => r == Err::<String, PathFault>(PathFault::EscapesRoot),
            (None, Some(p)) => r matches Ok(s) && s@ == p,
        },
{
    if let Some(f) = check_literal(input) {
        return Err(f);
    }
    let at: Split = split(absolute);
    let ghost names = names_of(absolute@);
    let mut kept: Vec<String> = Vec::new();
    let mut i: usize = 0;
    assert(names.subrange(0, 0) =~= Seq::<Seq<char>>::empty());
    assert(text::views(kept@) =~= Seq::<Seq<char>>::empty());
    while i < at.names.len()
        invariant
            i <= at.names@.len(),
            names == text::views(at.names@),
            names == names_of(absolute@),
            literal_fault(input@) is None,
            settled(names.subrange(0, i as int)) == Some(text::views(kept@)),
        decreases at.names@.len() - i,
    {
        let ghost now = names.subrange(0, i + 1);
        let ghost had = text::views(kept@);
        proof {
            assert(now.drop_last() =~= names.subrange(0, i as int));
            assert(now.last() == at.names@[i as int]@);
        }
        if text::same(&at.names[i], "..") {
            if kept.len() == 0 {
                proof {
                    lemma_settled_none(names, i + 1);
                }
                return Err(PathFault::EscapesRoot);
            }
            let _ = kept.pop();
            assert(text::views(kept@) =~= had.drop_last());
        } else {
            kept.push(at.names[i].clone());
            assert(text::views(kept@) =~= had.push(now.last()));
        }
        i += 1;
    }
    assert(names.subrange(0, i as int) =~= names);
    Ok(place(&at.top, &kept))
}

proof fn lemma_settled_none(names: Seq<Seq<char>>, n: int)
    requires
        0 <= n <= names.len(),
        settled(names.subrange(0, n)) is None,
    ensures
        settled(names) is None,
    decreases names.len() - n,
{
    if n == names.len() {
        assert(names.subrange(0, n) =~= names);
    } else {
        let next = names.subrange(0, n + 1);
        assert(next.drop_last() =~= names.subrange(0, n));
        lemma_settled_none(names, n + 1);
    }
}

/// A path and everything it lies in, from the top down.
pub open spec fn lineage(p: Seq<char>) -> Seq<Seq<char>> {
    let names = names_of(p);
    Seq::new(names.len() + 1, |k: int| placed(top_of(p), names.subrange(0, k)))
}

/// The places to be looked at before `p` is touched: its ancestors, and `p` itself if
/// `leaf` is set. A top has no ancestors.
pub open spec fn guarded_by(p: Seq<char>, leaf: bool) -> Option<Seq<Seq<char>>> {
    if leaf {
        Some(lineage(p))
    } else if names_of(p).len() == 0 {
        None
    } else {
        Some(lineage(p).drop_last())
    }
}

fn first_names(v: &Vec<String>, n: usize) -> (r: Vec<String>)
    requires
        n <= v@.len(),
    ensures
        text::views(r@) == text::views(v@).subrange(0, n as int),
{
    let mut out: Vec<String> = Vec::new();
    let mut i: usize = 0;
    while i < n
        invariant
            i <= n <= v@.len(),
            text::views(out@) == text::views(v@).subrange(0, i as int),
        decreases n - i,
    {
        let ghost had = out@;
        out.push(v[i].clone());
        proof {
            assert(text::views(out@) =~= text::views(had).push(v@[i as int]@));
            assert(text::views(v@)[i as int] == v@[i as int]@);
            assert(text::views(out@) =~= text::views(v@).subrange(0, i + 1));
        }
        i += 1;
    }
    out
}

/// The ancestors of a path from the top down, with the path itself if `include_leaf`.
pub fn ancestors(path: &str, include_leaf: bool) -> (r: Option<Vec<String>>)
    ensures
        match (r, guarded_by(path@, include_leaf)) {
            (Some(v), Some(s)) => text::views(v@) == s,
            (None, None) => true,
            _ => false,
        },
{
    let at: Split = split(path);
    let n: usize = at.names.len();
    let ghost names = names_of(path@);
    assert(names.len() == n);
    if !include_leaf && n == 0 {
        return None;
    }
    let mut out: Vec<String> = Vec::new();
    let mut k: usize = 0;
    let ghost all = lineage(path@);
    while k < n
        invariant
            k <= n,
            n == at.names@.len(),
            names == names_of(path@),
            names == text::views(at.names@),
            at.top@ == top_of(path@),
            at.top@.len() > 0,
            all == lineage(path@),
            text::views(out@) == all.subrange(0, k as int),
        decreases n - k,
    {
        let ghost had = out@;
        let p: String = place(&at.top, &first_names(&at.names, k));
        out.push(p);
        proof {
            assert(text::views(out@) =~= text::views(had).push(p@));
            assert(text::views(out@) =~= all.subrange(0, k + 1));
        }
        k += 1;
    }
    if include_leaf {
        let ghost had = out@;
        let p: String = place(&at.top, &first_names(&at.names, n));
        out.push(p);
        proof {
            assert(text::views(out@) =~= text::views(had).push(p@));
            assert(text::views(out@) =~= all);
        }
    } else {
        assert(text::views(out@) =~= all.drop_last());
    }
    Some(out)
}

/// Why an ancestor stops a removal.
#[derive(Clone, Copy, Debug, PartialEq, Eq, Structural)]
pub enum AncestorFault {
    NoParent,
    /// The ancestor of this number could not be looked at.
    Unreadable(usize),
    /// The ancestor of this number leads elsewhere.
    Reparse(usize),
}

impl AncestorFault {
    pub fn message(self) -> (r: &'static str)
        ensures
            r@ == (match self {
                AncestorFault::NoParent => "target has no parent"@,
                AncestorFault::Unreadable(_) => "validate ancestor"@,
                AncestorFault::Reparse(_) => "refusing to traverse reparse-point ancestor"@,
            }),
    {
        match self {
            AncestorFault::NoParent => "target has no parent",
            AncestorFault::Unreadable(_) => "validate ancestor",
            AncestorFault::Reparse(_) => "refusing to traverse reparse-point ancestor",
        }
    }
}

pub open spec fn ancestor_fault(seen: Seq<Option<Identity>>, from: nat) -> Option<AncestorFault>
    decreases seen.len() - from,
{
    if from >= seen.len() {
        None
    } else {
        match seen[from as int] {
            None => Some(AncestorFault::Unreadable(from as usize)),
            Some(id) => if id.reparse() {
                Some(AncestorFault::Reparse(from as usize))
            } else {
                ancestor_fault(seen, from + 1)
            },
        }
    }
}

/// No way leads through a junction, link or mount point: judges what was seen of the
/// places that `ancestors` gives for a path. The path itself may be a link, which is then
/// removed as a leaf.
pub fn reject_reparse_ancestors(seen: Option<&[Option<Identity>]>) -> (r: Result<
    (),
    AncestorFault,
>)
    ensures
        r == (match seen {
            None => Err::<(), AncestorFault>(AncestorFault::NoParent),
            Some(s) => match ancestor_fault(s@, 0) {
                Some(f) => Err(f),
                None => Ok(()),
            },
        }),
{
    match seen {
        None => Err(AncestorFault::NoParent),
        Some(s) => {
            let mut i: usize = 0;
            while i < s.len()
                invariant
                    i <= s@.len(),
                    seen == Some(s),
                    ancestor_fault(s@, i as nat) == ancestor_fault(s@, 0),
                decreases s@.len() - i,
            {
                match &s[i] {
                    None => {
                        return Err(AncestorFault::Unreadable(i));
                    },
                    Some(id) => {
                        if id.is_reparse() {
                            return Err(AncestorFault::Reparse(i));
                        }
                    },
                }
                i += 1;
            }
            Ok(())
        },
    }
}

/// Names that the system or the volume manages at the top of a volume.
pub open spec fn managed_name(s: Seq<char>) -> bool {
    ||| s == "windows"@
    ||| s == "system volume information"@
    ||| s == "$recycle.bin"@
    ||| s == "$extend"@
    ||| s == "$mft"@
    ||| s == "$mftmirr"@
    ||| s == "$logfile"@
    ||| s == "$bitmap"@
    ||| s == "$boot"@
    ||| s == "$secure"@
    ||| s == "pagefile.sys"@
    ||| s == "hiberfil.sys"@
    ||| s == "swapfile.sys"@
    ||| s == "boot"@
    ||| s == "recovery"@
}

/// Names at the top of a volume that hold what belongs to users and programs.
pub open spec fn container_name(s: Seq<char>) -> bool {
    ||| s == "users"@
    ||| s == "program files"@
    ||| s == "program files (x86)"@
    ||| s == "programdata"@
}

fn is_managed(s: &str) -> (r: bool)
    ensures
        r == managed_name(s@),
{
    text::same(s, "windows")
        || text::same(s, "system volume information")
        || text::same(s, "$recycle.bin")
        || text::same(s, "$extend")
        || text::same(s, "$mft")
        || text::same(s, "$mftmirr")
        || text::same(s, "$logfile")
        || text::same(s, "$bitmap")
        || text::same(s, "$boot")
        || text::same(s, "$secure")
        || text::same(s, "pagefile.sys")
        || text::same(s, "hiberfil.sys")
        || text::same(s, "swapfile.sys")
        || text::same(s, "boot")
        || text::same(s, "recovery")
}

fn is_container(s: &str) -> (r: bool)
    ensures
        r == container_name(s@),
{
    text::same(s, "users")
        || text::same(s, "program files")
        || text::same(s, "program files (x86)")
        || text::same(s, "programdata")
}

/// The names of a path below its drive or share, in lower case.
pub open spec fn plain_names(p: Seq<char>) -> Seq<Seq<char>> {
    let d = platform::shown(p);
    lowered(
        if d.len() >= 2 && platform::is_separator(d[0]) && platform::is_separator(d[1]) {
            let all = platform::pieces_of(d);
            if all.len() >= 2 {
                all.subrange(2, all.len() as int)
            } else {
                Seq::empty()
            }
        } else {
            names_of(d)
        },
    )
}

/// The listed names in lower case, without double dots.
pub open spec fn lowered(names: Seq<Seq<char>>) -> Seq<Seq<char>>
    decreases names.len(),
{
    if names.len() == 0 {
        Seq::empty()
    } else if names.last() == ".."@ {
        lowered(names.drop_last())
    } else {
        lowered(names.drop_last()).push(text::lowercase(names.last()))
    }
}

fn lower_names(names: &Vec<String>, from: usize) -> (r: Vec<String>)
    requires
        from <= names@.len(),
    ensures
        text::views(r@) == lowered(text::views(names@).subrange(from as int, names@.len() as int)),
{
    let ghost all = text::views(names@);
    let mut out: Vec<String> = Vec::new();
    let mut i: usize = from;
    assert(all.subrange(from as int, from as int) =~= Seq::<Seq<char>>::empty());
    assert(text::views(out@) =~= Seq::<Seq<char>>::empty());
    while i < names.len()
        invariant
            from <= i <= names@.len(),
            all == text::views(names@),
            text::views(out@) == lowered(all.subrange(from as int, i as int)),
        decreases names@.len() - i,
    {
        let ghost now = all.subrange(from as int, i + 1);
        let ghost had = out@;
        proof {
            assert(now.drop_last() =~= all.subrange(from as int, i as int));
            assert(now.last() == names@[i as int]@);
        }
        if !text::same(&names[i], "..") {
            let low: String = text::to_lower(&names[i]);
            out.push(low);
            assert(text::views(out@) =~= text::views(had).push(low@));
        }
        i += 1;
    }
    out
}

fn plain(p: &str) -> (r: Vec<String>)
    ensures
        text::views(r@) == plain_names(p@),
{
    let d: String = platform::display_path(p);
    let c: Vec<char> = text::chars_of(&d);
    if c.len() >= 2 && (c[0] == '\\' || c[0] == '/') && (c[1] == '\\' || c[1] == '/') {
        let all: Vec<String> = platform::pieces(&d);
        assert(text::views(all@).len() == all@.len());
        if all.len() >= 2 {
            lower_names(&all, 2)
        } else {
            let none: Vec<String> = Vec::new();
            assert(text::views(none@) =~= Seq::<Seq<char>>::empty());
            none
        }
    } else {
        let at: Split = split(&d);
        proof {
            let v = text::views(at.names@);
            assert(v.subrange(0, at.names@.len() as int) =~= v);
        }
        lower_names(&at.names, 0)
    }
}

/// What must not go along with a target, and what must not go at all.
#[derive(Debug)]
pub struct Surroundings {
    /// The working directory, the running program and the plan.
    pub in_use: Vec<String>,
    /// The directories of the system.
    pub system: Vec<String>,
    /// The roots of profiles and programs.
    pub profiles: Vec<String>,
}

/// Why a path is protected.
#[derive(Clone, Copy, Debug, PartialEq, Eq, Structural)]
pub enum Protection {
    VolumeRoot,
    /// The target holds the place in use of this number.
    InUse(usize),
    SystemDirectory,
    ProfileRoot,
    InsideGit,
    Managed,
    ContainerRoot,
}

impl Protection {
    pub fn message(self) -> (r: &'static str)
        ensures
            r@ == (match self {
                Protection::VolumeRoot => "volume roots are protected"@,
                Protection::InUse(_) => "target contains the current workspace, running executable, or active plan"@,
                Protection::SystemDirectory => "Windows system directories are protected"@,
                Protection::ProfileRoot => "profile/application root is protected"@,
                Protection::InsideGit => "direct removal inside .git is forbidden; stage the entire repository instead"@,
                Protection::Managed => "OS/volume-managed paths are protected"@,
                Protection::ContainerRoot => "system container root is protected"@,
            }),
    {
        match self {
            Protection::VolumeRoot => "volume roots are protected",
            Protection::InUse(_) => "target contains the current workspace, running executable, or active plan",
            Protection::SystemDirectory => "Windows system directories are protected",
            Protection::ProfileRoot => "profile/application root is protected",
            Protection::InsideGit => "direct removal inside .git is forbidden; stage the entire repository instead",
            Protection::Managed => "OS/volume-managed paths are protected",
            Protection::ContainerRoot => "system container root is protected",
        }
    }
}

/// The first listed place that lies in `p`.
pub open spec fn first_inside(places: Seq<Seq<char>>, p: Seq<char>, from: nat) -> Option<usize>
    decreases places.len() - from,
{
    if from >= places.len() {
        None
    } else if platform::key_within(platform::key_of(places[from as int]), platform::key_of(p)) {
        Some(from as usize)
    } else {
        first_inside(places, p, from + 1)
    }
}

pub open spec fn inside_any(places: Seq<Seq<char>>, p: Seq<char>) -> bool {
    exists|i: int|
        0 <= i < places.len() && platform::key_within(
            platform::key_of(p),
            platform::key_of(#[trigger] places[i]),
        )
}

pub open spec fn is_any(places: Seq<Seq<char>>, p: Seq<char>) -> bool {
    exists|i: int|
        0 <= i < places.len() && platform::key_of(p) == platform::key_of(#[trigger] places[i])
}

/// What protects a path, if anything does.
pub open spec fn protected_by(
    p: Seq<char>,
    volume_root: Seq<char>,
    around: Surroundings,
) -> Option<Protection> {
    let names = plain_names(p);
    if platform::key_of(p) == platform::key_of(volume_root) {
        Some(Protection::VolumeRoot)
    } else if first_inside(text::views(around.in_use@), p, 0) is Some {
        Some(Protection::InUse(first_inside(text::views(around.in_use@), p, 0)->0))
    } else if inside_any(text::views(around.system@), p) {
        Some(Protection::SystemDirectory)
    } else if is_any(text::views(around.profiles@), p) {
        Some(Protection::ProfileRoot)
    } else if names.contains(".git"@) {
        Some(Protection::InsideGit)
    } else if names.len() > 0 && managed_name(names[0]) {
        Some(Protection::Managed)
    } else if names.len() == 1 && container_name(names[0]) {
        Some(Protection::ContainerRoot)
    } else {
        None
    }
}

fn find_inside(places: &Vec<String>, p: &str) -> (r: Option<usize>)
    ensures
        r == first_inside(text::views(places@), p@, 0),
{
    let mut i: usize = 0;
    let ghost all = text::views(places@);
    while i < places.len()
        invariant
            i <= places@.len(),
            all == text::views(places@),
            first_inside(all, p@, i as nat) == first_inside(all, p@, 0),
        decreases places@.len() - i,
    {
        assert(all[i as int] == places@[i as int]@);
        if platform::within(&places[i], p) {
            return Some(i);
        }
        i += 1;
    }
    None
}

fn lies_in_any(places: &Vec<String>, p: &str) -> (r: bool)
    ensures
        r == inside_any(text::views(places@), p@),
{
    let mut i: usize = 0;
    let ghost all = text::views(places@);
    while i < places.len()
        invariant
            i <= places@.len(),
            all == text::views(places@),
            forall|k: int|
                0 <= k < i ==> !platform::key_within(
                    platform::key_of(p@),
                    platform::key_of(#[trigger] all[k]),
                ),
        decreases places@.len() - i,
    {
        assert(all[i as int] == places@[i as int]@);
        if platform::within(p, &places[i]) {
            return true;
        }
        i += 1;
    }
    false
}

fn equals_any(places: &Vec<String>, p: &str) -> (r: bool)
    ensures
        r == is_any(text::views(places@), p@),
{
    let key: String = platform::path_key(p);
    let mut i: usize = 0;
    let ghost all = text::views(places@);
    while i < places.len()
        invariant
            i <= places@.len(),
            all == text::views(places@),
            key@ == platform::key_of(p@),
            forall|k: int|
                0 <= k < i ==> platform::key_of(p@) != platform::key_of(#[trigger] all[k]),
        decreases places@.len() - i,
    {
        assert(all[i as int] == places@[i as int]@);
        if text::same(&key, &platform::path_key(&places[i])) {
            return true;
        }
        i += 1;
    }
    false
}

fn names_git(names: &Vec<String>) -> (r: bool)
    ensures
        r == text::views(names@).contains(".git"@),
{
    let mut i: usize = 0;
    let ghost all = text::views(names@);
    while i < names.len()
        invariant
            i <= names@.len(),
            all == text::views(names@),
            forall|k: int| 0 <= k < i ==> #[trigger] all[k] != ".git"@,
        decreases names@.len() - i,
    {
        assert(all[i as int] == names@[i as int]@);
        if text::same(&names[i], ".git") {
            return true;
        }
        i += 1;
    }
    false
}

/// What protects the canonical path of a target on a volume, if anything does.
pub fn protection(canonical: &str, volume_root: &str, around: &Surroundings) -> (r: Option<
    Protection,
>)
    ensures
        r == protected_by(canonical@, volume_root@, *around),
{
    if text::same(&platform::path_key(canonical), &platform::path_key(volume_root)) {
        return Some(Protection::VolumeRoot);
    }
    if let Some(i) = find_inside(&around.in_use, canonical) {
        return Some(Protection::InUse(i));
    }
    if lies_in_any(&around.system, canonical) {
        return Some(Protection::SystemDirectory);
    }
    if equals_any(&around.profiles, canonical) {
        return Some(Protection::ProfileRoot);
    }
    let names: Vec<String> = plain(canonical);
    assert(text::views(names@).len() == names@.len());
    if names_git(&names) {
        return Some(Protection::InsideGit);
    }
    if names.len() > 0 {
        assert(text::views(names@)[0] == names@[0]@);
        if is_managed(&names[0]) {
            return Some(Protection::Managed);
        }
        if names.len() == 1 && is_container(&names[0]) {
            return Some(Protection::ContainerRoot);
        }
    }
    None
}

/// What is not protected is no volume root, holds nothing that is in use, and lies neither
/// in a system directory nor in a repository's own data.
pub proof fn law_unprotected_is_apart(p: Seq<char>, volume_root: Seq<char>, around: Surroundings)
    ensures
        protected_by(p, volume_root, around) is None ==> {
            &&& platform::key_of(p) != platform::key_of(volume_root)
            &&& forall|i: int|
                0 <= i < around.in_use@.len() ==> !platform::key_within(
                    platform::key_of((#[trigger] around.in_use@[i])@),
                    platform::key_of(p),
                )
            &&& forall|i: int|
                0 <= i < around.system@.len() ==> !platform::key_within(
                    platform::key_of(p),
                    platform::key_of((#[trigger] around.system@[i])@),
                )
            &&& forall|i: int|
                0 <= i < around.profiles@.len() ==> platform::key_of(p) != platform::key_of(
                    (#[trigger] around.profiles@[i])@,
                )
            &&& !plain_names(p).contains(".git"@)
        },
{
    if protected_by(p, volume_root, around) is None {
        let in_use = text::views(around.in_use@);
        assert forall|i: int| 0 <= i < around.in_use@.len() implies !platform::key_within(
            platform::key_of((#[trigger] around.in_use@[i])@),
            platform::key_of(p),
        ) by {
            lemma_first_inside(in_use, p, 0, i);
            assert(in_use[i] == around.in_use@[i]@);
        }
        assert forall|i: int| 0 <= i < around.system@.len() implies !platform::key_within(
            platform::key_of(p),
            platform::key_of((#[trigger] around.system@[i])@),
        ) by {
            assert(text::views(around.system@)[i] == around.system@[i]@);
        }
        assert forall|i: int| 0 <= i < around.profiles@.len() implies platform::key_of(p)
            != platform::key_of((#[trigger] around.profiles@[i])@) by {
            assert(text::views(around.profiles@)[i] == around.profiles@[i]@);
        }
    }
}

proof fn lemma_first_inside(places: Seq<Seq<char>>, p: Seq<char>, from: nat, i: int)
    requires
        first_inside(places, p, from) is None,
        from <= i < places.len(),
    ensures
        !platform::key_within(platform::key_of(places[i]), platform::key_of(p)),
    decreases places.len() - from,
{
    if i > from {
        lemma_first_inside(places, p, from + 1, i);
    }
}

/// A path that is taken literally holds no zero, no wildcard, and no colon but behind the
/// letter of a drive, is on no share or device, and does not depend on where a drive stands.
pub proof fn law_literal_paths_are_plain(input: Seq<char>)
    requires
        literal_fault(input) is None,
    ensures
        ({
            let s = bare_of(input);
            &&& !input.contains('\0')
            &&& forall|i: int|
                0 <= i < s.len() ==> (#[trigger] s[i]) != '*' && s[i] != '?' && (s[i] == ':' ==> i
                    == 1)
            &&& s.len() >= 2 && s[0] == '\\' ==> s[1] != '\\'
            &&& s.len() == 2 && s[1] == ':' ==> s[0] as int >= 0x80
            &&& s.len() >= 3 && s[1] == ':' && (s[0] as int) < 0x80 ==> s[2] == '\\' || s[2] == '/'
        }),
{
    let s = bare_of(input);
    reveal_strlit("\\\\");
    assert forall|i: int| 0 <= i < s.len() implies (#[trigger] s[i]) != '*' && s[i] != '?' && (s[i]
        == ':' ==> i == 1) by {
        assert(s.contains(s[i]));
    }
    if s.len() >= 2 && s[0] == '\\' && s[1] == '\\' {
        assert("\\\\"@ =~= s.subrange(0, 2));
    }
}

/// The steps back are gone from a settled path, each with the name before it; a path without
/// any stays as it is, and one that leads above its root is refused.
pub proof fn law_settled_paths_have_no_steps_back(names: Seq<Seq<char>>)
    ensures
        settled(names) is Some ==> !(settled(names)->0).contains(".."@),
        !names.contains(".."@) ==> settled(names) == Some(names),
        names.len() > 0 && names[0] == ".."@ ==> settled(names) is None,
        settled(names) is Some ==> (settled(names)->0).len() <= names.len(),
    decreases names.len(),
{
    if names.len() > 0 {
        let rest = names.drop_last();
        law_settled_paths_have_no_steps_back(rest);
        if settled(names) is Some {
            let front = settled(rest)->0;
            let now = settled(names)->0;
            if now.contains(".."@) {
                let k = now.index_of(".."@);
                if k < front.len() {
                    assert(front[k] == ".."@);
                }
            }
        }
        if !names.contains(".."@) {
            assert(!rest.contains(".."@)) by {
                if rest.contains(".."@) {
                    let k = rest.index_of(".."@);
                    assert(names[k] == ".."@);
                }
            }
            assert(names[names.len() - 1] != ".."@);
            assert(rest.push(names.last()) =~= names);
        }
        if names[0] == ".."@ && names.len() == 1 {
            assert(settled(rest) == Some(Seq::<Seq<char>>::empty()));
        } else if names[0] == ".."@ {
            assert(rest[0] == names[0]);
        }
    }
}

/// A name followed by a step back comes to nothing.
pub proof fn law_a_step_back_undoes_a_name(names: Seq<Seq<char>>, name: Seq<char>)
    requires
        name != ".."@,
    ensures
        settled(names.push(name).push(".."@)) == settled(names),
{
    let one = names.push(name);
    reveal_with_fuel(settled, 3);
    assert(one.drop_last() =~= names);
    assert(one.last() == name);
    assert(one.push(".."@).last() == ".."@);
    assert(one.push(".."@).drop_last() =~= one);
    if settled(names) is Some {
        assert((settled(names)->0).push(name).drop_last() =~= settled(names)->0);
    }
}

/// A path passes only if every place that was looked at could be read and leads nowhere
/// else.
pub proof fn law_no_ancestor_leads_elsewhere(seen: Seq<Option<Identity>>, from: nat)
    requires
        seen.len() <= usize::MAX,
    ensures
        ancestor_fault(seen, from) is None <==> forall|i: int|
            from <= i < seen.len() ==> (#[trigger] seen[i]) is Some && seen[i]->0.attributes & 0x400
                == 0,
        ancestor_fault(seen, from) matches Some(AncestorFault::Reparse(i)) ==> i < seen.len()
            && seen[i as int] is Some && seen[i as int]->0.attributes & 0x400 != 0,
        ancestor_fault(seen, from) matches Some(AncestorFault::Unreadable(i)) ==> i < seen.len()
            && seen[i as int] is None,
    decreases seen.len() - from,
{
    if from < seen.len() {
        law_no_ancestor_leads_elsewhere(seen, from + 1);
    }
}

/// Anything in the system's own folders at the root of a volume, anything in a repository's
/// own folder, and the folders that hold users and programs are protected.
pub proof fn law_folders_of_the_system_are_protected(
    p: Seq<char>,
    volume_root: Seq<char>,
    around: Surroundings,
)
    ensures
        ({
            let n = plain_names(p);
            let s = protected_by(p, volume_root, around) is Some;
            &&& n.contains(".git"@) ==> s
            &&& n.len() > 0 && (n[0] == "windows"@ || n[0] == "system volume information"@ || n[0]
                == "$recycle.bin"@ || n[0] == "$extend"@ || n[0] == "$mft"@ || n[0] == "$mftmirr"@
                || n[0] == "$logfile"@ || n[0] == "$bitmap"@ || n[0] == "$boot"@ || n[0]
                == "$secure"@ || n[0] == "pagefile.sys"@ || n[0] == "hiberfil.sys"@ || n[0]
                == "swapfile.sys"@ || n[0] == "boot"@ || n[0] == "recovery"@) ==> s
            &&& n.len() == 1 && (n[0] == "users"@ || n[0] == "program files"@ || n[0]
                == "program files (x86)"@ || n[0] == "programdata"@) ==> s
            &&& platform::key_of(p) == platform::key_of(volume_root) ==> s
            &&& forall|i: int|
                0 <= i < around.in_use@.len() && platform::key_within(
                    platform::key_of((#[trigger] around.in_use@[i])@),
                    platform::key_of(p),
                ) ==> s
            &&& forall|i: int|
                0 <= i < around.system@.len() && platform::key_within(
                    platform::key_of(p),
                    platform::key_of((#[trigger] around.system@[i])@),
                ) ==> s
            &&& forall|i: int|
                0 <= i < around.profiles@.len() && platform::key_of(p) == platform::key_of(
                    (#[trigger] around.profiles@[i])@,
                ) ==> s
        }),
{
    law_unprotected_is_apart(p, volume_root, around);
}

/// A path apart from all of that is not protected.
pub proof fn law_ordinary_places_are_not_protected(
    p: Seq<char>,
    volume_root: Seq<char>,
    around: Surroundings,
)
    requires
        platform::key_of(p) != platform::key_of(volume_root),
        around.in_use@.len() == 0,
        around.system@.len() == 0,
        around.profiles@.len() == 0,
        !plain_names(p).contains(".git"@),
        plain_names(p).len() > 1,
        !managed_name(plain_names(p)[0]),
    ensures
        protected_by(p, volume_root, around) is None,
{
}

/// The places that are looked at are the root of the path and every folder on the way, each
/// the one before it and one name more, and the path itself where that is asked for.
pub proof fn law_every_folder_on_the_way_is_looked_at(p: Seq<char>, leaf: bool)
    requires
        guarded_by(p, leaf) is Some,
    ensures
        ({
            let places = guarded_by(p, leaf)->0;
            let names = names_of(p);
            &&& places.len() == (if leaf {
                names.len() + 1
            } else {
                names.len()
            })
            &&& places.len() > 0
            &&& places[0] == top_of(p) + text::joined_by(Seq::empty(), seq![top_of(p).last()])
            &&& forall|k: int|
                0 <= k < places.len() ==> #[trigger] places[k] == top_of(p) + text::joined_by(
                    names.subrange(0, k),
                    seq![top_of(p).last()],
                )
        }),
{
    assert(names_of(p).subrange(0, 0) =~= Seq::<Seq<char>>::empty());
}

/// The mark of a long path does not count; a path without it stays as it is.
pub proof fn law_the_mark_of_long_paths_does_not_count(s: Seq<char>)
    ensures
        bare_of("\\\\?\\"@ + s) == s,
        !"\\\\?\\"@.is_prefix_of(s) ==> bare_of(s) == s,
        literal_fault("\\\\?\\"@ + s) is None ==> !s.contains('\0') && !s.contains('*')
            && !s.contains('?'),
{
    let long = "\\\\?\\"@;
    let all = long + s;
    assert(all.subrange(0, long.len() as int) =~= long);
    assert(all.subrange(long.len() as int, all.len() as int) =~= s);
    if s.contains('\0') {
        let i = choose|i: int| 0 <= i < s.len() && s[i] == '\0';
        assert(all[long.len() + i] == '\0');
        assert(all.contains('\0'));
    }
}

} // verus!
