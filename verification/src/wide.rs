//! Names and paths as the system keeps them: UTF-16 units, of which nothing is lost where a
//! surrogate stands alone.
use crate::text;
use vstd::prelude::*;

verus! {

/// A name or a path in UTF-16 units.
#[derive(Debug, PartialEq, Eq)]
pub struct Wide {
    pub units: Vec<u16>,
}

impl View for Wide {
    type V = Seq<u16>;

    open spec fn view(&self) -> Seq<u16> {
        self.units@
    }
}

impl Clone for Wide {
    fn clone(&self) -> (r: Self)
        ensures
            r@ == self@,
    {
        let r = Wide { units: self.units.clone() };
        assert(r.units@ =~= self.units@);
        r
    }
}

impl Wide {
    /// What people read, with U+FFFD for every surrogate that stands alone.
    pub open spec fn words(&self) -> Seq<char> {
        text::utf16_text(self@)
    }

    pub fn new(units: Vec<u16>) -> (r: Wide)
        ensures
            r@ == units@,
    {
        Wide { units }
    }

    /// The units of a text, which reads the same.
    pub fn of(s: &str) -> (r: Wide)
        ensures
            r@ == text::utf16_of(s@),
            r.words() == s@,
    {
        proof {
            text::law_utf16_round_trip(s@);
        }
        Wide { units: text::utf16(s) }
    }

    pub fn to_text(&self) -> (r: String)
        ensures
            r@ == self.words(),
    {
        text::from_utf16(&self.units)
    }

    /// This path with another one pushed to its end.
    pub fn join(&self, name: &[u16]) -> (r: Wide)
        ensures
            r@ == pushed(self@, name@),
    {
        Wide { units: push(&self.units, name) }
    }
}

/// The units of a list.
pub open spec fn all_units(v: Seq<Wide>) -> Seq<Seq<u16>> {
    v.map_values(|w: Wide| w@)
}

/// A unit that separates the names of a path: a backslash, or a slash where it counts too.
pub open spec fn separates(u: u16, slash: bool) -> bool {
    u == 92 || (slash && u == 47)
}

/// Where the name that begins at `from` ends.
pub open spec fn name_end(p: Seq<u16>, from: int, slash: bool) -> int
    decreases p.len() - from,
{
    if from >= p.len() {
        p.len() as int
    } else if separates(p[from], slash) {
        from
    } else {
        name_end(p, from + 1, slash)
    }
}

/// Where the name that begins at `from` ends.
pub fn end_of_name(p: &[u16], from: usize, slash: bool) -> (r: usize)
    requires
        from <= p@.len(),
    ensures
        r == name_end(p@, from as int, slash),
        from <= r <= p@.len(),
{
    let mut i: usize = from;
    while i < p.len() && !(p[i] == 92 || (slash && p[i] == 47))
        invariant
            from <= i <= p@.len(),
            name_end(p@, i as int, slash) == name_end(p@, from as int, slash),
        decreases p@.len() - i,
    {
        i += 1;
    }
    i
}

/// How a path begins.
#[derive(Clone, Copy, Debug, PartialEq, Eq, Structural)]
pub enum Lead {
    /// With no prefix.
    Bare,
    /// With a drive, such as `C:`.
    Drive,
    /// With `\\?\`, after which nothing but backslashes counts.
    Verbatim,
    /// With a share, such as `\\server\share`, or a device, such as `\\.\COM1`.
    Other,
}

pub open spec fn is_letter(u: u16) -> bool {
    (65 <= u <= 90) || (97 <= u <= 122)
}

/// A drive stands at `at`.
pub open spec fn drive_at(p: Seq<u16>, at: int) -> bool {
    p.len() >= at + 2 && is_letter(p[at]) && p[at + 1] == 58
}

/// The end of two names from `at` on; the second may be missing.
pub open spec fn pair_end(p: Seq<u16>, at: int, slash: bool) -> int {
    let first = name_end(p, at, slash);
    let second = name_end(p, first + 1, slash);
    if first < p.len() && second > first + 1 {
        second
    } else {
        first
    }
}

pub open spec fn is_verbatim(p: Seq<u16>) -> bool {
    p.len() >= 4 && p[0] == 92 && p[1] == 92 && p[2] == 63 && p[3] == 92
}

/// A path that begins with `\\?\` and a share, such as `\\?\UNC\server\share`.
pub open spec fn long_share(p: Seq<u16>) -> bool {
    is_verbatim(p) && p.len() >= 8 && p[4] == 85 && p[5] == 78 && p[6] == 67 && separates(p[7], true)
}

/// A path that begins with `\\?\` and nothing but a drive, such as `\\?\C:`.
pub open spec fn long_drive(p: Seq<u16>) -> bool {
    is_verbatim(p) && drive_at(p, 4) && (p.len() == 6 || separates(p[6], true))
}

/// A path that begins with a device, such as `\\.\COM1`.
pub open spec fn is_device(p: Seq<u16>) -> bool {
    p.len() >= 4 && separates(p[0], true) && separates(p[1], true) && p[2] == 46 && separates(
        p[3],
        true,
    )
}

/// How a path begins, and how long that prefix is.
pub open spec fn lead_of(p: Seq<u16>) -> (Lead, int) {
    if is_verbatim(p) {
        (
            Lead::Verbatim,
            if long_share(p) {
                pair_end(p, 8, false)
            } else if long_drive(p) {
                6
            } else {
                name_end(p, 4, false)
            },
        )
    } else if p.len() >= 2 && separates(p[0], true) && separates(p[1], true) {
        let first = name_end(p, 2, true);
        let second = name_end(p, first + 1, true);
        if is_device(p) {
            (Lead::Other, name_end(p, 4, true))
        } else if first > 2 && first < p.len() && second > first + 1 {
            (Lead::Other, second)
        } else {
            (Lead::Bare, 0)
        }
    } else if drive_at(p, 0) {
        (Lead::Drive, 2)
    } else {
        (Lead::Bare, 0)
    }
}

fn letter(u: u16) -> (r: bool)
    ensures
        r == is_letter(u),
{
    (65 <= u && u <= 90) || (97 <= u && u <= 122)
}

fn end_of_pair(p: &[u16], at: usize, slash: bool) -> (r: usize)
    requires
        at <= p@.len(),
    ensures
        r == pair_end(p@, at as int, slash),
        at <= r <= p@.len(),
{
    let first: usize = end_of_name(p, at, slash);
    if first < p.len() {
        let second: usize = end_of_name(p, first + 1, slash);
        if second > first + 1 {
            return second;
        }
    }
    first
}

/// How a path begins, and how long that prefix is.
pub fn lead(p: &[u16]) -> (r: (Lead, usize))
    ensures
        r.0 == lead_of(p@).0,
        r.1 == lead_of(p@).1,
        r.1 <= p@.len(),
        is_verbatim(p@) || is_device(p@) ==> r.1 >= 4,
{
    let n: usize = p.len();
    if n >= 4 && p[0] == 92 && p[1] == 92 && p[2] == 63 && p[3] == 92 {
        let end: usize = if n >= 8 && p[4] == 85 && p[5] == 78 && p[6] == 67 && (p[7] == 92 || p[7]
            == 47) {
            end_of_pair(p, 8, false)
        } else if n >= 6 && letter(p[4]) && p[5] == 58 && (n == 6 || p[6] == 92 || p[6] == 47) {
            6
        } else {
            end_of_name(p, 4, false)
        };
        return (Lead::Verbatim, end);
    }
    if n >= 2 && (p[0] == 92 || p[0] == 47) && (p[1] == 92 || p[1] == 47) {
        if n >= 4 && p[2] == 46 && (p[3] == 92 || p[3] == 47) {
            return (Lead::Other, end_of_name(p, 4, true));
        }
        let first: usize = end_of_name(p, 2, true);
        if first > 2 && first < n {
            let second: usize = end_of_name(p, first + 1, true);
            if second > first + 1 {
                return (Lead::Other, second);
            }
        }
        return (Lead::Bare, 0);
    }
    if n >= 2 && letter(p[0]) && p[1] == 58 {
        return (Lead::Drive, 2);
    }
    (Lead::Bare, 0)
}

/// A path that names a drive and starts from its root, or a share, or a device.
pub open spec fn is_absolute(p: Seq<u16>) -> bool {
    match lead_of(p).0 {
        Lead::Bare => false,
        Lead::Drive => p.len() > 2 && separates(p[2], true),
        _ => true,
    }
}

pub fn starts_at_top(p: &[u16]) -> (r: bool)
    ensures
        r == is_absolute(p@),
{
    match lead(p).0 {
        Lead::Bare => false,
        Lead::Drive => p.len() > 2 && (p[2] == 92 || p[2] == 47),
        _ => true,
    }
}

/// The names from `from` on, without empty ones; `open` has been read already.
pub open spec fn names_from(p: Seq<u16>, from: int, open: Seq<u16>, slash: bool) -> Seq<Seq<u16>>
    decreases p.len() - from,
{
    let now = if open.len() > 0 {
        seq![open]
    } else {
        Seq::empty()
    };
    if from >= p.len() {
        now
    } else if separates(p[from], slash) {
        now + names_from(p, from + 1, Seq::empty(), slash)
    } else {
        names_from(p, from + 1, open.push(p[from]), slash)
    }
}

/// The units of a list of names.
pub open spec fn lists(v: Seq<Vec<u16>>) -> Seq<Seq<u16>> {
    v.map_values(|u: Vec<u16>| u@)
}

/// The names from `from` on, without empty ones.
pub fn split(p: &[u16], from: usize, slash: bool) -> (r: Vec<Vec<u16>>)
    requires
        from <= p@.len(),
    ensures
        lists(r@) == names_from(p@, from as int, Seq::empty(), slash),
{
    let ghost whole = names_from(p@, from as int, Seq::empty(), slash);
    let mut out: Vec<Vec<u16>> = Vec::new();
    let mut open: Vec<u16> = Vec::new();
    let mut i: usize = from;
    assert(open@ =~= Seq::<u16>::empty());
    assert(lists(out@) + whole =~= whole);
    while i < p.len()
        invariant
            from <= i <= p@.len(),
            lists(out@) + names_from(p@, i as int, open@, slash) == whole,
        decreases p@.len() - i,
    {
        let u: u16 = p[i];
        let ghost had = lists(out@);
        let ghost was = open@;
        if u == 92 || (slash && u == 47) {
            let ghost rest = names_from(p@, i + 1, Seq::empty(), slash);
            if open.len() > 0 {
                out.push(open);
                open = Vec::new();
                assert(lists(out@) =~= had.push(was));
                assert(had + (seq![was] + rest) =~= lists(out@) + rest);
            } else {
                assert(had + (Seq::<Seq<u16>>::empty() + rest) =~= had + rest);
            }
            assert(open@ =~= Seq::<u16>::empty());
        } else {
            open.push(u);
        }
        i += 1;
    }
    let ghost had = lists(out@);
    let ghost was = open@;
    if open.len() > 0 {
        out.push(open);
        assert(lists(out@) =~= had.push(was));
        assert(had + seq![was] =~= lists(out@));
    } else {
        assert(had + Seq::<Seq<u16>>::empty() =~= had);
    }
    out
}

pub open spec fn is_dot(n: Seq<u16>) -> bool {
    n.len() == 1 && n[0] == 46
}

pub open spec fn is_dots(n: Seq<u16>) -> bool {
    n.len() == 2 && n[0] == 46 && n[1] == 46
}

/// The names `buf` after the first `n` of the names `more`: a dot changes nothing, two dots
/// take the last name away.
pub open spec fn resolved(buf: Seq<Seq<u16>>, more: Seq<Seq<u16>>, n: nat) -> Seq<Seq<u16>>
    decreases n,
{
    if n == 0 {
        buf
    } else {
        let before = resolved(buf, more, (n - 1) as nat);
        let name = more[n - 1];
        if is_dot(name) {
            before
        } else if is_dots(name) {
            if before.len() > 0 && !is_dot(before.last()) && !is_dots(before.last()) {
                before.drop_last()
            } else {
                before
            }
        } else {
            before.push(name)
        }
    }
}

/// The first `n` names, each after a backslash but the first.
pub open spec fn strung(names: Seq<Seq<u16>>, n: nat) -> Seq<u16>
    decreases n,
{
    if n == 0 {
        Seq::empty()
    } else if n == 1 {
        names[0]
    } else {
        strung(names, (n - 1) as nat).push(92) + names[n - 1]
    }
}

/// Where the names of a path begin: behind its prefix, and behind the separator that makes it
/// start from a root.
pub open spec fn body_at(p: Seq<u16>) -> int {
    let n = lead_of(p).1;
    if n < p.len() && separates(p[n], true) {
        n + 1
    } else {
        n
    }
}

/// A path after `\\?\`, put together anew from its names and those of another.
pub open spec fn rebuilt(base: Seq<u16>, name: Seq<u16>) -> Seq<u16> {
    let n = lead_of(base).1;
    let anew = name.len() > 0 && separates(name[0], true);
    let rooted = anew || body_at(base) > n;
    let had = if anew {
        Seq::empty()
    } else {
        names_from(base, body_at(base), Seq::empty(), false)
    };
    let more = names_from(name, 0, Seq::empty(), true);
    let all = resolved(had, more, more.len());
    let front = base.subrange(0, n);
    (if rooted || all.len() > 0 {
        front.push(92)
    } else {
        front
    }) + strung(all, all.len())
}

/// `name` pushed to the end of `base`. One that has a prefix of its own takes the place of
/// `base`, one that begins with a separator the place of all but the prefix of `base`.
/// Behind `\\?\` single and double dots are resolved.
pub open spec fn pushed(base: Seq<u16>, name: Seq<u16>) -> Seq<u16> {
    let lead = lead_of(base);
    if lead_of(name).0 != Lead::Bare {
        name
    } else if lead.0 == Lead::Verbatim && name.len() > 0 {
        rebuilt(base, name)
    } else if name.len() > 0 && separates(name[0], true) {
        base.subrange(0, lead.1) + name
    } else if base.len() == 0 || separates(base.last(), true) || (lead.0 == Lead::Drive
        && base.len() == 2) {
        base + name
    } else {
        base.push(92) + name
    }
}

fn resolve(buf: Vec<Vec<u16>>, more: Vec<Vec<u16>>) -> (r: Vec<Vec<u16>>)
    ensures
        lists(r@) == resolved(lists(buf@), lists(more@), more@.len()),
{
    let ghost start = lists(buf@);
    let ghost all = lists(more@);
    let mut out: Vec<Vec<u16>> = buf;
    let mut i: usize = 0;
    while i < more.len()
        invariant
            i <= more@.len(),
            all == lists(more@),
            lists(out@) == resolved(start, all, i as nat),
        decreases more@.len() - i,
    {
        let ghost had = out@;
        let name: &Vec<u16> = &more[i];
        assert(all[i as int] == name@);
        assert(lists(had).len() == had.len());
        if name.len() == 1 && name[0] == 46 {
        } else if name.len() == 2 && name[0] == 46 && name[1] == 46 {
            let n: usize = out.len();
            if n > 0 {
                let last: &Vec<u16> = &out[n - 1];
                assert(lists(had).last() == last@);
                let dots: bool = (last.len() == 1 && last[0] == 46) || (last.len() == 2 && last[0]
                    == 46 && last[1] == 46);
                if !dots {
                    let _ = out.pop();
                    assert(lists(out@) =~= lists(had).drop_last());
                }
            }
        } else {
            let mut copy: Vec<u16> = Vec::new();
            copy.extend_from_slice(name.as_slice());
            assert(copy@ =~= name@);
            out.push(copy);
            assert(lists(out@) =~= lists(had).push(name@));
        }
        i += 1;
    }
    out
}

fn rebuild(base: &[u16], name: &[u16]) -> (r: Vec<u16>)
    requires
        name@.len() > 0,
    ensures
        r@ == rebuilt(base@, name@),
{
    let n: usize = lead(base).1;
    let anew: bool = name[0] == 92 || name[0] == 47;
    let root: bool = n < base.len() && (base[n] == 92 || base[n] == 47);
    let rooted: bool = anew || root;
    let had: Vec<Vec<u16>> = if anew {
        Vec::new()
    } else if root {
        split(base, n + 1, false)
    } else {
        split(base, n, false)
    };
    let more: Vec<Vec<u16>> = split(name, 0, true);
    proof {
        if anew {
            assert(lists(had@) =~= Seq::<Seq<u16>>::empty());
        }
        assert(lists(more@).len() == more@.len());
    }
    let all: Vec<Vec<u16>> = resolve(had, more);
    let ghost names = lists(all@);
    assert(names.len() == all@.len());
    let mut out: Vec<u16> = Vec::new();
    out.extend_from_slice(&base[0..n]);
    if rooted || all.len() > 0 {
        out.push(92);
    }
    let ghost front = out@;
    assert(front + Seq::<u16>::empty() =~= front);
    let mut i: usize = 0;
    while i < all.len()
        invariant
            i <= all@.len(),
            names == lists(all@),
            out@ == front + strung(names, i as nat),
        decreases all@.len() - i,
    {
        let ghost before = out@;
        assert(names[i as int] == all@[i as int]@);
        if i > 0 {
            out.push(92);
        }
        out.extend_from_slice(all[i].as_slice());
        i += 1;
        assert(out@ =~= front + strung(names, i as nat));
    }
    out
}

/// A path with another one pushed to its end.
pub fn push(base: &[u16], name: &[u16]) -> (r: Vec<u16>)
    ensures
        r@ == pushed(base@, name@),
{
    let mut out: Vec<u16> = Vec::new();
    match lead(name).0 {
        Lead::Bare => {},
        _ => {
            out.extend_from_slice(name);
            assert(out@ =~= name@);
            return out;
        },
    }
    let (kind, n): (Lead, usize) = lead(base);
    let some: bool = name.len() > 0;
    if some && matches!(kind, Lead::Verbatim) {
        return rebuild(base, name);
    }
    if some && (name[0] == 92 || name[0] == 47) {
        out.extend_from_slice(&base[0..n]);
        out.extend_from_slice(name);
        assert(out@ =~= base@.subrange(0, n as int) + name@);
        return out;
    }
    let total: usize = base.len();
    let open: bool = total == 0 || base[total - 1] == 92 || base[total - 1] == 47 || (matches!(
        kind,
        Lead::Drive
    ) && total == 2);
    out.extend_from_slice(base);
    if !open {
        out.push(92);
    }
    out.extend_from_slice(name);
    assert(out@ =~= pushed(base@, name@));
    out
}

/// The last of the first `n` names. Dots are no name; a single one is passed over where
/// `skip` says so.
pub open spec fn last_of(names: Seq<Seq<u16>>, n: nat, skip: bool) -> Seq<u16>
    decreases n,
{
    if n == 0 || is_dots(names[n - 1]) || (is_dot(names[n - 1]) && !skip) {
        Seq::empty()
    } else if is_dot(names[n - 1]) {
        last_of(names, (n - 1) as nat, skip)
    } else {
        names[n - 1]
    }
}

/// The last name of a path, behind its prefix, or nothing.
pub open spec fn file_name_of(p: Seq<u16>) -> Seq<u16> {
    let skip = lead_of(p).0 != Lead::Verbatim;
    let names = names_from(p, body_at(p), Seq::empty(), skip);
    last_of(names, names.len(), skip)
}

/// The last name of a path, or nothing.
pub fn file_name(p: &[u16]) -> (r: Vec<u16>)
    ensures
        r@ == file_name_of(p@),
{
    let (kind, n): (Lead, usize) = lead(p);
    let skip: bool = !matches!(kind, Lead::Verbatim);
    let from: usize = if n < p.len() && (p[n] == 92 || p[n] == 47) {
        n + 1
    } else {
        n
    };
    let names: Vec<Vec<u16>> = split(p, from, skip);
    let ghost all = lists(names@);
    assert(all.len() == names@.len());
    let mut out: Vec<u16> = Vec::new();
    let mut left: usize = names.len();
    assert(out@ =~= Seq::<u16>::empty());
    while left > 0
        invariant
            left <= names@.len(),
            all == lists(names@),
            out@ == Seq::<u16>::empty(),
            last_of(all, left as nat, skip) == file_name_of(p@),
        decreases left,
    {
        let name: &Vec<u16> = &names[left - 1];
        assert(all[left - 1] == name@);
        let dot: bool = name.len() == 1 && name[0] == 46;
        let dots: bool = name.len() == 2 && name[0] == 46 && name[1] == 46;
        if dots || (dot && !skip) {
            return out;
        }
        if !dot {
            out.extend_from_slice(name.as_slice());
            assert(out@ =~= name@);
            return out;
        }
        left -= 1;
    }
    out
}

/// A name that holds no separator and does not look like a drive is appended to a path that
/// ends in a separator, and to any other after a backslash, unless the path begins with
/// `\\?\` or is a bare drive.
pub proof fn law_names_are_appended(base: Seq<u16>, name: Seq<u16>)
    requires
        name.len() > 0,
        forall|i: int| 0 <= i < name.len() ==> !separates(#[trigger] name[i], true),
        !drive_at(name, 0),
        lead_of(base).0 != Lead::Verbatim,
        !(lead_of(base).0 == Lead::Drive && base.len() == 2),
    ensures
        pushed(base, name) == if base.len() == 0 || separates(base.last(), true) {
            base + name
        } else {
            base.push(92) + name
        },
{
    assert(!separates(name[0], true));
}

} // verus!
