//! Plain descriptions of volumes and files, and the path rules shared by every module.
use crate::text;
use crate::wide;
use crate::wide::Wide;
use vstd::prelude::*;
use vstd::string::*;

verus! {

/// What is known of the volume a path lives on.
#[derive(Debug)]
pub struct VolumeInfo {
    pub root: String,
    pub device: String,
    pub filesystem: String,
    pub serial: u32,
    pub total_bytes: u64,
    pub free_bytes: u64,
    pub cluster_bytes: u32,
}

impl Default for VolumeInfo {
    fn default() -> (v: Self)
        ensures
            v.root@ == Seq::<char>::empty(),
            v.device@ == Seq::<char>::empty(),
            v.filesystem@ == Seq::<char>::empty(),
            v.serial == 0,
            v.total_bytes == 0,
            v.free_bytes == 0,
            v.cluster_bytes == 0,
    {
        VolumeInfo {
            root: String::new(),
            device: String::new(),
            filesystem: String::new(),
            serial: 0,
            total_bytes: 0,
            free_bytes: 0,
            cluster_bytes: 0,
        }
    }
}

impl Clone for VolumeInfo {
    fn clone(&self) -> (v: Self)
        ensures
            v == *self,
    {
        VolumeInfo {
            root: self.root.clone(),
            device: self.device.clone(),
            filesystem: self.filesystem.clone(),
            serial: self.serial,
            total_bytes: self.total_bytes,
            free_bytes: self.free_bytes,
            cluster_bytes: self.cluster_bytes,
        }
    }
}

/// The Unix time in milliseconds of a Windows file time, which counts tenths of
/// microseconds from 1601; a file time that is not positive tells nothing.
pub open spec fn unix_ms(raw: i64) -> Option<i64> {
    if raw <= 0 {
        None
    } else {
        Some((raw as int / 10_000 - 11_644_473_600_000) as i64)
    }
}

pub fn modified_unix_ms(raw: i64) -> (r: Option<i64>)
    ensures
        r == unix_ms(raw),
{
    if raw <= 0 {
        None
    } else {
        Some(raw / 10_000 - 11_644_473_600_000)
    }
}

/// The Unix time in milliseconds of a Unix time in seconds.
pub fn portable_unix_ms(seconds: i64) -> (r: Option<i64>)
    ensures
        r == if i64::MIN <= seconds * 1000 <= i64::MAX {
            Some((seconds * 1000) as i64)
        } else {
            None
        },
{
    seconds.checked_mul(1000)
}

/// The UTF-16 units of a file name.
pub fn encode_name(s: &Wide) -> (r: Vec<u16>)
    ensures
        r@ == s@,
{
    s.clone().units
}

/// The file name of UTF-16 units, all of which it keeps.
pub fn decode_name(s: &[u16]) -> (r: Wide)
    ensures
        r@ == s@,
{
    let mut units: Vec<u16> = Vec::new();
    units.extend_from_slice(s);
    assert(units@ =~= s@);
    Wide { units }
}

/// A path as people write it, without the marker of extended-length paths.
pub open spec fn shown(p: Seq<char>) -> Seq<char> {
    let unc = "\\\\?\\UNC\\"@;
    let long = "\\\\?\\"@;
    if unc.is_prefix_of(p) {
        "\\\\"@ + p.subrange(unc.len() as int, p.len() as int)
    } else if long.is_prefix_of(p) {
        p.subrange(long.len() as int, p.len() as int)
    } else {
        p
    }
}

pub fn display_path(p: &str) -> (r: String)
    ensures
        r@ == shown(p@),
{
    let chars: Vec<char> = text::chars_of(p);
    let unc: Vec<char> = text::chars_of("\\\\?\\UNC\\");
    let long: Vec<char> = text::chars_of("\\\\?\\");
    if text::begins(&chars, &unc) {
        let rest: Vec<char> = text::part(&chars, unc.len(), chars.len());
        text::glue("\\\\", &text::text_of(&rest))
    } else if text::begins(&chars, &long) {
        let rest: Vec<char> = text::part(&chars, long.len(), chars.len());
        text::text_of(&rest)
    } else {
        p.to_owned()
    }
}

/// The form in which paths are compared: separators unified, none at the end, lower case.
pub open spec fn key_of(p: Seq<char>) -> Seq<char> {
    text::lowercase(text::trimmed_end(text::swapped(shown(p), '/', '\\'), '\\'))
}

pub fn path_key(p: &str) -> (r: String)
    ensures
        r@ == key_of(p@),
{
    let shown_path = display_path(p);
    let chars: Vec<char> = text::chars_of(&shown_path);
    let unified: Vec<char> = text::swap_char(&chars, '/', '\\');
    let bare: Vec<char> = text::trim_end(&unified, '\\');
    text::to_lower(&text::text_of(&bare))
}

/// `p` is `r`, or continues `r` after a separator.
pub open spec fn key_within(p: Seq<char>, r: Seq<char>) -> bool {
    p == r || (r.is_prefix_of(p) && r.len() < p.len() && p[r.len() as int] == '\\')
}

/// Comparisons go by components: `C:\foobar` is not within `C:\foo`.
pub fn within(path: &str, parent: &str) -> (b: bool)
    ensures
        b == key_within(key_of(path@), key_of(parent@)),
{
    let p: Vec<char> = text::chars_of(&path_key(path));
    let r: Vec<char> = text::chars_of(&path_key(parent));
    if text::begins(&p, &r) {
        if p.len() == r.len() {
            assert(p@ =~= r@);
            true
        } else {
            p[r.len()] == '\\'
        }
    } else {
        assert(p@ != r@) by {
            if p@ == r@ {
                assert(r@ =~= p@.subrange(0, r@.len() as int));
            }
        }
        false
    }
}

/// What lies within a path that lies within another lies within that other.
pub proof fn law_within_is_transitive(a: Seq<char>, b: Seq<char>, c: Seq<char>)
    requires
        key_within(a, b),
        key_within(b, c),
    ensures
        key_within(a, c),
        key_within(a, a),
{
    if a != b && b != c {
        assert(c =~= a.subrange(0, c.len() as int)) by {
            assert forall|i: int| 0 <= i < c.len() implies c[i] == a[i] by {
                assert(b.subrange(0, c.len() as int)[i] == c[i]);
                assert(a.subrange(0, b.len() as int)[i] == b[i]);
            }
        }
        assert(a.subrange(0, b.len() as int)[c.len() as int] == b[c.len() as int]);
    }
}

pub open spec fn is_separator(c: char) -> bool {
    c == '\\' || c == '/'
}

/// The names between the separators of a path, without empty ones and single dots.
pub open spec fn pieces_of(p: Seq<char>) -> Seq<Seq<char>> {
    pieces_from(p, Seq::empty())
}

pub open spec fn kept(piece: Seq<char>) -> bool {
    piece.len() > 0 && piece != seq!['.']
}

/// The pieces of `p`, where `open` has been read already.
pub open spec fn pieces_from(p: Seq<char>, open: Seq<char>) -> Seq<Seq<char>>
    decreases p.len(),
{
    let now = if kept(open) {
        seq![open]
    } else {
        Seq::empty()
    };
    if p.len() == 0 {
        now
    } else if is_separator(p[0]) {
        now + pieces_from(p.subrange(1, p.len() as int), Seq::empty())
    } else {
        pieces_from(p.subrange(1, p.len() as int), open.push(p[0]))
    }
}

fn keep_piece(out: &mut Vec<String>, open: &Vec<char>)
    ensures
        text::views(final(out)@) == text::views(old(out)@) + if kept(open@) {
            seq![open@]
        } else {
            Seq::<Seq<char>>::empty()
        },
{
    let ghost had = out@;
    if open.len() == 0 || (open.len() == 1 && open[0] == '.') {
        assert(!kept(open@)) by {
            if open@.len() == 1 {
                assert(open@ =~= seq!['.']);
            }
        }
        assert(text::views(out@) =~= text::views(had) + Seq::<Seq<char>>::empty());
    } else {
        assert(kept(open@));
        out.push(text::text_of(open));
        assert(text::views(out@) =~= text::views(had) + seq![open@]);
    }
}

pub fn pieces(p: &str) -> (r: Vec<String>)
    ensures
        text::views(r@) == pieces_of(p@),
{
    let chars: Vec<char> = text::chars_of(p);
    let mut out: Vec<String> = Vec::new();
    let mut open: Vec<char> = Vec::new();
    let mut i: usize = 0;
    proof {
        assert(chars@.subrange(0, chars@.len() as int) =~= chars@);
        assert(text::views(out@) =~= Seq::<Seq<char>>::empty());
        assert(text::views(out@) + pieces_of(p@) =~= pieces_of(p@));
    }
    while i < chars.len()
        invariant
            i <= chars@.len(),
            chars@ == p@,
            text::views(out@) + pieces_from(chars@.subrange(i as int, chars@.len() as int), open@)
                == pieces_of(p@),
        decreases chars@.len() - i,
    {
        let ghost rest = chars@.subrange(i as int, chars@.len() as int);
        let ghost had = text::views(out@);
        let ghost was = open@;
        let c: char = chars[i];
        assert(rest[0] == c);
        assert(rest.subrange(1, rest.len() as int) =~= chars@.subrange(
            i + 1,
            chars@.len() as int,
        ));
        if c == '\\' || c == '/' {
            keep_piece(&mut out, &open);
            open = Vec::new();
            proof {
                let tail = pieces_from(chars@.subrange(i + 1, chars@.len() as int), Seq::empty());
                let now = if kept(was) {
                    seq![was]
                } else {
                    Seq::<Seq<char>>::empty()
                };
                assert(had + (now + tail) =~= (had + now) + tail);
                assert(open@ =~= Seq::<char>::empty());
            }
        } else {
            open.push(c);
        }
        i += 1;
    }
    assert(chars@.subrange(i as int, chars@.len() as int) =~= Seq::<char>::empty());
    keep_piece(&mut out, &open);
    out
}

/// The text of the path `base` with one more name at its end. A name here is a component of a
/// path: it holds no separator and is no drive; `wide::pushed` says what becomes of any other.
pub open spec fn joined(base: Seq<char>, name: Seq<char>) -> Seq<char> {
    if base.len() == 0 || is_separator(base.last()) {
        base + name
    } else {
        base.push('\\') + name
    }
}

pub fn join(base: &str, name: &str) -> (r: String)
    ensures
        r@ == joined(base@, name@),
{
    let chars: Vec<char> = text::chars_of(base);
    let n: usize = chars.len();
    if n == 0 || chars[n - 1] == '\\' || chars[n - 1] == '/' {
        text::glue(base, name)
    } else {
        let mut s: String = base.to_owned();
        s.push('\\');
        text::glue(&s, name)
    }
}

/// What a file handle tells of the object behind it.
#[derive(Debug, Clone, Copy)]
pub struct Identity {
    pub volume: u64,
    pub id: [u8; 16],
    pub length: u64,
    pub allocated: u64,
    pub modified: i64,
    pub attributes: u32,
    pub links: u32,
}

impl Default for Identity {
    fn default() -> (r: Self)
        ensures
            r.volume == 0,
            r.id@ == Seq::new(16, |i: int| 0u8),
            r.length == 0,
            r.allocated == 0,
            r.modified == 0,
            r.attributes == 0,
            r.links == 0,
    {
        let id = [0u8;16];
        assert(id@ =~= Seq::new(16, |i: int| 0u8));
        Identity { volume: 0, id, length: 0, allocated: 0, modified: 0, attributes: 0, links: 0 }
    }
}

impl Identity {
    pub open spec fn dir(&self) -> bool {
        self.attributes & 0x10 != 0
    }

    pub open spec fn reparse(&self) -> bool {
        self.attributes & 0x400 != 0
    }

    /// Both stand for one object.
    pub open spec fn same(&self, other: Self) -> bool {
        self.volume == other.volume && self.id@ == other.id@
    }

    pub fn same_file(&self, other: &Self) -> (r: bool)
        ensures
            r == self.same(*other),
    {
        if self.volume != other.volume {
            return false;
        }
        let mut i: usize = 0;
        while i < 16
            invariant
                i <= 16,
                forall|k: int| 0 <= k < i ==> #[trigger] self.id@[k] == other.id@[k],
            decreases 16 - i,
        {
            if self.id[i] != other.id[i] {
                return false;
            }
            i += 1;
        }
        assert(self.id@ =~= other.id@);
        true
    }

    pub fn is_dir(&self) -> (r: bool)
        ensures
            r == self.dir(),
    {
        self.attributes & 0x10 != 0
    }

    pub fn is_reparse(&self) -> (r: bool)
        ensures
            r == self.reparse(),
    {
        self.attributes & 0x400 != 0
    }
}

/// `s` holds no separator.
pub open spec fn solid(s: Seq<char>) -> bool {
    forall|i: int| 0 <= i < s.len() ==> !is_separator(#[trigger] s[i])
}

proof fn lemma_pieces_solid(name: Seq<char>, open: Seq<char>)
    requires
        solid(name),
    ensures
        pieces_from(name, open) == (if kept(open + name) {
            seq![open + name]
        } else {
            Seq::<Seq<char>>::empty()
        }),
    decreases name.len(),
{
    if name.len() == 0 {
        assert(open + name =~= open);
    } else {
        let rest = name.subrange(1, name.len() as int);
        lemma_pieces_solid(rest, open.push(name[0]));
        assert(open.push(name[0]) + rest =~= open + name);
    }
}

proof fn lemma_pieces_split(p: Seq<char>, sep: char, q: Seq<char>, open: Seq<char>)
    requires
        is_separator(sep),
    ensures
        pieces_from(p.push(sep) + q, open) == pieces_from(p, open) + pieces_from(q, Seq::empty()),
    decreases p.len(),
{
    let all = p.push(sep) + q;
    let rest = all.subrange(1, all.len() as int);
    if p.len() == 0 {
        assert(rest =~= q);
    } else {
        let p1 = p.subrange(1, p.len() as int);
        assert(rest =~= p1.push(sep) + q);
        assert(all[0] == p[0]);
        if is_separator(p[0]) {
            lemma_pieces_split(p1, sep, q, Seq::empty());
            let now = if kept(open) {
                seq![open]
            } else {
                Seq::<Seq<char>>::empty()
            };
            assert(now + (pieces_from(p1, Seq::empty()) + pieces_from(q, Seq::empty())) =~= (now
                + pieces_from(p1, Seq::empty())) + pieces_from(q, Seq::empty()));
        } else {
            lemma_pieces_split(p1, sep, q, open.push(p[0]));
        }
    }
}

/// Joining a name adds that name to the pieces.
pub proof fn lemma_pieces_joined(base: Seq<char>, name: Seq<char>)
    requires
        solid(name),
        kept(name),
    ensures
        pieces_of(joined(base, name)) == pieces_of(base).push(name),
{
    let none = Seq::<char>::empty();
    lemma_pieces_solid(name, none);
    assert(none + name =~= name);
    if base.len() == 0 {
        assert(base + name =~= name);
        assert(pieces_of(base) =~= Seq::<Seq<char>>::empty());
        assert(pieces_of(base).push(name) =~= seq![name]);
    } else if is_separator(base.last()) {
        let p = base.drop_last();
        assert(base =~= p.push(base.last()));
        lemma_pieces_split(p, base.last(), name, none);
        lemma_pieces_split(p, base.last(), none, none);
        assert(p.push(base.last()) + none =~= base);
        assert(pieces_from(none, none) =~= Seq::<Seq<char>>::empty());
        assert(pieces_of(base) =~= pieces_from(p, none));
        assert(pieces_from(p, none) + seq![name] =~= pieces_of(base).push(name));
    } else {
        lemma_pieces_split(base, '\\', name, none);
        assert(pieces_of(base) + seq![name] =~= pieces_of(base).push(name));
    }
}

/// Every piece is a name.
pub proof fn lemma_pieces_are_names(p: Seq<char>, open: Seq<char>, i: int)
    requires
        solid(open),
        0 <= i < pieces_from(p, open).len(),
    ensures
        solid(pieces_from(p, open)[i]),
        kept(pieces_from(p, open)[i]),
    decreases p.len(),
{
    let n: int = if kept(open) {
        1
    } else {
        0
    };
    if p.len() > 0 {
        let rest = p.subrange(1, p.len() as int);
        if is_separator(p[0]) {
            if i >= n {
                lemma_pieces_are_names(rest, Seq::empty(), i - n);
                assert(pieces_from(p, open)[i] == pieces_from(rest, Seq::empty())[i - n]);
            }
        } else {
            lemma_pieces_are_names(rest, open.push(p[0]), i);
        }
    }
}

pub open spec fn is_letter(c: char) -> bool {
    ('a' <= c && c <= 'z') || ('A' <= c && c <= 'Z')
}

/// A path that names a drive, a share or a device and starts at its top.
pub open spec fn absolute_text(p: Seq<char>) -> bool {
    wide::is_absolute(text::utf16_of(p))
}

/// An absolute path is not empty.
pub proof fn lemma_absolute(p: Seq<char>)
    requires
        absolute_text(p),
    ensures
        p.len() > 0,
{
}

pub fn is_absolute(p: &str) -> (r: bool)
    ensures
        r == absolute_text(p@),
{
    wide::starts_at_top(&text::utf16(p))
}

fn same_texts(a: &Vec<String>, b: &Vec<String>) -> (r: bool)
    ensures
        r == (text::views(a@) == text::views(b@)),
{
    let ghost va = text::views(a@);
    let ghost vb = text::views(b@);
    if a.len() != b.len() {
        assert(va.len() != vb.len());
        return false;
    }
    let mut i: usize = 0;
    while i < a.len()
        invariant
            i <= a@.len(),
            a@.len() == b@.len(),
            va == text::views(a@),
            vb == text::views(b@),
            forall|k: int| 0 <= k < i ==> #[trigger] va[k] == vb[k],
        decreases a@.len() - i,
    {
        if a[i] != b[i] {
            assert(va[i as int] != vb[i as int]);
            return false;
        }
        i += 1;
    }
    assert(va =~= vb);
    true
}

/// A path whose drive, if it begins with one, is a small letter.
pub open spec fn small_drive(p: Seq<char>) -> Seq<char> {
    if p.len() >= 2 && 'A' <= p[0] && p[0] <= 'Z' && p[1] == ':' {
        p.update(0, text::lower_ascii(p[0]))
    } else {
        p
    }
}

/// The names of a path, where the case of a drive does not count.
pub open spec fn path_names(p: Seq<char>) -> Seq<Seq<char>> {
    pieces_of(small_drive(p))
}

pub fn names_of(p: &str) -> (r: Vec<String>)
    ensures
        text::views(r@) == path_names(p@),
{
    let mut chars: Vec<char> = text::chars_of(p);
    if chars.len() >= 2 && 'A' <= chars[0] && chars[0] <= 'Z' && chars[1] == ':' {
        let c: char = text::to_lower_ascii(chars[0]);
        chars.set(0, c);
    }
    assert(chars@ =~= small_drive(p@));
    pieces(&text::text_of(&chars))
}

/// Joining a name adds that name.
pub proof fn lemma_names_joined(base: Seq<char>, name: Seq<char>)
    requires
        base.len() > 0,
        solid(name),
        kept(name),
    ensures
        path_names(joined(base, name)) == path_names(base).push(name),
{
    assert(small_drive(joined(base, name)) =~= joined(small_drive(base), name));
    lemma_pieces_joined(small_drive(base), name);
}

/// Whether two paths have the same names in the same order. The case of a drive does not
/// count.
pub fn same_path(a: &str, b: &str) -> (r: bool)
    ensures
        r == (path_names(a@) == path_names(b@)),
{
    same_texts(&names_of(a), &names_of(b))
}

/// A path is shown without the mark of long paths, and a share with its two backslashes.
pub proof fn law_long_paths_are_shown_short(p: Seq<char>)
    ensures
        shown("\\\\?\\UNC\\"@ + p) == "\\\\"@ + p,
        !"UNC\\"@.is_prefix_of(p) ==> shown("\\\\?\\"@ + p) == p,
        !"\\\\?\\"@.is_prefix_of(p) ==> shown(p) == p,
{
    let unc = "\\\\?\\UNC\\"@;
    let long = "\\\\?\\"@;
    reveal_strlit("\\\\?\\UNC\\");
    reveal_strlit("\\\\?\\");
    reveal_strlit("UNC\\");
    assert((unc + p).subrange(0, unc.len() as int) =~= unc);
    assert((unc + p).subrange(unc.len() as int, (unc + p).len() as int) =~= p);
    assert((long + p).subrange(0, long.len() as int) =~= long);
    assert((long + p).subrange(long.len() as int, (long + p).len() as int) =~= p);
    if unc.is_prefix_of(long + p) {
        assert("UNC\\"@ =~= p.subrange(0, 4)) by {
            let whole = long + p;
            assert(unc =~= whole.subrange(0, 8));
            assert forall|i: int| 0 <= i < 4 implies "UNC\\"@[i] == p.subrange(0, 4)[i] by {
                assert(unc[i + 4] == whole.subrange(0, 8)[i + 4]);
                assert(whole[i + 4] == p[i]);
            }
        }
    }
    if unc.is_prefix_of(p) {
        assert(long =~= p.subrange(0, 4)) by {
            assert forall|i: int| 0 <= i < 4 implies long[i] == p.subrange(0, 4)[i] by {
                assert(unc[i] == p.subrange(0, 8)[i]);
            }
        }
    }
}

/// One path lies within another exactly if it is the other, or the other and a backslash
/// and more.
pub proof fn law_within_means_below(p: Seq<char>, r: Seq<char>, rest: Seq<char>)
    ensures
        key_within(r, r),
        key_within(r.push('\\') + rest, r),
        key_within(p, r) ==> r.len() <= p.len() && p.subrange(0, r.len() as int) == r && (p.len()
            > r.len() ==> p[r.len() as int] == '\\'),
{
    let whole = r.push('\\') + rest;
    assert(whole.subrange(0, r.len() as int) =~= r);
    assert(p.subrange(0, p.len() as int) =~= p);
}

/// Windows counts tenths of microseconds since 1601; a time is told in milliseconds since
/// 1970, and later times are told as later.
pub proof fn law_times_are_told_since_1970(raw: i64, later: i64)
    ensures
        raw <= 0 <==> unix_ms(raw) is None,
        raw > 0 ==> (unix_ms(raw)->0 + 11_644_473_600_000) * 10_000 <= raw < (unix_ms(raw)->0
            + 11_644_473_600_000 + 1) * 10_000,
        0 < raw <= later ==> unix_ms(raw)->0 <= unix_ms(later)->0,
{
    if raw > 0 {
        assert(i64::MIN <= raw as int / 10_000 - 11_644_473_600_000 <= i64::MAX);
    }
    if later > 0 {
        assert(i64::MIN <= later as int / 10_000 - 11_644_473_600_000 <= i64::MAX);
    }
}

/// Two objects are the same exactly if they have the same number on the same volume.
pub proof fn law_objects_are_known_by_volume_and_number(a: Identity, b: Identity)
    ensures
        a.same(b) <==> a.volume == b.volume && a.id@ == b.id@,
        a.same(b) <==> b.same(a),
        a.dir() <==> a.attributes & 0x10 != 0,
        a.reparse() <==> a.attributes & 0x400 != 0,
{
}

spec fn whole(piece: Seq<char>) -> bool {
    piece.len() > 0 && piece != seq!['.'] && solid(piece)
}

proof fn lemma_pieces(p: Seq<char>, open: Seq<char>, i: int)
    requires
        solid(open),
        0 <= i < pieces_from(p, open).len(),
    ensures
        whole(pieces_from(p, open)[i]),
    decreases p.len(),
{
    let all = pieces_from(p, open);
    if p.len() > 0 {
        let rest = p.subrange(1, p.len() as int);
        if is_separator(p[0]) {
            if kept(open) {
                if i > 0 {
                    lemma_pieces(rest, Seq::empty(), i - 1);
                }
            } else {
                lemma_pieces(rest, Seq::empty(), i);
            }
        } else {
            lemma_pieces(rest, open.push(p[0]), i);
        }
    }
}

/// The names of a path hold no separator, and none is empty or a mere dot.
pub proof fn law_names_of_a_path_are_whole(p: Seq<char>, i: int)
    requires
        0 <= i < pieces_of(p).len(),
    ensures
        pieces_of(p)[i].len() > 0,
        pieces_of(p)[i] != seq!['.'],
        forall|k: int|
            0 <= k < pieces_of(p)[i].len() ==> (#[trigger] pieces_of(p)[i][k]) != '\\' && pieces_of(
                p,
            )[i][k] != '/',
{
    lemma_pieces(p, Seq::empty(), i);
    let piece = pieces_of(p)[i];
    assert(solid(piece));
    assert forall|k: int| 0 <= k < piece.len() implies (#[trigger] piece[k]) != '\\' && piece[k]
        != '/' by {
        assert(!is_separator(piece[k]));
    }
}

} // verus!
