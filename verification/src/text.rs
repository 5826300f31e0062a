//! Text as sequences of characters.
use vstd::prelude::*;
use vstd::string::*;

verus! {

/// `String::push`: appends one character.
pub assume_specification[ String::push ](s: &mut String, c: char)
    ensures
        final(s)@ == old(s)@.push(c),
;

/// The characters of a text.
pub fn chars_of(s: &str) -> (r: Vec<char>)
    ensures
        r@ == s@,
{
    let mut out: Vec<char> = Vec::new();
    for c in it: s.chars()
        invariant
            it.seq() == s@,
            out@ == s@.subrange(0, it.index() as int),
    {
        out.push(c);
        assert(out@ =~= s@.subrange(0, it.index() + 1));
    }
    assert(out@ =~= s@);
    out
}

/// The text of a run of characters.
pub fn text_of(chars: &[char]) -> (r: String)
    ensures
        r@ == chars@,
{
    let mut out = String::new();
    let mut i: usize = 0;
    while i < chars.len()
        invariant
            i <= chars@.len(),
            out@ == chars@.subrange(0, i as int),
        decreases chars@.len() - i,
    {
        out.push(chars[i]);
        i += 1;
        assert(out@ =~= chars@.subrange(0, i as int));
    }
    assert(out@ =~= chars@);
    out
}

pub open spec fn digit(d: int) -> char {
    (48 + d) as u8 as char
}

/// The decimal notation of a number.
pub open spec fn decimal_of(n: nat) -> Seq<char>
    decreases n,
{
    if n < 10 {
        seq![digit(n as int)]
    } else {
        decimal_of(n / 10).push(digit((n % 10) as int))
    }
}

fn digit_char(d: u8) -> (c: char)
    requires
        d < 10,
    ensures
        c == digit(d as int),
{
    (48 + d) as char
}

pub fn decimal(n: u64) -> (r: String)
    ensures
        r@ == decimal_of(n as nat),
    decreases n,
{
    if n < 10 {
        let mut s = String::new();
        s.push(digit_char(n as u8));
        assert(s@ =~= decimal_of(n as nat));
        s
    } else {
        let mut s = decimal(n / 10);
        s.push(digit_char((n % 10) as u8));
        s
    }
}

pub open spec fn hex_digit(d: int) -> char {
    if d < 10 {
        digit(d)
    } else {
        (87 + d) as u8 as char
    }
}

/// The hexadecimal notation of a number, in small letters.
pub open spec fn hex_of(n: nat) -> Seq<char>
    decreases n,
{
    if n < 16 {
        seq![hex_digit(n as int)]
    } else {
        hex_of(n / 16).push(hex_digit((n % 16) as int))
    }
}

fn hex_char(d: u8) -> (c: char)
    requires
        d < 16,
    ensures
        c == hex_digit(d as int),
{
    if d < 10 {
        digit_char(d)
    } else {
        (87 + d) as char
    }
}

pub fn hex(n: u64) -> (r: String)
    ensures
        r@ == hex_of(n as nat),
    decreases n,
{
    if n < 16 {
        let mut s = String::new();
        s.push(hex_char(n as u8));
        assert(s@ =~= hex_of(n as nat));
        s
    } else {
        let mut s = hex(n / 16);
        s.push(hex_char((n % 16) as u8));
        s
    }
}

/// The hexadecimal notation of a number, with zeros before it up to `width` digits.
pub open spec fn hex_padded_of(n: nat, width: nat) -> Seq<char> {
    let digits = hex_of(n);
    if digits.len() < width {
        repeated("0"@, (width - digits.len()) as nat) + digits
    } else {
        digits
    }
}

pub fn hex_padded(n: u64, width: usize) -> (r: String)
    ensures
        r@ == hex_padded_of(n as nat, width as nat),
{
    let digits: String = hex(n);
    let len: usize = chars_of(&digits).len();
    if len < width {
        glue(&repeat("0", width - len), &digits)
    } else {
        digits
    }
}

/// The small form of an English letter; other characters stay.
pub open spec fn lower_ascii(c: char) -> char {
    if 'A' <= c && c <= 'Z' {
        (c as u8 + 32) as u8 as char
    } else {
        c
    }
}

pub fn to_lower_ascii(c: char) -> (r: char)
    ensures
        r == lower_ascii(c),
{
    if 'A' <= c && c <= 'Z' {
        (c as u8 + 32) as char
    } else {
        c
    }
}

/// `a` followed by `b`.
pub fn glue(a: &str, b: &str) -> (r: String)
    ensures
        r@ == a@ + b@,
{
    let mut s = String::new();
    s.append(a);
    s.append(b);
    assert(s@ =~= a@ + b@);
    s
}

/// Whether two texts are the same.
pub fn same(a: &str, b: &str) -> (r: bool)
    ensures
        r == (a@ == b@),
{
    a.to_owned() == b.to_owned()
}

/// Whether `s` begins with `p`.
pub fn begins(s: &[char], p: &[char]) -> (r: bool)
    ensures
        r == p@.is_prefix_of(s@),
{
    if p.len() > s.len() {
        return false;
    }
    let mut i: usize = 0;
    while i < p.len()
        invariant
            i <= p@.len() <= s@.len(),
            forall|k: int| 0 <= k < i ==> #[trigger] p@[k] == s@[k],
        decreases p@.len() - i,
    {
        if p[i] != s[i] {
            assert(p@[i as int] != s@.subrange(0, p@.len() as int)[i as int]);
            return false;
        }
        i += 1;
    }
    assert(p@ =~= s@.subrange(0, p@.len() as int));
    true
}

/// Whether `s` ends with `p`.
pub fn ends(s: &[char], p: &[char]) -> (r: bool)
    ensures
        r == p@.is_suffix_of(s@),
{
    if p.len() > s.len() {
        return false;
    }
    let n: usize = s.len();
    let from: usize = n - p.len();
    let mut i: usize = 0;
    while i < p.len()
        invariant
            i <= p@.len() <= s@.len(),
            n == s@.len(),
            from == n - p@.len(),
            forall|k: int| 0 <= k < i ==> #[trigger] p@[k] == s@[from + k],
        decreases p@.len() - i,
    {
        if p[i] != s[from + i] {
            assert(p@[i as int] != s@.subrange(from as int, s@.len() as int)[i as int]);
            return false;
        }
        i += 1;
    }
    assert(p@ =~= s@.subrange(from as int, s@.len() as int));
    true
}

/// The characters from `from` up to `to`.
pub fn part(s: &[char], from: usize, to: usize) -> (r: Vec<char>)
    requires
        from <= to <= s.len(),
    ensures
        r@ == s@.subrange(from as int, to as int),
{
    let mut out: Vec<char> = Vec::new();
    let mut i: usize = from;
    while i < to
        invariant
            from <= i <= to <= s@.len(),
            out@ == s@.subrange(from as int, i as int),
        decreases to - i,
    {
        out.push(s[i]);
        i += 1;
        assert(out@ =~= s@.subrange(from as int, i as int));
    }
    out
}

/// Every `from` turned into `to`.
pub open spec fn swapped(s: Seq<char>, from: char, to: char) -> Seq<char> {
    s.map_values(
        |c: char|
            if c == from {
                to
            } else {
                c
            },
    )
}

pub fn swap_char(s: &[char], from: char, to: char) -> (r: Vec<char>)
    ensures
        r@ == swapped(s@, from, to),
{
    let mut out: Vec<char> = Vec::new();
    let mut i: usize = 0;
    while i < s.len()
        invariant
            i <= s@.len(),
            out@.len() == i,
            forall|k: int|
                0 <= k < i ==> #[trigger] out@[k] == if s@[k] == from {
                    to
                } else {
                    s@[k]
                },
        decreases s@.len() - i,
    {
        let c: char = s[i];
        if c == from {
            out.push(to);
        } else {
            out.push(c);
        }
        i += 1;
    }
    assert(out@ =~= swapped(s@, from, to));
    out
}

/// `s` without the `c`s at its end.
pub open spec fn trimmed_end(s: Seq<char>, c: char) -> Seq<char>
    decreases s.len(),
{
    if s.len() > 0 && s.last() == c {
        trimmed_end(s.drop_last(), c)
    } else {
        s
    }
}

pub fn trim_end(s: &[char], c: char) -> (r: Vec<char>)
    ensures
        r@ == trimmed_end(s@, c),
{
    let mut n: usize = s.len();
    assert(s@.subrange(0, n as int) =~= s@);
    while n > 0 && s[n - 1] == c
        invariant
            n <= s@.len(),
            trimmed_end(s@.subrange(0, n as int), c) == trimmed_end(s@, c),
        decreases n,
    {
        assert(s@.subrange(0, n as int).drop_last() =~= s@.subrange(0, n - 1));
        n -= 1;
    }
    part(s, 0, n)
}

pub open spec fn all_ascii(s: Seq<char>) -> bool {
    forall|i: int| 0 <= i < s.len() ==> (#[trigger] s[i] as int) < 0x80
}

/// The lower-case form of a text that is not all ASCII, by the Unicode tables.
pub uninterp spec fn unicode_lowercase(s: Seq<char>) -> Seq<char>;

/// The lower-case form of a text.
pub open spec fn lowercase(s: Seq<char>) -> Seq<char> {
    if all_ascii(s) {
        s.map_values(|c: char| lower_ascii(c))
    } else {
        unicode_lowercase(s)
    }
}

/// `str::to_lowercase`: every character of an ASCII text in its lower case; the result for
/// another text is a function of the text alone.
#[verifier::external_body]
pub(crate) fn to_lower(s: &str) -> (r: String)
    ensures
        all_ascii(s@) ==> r@ == s@.map_values(|c: char| lower_ascii(c)),
        !all_ascii(s@) ==> r@ == unicode_lowercase(s@),
{
    s.to_lowercase()
}

/// The UTF-16 units of one character.
pub open spec fn units_of(c: char) -> Seq<u16> {
    let v = c as int;
    if v < 0x10000 {
        seq![v as u16]
    } else {
        seq![(0xd800 + (v - 0x10000) / 0x400) as u16, (0xdc00 + (v - 0x10000) % 0x400) as u16]
    }
}

/// The UTF-16 units of a text.
pub open spec fn utf16_of(s: Seq<char>) -> Seq<u16>
    decreases s.len(),
{
    if s.len() == 0 {
        Seq::empty()
    } else {
        utf16_of(s.drop_last()) + units_of(s.last())
    }
}

pub fn utf16(s: &str) -> (r: Vec<u16>)
    ensures
        r@ == utf16_of(s@),
{
    let chars: Vec<char> = chars_of(s);
    let mut out: Vec<u16> = Vec::new();
    let mut i: usize = 0;
    assert(s@.subrange(0, 0) =~= Seq::<char>::empty());
    while i < chars.len()
        invariant
            i <= chars@.len(),
            chars@ == s@,
            out@ == utf16_of(s@.subrange(0, i as int)),
        decreases chars@.len() - i,
    {
        let c: char = chars[i];
        proof {
            lemma_scalar(c);
        }
        let v: u32 = c as u32;
        let ghost had = out@;
        if v < 0x10000 {
            out.push(v as u16);
            assert(out@ =~= had + units_of(c));
        } else {
            let w: u32 = v - 0x10000;
            out.push((0xd800 + w / 0x400) as u16);
            out.push((0xdc00 + w % 0x400) as u16);
            assert(out@ =~= had + units_of(c));
        }
        i += 1;
        assert(s@.subrange(0, i as int).drop_last() =~= s@.subrange(0, i - 1));
    }
    assert(s@.subrange(0, i as int) =~= s@);
    out
}

pub open spec fn high_surrogate(u: u16) -> bool {
    0xd800 <= u < 0xdc00
}

pub open spec fn low_surrogate(u: u16) -> bool {
    0xdc00 <= u < 0xe000
}

/// The text of UTF-16 units, with U+FFFD for every unpaired surrogate.
pub open spec fn utf16_text(u: Seq<u16>) -> Seq<char>
    decreases u.len(),
{
    if u.len() == 0 {
        Seq::empty()
    } else if high_surrogate(u[0]) && u.len() > 1 && low_surrogate(u[1]) {
        seq![(0x10000 + (u[0] - 0xd800) * 0x400 + (u[1] - 0xdc00)) as char] + utf16_text(
            u.subrange(2, u.len() as int),
        )
    } else if high_surrogate(u[0]) || low_surrogate(u[0]) {
        seq!['\u{fffd}'] + utf16_text(u.subrange(1, u.len() as int))
    } else {
        seq![u[0] as char] + utf16_text(u.subrange(1, u.len() as int))
    }
}

/// `String::from_utf16_lossy`: decodes UTF-16, putting U+FFFD for every unpaired surrogate.
#[verifier::external_body]
pub(crate) fn from_utf16(u: &[u16]) -> (r: String)
    ensures
        r@ == utf16_text(u@),
{
    String::from_utf16_lossy(u)
}

/// A character is a Unicode scalar value.
proof fn lemma_scalar(c: char)
    ensures
        0 <= c as int,
        (c as int) < 0xd800 || 0xe000 <= c as int && (c as int) < 0x110000,
{
}

proof fn lemma_utf16_front(s: Seq<char>)
    requires
        s.len() > 0,
    ensures
        utf16_of(s) == units_of(s[0]) + utf16_of(s.subrange(1, s.len() as int)),
    decreases s.len(),
{
    let rest = s.subrange(1, s.len() as int);
    if s.len() == 1 {
        assert(s.drop_last() =~= Seq::<char>::empty());
        assert(rest =~= Seq::<char>::empty());
        assert(utf16_of(s) =~= units_of(s[0]) + utf16_of(rest));
    } else {
        let t = s.drop_last();
        lemma_utf16_front(t);
        assert(t.subrange(1, t.len() as int) =~= rest.drop_last());
        assert(utf16_of(s) =~= units_of(s[0]) + utf16_of(rest));
    }
}

/// Text survives the way into UTF-16 units and back.
pub proof fn law_utf16_round_trip(s: Seq<char>)
    ensures
        utf16_text(utf16_of(s)) == s,
    decreases s.len(),
{
    if s.len() > 0 {
        let rest = s.subrange(1, s.len() as int);
        lemma_utf16_front(s);
        law_utf16_round_trip(rest);
        let u = utf16_of(s);
        let c: char = s[0];
        let v = c as int;
        lemma_scalar(c);
        if v < 0x10000 {
            assert(u.subrange(1, u.len() as int) =~= utf16_of(rest));
            assert(u[0] == v);
        } else {
            assert(u.subrange(2, u.len() as int) =~= utf16_of(rest));
            assert(u[0] == 0xd800 + (v - 0x10000) / 0x400);
            assert(u[1] == 0xdc00 + (v - 0x10000) % 0x400);
            assert(0x10000 + (u[0] - 0xd800) * 0x400 + (u[1] - 0xdc00) == v);
        }
        assert(s =~= seq![c] + rest);
    }
}

/// Whether two lists of units are the same.
pub fn same_units(a: &[u16], b: &[u16]) -> (r: bool)
    ensures
        r == (a@ == b@),
{
    if a.len() != b.len() {
        return false;
    }
    let mut i: usize = 0;
    while i < a.len()
        invariant
            i <= a@.len(),
            a@.len() == b@.len(),
            forall|k: int| 0 <= k < i ==> a@[k] == b@[k],
        decreases a@.len() - i,
    {
        if a[i] != b[i] {
            return false;
        }
        i += 1;
    }
    assert(a@ =~= b@);
    true
}

/// The numbers of the characters of a text.
pub open spec fn code_points(s: Seq<char>) -> Seq<u32> {
    s.map_values(|c: char| c as u32)
}

pub fn points_of(s: &str) -> (r: Vec<u32>)
    ensures
        r@ == code_points(s@),
{
    let chars: Vec<char> = chars_of(s);
    let mut out: Vec<u32> = Vec::new();
    let mut i: usize = 0;
    while i < chars.len()
        invariant
            i <= chars@.len(),
            chars@ == s@,
            out@ == code_points(s@.subrange(0, i as int)),
        decreases chars@.len() - i,
    {
        out.push(chars[i] as u32);
        i += 1;
        assert(out@ =~= code_points(s@.subrange(0, i as int)));
    }
    assert(s@.subrange(0, i as int) =~= s@);
    out
}

/// The texts of a list.
pub open spec fn views(v: Seq<String>) -> Seq<Seq<char>> {
    v.map_values(|s: String| s@)
}

/// One text if `cond` holds, else none.
pub open spec fn when(cond: bool, t: Seq<char>) -> Seq<Seq<char>> {
    if cond {
        seq![t]
    } else {
        Seq::empty()
    }
}

/// Adds a text to a list if `cond` holds.
pub fn note(out: &mut Vec<String>, cond: bool, t: &str)
    ensures
        views(final(out)@) == views(old(out)@) + when(cond, t@),
{
    let ghost had = out@;
    if cond {
        out.push(t.to_owned());
    }
    assert(views(out@) =~= views(had) + when(cond, t@));
}

/// A copy of a list of texts.
pub fn copy_list(v: &Vec<String>) -> (r: Vec<String>)
    ensures
        r@ == v@,
{
    let mut out: Vec<String> = Vec::new();
    let mut i: usize = 0;
    while i < v.len()
        invariant
            i <= v@.len(),
            out@ == v@.subrange(0, i as int),
        decreases v@.len() - i,
    {
        out.push(v[i].clone());
        i += 1;
        assert(out@ =~= v@.subrange(0, i as int));
    }
    assert(out@ =~= v@);
    out
}

/// The listed texts with `sep` between them.
pub open spec fn joined_by(v: Seq<Seq<char>>, sep: Seq<char>) -> Seq<char>
    decreases v.len(),
{
    if v.len() == 0 {
        Seq::empty()
    } else if v.len() == 1 {
        v[0]
    } else {
        joined_by(v.drop_last(), sep) + sep + v.last()
    }
}

pub fn join_by(v: &Vec<String>, sep: &str) -> (r: String)
    ensures
        r@ == joined_by(views(v@), sep@),
{
    let mut out = String::new();
    let mut i: usize = 0;
    let ghost all = views(v@);
    assert(all.subrange(0, 0) =~= Seq::<Seq<char>>::empty());
    assert(out@ =~= joined_by(all.subrange(0, 0), sep@));
    while i < v.len()
        invariant
            i <= v@.len(),
            all == views(v@),
            out@ == joined_by(all.subrange(0, i as int), sep@),
        decreases v@.len() - i,
    {
        if i > 0 {
            out.append(sep);
        }
        out.append(v[i].as_str());
        i += 1;
        proof {
            let now = all.subrange(0, i as int);
            assert(now.drop_last() =~= all.subrange(0, i - 1));
            assert(now.last() == v@[i - 1]@);
            assert(out@ =~= joined_by(now, sep@));
        }
    }
    assert(all.subrange(0, i as int) =~= all);
    out
}

/// `n` copies of a text.
pub open spec fn repeated(s: Seq<char>, n: nat) -> Seq<char>
    decreases n,
{
    if n == 0 {
        Seq::empty()
    } else {
        repeated(s, (n - 1) as nat) + s
    }
}

pub fn repeat(s: &str, n: usize) -> (r: String)
    ensures
        r@ == repeated(s@, n as nat),
{
    let mut out = String::new();
    let mut i: usize = 0;
    while i < n
        invariant
            i <= n,
            out@ == repeated(s@, i as nat),
        decreases n - i,
    {
        out.append(s);
        i += 1;
    }
    out
}

/// Spaces up to a width.
pub open spec fn spaces(len: nat, width: nat) -> Seq<char> {
    if len < width {
        repeated(" "@, (width - len) as nat)
    } else {
        Seq::empty()
    }
}

/// The text, and spaces before it up to `width` characters.
pub open spec fn right_aligned(s: Seq<char>, width: nat) -> Seq<char> {
    spaces(s.len(), width) + s
}

/// The text, and spaces behind it up to `width` characters.
pub open spec fn left_aligned(s: Seq<char>, width: nat) -> Seq<char> {
    s + spaces(s.len(), width)
}

fn gap(s: &str, width: usize) -> (r: String)
    ensures
        r@ == spaces(s@.len(), width as nat),
{
    let len: usize = chars_of(s).len();
    if len < width {
        repeat(" ", width - len)
    } else {
        String::new()
    }
}

pub fn align_right(s: &str, width: usize) -> (r: String)
    ensures
        r@ == right_aligned(s@, width as nat),
{
    let mut out: String = gap(s, width);
    out.append(s);
    out
}

pub fn align_left(s: &str, width: usize) -> (r: String)
    ensures
        r@ == left_aligned(s@, width as nat),
{
    let mut out: String = s.to_owned();
    let tail: String = gap(s, width);
    out.append(&tail);
    out
}

pub open spec fn yes_no(b: bool) -> Seq<char> {
    if b {
        "true"@
    } else {
        "false"@
    }
}

/// The decimal text of a whole number.
pub open spec fn signed_of(n: int) -> Seq<char> {
    if n < 0 {
        "-"@ + decimal_of((-n) as nat)
    } else {
        decimal_of(n as nat)
    }
}

pub fn signed(n: i64) -> (r: String)
    ensures
        r@ == signed_of(n as int),
{
    if n < 0 {
        let m: u64 = (-(n as i128)) as u64;
        glue("-", &decimal(m))
    } else {
        decimal(n as u64)
    }
}

pub fn word(b: bool) -> (r: &'static str)
    ensures
        r@ == yes_no(b),
{
    if b {
        "true"
    } else {
        "false"
    }
}

/// The units before the first zero.
pub open spec fn before_nul(u: Seq<u16>) -> Seq<u16>
    decreases u.len(),
{
    if u.len() == 0 || u[0] == 0 {
        Seq::empty()
    } else {
        seq![u[0]] + before_nul(u.subrange(1, u.len() as int))
    }
}

proof fn lemma_before_nul(u: Seq<u16>, n: int)
    requires
        0 <= n <= u.len(),
        forall|k: int| 0 <= k < n ==> #[trigger] u[k] != 0,
        n < u.len() ==> u[n] == 0,
    ensures
        before_nul(u) == u.subrange(0, n),
    decreases n,
{
    if n > 0 {
        let rest = u.subrange(1, u.len() as int);
        assert(u[0] != 0);
        assert forall|k: int| 0 <= k < n - 1 implies #[trigger] rest[k] != 0 by {
            assert(u[k + 1] != 0);
        }
        lemma_before_nul(rest, n - 1);
        assert(u.subrange(0, n) =~= seq![u[0]] + rest.subrange(0, n - 1));
    } else {
        assert(u.subrange(0, 0) =~= Seq::<u16>::empty());
    }
}

/// The units before the first zero, or all of them.
pub fn up_to_nul(u: &[u16]) -> (r: &[u16])
    ensures
        r@ == before_nul(u@),
{
    let mut n: usize = 0;
    while n < u.len() && u[n] != 0
        invariant
            n <= u@.len(),
            forall|k: int| 0 <= k < n ==> #[trigger] u@[k] != 0,
        decreases u@.len() - n,
    {
        n += 1;
    }
    proof {
        lemma_before_nul(u@, n as int);
    }
    &u[0..n]
}

/// The text of units that a zero may end.
pub fn nul_text(u: &[u16]) -> (r: String)
    ensures
        r@ == utf16_text(before_nul(u@)),
{
    from_utf16(up_to_nul(u))
}

/// Where `p` first occurs in `s` from `from` on.
pub open spec fn first_at(s: Seq<char>, p: Seq<char>, from: nat) -> Option<nat>
    decreases s.len() + 1 - from,
{
    if from + p.len() > s.len() {
        None
    } else if s.subrange(from as int, (from + p.len()) as int) == p {
        Some(from)
    } else {
        first_at(s, p, from + 1)
    }
}

/// Whether `p` occurs in `s`.
pub open spec fn occurs(s: Seq<char>, p: Seq<char>) -> bool {
    first_at(s, p, 0) is Some
}

fn stands_at(s: &[char], p: &[char], at: usize) -> (r: bool)
    requires
        at + p@.len() <= s@.len(),
    ensures
        r == (s@.subrange(at as int, at + p@.len()) == p@),
{
    let total: usize = s.len();
    let ghost part = s@.subrange(at as int, at + p@.len());
    let mut i: usize = 0;
    while i < p.len()
        invariant
            i <= p@.len(),
            total == s@.len(),
            at + p@.len() <= total,
            part == s@.subrange(at as int, at + p@.len()),
            forall|k: int| 0 <= k < i ==> part[k] == #[trigger] p@[k],
        decreases p@.len() - i,
    {
        if s[at + i] != p[i] {
            assert(part[i as int] != p@[i as int]);
            return false;
        }
        assert(part[i as int] == p@[i as int]);
        i += 1;
    }
    assert(part =~= p@);
    true
}

/// Where `p` first occurs in `s`.
pub fn find(s: &[char], p: &[char]) -> (r: Option<usize>)
    ensures
        match (r, first_at(s@, p@, 0)) {
            (Some(i), Some(j)) => i == j && i + p@.len() <= s@.len(),
            (None, None) => true,
            _ => false,
        },
{
    let total: usize = s.len();
    let width: usize = p.len();
    if width > total {
        return None;
    }
    let mut i: usize = 0;
    while i <= total - width
        invariant
            width == p@.len(),
            total == s@.len(),
            width <= total,
            i <= total - width + 1,
            first_at(s@, p@, 0) == first_at(s@, p@, i as nat),
        decreases total - i,
    {
        if stands_at(s, p, i) {
            return Some(i);
        }
        assert(first_at(s@, p@, i as nat) == first_at(s@, p@, (i + 1) as nat));
        if i == total - width {
            return None;
        }
        i += 1;
    }
    None
}

/// Whether `s` begins with `p`.
pub fn starts(s: &str, p: &str) -> (r: bool)
    ensures
        r == p@.is_prefix_of(s@),
{
    begins(&chars_of(s), &chars_of(p))
}

/// Whether `p` occurs in `s`.
pub fn has(s: &str, p: &str) -> (r: bool)
    ensures
        r == occurs(s@, p@),
{
    find(&chars_of(s), &chars_of(p)).is_some()
}

/// The lines of a text, without what ends them; an end at the very end begins no line.
pub open spec fn lines_of(s: Seq<char>) -> Seq<Seq<char>>
    decreases s.len(),
{
    if s.len() == 0 {
        Seq::empty()
    } else {
        let e = line_end(s);
        if e >= s.len() {
            seq![s]
        } else {
            seq![without_return(s.subrange(0, e as int))] + lines_of(s.skip(e as int + 1))
        }
    }
}

/// Where the first line ends.
pub open spec fn line_end(s: Seq<char>) -> nat
    decreases s.len(),
{
    if s.len() == 0 || s[0] == '\n' {
        0
    } else {
        1 + line_end(s.skip(1))
    }
}

/// A line that ends in a carriage return, without it.
pub open spec fn without_return(s: Seq<char>) -> Seq<char> {
    if s.len() > 0 && s.last() == '\r' {
        s.drop_last()
    } else {
        s
    }
}

/// The first line ends at `n`.
pub proof fn lemma_line_end(s: Seq<char>, n: int)
    requires
        0 <= n <= s.len(),
        forall|i: int| 0 <= i < n ==> s[i] != '\n',
        n < s.len() ==> s[n] == '\n',
    ensures
        line_end(s) == n,
    decreases n,
{
    if n > 0 {
        let t = s.skip(1);
        assert forall|i: int| 0 <= i < n - 1 implies t[i] != '\n' by {
            assert(t[i] == s[i + 1]);
        }
        lemma_line_end(t, n - 1);
    }
}

/// The lines of a text.
pub fn lines(s: &str) -> (r: Vec<String>)
    ensures
        views(r@) == lines_of(s@),
{
    let chars: Vec<char> = chars_of(s);
    let total: usize = chars.len();
    let mut out: Vec<String> = Vec::new();
    let mut from: usize = 0;
    assert(chars@.skip(0) =~= s@);
    assert(views(out@) + lines_of(chars@.skip(0)) =~= lines_of(s@));
    while from < total
        invariant
            from <= total,
            total == chars@.len(),
            chars@ == s@,
            views(out@) + lines_of(chars@.skip(from as int)) == lines_of(s@),
        decreases total - from,
    {
        let ghost rest = chars@.skip(from as int);
        let mut to: usize = from;
        while to < total && chars[to] != '\n'
            invariant
                from <= to <= total,
                total == chars@.len(),
                forall|i: int| from <= i < to ==> chars@[i] != '\n',
            decreases total - to,
        {
            to += 1;
        }
        proof {
            assert forall|i: int| 0 <= i < to - from implies rest[i] != '\n' by {
                assert(rest[i] == chars@[from + i]);
            }
            if to < total {
                assert(rest[to - from] == chars@[to as int]);
            }
            lemma_line_end(rest, to - from);
        }
        let stop: usize = if to < total && to > from && chars[to - 1] == '\r' {
            to - 1
        } else {
            to
        };
        let line: String = text_of(&part(&chars, from, stop));
        let ghost had = out@;
        out.push(line);
        proof {
            assert(views(out@) =~= views(had).push(line@));
            if to < total {
                assert(rest.subrange(0, to - from) =~= chars@.subrange(from as int, to as int));
                assert(line@ =~= without_return(rest.subrange(0, to - from)));
                assert(rest.skip(to - from + 1) =~= chars@.skip(to + 1));
                assert(views(out@) + lines_of(chars@.skip(to + 1)) =~= views(had) + lines_of(
                    rest,
                ));
            } else {
                assert(line@ =~= rest);
                assert(lines_of(chars@.skip(total as int)) =~= Seq::<Seq<char>>::empty());
                assert(views(out@) + Seq::<Seq<char>>::empty() =~= views(had) + lines_of(rest));
            }
        }
        from = if to < total {
            to + 1
        } else {
            total
        };
    }
    assert(lines_of(chars@.skip(total as int)) =~= Seq::<Seq<char>>::empty());
    assert(views(out@) =~= lines_of(s@));
    out
}

/// The number that decimal digits stand for.
pub open spec fn digits_value(s: Seq<char>) -> int
    decreases s.len(),
{
    if s.len() == 0 {
        0
    } else {
        10 * digits_value(s.drop_last()) + (s.last() as int - 0x30)
    }
}

/// A number in decimal digits reads back as itself, has digits alone, and no zero in front.
pub proof fn law_decimal_reads_back(n: nat)
    ensures
        digits_value(decimal_of(n)) == n,
        decimal_of(n).len() > 0,
        forall|i: int| 0 <= i < decimal_of(n).len() ==> '0' <= #[trigger] decimal_of(n)[i] <= '9',
        n > 0 ==> decimal_of(n)[0] != '0',
    decreases n,
{
    let s = decimal_of(n);
    if n < 10 {
        assert(s.drop_last() =~= Seq::<char>::empty());
        assert(digits_value(Seq::<char>::empty()) == 0);
        assert(s.last() as int == 0x30 + n);
    } else {
        law_decimal_reads_back(n / 10);
        let front = decimal_of(n / 10);
        assert(s.drop_last() =~= front);
        assert(s.last() as int == 0x30 + n % 10);
        assert forall|i: int| 0 <= i < s.len() implies '0' <= #[trigger] s[i] <= '9' by {
            if i < front.len() {
                assert(s[i] == front[i]);
            }
        }
    }
}

/// The number that hexadecimal digits stand for.
pub open spec fn hex_value(s: Seq<char>) -> int
    decreases s.len(),
{
    if s.len() == 0 {
        0
    } else {
        16 * hex_value(s.drop_last()) + (if s.last() <= '9' {
            s.last() as int - 0x30
        } else {
            s.last() as int - 0x61 + 10
        })
    }
}

/// A number in hexadecimal digits reads back as itself.
pub proof fn law_hex_reads_back(n: nat)
    ensures
        hex_value(hex_of(n)) == n,
        hex_of(n).len() > 0,
        forall|i: int|
            0 <= i < hex_of(n).len() ==> ('0' <= #[trigger] hex_of(n)[i] <= '9') || ('a' <= hex_of(
                n,
            )[i] <= 'f'),
    decreases n,
{
    let s = hex_of(n);
    if n < 16 {
        assert(s.drop_last() =~= Seq::<char>::empty());
        assert(hex_value(Seq::<char>::empty()) == 0);
    } else {
        law_hex_reads_back(n / 16);
        let front = hex_of(n / 16);
        assert(s.drop_last() =~= front);
        assert forall|i: int| 0 <= i < s.len() implies ('0' <= #[trigger] s[i] <= '9') || ('a'
            <= s[i] <= 'f') by {
            if i < front.len() {
                assert(s[i] == front[i]);
            }
        }
    }
}

/// Trimming the end takes away just the marks at the end.
pub proof fn law_trimming_takes_the_marks_at_the_end(s: Seq<char>, c: char)
    ensures
        trimmed_end(s, c).len() <= s.len(),
        trimmed_end(s, c).len() > 0 ==> trimmed_end(s, c).last() != c,
        forall|i: int| 0 <= i < trimmed_end(s, c).len() ==> #[trigger] trimmed_end(s, c)[i] == s[i],
        forall|i: int| trimmed_end(s, c).len() <= i < s.len() ==> #[trigger] s[i] == c,
    decreases s.len(),
{
    if s.len() > 0 && s.last() == c {
        law_trimming_takes_the_marks_at_the_end(s.drop_last(), c);
        assert forall|i: int| trimmed_end(s, c).len() <= i < s.len() implies #[trigger] s[i]
            == c by {
            if i < s.len() - 1 {
                assert(s.drop_last()[i] == c);
            }
        }
    }
}

/// Capital letters of the alphabet become small, and nothing else changes.
pub proof fn law_only_capitals_become_small(s: Seq<char>, i: int)
    requires
        all_ascii(s),
        0 <= i < s.len(),
    ensures
        lowercase(s).len() == s.len(),
        'A' <= s[i] <= 'Z' ==> lowercase(s)[i] as int == s[i] as int + 0x20,
        !('A' <= s[i] <= 'Z') ==> lowercase(s)[i] == s[i],
{
}

/// A text is found at its first place, and is not found only where it is nowhere.
pub proof fn law_texts_are_found_at_their_first_place(s: Seq<char>, p: Seq<char>, from: nat)
    ensures
        first_at(s, p, from) matches Some(k) ==> from <= k && k + p.len() <= s.len() && s.subrange(
            k as int,
            (k + p.len()) as int,
        ) == p && forall|j: int|
            from <= j < k ==> #[trigger] s.subrange(j, j + p.len()) != p,
        first_at(s, p, from) is None ==> forall|j: int|
            from <= j && j + p.len() <= s.len() ==> #[trigger] s.subrange(j, j + p.len()) != p,
    decreases s.len() + 1 - from,
{
    if from + p.len() <= s.len() && s.subrange(from as int, (from + p.len()) as int) != p {
        law_texts_are_found_at_their_first_place(s, p, from + 1);
    }
}

/// A text ends before its first zero, if it has one.
pub proof fn law_texts_end_at_their_zero(u: Seq<u16>)
    ensures
        ({
            let b = before_nul(u);
            &&& b.len() <= u.len()
            &&& forall|i: int| 0 <= i < b.len() ==> #[trigger] b[i] == u[i] && b[i] != 0
            &&& b.len() < u.len() ==> u[b.len() as int] == 0
        }),
    decreases u.len(),
{
    if u.len() > 0 && u[0] != 0 {
        let rest = u.subrange(1, u.len() as int);
        law_texts_end_at_their_zero(rest);
        let b = before_nul(u);
        let tail = before_nul(rest);
        assert forall|i: int| 0 <= i < b.len() implies #[trigger] b[i] == u[i] && b[i] != 0 by {
            if i > 0 {
                assert(b[i] == tail[i - 1]);
                assert(rest[i - 1] == u[i]);
            }
        }
        if b.len() < u.len() {
            assert(rest[tail.len() as int] == u[b.len() as int]);
        }
    }
}

proof fn lemma_repeated_len(s: Seq<char>, n: nat)
    ensures
        repeated(s, n).len() == n * s.len(),
    decreases n,
{
    if n > 0 {
        lemma_repeated_len(s, (n - 1) as nat);
        assert(n * s.len() == (n - 1) * s.len() + s.len()) by (nonlinear_arith)
            requires
                n > 0,
        ;
    } else {
        assert(0 * s.len() == 0) by (nonlinear_arith);
    }
}

/// An aligned text is at least as wide as asked and keeps the text whole at its side.
pub proof fn law_aligned_texts_fill_their_width(s: Seq<char>, width: nat)
    ensures
        right_aligned(s, width).len() == (if s.len() < width {
            width
        } else {
            s.len()
        }),
        left_aligned(s, width).len() == right_aligned(s, width).len(),
        s.is_suffix_of(right_aligned(s, width)),
        s.is_prefix_of(left_aligned(s, width)),
{
    reveal_strlit(" ");
    if s.len() < width {
        lemma_repeated_len(" "@, (width - s.len()) as nat);
    }
    let r = right_aligned(s, width);
    assert(r.subrange(r.len() - s.len(), r.len() as int) =~= s);
    let l = left_aligned(s, width);
    assert(l.subrange(0, s.len() as int) =~= s);
}

/// A text holds another somewhere.
#[verifier::opaque]
pub open spec fn holds(s: Seq<char>, part: Seq<char>) -> bool {
    exists|i: int| 0 <= i && i + part.len() <= s.len() && #[trigger] s.subrange(i, i + part.len())
        == part
}

/// What a text holds, every longer text that holds it holds too.
pub proof fn lemma_holds(a: Seq<char>, s: Seq<char>, b: Seq<char>, part: Seq<char>)
    requires
        holds(s, part),
    ensures
        holds(a + s + b, part),
        holds(a + s, part),
        holds(s + b, part),
{
    reveal(holds);
    let i = choose|i: int|
        0 <= i && i + part.len() <= s.len() && #[trigger] s.subrange(i, i + part.len()) == part;
    let at = a.len() + i;
    assert((a + s + b).subrange(at, at + part.len()) =~= part) by {
        assert forall|k: int| 0 <= k < part.len() implies (a + s + b)[at + k] == part[k] by {
            assert(s.subrange(i, i + part.len())[k] == part[k]);
        }
    }
    assert((a + s).subrange(at, at + part.len()) =~= part) by {
        assert forall|k: int| 0 <= k < part.len() implies (a + s)[at + k] == part[k] by {
            assert(s.subrange(i, i + part.len())[k] == part[k]);
        }
    }
    assert((s + b).subrange(i, i + part.len()) =~= part) by {
        assert forall|k: int| 0 <= k < part.len() implies (s + b)[i + k] == part[k] by {
            assert(s.subrange(i, i + part.len())[k] == part[k]);
        }
    }
}

/// A text holds itself between any others.
pub proof fn lemma_holds_self(a: Seq<char>, part: Seq<char>, b: Seq<char>)
    ensures
        holds(part, part),
        holds(a + part + b, part),
        holds(a + part, part),
        holds(part + b, part),
{
    assert(holds(part, part)) by {
        reveal(holds);
        let at: int = 0;
        assert(part.subrange(at, at + part.len()) =~= part);
    }
    lemma_holds(a, part, b, part);
}

/// Every text of a list stands in the list put together.
pub proof fn lemma_joined_holds(v: Seq<Seq<char>>, sep: Seq<char>, i: int)
    requires
        0 <= i < v.len(),
    ensures
        holds(joined_by(v, sep), v[i]),
    decreases v.len(),
{
    if v.len() == 1 {
        lemma_holds_self(Seq::empty(), v[0], Seq::empty());
    } else if i < v.len() - 1 {
        let front = v.drop_last();
        lemma_joined_holds(front, sep, i);
        lemma_holds(Seq::empty(), joined_by(front, sep), sep + v.last(), v[i]);
        assert(joined_by(v, sep) =~= joined_by(front, sep) + (sep + v.last()));
    } else {
        lemma_holds_self(joined_by(v.drop_last(), sep) + sep, v[i], Seq::empty());
    }
}

/// Swapping puts one character in the place of another and leaves the rest.
pub proof fn law_swapping_changes_one_character(s: Seq<char>, from: char, to: char, i: int)
    requires
        0 <= i < s.len(),
    ensures
        swapped(s, from, to).len() == s.len(),
        s[i] == from ==> swapped(s, from, to)[i] == to,
        s[i] != from ==> swapped(s, from, to)[i] == s[i],
        from != to ==> !swapped(s, from, to).contains(from),
{
}

} // verus!
