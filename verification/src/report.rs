//! Texts of reports: sizes, times, flags, and text that is safe to show.
use crate::model::{
    ESTIMATED, HARDLINK, INCOMPLETE, REPARSE, UNKNOWN_MTIME, VIRTUAL,
};
use crate::text;
use vstd::prelude::*;
use vstd::string::*;

verus! {

/// `x / d` to the nearest whole number, a tie to the even one.
pub open spec fn nearest(x: int, d: int) -> int {
    let q = x / d;
    let r = x % d;
    if 2 * r > d || (2 * r == d && q % 2 == 1) {
        q + 1
    } else {
        q
    }
}

/// The step between neighbouring numbers of 53 significant bits around `n`.
pub open spec fn grain(n: int) -> int
    decreases n,
{
    if n < 0x20_0000_0000_0000 {
        1
    } else {
        2 * grain(n / 2)
    }
}

/// `n` to 53 significant bits, a tie to the even one.
pub open spec fn to_significant(n: int) -> int {
    nearest(n, grain(n)) * grain(n)
}

pub open spec fn unit_size(i: int) -> int {
    if i <= 0 {
        1
    } else if i == 1 {
        0x400
    } else if i == 2 {
        0x10_0000
    } else if i == 3 {
        0x4000_0000
    } else if i == 4 {
        0x100_0000_0000
    } else {
        0x4_0000_0000_0000
    }
}

pub open spec fn unit_name(i: int) -> Seq<char> {
    if i <= 0 {
        "B"@
    } else if i == 1 {
        "KiB"@
    } else if i == 2 {
        "MiB"@
    } else if i == 3 {
        "GiB"@
    } else if i == 4 {
        "TiB"@
    } else {
        "PiB"@
    }
}

/// The largest unit that `n` fills at least once.
pub open spec fn unit_of(n: int) -> int {
    if n < 0x400 {
        0
    } else if n < 0x10_0000 {
        1
    } else if n < 0x4000_0000 {
        2
    } else if n < 0x100_0000_0000 {
        3
    } else if n < 0x4_0000_0000_0000 {
        4
    } else {
        5
    }
}

/// Hundredths as a number with two decimals.
pub open spec fn hundredths(h: nat) -> Seq<char> {
    text::decimal_of(h / 100) + "."@ + seq![
        text::digit((h / 10 % 10) as int),
        text::digit((h % 10) as int),
    ]
}

/// A size for people: two decimals of the largest unit it fills.
pub open spec fn human_text(bytes: int) -> Seq<char> {
    let n = to_significant(bytes);
    let i = unit_of(n);
    if i == 0 {
        text::decimal_of(bytes as nat) + " B"@
    } else {
        hundredths(nearest(n * 100, unit_size(i)) as nat) + " "@ + unit_name(i)
    }
}

fn grain_of(n: u64) -> (g: u64)
    ensures
        g == grain(n as int),
        1 <= g <= 2048,
    decreases n,
{
    if n < 0x20_0000_0000_0000 {
        1
    } else {
        let g: u64 = grain_of(n / 2);
        proof {
            lemma_grain_bound(n as int);
        }
        2 * g
    }
}

proof fn lemma_grain_bound(n: int)
    requires
        0 <= n < 0x1_0000_0000_0000_0000,
    ensures
        1 <= grain(n) <= 2048,
        grain(n / 2) <= 1024,
        grain(n / 2) >= 1,
{
    reveal_with_fuel(grain, 13);
}

fn nearest_of(x: u128, d: u128) -> (r: u128)
    requires
        0 < d <= 0x1_0000_0000_0000_0000,
        x < 0x100_0000_0000_0000_0000_0000_0000,
    ensures
        r == nearest(x as int, d as int),
        r <= x + 1,
{
    let q: u128 = x / d;
    let r: u128 = x % d;
    assert(q <= x) by (nonlinear_arith)
        requires
            q == x / d,
            d > 0,
    ;
    if 2 * r > d || (2 * r == d && q % 2 == 1) {
        q + 1
    } else {
        q
    }
}

fn significant(n: u64) -> (r: u128)
    ensures
        r == to_significant(n as int),
        r <= 0x1_0000_0000_0000_0000,
{
    let g: u64 = grain_of(n);
    let q: u128 = nearest_of(n as u128, g as u128);
    proof {
        lemma_significant(n as int, g as int);
    }
    q * (g as u128)
}

/// Rounding to 53 bits does not leave the range by more than one step.
proof fn lemma_significant(n: int, g: int)
    requires
        0 <= n < 0x1_0000_0000_0000_0000,
        g == grain(n),
    ensures
        0 <= nearest(n, g) * g <= 0x1_0000_0000_0000_0000,
{
    reveal_with_fuel(grain, 13);
    let q = n / g;
    assert(n == q * g + n % g) by (nonlinear_arith)
        requires
            g > 0,
            q == n / g,
    ;
    assert(g == 1 || g == 2 || g == 4 || g == 8 || g == 16 || g == 32 || g == 64 || g == 128 || g
        == 256 || g == 512 || g == 1024 || g == 2048);
    let top: int = if g == 1 {
        0x10000000000000000
    } else if g == 2 {
        0x8000000000000000
    } else if g == 4 {
        0x4000000000000000
    } else if g == 8 {
        0x2000000000000000
    } else if g == 16 {
        0x1000000000000000
    } else if g == 32 {
        0x800000000000000
    } else if g == 64 {
        0x400000000000000
    } else if g == 128 {
        0x200000000000000
    } else if g == 256 {
        0x100000000000000
    } else if g == 512 {
        0x80000000000000
    } else if g == 1024 {
        0x40000000000000
    } else {
        0x20000000000000
    };
    assert(top * g == 0x1_0000_0000_0000_0000) by {
        if g == 1 {
            assert(top * 1 == 0x1_0000_0000_0000_0000);
        } else if g == 2 {
            assert(top * 2 == 0x1_0000_0000_0000_0000);
        } else if g == 4 {
            assert(top * 4 == 0x1_0000_0000_0000_0000);
        } else if g == 8 {
            assert(top * 8 == 0x1_0000_0000_0000_0000);
        } else if g == 16 {
            assert(top * 16 == 0x1_0000_0000_0000_0000);
        } else if g == 32 {
            assert(top * 32 == 0x1_0000_0000_0000_0000);
        } else if g == 64 {
            assert(top * 64 == 0x1_0000_0000_0000_0000);
        } else if g == 128 {
            assert(top * 128 == 0x1_0000_0000_0000_0000);
        } else if g == 256 {
            assert(top * 256 == 0x1_0000_0000_0000_0000);
        } else if g == 512 {
            assert(top * 512 == 0x1_0000_0000_0000_0000);
        } else if g == 1024 {
            assert(top * 1024 == 0x1_0000_0000_0000_0000);
        } else {
            assert(top * 2048 == 0x1_0000_0000_0000_0000);
        }
    }
    assert(q < top) by (nonlinear_arith)
        requires
            q * g <= n,
            n < 0x1_0000_0000_0000_0000,
            top * g == 0x1_0000_0000_0000_0000,
            g > 0,
    ;
    let m = nearest(n, g);
    assert(0 <= q) by (nonlinear_arith)
        requires
            q == n / g,
            n >= 0,
            g > 0,
    ;
    assert(0 <= m * g <= top * g) by (nonlinear_arith)
        requires
            0 <= m <= top,
            g > 0,
    ;
}

pub fn human(bytes: u64) -> (r: String)
    ensures
        r@ == human_text(bytes as int),
{
    let n: u128 = significant(bytes);
    if n < 0x400 {
        return text::glue(&text::decimal(bytes), " B");
    }
    let (size, name): (u128, &str) = if n < 0x10_0000 {
        (0x400, "KiB")
    } else if n < 0x4000_0000 {
        (0x10_0000, "MiB")
    } else if n < 0x100_0000_0000 {
        (0x4000_0000, "GiB")
    } else if n < 0x4_0000_0000_0000 {
        (0x100_0000_0000, "TiB")
    } else {
        (0x4_0000_0000_0000, "PiB")
    };
    let h: u128 = nearest_of(n * 100, size);
    proof {
        lemma_few_hundredths(n as int, size as int);
    }
    let mut s: String = text::decimal((h / 100) as u64);
    s.append(".");
    let tens: u8 = (h / 10 % 10) as u8;
    let ones: u8 = (h % 10) as u8;
    s.push((48 + tens) as char);
    s.push((48 + ones) as char);
    assert(s@ =~= hundredths(h as nat));
    s.append(" ");
    s.append(name);
    assert(s@ =~= human_text(bytes as int));
    s
}

proof fn lemma_few_hundredths(n: int, size: int)
    requires
        0 <= n <= 0x1_0000_0000_0000_0000,
        size == 0x400 || size == 0x10_0000 || size == 0x4000_0000 || size == 0x100_0000_0000
            || size == 0x4_0000_0000_0000,
    ensures
        0 <= nearest(n * 100, size) <= 0x7fff_ffff_ffff_ffff,
{
}

/// Characters that steer a terminal or the direction of text.
pub open spec fn unsafe_char(c: char) -> bool {
    let v = c as int;
    ||| v < 0x20
    ||| 0x7f <= v < 0xa0
    ||| 0x202a <= v <= 0x202e
    ||| 0x2066 <= v <= 0x2069
}

/// How a character is shown.
pub open spec fn shown_char(c: char) -> Seq<char> {
    if !unsafe_char(c) {
        seq![c]
    } else if c == '\t' {
        "\\t"@
    } else if c == '\r' {
        "\\r"@
    } else if c == '\n' {
        "\\n"@
    } else {
        "\\u{"@ + text::hex_of(c as nat) + "}"@
    }
}

/// A text with every steering character spelled out.
pub open spec fn safe_of(s: Seq<char>) -> Seq<char>
    decreases s.len(),
{
    if s.len() == 0 {
        Seq::empty()
    } else {
        safe_of(s.drop_last()) + shown_char(s.last())
    }
}

fn show_char(c: char) -> (r: String)
    ensures
        r@ == shown_char(c),
{
    let v: u32 = c as u32;
    let steering: bool = v < 0x20 || (0x7f <= v && v < 0xa0) || (0x202a <= v && v <= 0x202e) || (
    0x2066 <= v && v <= 0x2069);
    let mut s = String::new();
    if !steering {
        s.push(c);
        assert(s@ =~= seq![c]);
    } else if c == '\t' {
        s.append("\\t");
        assert(s@ =~= "\\t"@);
    } else if c == '\r' {
        s.append("\\r");
        assert(s@ =~= "\\r"@);
    } else if c == '\n' {
        s.append("\\n");
        assert(s@ =~= "\\n"@);
    } else {
        s.append("\\u{");
        s.append(text::hex(v as u64).as_str());
        s.append("}");
        assert(s@ =~= "\\u{"@ + text::hex_of(c as nat) + "}"@);
    }
    s
}

pub fn safe_text(s: &str) -> (r: String)
    ensures
        r@ == safe_of(s@),
{
    let chars: Vec<char> = text::chars_of(s);
    let mut out = String::new();
    let mut i: usize = 0;
    assert(s@.subrange(0, 0) =~= Seq::<char>::empty());
    while i < chars.len()
        invariant
            i <= chars@.len(),
            chars@ == s@,
            out@ == safe_of(s@.subrange(0, i as int)),
        decreases chars@.len() - i,
    {
        let piece: String = show_char(chars[i]);
        out.append(piece.as_str());
        i += 1;
        assert(s@.subrange(0, i as int).drop_last() =~= s@.subrange(0, i - 1));
    }
    assert(s@.subrange(0, i as int) =~= s@);
    out
}

proof fn lemma_hex_safe(n: nat, i: int)
    requires
        0 <= i < text::hex_of(n).len(),
    ensures
        !unsafe_char(text::hex_of(n)[i]),
    decreases n,
{
    if n >= 16 {
        if i < text::hex_of(n / 16).len() {
            lemma_hex_safe(n / 16, i);
            assert(text::hex_of(n)[i] == text::hex_of(n / 16)[i]);
        }
    }
}

proof fn lemma_shown_safe(c: char, i: int)
    requires
        0 <= i < shown_char(c).len(),
    ensures
        !unsafe_char(shown_char(c)[i]),
{
    reveal_strlit("\\t");
    reveal_strlit("\\r");
    reveal_strlit("\\n");
    reveal_strlit("\\u{");
    reveal_strlit("}");
    if unsafe_char(c) && c != '\t' && c != '\r' && c != '\n' {
        let h = text::hex_of(c as nat);
        if 3 <= i < 3 + h.len() {
            lemma_hex_safe(c as nat, i - 3);
            assert(shown_char(c)[i] == h[i - 3]);
        }
    }
}

/// What `safe_text` gives holds no character that steers a terminal or the direction of
/// text.
pub proof fn law_safe_text_is_safe(s: Seq<char>, i: int)
    requires
        0 <= i < safe_of(s).len(),
    ensures
        !unsafe_char(safe_of(s)[i]),
    decreases s.len(),
{
    let head = safe_of(s.drop_last());
    if i < head.len() {
        law_safe_text_is_safe(s.drop_last(), i);
        assert(safe_of(s)[i] == head[i]);
    } else {
        lemma_shown_safe(s.last(), i - head.len());
        assert(safe_of(s)[i] == shown_char(s.last())[i - head.len()]);
    }
}

/// Text without such characters is shown as it is, so showing it twice changes nothing.
pub proof fn law_safe_text_is_stable(s: Seq<char>)
    ensures
        (forall|i: int| 0 <= i < s.len() ==> !unsafe_char(#[trigger] s[i])) ==> safe_of(s) == s,
        safe_of(safe_of(s)) == safe_of(s),
{
    if forall|i: int| 0 <= i < s.len() ==> !unsafe_char(#[trigger] s[i]) {
        lemma_safe_same(s);
    }
    assert forall|i: int| 0 <= i < safe_of(s).len() implies !unsafe_char(
        #[trigger] safe_of(s)[i],
    ) by {
        law_safe_text_is_safe(s, i);
    }
    lemma_safe_same(safe_of(s));
}

proof fn lemma_safe_same(s: Seq<char>)
    requires
        forall|i: int| 0 <= i < s.len() ==> !unsafe_char(#[trigger] s[i]),
    ensures
        safe_of(s) == s,
    decreases s.len(),
{
    if s.len() > 0 {
        let t = s.drop_last();
        assert forall|i: int| 0 <= i < t.len() implies !unsafe_char(#[trigger] t[i]) by {
            assert(t[i] == s[i]);
        }
        lemma_safe_same(t);
        assert(!unsafe_char(s[s.len() - 1]));
        assert(safe_of(s) =~= s);
    } else {
        assert(safe_of(s) =~= s);
    }
}

/// The UTC text of a Unix time in milliseconds, if it is in the range of the calendar.
pub uninterp spec fn utc_text(ms: i64) -> Option<Seq<char>>;

/// The text is printable ASCII and holds at least a date, a time and milliseconds.
pub open spec fn time_shaped(s: Seq<char>) -> bool {
    &&& s.len() >= 24
    &&& forall|i: int| 0 <= i < s.len() ==> 0x20 <= (#[trigger] s[i] as int) < 0x7f
}

/// A text whose first nineteen characters are ASCII: date and time up to the second.
pub open spec fn dateable(s: Seq<char>) -> bool {
    &&& s.len() >= 19
    &&& forall|i: int| 0 <= i < 19 ==> (#[trigger] s[i] as int) < 0x80
}

/// `chrono::DateTime::from_timestamp_millis` and, where it gives a time, its text by
/// `DateTime::format` with the pattern for date, time and milliseconds in UTC. The text is
/// a function of the time alone; it is printable ASCII, and its year has at least four digits.
#[verifier::external_body]
fn utc(ms: i64) -> (r: Option<String>)
    ensures
        match r {
            Some(s) => utc_text(ms) == Some(s@) && time_shaped(s@),
            None => utc_text(ms) is None,
        },
{
    chrono::DateTime::from_timestamp_millis(ms).map(
        |t| t.format("%Y-%m-%dT%H:%M:%S%.3fZ").to_string(),
    )
}

/// The text of a recorded time; an unknown time has none.
pub open spec fn stamp_of(ms: i64) -> Option<Seq<char>> {
    if ms == UNKNOWN_MTIME {
        None
    } else {
        utc_text(ms)
    }
}

pub open spec fn text_view(s: Option<String>) -> Option<Seq<char>> {
    match s {
        Some(s) => Some(s@),
        None => None,
    }
}

pub fn timestamp(ms: i64) -> (r: Option<String>)
    ensures
        text_view(r) == stamp_of(ms),
        r matches Some(s) ==> time_shaped(s@),
{
    if ms == UNKNOWN_MTIME {
        None
    } else {
        utc(ms)
    }
}

/// A time as it stands in a column: seconds, and a mark if it may be incomplete.
pub open spec fn column_of(value: Option<Seq<char>>, complete: bool) -> Seq<char> {
    let shown = match value {
        Some(s) => text::swapped(s.subrange(0, 19), 'T', ' '),
        None => "—"@,
    };
    if complete {
        shown
    } else {
        shown + "?"@
    }
}

pub fn date_column(value: Option<&str>, complete: bool) -> (r: String)
    requires
        value matches Some(s) ==> dateable(s@),
    ensures
        r@ == column_of(
            match value {
                Some(s) => Some(s@),
                None => None,
            },
            complete,
        ),
{
    let shown: String = match value {
        Some(s) => {
            let chars: Vec<char> = text::chars_of(s);
            let cut: Vec<char> = text::part(&chars, 0, 19);
            text::text_of(&text::swap_char(&cut, 'T', ' '))
        },
        None => "—".to_owned(),
    };
    if complete {
        shown
    } else {
        text::glue(&shown, "?")
    }
}

/// What the flags of a node tell the reader.
pub open spec fn flag_names(bits: u16) -> Seq<Seq<char>> {
    text::when(bits & REPARSE != 0, "reparse:not-followed"@) + text::when(
        bits & HARDLINK != 0,
        "hardlink:allocation-once"@,
    ) + text::when(bits & ESTIMATED != 0, "estimated"@) + text::when(
        bits & INCOMPLETE != 0,
        "INCOMPLETE"@,
    ) + text::when(bits & VIRTUAL != 0, "unresolved:NOT-a-path"@)
}

pub fn flags(bits: u16) -> (r: Vec<String>)
    ensures
        text::views(r@) == flag_names(bits),
{
    let mut out: Vec<String> = Vec::new();
    assert(text::views(out@) =~= Seq::<Seq<char>>::empty());
    text::note(&mut out, bits & REPARSE != 0, "reparse:not-followed");
    text::note(&mut out, bits & HARDLINK != 0, "hardlink:allocation-once");
    text::note(&mut out, bits & ESTIMATED != 0, "estimated");
    text::note(&mut out, bits & INCOMPLETE != 0, "INCOMPLETE");
    text::note(&mut out, bits & VIRTUAL != 0, "unresolved:NOT-a-path");
    assert(text::views(out@) =~= flag_names(bits));
    out
}

pub open spec fn number_char(c: char) -> bool {
    ('0' <= c && c <= '9') || c == '.'
}

/// How many leading characters belong to a number.
pub open spec fn number_len(s: Seq<char>) -> nat
    decreases s.len(),
{
    if s.len() > 0 && number_char(s[0]) {
        1 + number_len(s.subrange(1, s.len() as int))
    } else {
        0
    }
}

/// White space as Unicode has it.
pub open spec fn blank(c: char) -> bool {
    let v = c as int;
    ||| 0x09 <= v <= 0x0d
    ||| v == 0x20
    ||| v == 0x85
    ||| v == 0xa0
    ||| v == 0x1680
    ||| 0x2000 <= v <= 0x200a
    ||| v == 0x2028
    ||| v == 0x2029
    ||| v == 0x202f
    ||| v == 0x205f
    ||| v == 0x3000
}

pub open spec fn trimmed_start(s: Seq<char>) -> Seq<char>
    decreases s.len(),
{
    if s.len() > 0 && blank(s[0]) {
        trimmed_start(s.subrange(1, s.len() as int))
    } else {
        s
    }
}

pub open spec fn trimmed_back(s: Seq<char>) -> Seq<char>
    decreases s.len(),
{
    if s.len() > 0 && blank(s.last()) {
        trimmed_back(s.drop_last())
    } else {
        s
    }
}

/// The unit behind the number of a size.
pub open spec fn size_suffix(s: Seq<char>) -> Seq<char> {
    trimmed_back(trimmed_start(s.subrange(number_len(s) as int, s.len() as int))).map_values(
        |c: char| text::lower_ascii(c),
    )
}

/// The bytes in a unit; units with an `i`, and single letters, are binary.
pub open spec fn unit_bytes(u: Seq<char>) -> Option<u64> {
    if u == ""@ || u == "b"@ {
        Some(1)
    } else if u == "k"@ || u == "kib"@ {
        Some(1024)
    } else if u == "m"@ || u == "mib"@ {
        Some(1048576)
    } else if u == "g"@ || u == "gib"@ {
        Some(1073741824)
    } else if u == "t"@ || u == "tib"@ {
        Some(1099511627776)
    } else if u == "kb"@ {
        Some(1000)
    } else if u == "mb"@ {
        Some(1000000)
    } else if u == "gb"@ {
        Some(1000000000)
    } else if u == "tb"@ {
        Some(1000000000000)
    } else {
        None
    }
}

fn is_blank(c: char) -> (r: bool)
    ensures
        r == blank(c),
{
    let v: u32 = c as u32;
    (0x09 <= v && v <= 0x0d) || v == 0x20 || v == 0x85 || v == 0xa0 || v == 0x1680 || (0x2000 <= v
        && v <= 0x200a) || v == 0x2028 || v == 0x2029 || v == 0x202f || v == 0x205f || v == 0x3000
}

proof fn lemma_number_len(s: Seq<char>, n: int)
    requires
        0 <= n <= s.len(),
        forall|k: int| 0 <= k < n ==> number_char(#[trigger] s[k]),
        n < s.len() ==> !number_char(s[n]),
    ensures
        number_len(s) == n,
    decreases n,
{
    if n > 0 {
        assert(number_char(s[0]));
        let t = s.subrange(1, s.len() as int);
        assert forall|k: int| 0 <= k < n - 1 implies number_char(#[trigger] t[k]) by {
            assert(t[k] == s[k + 1]);
        }
        lemma_number_len(t, n - 1);
    }
}

/// Splits a size into its number, still as text, and the bytes of its unit; no bytes if
/// the unit is unknown.
pub fn size_parts(s: &str) -> (r: (String, Option<u64>))
    ensures
        r.0@ == s@.subrange(0, number_len(s@) as int),
        r.1 == unit_bytes(size_suffix(s@)),
{
    let chars: Vec<char> = text::chars_of(s);
    let mut n: usize = 0;
    while n < chars.len() && (('0' <= chars[n] && chars[n] <= '9') || chars[n] == '.')
        invariant
            n <= chars@.len(),
            forall|k: int| 0 <= k < n ==> number_char(#[trigger] chars@[k]),
        decreases chars@.len() - n,
    {
        n += 1;
    }
    proof {
        lemma_number_len(chars@, n as int);
    }
    let mut a: usize = n;
    let mut b: usize = chars.len();
    let ghost tail = chars@.subrange(n as int, chars@.len() as int);
    while a < b && is_blank(chars[a])
        invariant
            n <= a <= b,
            b == chars@.len(),
            trimmed_start(chars@.subrange(a as int, b as int)) == trimmed_start(tail),
        decreases b - a,
    {
        let ghost now = chars@.subrange(a as int, b as int);
        assert(now.subrange(1, now.len() as int) =~= chars@.subrange(a + 1, b as int));
        a += 1;
    }
    let ghost middle = chars@.subrange(a as int, b as int);
    assert(trimmed_start(tail) == middle);
    while a < b && is_blank(chars[b - 1])
        invariant
            n <= a <= b <= chars@.len(),
            trimmed_back(chars@.subrange(a as int, b as int)) == trimmed_back(middle),
        decreases b - a,
    {
        let ghost now = chars@.subrange(a as int, b as int);
        assert(now.drop_last() =~= chars@.subrange(a as int, b - 1));
        b -= 1;
    }
    let mut unit = String::new();
    let mut i: usize = a;
    let ghost kept = chars@.subrange(a as int, b as int);
    let ghost lower = |c: char| text::lower_ascii(c);
    assert(kept.subrange(0, 0).map_values(lower) =~= Seq::<char>::empty());
    while i < b
        invariant
            a <= i <= b <= chars@.len(),
            kept == chars@.subrange(a as int, b as int),
            lower == (|c: char| text::lower_ascii(c)),
            unit@ == kept.subrange(0, i - a).map_values(lower),
        decreases b - i,
    {
        unit.push(text::to_lower_ascii(chars[i]));
        i += 1;
        assert(unit@ =~= kept.subrange(0, i - a).map_values(lower));
    }
    assert(kept.subrange(0, i - a) =~= kept);
    assert(unit@ == size_suffix(s@));
    let bytes: Option<u64> = if text::same(&unit, "") || text::same(&unit, "b") {
        Some(1)
    } else if text::same(&unit, "k") || text::same(&unit, "kib") {
        Some(1024)
    } else if text::same(&unit, "m") || text::same(&unit, "mib") {
        Some(1048576)
    } else if text::same(&unit, "g") || text::same(&unit, "gib") {
        Some(1073741824)
    } else if text::same(&unit, "t") || text::same(&unit, "tib") {
        Some(1099511627776)
    } else if text::same(&unit, "kb") {
        Some(1000)
    } else if text::same(&unit, "mb") {
        Some(1000000)
    } else if text::same(&unit, "gb") {
        Some(1000000000)
    } else if text::same(&unit, "tb") {
        Some(1000000000000)
    } else {
        None
    };
    (text::text_of(&text::part(&chars, 0, n)), bytes)
}

/// A rounded number is no further from the exact one than half a step.
pub proof fn law_rounding_goes_to_the_nearest(x: int, d: int)
    requires
        x >= 0,
        d > 0,
    ensures
        2 * (nearest(x, d) * d - x) <= d,
        2 * (x - nearest(x, d) * d) <= d,
        x % d == 0 ==> nearest(x, d) * d == x,
{
    let q = x / d;
    let r = x % d;
    vstd::arithmetic::div_mod::lemma_fundamental_div_mod(x, d);
    assert((q + 1) * d == q * d + d) by (nonlinear_arith);
    assert(d * q == q * d) by (nonlinear_arith);
    assert(0 <= r < d);
}

/// The units of sizes are steps of 1024.
pub proof fn law_units_are_steps_of_1024(i: int)
    requires
        0 <= i < 5,
    ensures
        unit_size(0) == 1,
        unit_size(i + 1) == 1024 * unit_size(i),
{
}

/// A size up to 2 to the 53 is shown in the largest unit that it fills, to the nearest
/// hundredth, and below 1024 in bytes as it is.
pub proof fn law_sizes_are_shown_to_the_hundredth(bytes: int)
    requires
        0 <= bytes < 0x20_0000_0000_0000,
    ensures
        ({
            let i = unit_of(bytes);
            let h = nearest(bytes * 100, unit_size(i));
            &&& bytes < 1024 ==> human_text(bytes) == text::decimal_of(bytes as nat) + " B"@
            &&& bytes >= 1024 ==> {
                &&& human_text(bytes) == hundredths(h as nat) + " "@ + unit_name(i)
                &&& unit_size(i) <= bytes
                &&& i < 5 ==> bytes < 1024 * unit_size(i)
                &&& 2 * (h * unit_size(i) - 100 * bytes) <= unit_size(i)
                &&& 2 * (100 * bytes - h * unit_size(i)) <= unit_size(i)
                &&& h >= 100
            }
        }),
{
    let i = unit_of(bytes);
    let u = unit_size(i);
    law_rounding_goes_to_the_nearest(bytes, 1);
    assert(nearest(bytes, 1) * 1 == bytes);
    law_rounding_goes_to_the_nearest(bytes * 100, u);
    let h = nearest(bytes * 100, u);
    if bytes >= 1024 {
        assert(h >= 100) by (nonlinear_arith)
            requires
                2 * (bytes * 100 - h * u) <= u,
                bytes >= u,
                u >= 1024,
        ;
    }
}

/// Shown text holds no control character and none that turns the direction of writing.
pub proof fn law_shown_text_controls_nothing(s: Seq<char>, i: int)
    requires
        0 <= i < safe_of(s).len(),
    ensures
        safe_of(s)[i] as int >= 0x20,
        !(0x7f <= safe_of(s)[i] as int <= 0x9f),
        !(0x202a <= safe_of(s)[i] as int <= 0x202e),
        !(0x2066 <= safe_of(s)[i] as int <= 0x2069),
{
    law_safe_text_is_safe(s, i);
}

/// Every character that controls nothing is shown as it is, in its place among the others.
pub proof fn law_harmless_text_is_shown_as_it_is(s: Seq<char>, c: char)
    requires
        c as int >= 0x20,
        !(0x7f <= c as int <= 0x9f),
        !(0x202a <= c as int <= 0x202e),
        !(0x2066 <= c as int <= 0x2069),
    ensures
        safe_of(s.push(c)) == safe_of(s).push(c),
{
    assert(s.push(c).drop_last() =~= s);
    assert(safe_of(s) + seq![c] =~= safe_of(s).push(c));
}

/// What is said of an entry beside its sizes: each remark exactly if its flag is set.
pub proof fn law_remarks_follow_the_flags(bits: u16)
    ensures
        flag_names(bits).len() == (if bits & 2 != 0 {
            1int
        } else {
            0
        }) + (if bits & 4 != 0 {
            1int
        } else {
            0
        }) + (if bits & 8 != 0 {
            1int
        } else {
            0
        }) + (if bits & 16 != 0 {
            1int
        } else {
            0
        }) + (if bits & 32 != 0 {
            1int
        } else {
            0
        }),
        bits & 2 != 0 ==> flag_names(bits)[0] == "reparse:not-followed"@,
        bits & 2 == 0 && bits & 4 != 0 ==> flag_names(bits)[0] == "hardlink:allocation-once"@,
        bits & 2 == 0 && bits & 4 == 0 && bits & 8 != 0 ==> flag_names(bits)[0] == "estimated"@,
        bits & 2 == 0 && bits & 4 == 0 && bits & 8 == 0 && bits & 16 != 0 ==> flag_names(bits)[0]
            == "INCOMPLETE"@,
        bits & 32 != 0 ==> flag_names(bits).last() == "unresolved:NOT-a-path"@,
{
}

/// The number in front of a size is its digits and points, up to the first other character.
pub proof fn law_numbers_end_at_the_first_other_character(s: Seq<char>)
    ensures
        number_len(s) <= s.len(),
        forall|i: int|
            0 <= i < number_len(s) ==> ('0' <= (#[trigger] s[i]) && s[i] <= '9') || s[i] == '.',
        number_len(s) < s.len() ==> !(('0' <= s[number_len(s) as int] && s[number_len(s) as int]
            <= '9') || s[number_len(s) as int] == '.'),
    decreases s.len(),
{
    if s.len() > 0 && number_char(s[0]) {
        let rest = s.subrange(1, s.len() as int);
        law_numbers_end_at_the_first_other_character(rest);
        assert forall|i: int| 0 <= i < number_len(s) implies ('0' <= (#[trigger] s[i]) && s[i]
            <= '9') || s[i] == '.' by {
            if i > 0 {
                assert(rest[i - 1] == s[i]);
            }
        }
        if number_len(s) < s.len() {
            assert(rest[number_len(rest) as int] == s[number_len(s) as int]);
        }
    }
}

/// The units of two letters count in steps of 1000, the others in steps of 1024, and a unit
/// is the same with its first letter alone.
pub proof fn law_size_units_count_in_steps()
    ensures
        unit_bytes("b"@) == Some(1u64),
        unit_bytes("k"@) is Some && unit_bytes("m"@) is Some && unit_bytes("g"@) is Some
            && unit_bytes("t"@) is Some,
        unit_bytes("k"@)->0 == 1024 * unit_bytes("b"@)->0,
        unit_bytes("m"@)->0 == 1024 * unit_bytes("k"@)->0,
        unit_bytes("g"@)->0 == 1024 * unit_bytes("m"@)->0,
        unit_bytes("t"@)->0 == 1024 * unit_bytes("g"@)->0,
        unit_bytes("kib"@) == unit_bytes("k"@),
        unit_bytes("mib"@) == unit_bytes("m"@),
        unit_bytes("gib"@) == unit_bytes("g"@),
        unit_bytes("tib"@) == unit_bytes("t"@),
        unit_bytes("kb"@) is Some && unit_bytes("mb"@) is Some && unit_bytes("gb"@) is Some
            && unit_bytes("tb"@) is Some,
        unit_bytes("kb"@)->0 == 1000 * unit_bytes("b"@)->0,
        unit_bytes("mb"@)->0 == 1000 * unit_bytes("kb"@)->0,
        unit_bytes("gb"@)->0 == 1000 * unit_bytes("mb"@)->0,
        unit_bytes("tb"@)->0 == 1000 * unit_bytes("gb"@)->0,
{
    reveal_strlit("");
    reveal_strlit("b");
    reveal_strlit("k");
    reveal_strlit("m");
    reveal_strlit("g");
    reveal_strlit("t");
    reveal_strlit("kib");
    reveal_strlit("mib");
    reveal_strlit("gib");
    reveal_strlit("tib");
    reveal_strlit("kb");
    reveal_strlit("mb");
    reveal_strlit("gb");
    reveal_strlit("tb");
    assert(""@.len() == 0);
    assert("b"@.len() == 1 && "k"@.len() == 1 && "m"@.len() == 1 && "g"@.len() == 1 && "t"@.len()
        == 1);
    assert("kb"@.len() == 2 && "mb"@.len() == 2 && "gb"@.len() == 2 && "tb"@.len() == 2);
    assert("kib"@.len() == 3 && "mib"@.len() == 3 && "gib"@.len() == 3 && "tib"@.len() == 3);
    assert("b"@[0] != "k"@[0]);
    assert("b"@[0] != "m"@[0]);
    assert("b"@[0] != "g"@[0]);
    assert("b"@[0] != "t"@[0]);
    assert("k"@[0] != "m"@[0]);
    assert("k"@[0] != "g"@[0]);
    assert("k"@[0] != "t"@[0]);
    assert("m"@[0] != "g"@[0]);
    assert("m"@[0] != "t"@[0]);
    assert("g"@[0] != "t"@[0]);
    assert("kib"@[0] != "mib"@[0]);
    assert("kib"@[0] != "gib"@[0]);
    assert("kib"@[0] != "tib"@[0]);
    assert("mib"@[0] != "gib"@[0]);
    assert("mib"@[0] != "tib"@[0]);
    assert("gib"@[0] != "tib"@[0]);
    assert("kb"@[0] != "mb"@[0]);
    assert("kb"@[0] != "gb"@[0]);
    assert("kb"@[0] != "tb"@[0]);
    assert("mb"@[0] != "gb"@[0]);
    assert("mb"@[0] != "tb"@[0]);
    assert("gb"@[0] != "tb"@[0]);
}

proof fn lemma_trimmed_start(s: Seq<char>) -> (k: int)
    ensures
        0 <= k <= s.len(),
        trimmed_start(s) == s.subrange(k, s.len() as int),
        forall|i: int| 0 <= i < k ==> blank(#[trigger] s[i]),
        k < s.len() ==> !blank(s[k]),
    decreases s.len(),
{
    if s.len() > 0 && blank(s[0]) {
        let rest = s.subrange(1, s.len() as int);
        let k = lemma_trimmed_start(rest);
        assert(rest.subrange(k, rest.len() as int) =~= s.subrange(k + 1, s.len() as int));
        assert forall|i: int| 0 <= i < k + 1 implies blank(#[trigger] s[i]) by {
            if i > 0 {
                assert(rest[i - 1] == s[i]);
            }
        }
        k + 1
    } else {
        assert(s.subrange(0, s.len() as int) =~= s);
        0
    }
}

proof fn lemma_trimmed_back(s: Seq<char>) -> (k: int)
    ensures
        0 <= k <= s.len(),
        trimmed_back(s) == s.subrange(0, k),
        forall|i: int| k <= i < s.len() ==> blank(#[trigger] s[i]),
        k > 0 ==> !blank(s[k - 1]),
    decreases s.len(),
{
    if s.len() > 0 && blank(s.last()) {
        let rest = s.drop_last();
        let k = lemma_trimmed_back(rest);
        assert(rest.subrange(0, k) =~= s.subrange(0, k));
        assert forall|i: int| k <= i < s.len() implies blank(#[trigger] s[i]) by {
            if i < s.len() - 1 {
                assert(rest[i] == s[i]);
            }
        }
        k
    } else {
        assert(s.subrange(0, s.len() as int) =~= s);
        s.len() as int
    }
}

/// The unit of a size is what stands behind the number, without the blanks around it, in
/// small letters.
pub proof fn law_units_stand_behind_the_number(s: Seq<char>) -> (place: (int, int))
    ensures
        number_len(s) <= place.0 <= place.1 <= s.len(),
        size_suffix(s).len() == place.1 - place.0,
        forall|i: int|
            0 <= i < size_suffix(s).len() ==> #[trigger] size_suffix(s)[i] == text::lower_ascii(
                s[place.0 + i],
            ),
        forall|i: int| number_len(s) <= i < place.0 ==> blank(#[trigger] s[i]),
        forall|i: int| place.1 <= i < s.len() ==> blank(#[trigger] s[i]),
        place.0 < place.1 ==> !blank(s[place.0]) && !blank(s[place.1 - 1]),
{
    law_numbers_end_at_the_first_other_character(s);
    let n = number_len(s) as int;
    let tail = s.subrange(n, s.len() as int);
    let a = lemma_trimmed_start(tail);
    let mid = tail.subrange(a, tail.len() as int);
    let b = lemma_trimmed_back(mid);
    let out = mid.subrange(0, b);
    assert(size_suffix(s) =~= out.map_values(|c: char| text::lower_ascii(c)));
    assert forall|i: int| n <= i < n + a implies blank(#[trigger] s[i]) by {
        assert(tail[i - n] == s[i]);
    }
    assert forall|i: int| n + a + b <= i < s.len() && n <= i implies blank(#[trigger] s[i]) by {
        assert(mid[i - n - a] == s[i]);
    }
    if b > 0 {
        assert(mid[b - 1] == s[n + a + b - 1]);
        assert(mid[0] == s[n + a]);
        assert(tail[a] == s[n + a]);
    }
    (n + a, n + a + b)
}

/// A number of hundredths is shown as the whole, a point, and two digits.
pub proof fn law_hundredths_have_two_digits(whole: nat, tenth: nat, hundredth: nat)
    requires
        tenth < 10,
        hundredth < 10,
    ensures
        hundredths(100 * whole + 10 * tenth + hundredth) == text::decimal_of(whole) + "."@ + seq![
            text::digit(tenth as int),
            text::digit(hundredth as int),
        ],
{
    let h = 100 * whole + 10 * tenth + hundredth;
    assert(h / 100 == whole);
    assert(h / 10 == 10 * whole + tenth);
    assert(h / 10 % 10 == tenth);
    assert(h % 10 == hundredth);
}

} // verus!
