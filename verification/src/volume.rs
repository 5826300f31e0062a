//! What the system answers about volumes, files and their streams.
use crate::bytes;
use crate::platform::{Identity, VolumeInfo};
use crate::text;
use crate::wide;
use crate::wide::Wide;
use vstd::prelude::*;
use vstd::string::*;

verus! {

/// There is nothing more to read.
pub const HANDLE_EOF: u32 = 38;

pub const INVALID_PARAMETER: u32 = 87;

pub const INSUFFICIENT_BUFFER: u32 = 122;

pub const MORE_DATA: u32 = 234;

/// No list of streams is longer.
pub const MAX_STREAM_LIST: usize = 1048576;

/// What to do after asking for the streams of a file.
#[derive(Clone, Copy, Debug, PartialEq, Eq, Structural)]
pub enum StreamStep {
    /// The list is there.
    Read,
    /// There are no streams.
    Empty,
    /// Ask again with so many bytes of room.
    Grow(usize),
    /// Give up with this code.
    Fail(u32),
}

/// What to do after asking for the streams of a file, with `room` bytes for the answer.
pub fn stream_step(ok: bool, code: u32, directory: bool, room: usize) -> (r: StreamStep)
    ensures
        r == (if ok {
            StreamStep::Read
        } else if directory && (code == HANDLE_EOF || code == INVALID_PARAMETER) {
            StreamStep::Empty
        } else if (code == MORE_DATA || code == INSUFFICIENT_BUFFER) && room < MAX_STREAM_LIST {
            StreamStep::Grow((room * 2) as usize)
        } else {
            StreamStep::Fail(code)
        }),
        r == StreamStep::Read <==> ok,
        r == StreamStep::Empty ==> directory && (code == 38 || code == 87),
        r matches StreamStep::Grow(n) ==> (code == 234 || code == 122) && n == room + room,
        r matches StreamStep::Fail(c) ==> c == code,
{
    if ok {
        StreamStep::Read
    } else if directory && (code == HANDLE_EOF || code == INVALID_PARAMETER) {
        StreamStep::Empty
    } else if (code == MORE_DATA || code == INSUFFICIENT_BUFFER) && room < MAX_STREAM_LIST {
        StreamStep::Grow(room * 2)
    } else {
        StreamStep::Fail(code)
    }
}

/// Why a list of streams is refused.
#[derive(Clone, Copy, Debug, PartialEq, Eq, Structural)]
pub enum StreamFault {
    Entry,
    Name,
    Next,
    SizeOverflow,
    AllocationOverflow,
}

impl StreamFault {
    pub open spec fn words(self) -> Seq<char> {
        match self {
            StreamFault::Entry => "invalid stream-info entry"@,
            StreamFault::Name => "invalid stream-info name"@,
            StreamFault::Next => "invalid stream-info next offset"@,
            StreamFault::SizeOverflow => "stream size overflow"@,
            StreamFault::AllocationOverflow => "stream allocation overflow"@,
        }
    }

    pub fn message(self) -> (r: &'static str)
        ensures
            r@ == self.words(),
    {
        match self {
            StreamFault::Entry => "invalid stream-info entry",
            StreamFault::Name => "invalid stream-info name",
            StreamFault::Next => "invalid stream-info next offset",
            StreamFault::SizeOverflow => "stream size overflow",
            StreamFault::AllocationOverflow => "stream allocation overflow",
        }
    }
}

/// A length; a negative one counts as none.
pub open spec fn length_at(b: Seq<u8>, at: int) -> int {
    let n = bytes::signed_le_of(b, at, 8);
    if n < 0 {
        0
    } else {
        n
    }
}

/// The name of the entry at `at`.
pub open spec fn stream_name(b: Seq<u8>, at: int) -> Seq<char> {
    text::utf16_text(
        bytes::units_of(b.subrange(at + 24, at + 24 + bytes::le_of(b, at + 4, 4))),
    )
}

/// Whether a stream holds data.
pub open spec fn holds_data(name: Seq<char>) -> bool {
    ":$DATA"@.is_suffix_of(name)
}

/// What the entries from `at` on add to the two sums. Only streams that hold data count.
pub open spec fn streams_from(b: Seq<u8>, at: int, logical: int, allocated: int) -> Result<
    (u64, u64),
    StreamFault,
>
    decreases b.len() - at,
{
    let next = bytes::le_of(b, at, 4) as int;
    let name_len = bytes::le_of(b, at + 4, 4) as int;
    if at + 24 > b.len() {
        Err(StreamFault::Entry)
    } else if !(name_len % 2 == 0 && at + 24 + name_len <= b.len()) {
        Err(StreamFault::Name)
    } else {
        let data = holds_data(stream_name(b, at));
        let more_logical = if data {
            logical + length_at(b, at + 8)
        } else {
            logical
        };
        let more_allocated = if data {
            allocated + length_at(b, at + 16)
        } else {
            allocated
        };
        if more_logical > u64::MAX {
            Err(StreamFault::SizeOverflow)
        } else if more_allocated > u64::MAX {
            Err(StreamFault::AllocationOverflow)
        } else if next == 0 {
            Ok((more_logical as u64, more_allocated as u64))
        } else if !(next >= 24 && at + next < b.len()) {
            Err(StreamFault::Next)
        } else {
            streams_from(b, at + next, more_logical, more_allocated)
        }
    }
}

/// Adds up the sizes of the data streams in a list.
pub fn stream_totals(b: &[u8]) -> (r: Result<(u64, u64), StreamFault>)
    ensures
        r == streams_from(b@, 0, 0, 0),
{
    let total: usize = b.len();
    let tail: Vec<char> = text::chars_of(":$DATA");
    let mut logical: u64 = 0;
    let mut allocated: u64 = 0;
    let mut at: usize = 0;
    loop
        invariant
            total == b@.len(),
            at <= total,
            tail@ == ":$DATA"@,
            streams_from(b@, at as int, logical as int, allocated as int) == streams_from(
                b@,
                0,
                0,
                0,
            ),
        decreases total - at,
    {
        if total - at < 24 {
            return Err(StreamFault::Entry);
        }
        proof {
            bytes::lemma_spans();
            bytes::lemma_le_bound(b@, at as int, 4);
            bytes::lemma_le_bound(b@, at + 4, 4);
            bytes::lemma_signed_bound(b@, at + 8, 8);
            bytes::lemma_signed_bound(b@, at + 16, 8);
        }
        let next: usize = bytes::le(b, at, 4) as usize;
        let name_len: usize = bytes::le(b, at + 4, 4) as usize;
        if name_len % 2 != 0 || total - at - 24 < name_len {
            return Err(StreamFault::Name);
        }
        let units: Vec<u16> = bytes::units(&b[at + 24..at + 24 + name_len]);
        let name: String = text::from_utf16(&units);
        let chars: Vec<char> = text::chars_of(&name);
        if text::ends(&chars, &tail) {
            let size: i64 = bytes::signed_le(b, at + 8, 8);
            let space: i64 = bytes::signed_le(b, at + 16, 8);
            let more: u64 = if size < 0 {
                0
            } else {
                size as u64
            };
            let room: u64 = if space < 0 {
                0
            } else {
                space as u64
            };
            match logical.checked_add(more) {
                None => {
                    return Err(StreamFault::SizeOverflow);
                },
                Some(n) => {
                    logical = n;
                },
            }
            match allocated.checked_add(room) {
                None => {
                    return Err(StreamFault::AllocationOverflow);
                },
                Some(n) => {
                    allocated = n;
                },
            }
        }
        if next == 0 {
            return Ok((logical, allocated));
        }
        if next < 24 || next >= total - at {
            return Err(StreamFault::Next);
        }
        at = at + next;
    }
}

/// What is known of a file by its handle. A reparse point has the lengths that the system
/// tells, everything else those of its streams.
pub fn identity_of(
    volume: u64,
    id: [u8; 16],
    told: (i64, i64),
    streams: (u64, u64),
    modified: i64,
    attributes: u32,
    links: u32,
) -> (r: Identity)
    ensures
        r.volume == volume && r.id == id && r.modified == modified && r.attributes == attributes
            && r.links == links,
        r.reparse() ==> r.length == (if told.0 < 0 {
            0
        } else {
            told.0 as int
        }) && r.allocated == (if told.1 < 0 {
            0
        } else {
            told.1 as int
        }),
        !r.reparse() ==> r.length == streams.0 && r.allocated == streams.1,
{
    let reparse: bool = attributes & 0x400 != 0;
    let length: u64 = if !reparse {
        streams.0
    } else if told.0 < 0 {
        0
    } else {
        told.0 as u64
    };
    let allocated: u64 = if !reparse {
        streams.1
    } else if told.1 < 0 {
        0
    } else {
        told.1 as u64
    };
    Identity { volume, id, length, allocated, modified, attributes, links }
}

/// The volume that the system describes: texts end at their first zero, the device has no
/// backslash at its end, and a cluster has at most the greatest number of bytes.
pub fn volume_of(
    root: &[u16],
    filesystem: &[u16],
    device: &[u16],
    serial: u32,
    total_bytes: u64,
    free_bytes: u64,
    sectors: u32,
    sector_bytes: u32,
) -> (r: VolumeInfo)
    ensures
        r.root@ == text::utf16_text(text::before_nul(root@)),
        r.filesystem@ == text::utf16_text(text::before_nul(filesystem@)),
        r.device@ == text::trimmed_end(text::utf16_text(text::before_nul(device@)), '\\'),
        r.serial == serial,
        r.total_bytes == total_bytes,
        r.free_bytes == free_bytes,
        r.cluster_bytes == (if sectors * sector_bytes <= u32::MAX {
            sectors * sector_bytes
        } else {
            u32::MAX as int
        }),
{
    let named: String = text::nul_text(device);
    let chars: Vec<char> = text::chars_of(&named);
    let bare: Vec<char> = text::trim_end(&chars, '\\');
    assert(0 <= sectors * sector_bytes <= 0xffff_ffff * 0xffff_ffff) by (nonlinear_arith)
        requires
            0 <= sectors <= 0xffff_ffff,
            0 <= sector_bytes <= 0xffff_ffff,
    ;
    let cluster: u64 = sectors as u64 * sector_bytes as u64;
    VolumeInfo {
        root: text::nul_text(root),
        device: text::text_of(&bare),
        filesystem: text::nul_text(filesystem),
        serial,
        total_bytes,
        free_bytes,
        cluster_bytes: if cluster <= 0xffff_ffff {
            cluster as u32
        } else {
            0xffff_ffff
        },
    }
}

/// Two to the power of `n`.
pub open spec fn bit_of(n: nat) -> int
    decreases n,
{
    if n == 0 {
        1
    } else {
        2 * bit_of((n - 1) as nat)
    }
}

/// The path of the drive with number `n`, of which `A` is the first.
pub open spec fn drive_path(n: int) -> Seq<char> {
    seq![(65 + n) as u8 as char, ':', '\\']
}

/// The drives among the first `n` whose bits are set.
pub open spec fn drives_of(mask: u32, n: nat) -> Seq<Seq<char>>
    decreases n,
{
    if n == 0 {
        Seq::empty()
    } else {
        let before = drives_of(mask, (n - 1) as nat);
        if mask as int / bit_of((n - 1) as nat) % 2 == 1 {
            before.push(drive_path(n - 1))
        } else {
            before
        }
    }
}

/// The drives that a mask of 26 bits tells.
pub fn drives(mask: u32) -> (r: Vec<String>)
    ensures
        text::views(r@) == drives_of(mask, 26),
{
    let mut out: Vec<String> = Vec::new();
    let mut bit: u32 = 1;
    let mut i: u8 = 0;
    assert(text::views(out@) =~= drives_of(mask, 0));
    while i < 26
        invariant
            i <= 26,
            bit == bit_of(i as nat),
            1 <= bit <= 0x400_0000,
            i < 26 ==> bit <= 0x200_0000,
            text::views(out@) == drives_of(mask, i as nat),
        decreases 26 - i,
    {
        proof {
            lemma_bits();
        }
        if mask / bit % 2 == 1 {
            let ghost had = out@;
            let mut p = String::new();
            p.push((65 + i) as char);
            p.push(':');
            p.push('\\');
            assert(p@ =~= drive_path(i as int));
            out.push(p);
            assert(text::views(out@) =~= text::views(had).push(p@));
        }
        bit = bit * 2;
        i += 1;
        assert(bit == bit_of(i as nat));
    }
    out
}

proof fn lemma_bits()
    ensures
        forall|n: nat| n <= 26 ==> 1 <= #[trigger] bit_of(n) <= 0x400_0000,
        forall|n: nat| n <= 25 ==> 1 <= #[trigger] bit_of(n) <= 0x200_0000,
{
    assert forall|n: nat| n <= 26 implies 1 <= #[trigger] bit_of(n) <= 0x400_0000 by {
        reveal_with_fuel(bit_of, 27);
    }
    assert forall|n: nat| n <= 25 implies 1 <= #[trigger] bit_of(n) <= 0x200_0000 by {
        reveal_with_fuel(bit_of, 26);
    }
}

/// The units after the backslashes at the beginning.
pub open spec fn after_slashes(u: Seq<u16>) -> Seq<u16>
    decreases u.len(),
{
    if u.len() > 0 && u[0] == 92 {
        after_slashes(u.skip(1))
    } else {
        u
    }
}

/// One of the paths of a file, from its name on the volume.
pub fn link_path(root: &str, name: &[u16]) -> (r: Wide)
    ensures
        r@ == wide::pushed(text::utf16_of(root@), after_slashes(text::before_nul(name@))),
{
    let whole: &[u16] = text::up_to_nul(name);
    let total: usize = whole.len();
    let mut i: usize = 0;
    assert(whole@.skip(0) =~= whole@);
    while i < total && whole[i] == 92
        invariant
            i <= total,
            total == whole@.len(),
            after_slashes(whole@.skip(i as int)) == after_slashes(whole@),
        decreases total - i,
    {
        assert(whole@.skip(i as int).skip(1) =~= whole@.skip(i + 1));
        i += 1;
    }
    let rest: &[u16] = &whole[i..total];
    assert(rest@ =~= whole@.skip(i as int));
    Wide::of(root).join(rest)
}

/// What is to be read from a device to get at some bytes.
#[derive(Clone, Copy, Debug, PartialEq, Eq, Structural)]
pub struct Window {
    pub start: u64,
    pub end: u64,
}

/// Why a read is refused.
#[derive(Clone, Copy, Debug, PartialEq, Eq, Structural)]
pub enum ReadFault {
    Overflow,
    Outside { offset: u64, len: u64 },
}

impl ReadFault {
    pub open spec fn words(self) -> Seq<char> {
        match self {
            ReadFault::Overflow => "raw read overflow"@,
            ReadFault::Outside { offset, len } => "raw read outside volume: offset="@
                + text::decimal_of(offset as nat) + " len="@ + text::decimal_of(len as nat),
        }
    }

    pub fn message(self) -> (r: String)
        ensures
            r@ == self.words(),
    {
        match self {
            ReadFault::Overflow => "raw read overflow".to_owned(),
            ReadFault::Outside { offset, len } => {
                let head: String = text::glue(
                    "raw read outside volume: offset=",
                    &text::decimal(offset),
                );
                text::glue(&text::glue(&head, " len="), &text::decimal(len))
            },
        }
    }
}

/// The stretch of a device of `length` bytes that holds the asked for bytes and begins and
/// ends at multiples of `alignment`; nothing is read for no bytes.
pub fn read_window(offset: u64, len: u64, length: u64, alignment: u64) -> (r: Result<
    Option<Window>,
    ReadFault,
>)
    requires
        0 < alignment <= 4096,
        length <= u64::MAX - 4096,
    ensures
        match r {
            Ok(None) => len == 0,
            Ok(Some(w)) => {
                &&& len > 0
                &&& offset + len <= length
                &&& w.start <= offset < w.start + alignment
                &&& offset + len <= w.end < offset + len + alignment
                &&& w.start as int % alignment as int == 0
                &&& w.end as int % alignment as int == 0
            },
            Err(ReadFault::Overflow) => len > 0 && offset + len > u64::MAX,
            Err(ReadFault::Outside { offset: o, len: l }) => {
                len > 0 && length < offset + len <= u64::MAX && o == offset && l == len
            },
        },
{
    if len == 0 {
        return Ok(None);
    }
    let end: u64 = match offset.checked_add(len) {
        None => {
            return Err(ReadFault::Overflow);
        },
        Some(end) => end,
    };
    if end > length {
        return Err(ReadFault::Outside { offset, len });
    }
    proof {
        vstd::arithmetic::div_mod::lemma_mod_decreases(offset as nat, alignment as nat);
    }
    let below: u64 = offset % alignment;
    let over: u64 = end % alignment;
    let start: u64 = offset - below;
    let stop: u64 = if over == 0 {
        end
    } else {
        end + (alignment - over)
    };
    proof {
        let a = alignment as int;
        vstd::arithmetic::div_mod::lemma_fundamental_div_mod(offset as int, a);
        vstd::arithmetic::div_mod::lemma_fundamental_div_mod(end as int, a);
        let p = offset as int / a;
        let q = end as int / a;
        assert(start == a * p);
        assert(a * p == p * a) by (nonlinear_arith);
        vstd::arithmetic::div_mod::lemma_mod_multiples_basic(p, a);
        if over == 0 {
            assert(stop == a * q);
            assert(a * q == q * a) by (nonlinear_arith);
            vstd::arithmetic::div_mod::lemma_mod_multiples_basic(q, a);
        } else {
            assert(stop == a * q + a);
            assert(a * q + a == (q + 1) * a) by (nonlinear_arith);
            vstd::arithmetic::div_mod::lemma_mod_multiples_basic(q + 1, a);
        }
    }
    Ok(Some(Window { start, end: stop }))
}

/// Why an answer about a file record is refused.
#[derive(Clone, Copy, Debug, PartialEq, Eq, Structural)]
pub enum ReplyFault {
    Different(u64),
    Length,
}

impl ReplyFault {
    pub open spec fn words(self) -> Seq<char> {
        match self {
            ReplyFault::Different(record) => "NTFS returned a different record for "@
                + text::decimal_of(record as nat),
            ReplyFault::Length => "invalid file-record reply length"@,
        }
    }

    pub fn message(self) -> (r: String)
        ensures
            r@ == self.words(),
    {
        match self {
            ReplyFault::Different(record) => text::glue(
                "NTFS returned a different record for ",
                &text::decimal(record),
            ),
            ReplyFault::Length => "invalid file-record reply length".to_owned(),
        }
    }
}

/// The file record in an answer of `got` bytes: it must be the one that was asked for, and
/// as long as records are.
pub open spec fn record_in(out: Seq<u8>, got: int, record: u64, size: int) -> Result<
    Seq<u8>,
    ReplyFault,
> {
    if got < 12 || bytes::le_of(out, 0, 6) != record {
        Err(ReplyFault::Different(record))
    } else if bytes::le_of(out, 8, 4) != size || size + 12 > got {
        Err(ReplyFault::Length)
    } else {
        Ok(out.subrange(12, 12 + size))
    }
}

pub fn record_reply(out: &[u8], got: usize, record: u64, size: usize) -> (r: Result<
    Vec<u8>,
    ReplyFault,
>)
    requires
        got <= out@.len(),
    ensures
        match (r, record_in(out@, got as int, record, size as int)) {
            (Ok(v), Ok(w)) => v@ == w,
            (Err(e), Err(f)) => e == f,
            _ => false,
        },
{
    if got < 12 || bytes::le(out, 0, 6) != record {
        return Err(ReplyFault::Different(record));
    }
    let len: u64 = bytes::le(out, 8, 4);
    if len != size as u64 || size > got - 12 {
        return Err(ReplyFault::Length);
    }
    let mut v: Vec<u8> = Vec::new();
    v.extend_from_slice(&out[12..12 + size]);
    assert(v@ =~= out@.subrange(12, 12 + size as int));
    Ok(v)
}

/// What the streams of a file take together: each stream of data adds its length and its
/// space, and no other adds anything.
pub proof fn law_streams_add_up(b: Seq<u8>, at: int, logical: int, allocated: int)
    requires
        0 <= at,
        streams_from(b, at, logical, allocated) is Ok,
    ensures
        ({
            let r = streams_from(b, at, logical, allocated)->Ok_0;
            let data = ":$DATA"@.is_suffix_of(stream_name(b, at));
            let own = bytes::signed_le_of(b, at + 8, 8);
            let space = bytes::signed_le_of(b, at + 16, 8);
            let l = if data && own > 0 {
                logical + own
            } else {
                logical
            };
            let s = if data && space > 0 {
                allocated + space
            } else {
                allocated
            };
            let next = bytes::le_of(b, at, 4);
            &&& next == 0 && 0 <= logical && 0 <= allocated ==> r == (l as u64, s as u64) && l
                <= u64::MAX && s <= u64::MAX
            &&& next != 0 ==> streams_from(b, at + next, l, s) == Ok::<(u64, u64), StreamFault>(r)
        }),
{
}

/// A drive is listed exactly if its bit is set, A for the lowest, each as its letter, a
/// colon and a backslash.
pub proof fn law_drives_are_listed_by_their_bit(mask: u32, n: nat, i: nat)
    requires
        i < n <= 26,
    ensures
        ({
            let letter = (0x41 + i) as u8 as char;
            drives_of(mask, n).contains(seq![letter, ':', '\\']) <==> mask as int / bit_of(i) % 2
                == 1
        }),
        bit_of(0) == 1,
        bit_of(i + 1) == 2 * bit_of(i),
        drives_of(mask, n).len() <= n,
    decreases n,
{
    let m = (n - 1) as nat;
    let before = drives_of(mask, m);
    let now = drives_of(mask, n);
    let letter = (0x41 + i) as u8 as char;
    let d = seq![letter, ':', '\\'];
    let last = drive_path(m as int);
    assert(letter as int == 0x41 + i);
    assert(last[0] as int == 0x41 + m);
    if i < m {
        law_drives_are_listed_by_their_bit(mask, m, i);
        assert(d[0] != last[0]);
        if before.contains(d) {
            let k = before.index_of(d);
            assert(now[k] == d);
        }
        if now.contains(d) {
            let k = now.index_of(d);
            assert(before[k] == d);
        }
    } else {
        lemma_drives_below(mask, m);
        assert(d =~= last);
        if mask as int / bit_of(m) % 2 == 1 {
            assert(now[before.len() as int] == d);
        } else if now.contains(d) {
            let k = now.index_of(d);
            assert((before[k][0] as int) < 0x41 + m);
        }
    }
}

proof fn lemma_drives_below(mask: u32, n: nat)
    requires
        n <= 26,
    ensures
        drives_of(mask, n).len() <= n,
        forall|k: int|
            0 <= k < drives_of(mask, n).len() ==> ((#[trigger] drives_of(mask, n)[k])[0] as int)
                < 0x41 + n,
    decreases n,
{
    if n > 0 {
        let m = (n - 1) as nat;
        lemma_drives_below(mask, m);
        let before = drives_of(mask, m);
        let now = drives_of(mask, n);
        assert forall|k: int| 0 <= k < now.len() implies ((#[trigger] now[k])[0] as int) < 0x41
            + n by {
            if k < before.len() {
                assert(now[k] == before[k]);
            } else {
                assert(drive_path(m as int)[0] as int == 0x41 + m);
            }
        }
    }
}

/// A reply is taken for the record that was asked for only if it says so, and the record is
/// the bytes behind the head of the reply.
pub proof fn law_only_the_asked_record_is_taken(
    out: Seq<u8>,
    got: int,
    record: u64,
    size: int,
)
    requires
        0 <= got <= out.len(),
        0 <= size,
        record_in(out, got, record, size) is Ok,
    ensures
        ({
            let r = record_in(out, got, record, size)->Ok_0;
            &&& bytes::le_of(out, 0, 6) == record
            &&& out[8] + 0x100 * out[9] + 0x1_0000 * out[10] + 0x100_0000 * out[11] == size
            &&& r.len() == size
            &&& size + 12 <= got
            &&& forall|k: int| 0 <= k < size ==> #[trigger] r[k] == out[12 + k]
        }),
{
    bytes::law_low_bytes_come_first(out, 8);
}

/// Leading backslashes are taken away, and nothing else.
pub proof fn law_only_leading_backslashes_go(u: Seq<u16>)
    ensures
        ({
            let r = after_slashes(u);
            &&& r.len() <= u.len()
            &&& r.len() > 0 ==> r[0] != 0x5c
            &&& r == u.skip(u.len() - r.len())
            &&& forall|i: int| 0 <= i < u.len() - r.len() ==> #[trigger] u[i] == 0x5c
        }),
    decreases u.len(),
{
    if u.len() > 0 && u[0] == 92 {
        let rest = u.skip(1);
        law_only_leading_backslashes_go(rest);
        let r = after_slashes(u);
        assert(rest.skip(rest.len() - r.len()) =~= u.skip(u.len() - r.len()));
        assert forall|i: int| 0 <= i < u.len() - r.len() implies #[trigger] u[i] == 0x5c by {
            if i > 0 {
                assert(rest[i - 1] == 0x5c);
            }
        }
    } else {
        assert(u.skip(0) =~= u);
    }
}

/// A list of streams is refused at an entry that is cut off, whose name is, or that leads
/// nowhere, and at no other as long as the sums fit.
pub proof fn law_stream_entries_are_refused_for_cause(
    b: Seq<u8>,
    at: int,
    logical: int,
    allocated: int,
)
    requires
        0 <= at,
        0 <= logical,
        0 <= allocated,
        logical < 0x8000_0000_0000_0000,
        allocated < 0x8000_0000_0000_0000,
    ensures
        ({
            let r = streams_from(b, at, logical, allocated);
            let next = b[at] + 0x100 * b[at + 1] + 0x1_0000 * b[at + 2] + 0x100_0000 * b[at + 3];
            let name = b[at + 4] + 0x100 * b[at + 5] + 0x1_0000 * b[at + 6] + 0x100_0000 * b[at
                + 7];
            let named = name % 2 == 0 && at + 24 + name <= b.len();
            &&& b.len() < at + 24 ==> r == Err::<(u64, u64), StreamFault>(StreamFault::Entry)
            &&& b.len() >= at + 24 && !named ==> r == Err::<(u64, u64), StreamFault>(
                StreamFault::Name,
            )
            &&& b.len() >= at + 24 && named && next == 0 ==> r is Ok
            &&& b.len() >= at + 24 && named && next != 0 && (next < 24 || at + next >= b.len())
                ==> r == Err::<(u64, u64), StreamFault>(StreamFault::Next)
        }),
{
    bytes::law_low_bytes_come_first(b, at);
    bytes::law_low_bytes_come_first(b, at + 4);
    bytes::law_low_bytes_come_first(b, at + 8);
    bytes::law_low_bytes_come_first(b, at + 16);
    bytes::lemma_spans();
    assert(length_at(b, at + 8) < 0x8000_0000_0000_0000);
    assert(length_at(b, at + 16) < 0x8000_0000_0000_0000);
}

/// A reply is taken exactly if it is for the record that was asked for, and is as long as it
/// says and as it should be.
pub proof fn law_replies_are_refused_for_cause(out: Seq<u8>, got: int, record: u64, size: int)
    requires
        0 <= size,
    ensures
        ({
            let same = got >= 12 && bytes::le_of(out, 0, 6) == record;
            let length = out[8] + 0x100 * out[9] + 0x1_0000 * out[10] + 0x100_0000 * out[11];
            let r = record_in(out, got, record, size);
            &&& r is Ok <==> same && length == size && 12 + size <= got
            &&& r == Err::<Seq<u8>, ReplyFault>(ReplyFault::Different(record)) <==> !same
        }),
{
    bytes::law_low_bytes_come_first(out, 8);
}

} // verus!
