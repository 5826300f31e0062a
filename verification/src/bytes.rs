//! Numbers stored in bytes, the least significant byte first.
use vstd::prelude::*;

verus! {

/// The number in the `n` bytes from `at` on.
pub open spec fn le_of(b: Seq<u8>, at: int, n: nat) -> nat
    decreases n,
{
    if n == 0 {
        0
    } else {
        b[at] as nat + 256 * le_of(b, at + 1, (n - 1) as nat)
    }
}

/// 256 to the power of `n`.
pub open spec fn span_of(n: nat) -> nat
    decreases n,
{
    if n == 0 {
        1
    } else {
        256 * span_of((n - 1) as nat)
    }
}

/// The signed number in the `n` bytes from `at` on.
pub open spec fn signed_le_of(b: Seq<u8>, at: int, n: nat) -> int {
    if n > 0 && b[at + n - 1] >= 128 {
        le_of(b, at, n) - span_of(n)
    } else {
        le_of(b, at, n) as int
    }
}

pub proof fn lemma_le_bound(b: Seq<u8>, at: int, n: nat)
    ensures
        le_of(b, at, n) < span_of(n),
    decreases n,
{
    if n > 0 {
        lemma_le_bound(b, at + 1, (n - 1) as nat);
    }
}

pub proof fn lemma_spans()
    ensures
        span_of(0) == 1,
        span_of(1) == 0x100,
        span_of(2) == 0x1_0000,
        span_of(3) == 0x100_0000,
        span_of(4) == 0x1_0000_0000,
        span_of(5) == 0x100_0000_0000,
        span_of(6) == 0x1_0000_0000_0000,
        span_of(7) == 0x100_0000_0000_0000,
        span_of(8) == 0x1_0000_0000_0000_0000,
{
    reveal_with_fuel(span_of, 9);
}

/// The top byte of a number decides its sign.
proof fn lemma_le_top(b: Seq<u8>, at: int, n: nat)
    requires
        n > 0,
    ensures
        b[at + n - 1] as nat * span_of((n - 1) as nat) <= le_of(b, at, n) < (b[at + n - 1] as nat
            + 1) * span_of((n - 1) as nat),
    decreases n,
{
    let t = b[at + n - 1] as int;
    if n > 1 {
        lemma_le_top(b, at + 1, (n - 1) as nat);
        let s = span_of((n - 2) as nat) as int;
        let x = le_of(b, at + 1, (n - 1) as nat) as int;
        assert(at + 1 + (n - 1) - 1 == at + n - 1);
        assert(span_of((n - 1) as nat) == 256 * s);
        assert(le_of(b, at, n) == b[at] as int + 256 * x);
        assert(t * s <= x < (t + 1) * s);
        assert(256 * (t * s) == t * (256 * s)) by (nonlinear_arith);
        assert(256 * ((t + 1) * s) == (t + 1) * (256 * s)) by (nonlinear_arith);
    } else {
        assert(le_of(b, at + 1, 0) == 0);
        assert(le_of(b, at, 1) == t);
        assert(t * 1 == t && (t + 1) * 1 == t + 1) by (nonlinear_arith);
    }
}

/// A number of up to eight bytes, signed, fits.
pub proof fn lemma_signed_bound(b: Seq<u8>, at: int, n: nat)
    requires
        n <= 8,
    ensures
        i64::MIN <= signed_le_of(b, at, n) <= i64::MAX,
{
    lemma_spans();
    lemma_le_bound(b, at, n);
    if n > 0 {
        lemma_le_top(b, at, n);
        let t = b[at + n - 1] as int;
        let s = span_of((n - 1) as nat) as int;
        if t >= 128 {
            assert(t * s >= 128 * s) by (nonlinear_arith)
                requires
                    t >= 128,
                    s >= 0,
            ;
        } else {
            assert((t + 1) * s <= 128 * s) by (nonlinear_arith)
                requires
                    t <= 127,
                    s >= 0,
            ;
        }
    }
}

/// The bytes from `at` on are there.
pub open spec fn within(b: Seq<u8>, at: int, n: int) -> bool {
    0 <= at && at + n <= b.len()
}

/// The number in up to eight bytes.
pub fn le(b: &[u8], at: usize, n: usize) -> (r: u64)
    requires
        n <= 8,
        within(b@, at as int, n as int),
    ensures
        r == le_of(b@, at as int, n as nat),
    decreases n,
{
    let total: usize = b.len();
    assert(at + n <= total);
    if n == 0 {
        0
    } else {
        proof {
            lemma_spans();
            lemma_le_bound(b@, at as int, n as nat);
            lemma_le_bound(b@, at + 1, (n - 1) as nat);
        }
        let rest: u64 = le(b, at + 1, n - 1);
        b[at] as u64 + 256 * rest
    }
}

/// The signed number in up to eight bytes.
pub fn signed_le(b: &[u8], at: usize, n: usize) -> (r: i64)
    requires
        n <= 8,
        within(b@, at as int, n as int),
    ensures
        r == signed_le_of(b@, at as int, n as nat),
{
    let total: usize = b.len();
    assert(at + n <= total);
    let low: u64 = le(b, at, n);
    proof {
        lemma_spans();
        lemma_signed_bound(b@, at as int, n as nat);
    }
    if n > 0 && b[at + (n - 1)] >= 128 {
        let span: i128 = if n == 1 {
            0x100
        } else if n == 2 {
            0x1_0000
        } else if n == 3 {
            0x100_0000
        } else if n == 4 {
            0x1_0000_0000
        } else if n == 5 {
            0x100_0000_0000
        } else if n == 6 {
            0x1_0000_0000_0000
        } else if n == 7 {
            0x100_0000_0000_0000
        } else {
            0x1_0000_0000_0000_0000
        };
        (low as i128 - span) as i64
    } else {
        low as i64
    }
}

pub open spec fn u16_of(b: Seq<u8>, at: int) -> Option<u16> {
    if within(b, at, 2) {
        Some(le_of(b, at, 2) as u16)
    } else {
        None
    }
}

pub open spec fn u32_of(b: Seq<u8>, at: int) -> Option<u32> {
    if within(b, at, 4) {
        Some(le_of(b, at, 4) as u32)
    } else {
        None
    }
}

pub open spec fn u64_of(b: Seq<u8>, at: int) -> Option<u64> {
    if within(b, at, 8) {
        Some(le_of(b, at, 8) as u64)
    } else {
        None
    }
}

pub open spec fn id_of(b: Seq<u8>, at: int) -> Option<u128> {
    if within(b, at, 16) {
        Some((le_of(b, at, 8) + le_of(b, at + 8, 8) * 0x1_0000_0000_0000_0000) as u128)
    } else {
        None
    }
}

/// The two-byte number at an offset, if the bytes are there.
pub fn u16at(b: &[u8], at: usize) -> (r: Option<u16>)
    ensures
        r == u16_of(b@, at as int),
{
    if at <= b.len() && b.len() - at >= 2 {
        proof {
            lemma_spans();
            lemma_le_bound(b@, at as int, 2);
        }
        Some(le(b, at, 2) as u16)
    } else {
        None
    }
}

/// The four-byte number at an offset, if the bytes are there.
pub fn u32at(b: &[u8], at: usize) -> (r: Option<u32>)
    ensures
        r == u32_of(b@, at as int),
{
    if at <= b.len() && b.len() - at >= 4 {
        proof {
            lemma_spans();
            lemma_le_bound(b@, at as int, 4);
        }
        Some(le(b, at, 4) as u32)
    } else {
        None
    }
}

/// The eight-byte number at an offset, if the bytes are there.
pub fn u64at(b: &[u8], at: usize) -> (r: Option<u64>)
    ensures
        r == u64_of(b@, at as int),
{
    if at <= b.len() && b.len() - at >= 8 {
        Some(le(b, at, 8))
    } else {
        None
    }
}

/// The sixteen-byte identity at an offset, if the bytes are there.
pub fn idat(b: &[u8], at: usize) -> (r: Option<u128>)
    ensures
        r == id_of(b@, at as int),
{
    if at <= b.len() && b.len() - at >= 16 {
        let low: u64 = le(b, at, 8);
        let high: u64 = le(b, at + 8, 8);
        Some(low as u128 + high as u128 * 0x1_0000_0000_0000_0000)
    } else {
        None
    }
}

/// The two-byte units in an even number of bytes.
pub open spec fn units_of(b: Seq<u8>) -> Seq<u16> {
    Seq::new(b.len() / 2, |i: int| le_of(b, 2 * i, 2) as u16)
}

pub fn units(b: &[u8]) -> (r: Vec<u16>)
    ensures
        r@ == units_of(b@),
{
    let total: usize = b.len();
    let n: usize = total / 2;
    let mut out: Vec<u16> = Vec::new();
    let mut i: usize = 0;
    while i < n
        invariant
            i <= n,
            n == total / 2,
            total == b@.len(),
            out@ == units_of(b@).subrange(0, i as int),
        decreases n - i,
    {
        proof {
            lemma_spans();
            lemma_le_bound(b@, 2 * i as int, 2);
        }
        out.push(le(b, 2 * i, 2) as u16);
        i += 1;
        assert(out@ =~= units_of(b@).subrange(0, i as int));
    }
    assert(out@ =~= units_of(b@));
    out
}

/// Whether two lists of bytes are the same.
pub fn same_bytes(a: &[u8], b: &[u8]) -> (r: bool)
    ensures
        r == (a@ == b@),
{
    if a.len() != b.len() {
        return false;
    }
    let mut i: usize = 0;
    while i < a.len()
        invariant
            i <= a@.len(),
            a@.len() == b@.len(),
            forall|k: int| 0 <= k < i ==> #[trigger] a@[k] == b@[k],
        decreases a@.len() - i,
    {
        if a[i] != b[i] {
            return false;
        }
        i += 1;
    }
    assert(a@ =~= b@);
    true
}

/// Of a number of several bytes, the first is the lowest.
pub proof fn law_low_bytes_come_first(b: Seq<u8>, at: int)
    ensures
        le_of(b, at, 1) == b[at],
        le_of(b, at, 2) == b[at] + 0x100 * b[at + 1],
        le_of(b, at, 4) == b[at] + 0x100 * b[at + 1] + 0x1_0000 * b[at + 2] + 0x100_0000 * b[at + 3],
        le_of(b, at, 8) == b[at] + 0x100 * b[at + 1] + 0x1_0000 * b[at + 2] + 0x100_0000 * b[at + 3]
            + 0x1_0000_0000 * b[at + 4] + 0x100_0000_0000 * b[at + 5] + 0x1_0000_0000_0000 * b[at
            + 6] + 0x100_0000_0000_0000 * b[at + 7],
        signed_le_of(b, at, 1) == (if b[at] < 128 {
            b[at] as int
        } else {
            b[at] - 0x100
        }),
        signed_le_of(b, at, 2) == (if b[at + 1] < 128 {
            b[at] + 0x100 * b[at + 1]
        } else {
            b[at] + 0x100 * b[at + 1] - 0x1_0000
        }),
{
    reveal_with_fuel(le_of, 9);
    lemma_spans();
}

/// The bit that marks what leads elsewhere lies in the second byte.
pub proof fn lemma_reparse_byte(v: Seq<u8>, at: int)
    ensures
        (le_of(v, at, 4) as u32 & 0x400 != 0) == ((v[at + 1] / 4) % 2 == 1),
        (le_of(v, at, 4) as u32 & 0x1000_0000 != 0) == ((v[at + 3] / 16) % 2 == 1),
        (le_of(v, at, 4) as u32 & 0x10 != 0) == ((v[at] / 16) % 2 == 1),
{
    law_low_bytes_come_first(v, at);
    let n = le_of(v, at, 4) as u32;
    let low = v[at];
    let b = v[at + 1];
    let mid = v[at + 2];
    let high = v[at + 3];
    assert((n & 0x400 != 0) == ((b / 4) % 2 == 1) && (n & 0x1000_0000 != 0) == ((high / 16) % 2
        == 1) && (n & 0x10 != 0) == ((low / 16) % 2 == 1)) by (bit_vector)
        requires
            n == low + 0x100 * b + 0x1_0000 * mid + 0x100_0000 * high,
    ;
}

/// A number in a part of the bytes is the number in the whole.
pub proof fn lemma_number_in_part(v: Seq<u8>, from: int, end: int, at: int, n: nat)
    requires
        0 <= from <= end <= v.len(),
        0 <= at,
        at + n <= end - from,
    ensures
        le_of(v.subrange(from, end), at, n) == le_of(v, from + at, n),
        n > 0 ==> signed_le_of(v.subrange(from, end), at, n) == signed_le_of(v, from + at, n),
    decreases n,
{
    if n > 0 {
        lemma_number_in_part(v, from, end, at + 1, (n - 1) as nat);
    }
}

/// A number is read where its bytes are all there, the low byte first, and nowhere else.
pub proof fn law_numbers_are_read_where_they_lie(b: Seq<u8>, at: int)
    ensures
        u16_of(b, at) is Some <==> 0 <= at < at + 1 < b.len(),
        u32_of(b, at) is Some <==> 0 <= at < at + 3 < b.len(),
        u16_of(b, at) matches Some(v) ==> v == b[at] + 0x100 * b[at + 1],
        u32_of(b, at) matches Some(v) ==> v == b[at] + 0x100 * b[at + 1] + 0x1_0000 * b[at + 2]
            + 0x100_0000 * b[at + 3],
{
    law_low_bytes_come_first(b, at);
}

} // verus!
