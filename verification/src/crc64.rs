//! The checksum of metadata pages: CRC-64/NVME, eight bytes at a time.
use crate::bytes;
use vstd::prelude::*;

verus! {

/// The polynomial, its lowest power in the highest bit.
pub const POLY: u64 = 0x9a6c_9329_ac4b_c9b5;

/// One bit further.
pub open spec fn bit(c: u64) -> u64 {
    if c & 1 != 0 {
        (c >> 1) ^ POLY
    } else {
        c >> 1
    }
}

/// Eight bits further.
pub open spec fn step(c: u64) -> u64 {
    bit(bit(bit(bit(bit(bit(bit(bit(c))))))))
}

/// So many bytes further.
pub open spec fn steps(c: u64, n: nat) -> u64
    decreases n,
{
    if n == 0 {
        c
    } else {
        step(steps(c, (n - 1) as nat))
    }
}

/// The remainder after the first `n` bytes.
pub open spec fn remainder(data: Seq<u8>, n: nat) -> u64
    decreases n,
{
    if n == 0 {
        u64::MAX
    } else {
        step(remainder(data, (n - 1) as nat) ^ data[n - 1] as u64)
    }
}

/// The checksum of a page. One value is never used, and gives way to its neighbour.
pub open spec fn checksum(data: Seq<u8>) -> u64 {
    let c = remainder(data, data.len()) ^ u64::MAX;
    if c == 0xabba_ffff_abba_fffe {
        0xabba_ffff_abba_ffff
    } else {
        c
    }
}

proof fn lemma_bit_linear(a: u64, b: u64)
    ensures
        bit(a ^ b) == bit(a) ^ bit(b),
{
    assert((if (a ^ b) & 1 != 0 {
        ((a ^ b) >> 1) ^ 0x9a6c_9329_ac4b_c9b5
    } else {
        (a ^ b) >> 1
    }) == (if a & 1 != 0 {
        (a >> 1) ^ 0x9a6c_9329_ac4b_c9b5
    } else {
        a >> 1
    }) ^ (if b & 1 != 0 {
        (b >> 1) ^ 0x9a6c_9329_ac4b_c9b5
    } else {
        b >> 1
    })) by (bit_vector);
}

proof fn lemma_step_linear(a: u64, b: u64)
    ensures
        step(a ^ b) == step(a) ^ step(b),
{
    let (a1, b1) = (bit(a), bit(b));
    let (a2, b2) = (bit(a1), bit(b1));
    let (a3, b3) = (bit(a2), bit(b2));
    let (a4, b4) = (bit(a3), bit(b3));
    let (a5, b5) = (bit(a4), bit(b4));
    let (a6, b6) = (bit(a5), bit(b5));
    let (a7, b7) = (bit(a6), bit(b6));
    lemma_bit_linear(a, b);
    lemma_bit_linear(a1, b1);
    lemma_bit_linear(a2, b2);
    lemma_bit_linear(a3, b3);
    lemma_bit_linear(a4, b4);
    lemma_bit_linear(a5, b5);
    lemma_bit_linear(a6, b6);
    lemma_bit_linear(a7, b7);
}

proof fn lemma_steps_linear(a: u64, b: u64, n: nat)
    ensures
        steps(a ^ b, n) == steps(a, n) ^ steps(b, n),
    decreases n,
{
    if n > 0 {
        lemma_steps_linear(a, b, (n - 1) as nat);
        lemma_step_linear(steps(a, (n - 1) as nat), steps(b, (n - 1) as nat));
    }
}

/// Bits that are clear are just shifted out.
proof fn lemma_step_clear(x: u64)
    requires
        x & 0xff == 0,
    ensures
        step(x) == x >> 8,
{
    let x1 = x >> 1;
    let x2 = x1 >> 1;
    let x3 = x2 >> 1;
    let x4 = x3 >> 1;
    let x5 = x4 >> 1;
    let x6 = x5 >> 1;
    let x7 = x6 >> 1;
    assert(x & 0xff == 0 ==> x & 1 == 0 && (x >> 1) & 1 == 0 && ((x >> 1) >> 1) & 1 == 0 && (((x
        >> 1) >> 1) >> 1) & 1 == 0 && ((((x >> 1) >> 1) >> 1) >> 1) & 1 == 0 && (((((x >> 1) >> 1)
        >> 1) >> 1) >> 1) & 1 == 0 && ((((((x >> 1) >> 1) >> 1) >> 1) >> 1) >> 1) & 1 == 0
        && (((((((x >> 1) >> 1) >> 1) >> 1) >> 1) >> 1) >> 1) & 1 == 0 && (((((((x >> 1) >> 1)
        >> 1) >> 1) >> 1) >> 1) >> 1) >> 1 == x >> 8) by (bit_vector);
}

/// A step works on the low byte, and shifts the rest.
proof fn lemma_step_split(c: u64)
    ensures
        step(c) == (c >> 8) ^ step(c & 0xff),
{
    let high = c & 0xffff_ffff_ffff_ff00;
    let low = c & 0xff;
    assert((c & 0xffff_ffff_ffff_ff00) ^ (c & 0xff) == c && (c & 0xffff_ffff_ffff_ff00) & 0xff == 0
        && (c & 0xffff_ffff_ffff_ff00) >> 8 == c >> 8) by (bit_vector);
    lemma_step_linear(high, low);
    lemma_step_clear(high);
}

/// A byte that stands `k` bytes up comes down before it matters.
proof fn lemma_steps_byte(b: u64, k: nat, n: nat)
    requires
        b < 256,
        k <= n <= 8,
        k <= 7,
    ensures
        steps(b << (8 * k) as u64, n) == steps(b, (n - k) as nat),
    decreases k,
{
    if k == 0 {
        assert(b << 0u64 == b) by (bit_vector);
    } else {
        let s = (8 * k) as u64;
        let t = (8 * (k - 1)) as u64;
        assert(t == s - 8);
        assert(b < 256 && 8 <= s <= 56 && t == s - 8 ==> (b << s) & 0xff == 0 && (b << s) >> 8 == b
            << t) by (bit_vector);
        lemma_step_clear(b << s);
        lemma_steps_head(b << s, n);
        lemma_steps_byte(b, (k - 1) as nat, (n - 1) as nat);
    }
}

/// Steps can be taken at the front as well.
proof fn lemma_steps_head(c: u64, n: nat)
    requires
        n > 0,
    ensures
        steps(c, n) == steps(step(c), (n - 1) as nat),
    decreases n,
{
    if n > 1 {
        lemma_steps_head(c, (n - 1) as nat);
    } else {
        reveal_with_fuel(steps, 2);
    }
}

/// The tables: entry `256 * s + i` is byte `i` taken `s + 1` bytes further.
pub open spec fn tables_ok(t: Seq<u64>) -> bool {
    t.len() == 2048 && forall|s: int, i: int|
        0 <= s < 8 && 0 <= i < 256 ==> #[trigger] t[256 * s + i] == steps(i as u64, (s + 1) as nat)
}

fn step_of(c: u64) -> (r: u64)
    ensures
        r == step(c),
{
    let mut v: u64 = c;
    let mut k: usize = 0;
    while k < 8
        invariant
            k <= 8,
            k == 0 ==> v == c,
            k == 1 ==> v == bit(c),
            k == 2 ==> v == bit(bit(c)),
            k == 3 ==> v == bit(bit(bit(c))),
            k == 4 ==> v == bit(bit(bit(bit(c)))),
            k == 5 ==> v == bit(bit(bit(bit(bit(c))))),
            k == 6 ==> v == bit(bit(bit(bit(bit(bit(c)))))),
            k == 7 ==> v == bit(bit(bit(bit(bit(bit(bit(c))))))),
            k == 8 ==> v == step(c),
        decreases 8 - k,
    {
        v = if v & 1 != 0 {
            (v >> 1) ^ POLY
        } else {
            v >> 1
        };
        k += 1;
    }
    v
}

/// The tables for eight bytes at a time.
pub fn crc64_tables() -> (t: Vec<u64>)
    ensures
        tables_ok(t@),
{
    let mut t: Vec<u64> = Vec::new();
    let mut i: usize = 0;
    while i < 256
        invariant
            i <= 256,
            t@.len() == i,
            forall|k: int| 0 <= k < i ==> #[trigger] t@[k] == steps(k as u64, 1),
        decreases 256 - i,
    {
        proof {
            reveal_with_fuel(steps, 2);
        }
        t.push(step_of(i as u64));
        i += 1;
    }
    let mut n: usize = 256;
    while n < 2048
        invariant
            256 <= n <= 2048,
            t@.len() == n,
            forall|k: int|
                0 <= k < n ==> #[trigger] t@[k] == steps((k % 256) as u64, (k / 256 + 1) as nat),
        decreases 2048 - n,
    {
        let c: u64 = t[n - 256];
        proof {
            lemma_step_split(c);
            let low = c & 0xff;
            assert(c & 0xff < 256) by (bit_vector);
            reveal_with_fuel(steps, 2);
            assert(t@[low as int] == steps(low, 1));
            assert((n - 256) % 256 == n % 256);
            assert((n - 256) / 256 + 1 == n / 256);
            assert(t@[n - 256] == steps((n % 256) as u64, (n / 256) as nat));
        }
        let low: usize = (c & 0xff) as usize;
        t.push((c >> 8) ^ t[low]);
        n += 1;
    }
    assert forall|s: int, i: int| 0 <= s < 8 && 0 <= i < 256 implies #[trigger] t@[256 * s + i]
        == steps(i as u64, (s + 1) as nat) by {
        assert((256 * s + i) % 256 == i);
        assert((256 * s + i) / 256 == s);
    }
    t
}

/// The word of the `n` bytes from `at` on: its low byte is the first of them.
proof fn lemma_word(data: Seq<u8>, at: int, n: nat)
    requires
        1 <= n <= 8,
    ensures
        ({
            let w = bytes::le_of(data, at, n) as u64;
            &&& bytes::le_of(data, at, n) <= u64::MAX
            &&& w & 0xff == data[at] as u64
            &&& w >> 8 == bytes::le_of(data, at + 1, (n - 1) as nat) as u64
            &&& (w & 0xffff_ffff_ffff_ff00) ^ (data[at] as u64) == w
        }),
{
    bytes::lemma_spans();
    bytes::lemma_le_bound(data, at, n);
    bytes::lemma_le_bound(data, at + 1, (n - 1) as nat);
    let w = bytes::le_of(data, at, n) as u64;
    let d = data[at] as u64;
    let r = bytes::le_of(data, at + 1, (n - 1) as nat) as u64;
    assert(r <= 0xff_ffff_ffff_ffff);
    assert(w == d + 256 * r);
    assert(d < 256 && r <= 0xff_ffff_ffff_ffff && w == d + 256 * r ==> w & 0xff == d && w >> 8 == r
        && (w & 0xffff_ffff_ffff_ff00) ^ d == w) by (bit_vector);
}

/// After `k` of eight bytes, what is left of the word still hangs in the remainder.
proof fn lemma_eight(data: Seq<u8>, at: nat, k: nat)
    requires
        k <= 8,
    ensures
        steps(remainder(data, at) ^ (bytes::le_of(data, at as int, 8) as u64), k) == remainder(
            data,
            at + k,
        ) ^ (bytes::le_of(data, at as int + k, (8 - k) as nat) as u64),
    decreases k,
{
    if k > 0 {
        let j = (k - 1) as nat;
        lemma_eight(data, at, j);
        let p = remainder(data, at + j);
        let w = bytes::le_of(data, at as int + j, (8 - j) as nat) as u64;
        let next = bytes::le_of(data, at as int + k, (8 - k) as nat) as u64;
        let b = data[at as int + j] as u64;
        let high = w & 0xffff_ffff_ffff_ff00;
        lemma_word(data, at as int + j, (8 - j) as nat);
        assert(p ^ (high ^ b) == (p ^ b) ^ high && (w & 0xffff_ffff_ffff_ff00) & 0xff == 0 && (w
            & 0xffff_ffff_ffff_ff00) >> 8 == w >> 8) by (bit_vector);
        lemma_step_linear(p ^ b, high);
        lemma_step_clear(high);
        assert(remainder(data, at + k) == step(p ^ b));
        assert(step(p ^ w) == step(p ^ b) ^ next);
    }
}

/// Eight bytes at a time, each byte looked up in the table of its place.
proof fn lemma_bytes_apart(x: u64, t: Seq<u64>)
    requires
        tables_ok(t),
    ensures
        steps(x, 8) == t[1792 + (x & 0xff)] ^ t[1536 + ((x >> 8) & 0xff)] ^ t[1280 + ((x >> 16)
            & 0xff)] ^ t[1024 + ((x >> 24) & 0xff)] ^ t[768 + ((x >> 32) & 0xff)] ^ t[512 + ((x
            >> 40) & 0xff)] ^ t[256 + ((x >> 48) & 0xff)] ^ t[(x >> 56) as int],
{
    let b0 = x & 0xff;
    let b1 = (x >> 8) & 0xff;
    let b2 = (x >> 16) & 0xff;
    let b3 = (x >> 24) & 0xff;
    let b4 = (x >> 32) & 0xff;
    let b5 = (x >> 40) & 0xff;
    let b6 = (x >> 48) & 0xff;
    let b7 = x >> 56;
    assert((x & 0xff) < 256 && ((x >> 8) & 0xff) < 256 && ((x >> 16) & 0xff) < 256 && ((x >> 24)
        & 0xff) < 256 && ((x >> 32) & 0xff) < 256 && ((x >> 40) & 0xff) < 256 && ((x >> 48) & 0xff)
        < 256 && (x >> 56) < 256) by (bit_vector);
    assert(x == ((((((((x & 0xff) << 0u64) ^ (((x >> 8) & 0xff) << 8u64)) ^ (((x >> 16) & 0xff)
        << 16u64)) ^ (((x >> 24) & 0xff) << 24u64)) ^ (((x >> 32) & 0xff) << 32u64)) ^ (((x >> 40)
        & 0xff) << 40u64)) ^ (((x >> 48) & 0xff) << 48u64)) ^ ((x >> 56) << 56u64)) by (bit_vector);
    let y0 = b0 << 0u64;
    let y1 = y0 ^ (b1 << 8u64);
    let y2 = y1 ^ (b2 << 16u64);
    let y3 = y2 ^ (b3 << 24u64);
    let y4 = y3 ^ (b4 << 32u64);
    let y5 = y4 ^ (b5 << 40u64);
    let y6 = y5 ^ (b6 << 48u64);
    lemma_steps_linear(y6, b7 << 56u64, 8);
    lemma_steps_linear(y5, b6 << 48u64, 8);
    lemma_steps_linear(y4, b5 << 40u64, 8);
    lemma_steps_linear(y3, b4 << 32u64, 8);
    lemma_steps_linear(y2, b3 << 24u64, 8);
    lemma_steps_linear(y1, b2 << 16u64, 8);
    lemma_steps_linear(y0, b1 << 8u64, 8);
    lemma_steps_byte(b0, 0, 8);
    lemma_steps_byte(b1, 1, 8);
    lemma_steps_byte(b2, 2, 8);
    lemma_steps_byte(b3, 3, 8);
    lemma_steps_byte(b4, 4, 8);
    lemma_steps_byte(b5, 5, 8);
    lemma_steps_byte(b6, 6, 8);
    lemma_steps_byte(b7, 7, 8);
    assert(t[256 * 7 + b0 as int] == steps(b0, 8));
    assert(t[256 * 6 + b1 as int] == steps(b1, 7));
    assert(t[256 * 5 + b2 as int] == steps(b2, 6));
    assert(t[256 * 4 + b3 as int] == steps(b3, 5));
    assert(t[256 * 3 + b4 as int] == steps(b4, 4));
    assert(t[256 * 2 + b5 as int] == steps(b5, 3));
    assert(t[256 * 1 + b6 as int] == steps(b6, 2));
    assert(t[256 * 0 + b7 as int] == steps(b7, 1));
}

/// The checksum, by tables made beforehand.
pub fn crc64_with(t: &Vec<u64>, data: &[u8]) -> (r: u64)
    requires
        tables_ok(t@),
    ensures
        r == checksum(data@),
{
    let total: usize = data.len();
    let mut c: u64 = 0xffff_ffff_ffff_ffff;
    let mut i: usize = 0;
    while total - i >= 8
        invariant
            i <= total,
            total == data@.len(),
            tables_ok(t@),
            c == remainder(data@, i as nat),
        decreases total - i,
    {
        let x: u64 = c ^ bytes::le(data, i, 8);
        proof {
            bytes::lemma_spans();
            bytes::lemma_le_bound(data@, i as int, 8);
            lemma_eight(data@, i as nat, 8);
            assert(bytes::le_of(data@, i + 8, 0) == 0);
            let after = remainder(data@, (i + 8) as nat);
            assert(after ^ 0 == after) by (bit_vector);
            lemma_bytes_apart(x, t@);
            assert((x & 0xff) < 256 && ((x >> 8) & 0xff) < 256 && ((x >> 16) & 0xff) < 256 && ((x
                >> 24) & 0xff) < 256 && ((x >> 32) & 0xff) < 256 && ((x >> 40) & 0xff) < 256 && ((x
                >> 48) & 0xff) < 256 && (x >> 56) < 256) by (bit_vector);
        }
        let a0: usize = 1792 + (x & 0xff) as usize;
        let a1: usize = 1536 + ((x >> 8) & 0xff) as usize;
        let a2: usize = 1280 + ((x >> 16) & 0xff) as usize;
        let a3: usize = 1024 + ((x >> 24) & 0xff) as usize;
        let a4: usize = 768 + ((x >> 32) & 0xff) as usize;
        let a5: usize = 512 + ((x >> 40) & 0xff) as usize;
        let a6: usize = 256 + ((x >> 48) & 0xff) as usize;
        let a7: usize = (x >> 56) as usize;
        c = t[a0] ^ t[a1] ^ t[a2] ^ t[a3] ^ t[a4] ^ t[a5] ^ t[a6] ^ t[a7];
        i += 8;
    }
    while i < total
        invariant
            i <= total,
            total == data@.len(),
            tables_ok(t@),
            c == remainder(data@, i as nat),
        decreases total - i,
    {
        let b: u64 = data[i] as u64;
        proof {
            lemma_step_split(c ^ b);
            assert(b < 256 ==> (c ^ b) & 0xff < 256 && (c ^ b) >> 8 == c >> 8) by (bit_vector);
            reveal_with_fuel(steps, 2);
            let low = (c ^ b) & 0xff;
            assert(t@[256 * 0 + low as int] == steps(low, 1));
        }
        let low: usize = ((c ^ b) & 0xff) as usize;
        c = (c >> 8) ^ t[low];
        i += 1;
    }
    let sum: u64 = c ^ 0xffff_ffff_ffff_ffff;
    if sum == 0xabba_ffff_abba_fffe {
        0xabba_ffff_abba_ffff
    } else {
        sum
    }
}

/// The checksum of a page.
pub fn crc64(data: &[u8]) -> (r: u64)
    ensures
        r == checksum(data@),
{
    let t: Vec<u64> = crc64_tables();
    crc64_with(&t, data)
}

proof fn lemma_bit_injective(a: u64, b: u64)
    requires
        bit(a) == bit(b),
    ensures
        a == b,
{
    assert((if a & 1 != 0 {
        (a >> 1) ^ 0x9a6c_9329_ac4b_c9b5
    } else {
        a >> 1
    }) == (if b & 1 != 0 {
        (b >> 1) ^ 0x9a6c_9329_ac4b_c9b5
    } else {
        b >> 1
    }) ==> a == b) by (bit_vector);
}

proof fn lemma_step_injective(a: u64, b: u64)
    requires
        step(a) == step(b),
    ensures
        a == b,
{
    lemma_bit_injective(
        bit(bit(bit(bit(bit(bit(bit(a))))))),
        bit(bit(bit(bit(bit(bit(bit(b))))))),
    );
    lemma_bit_injective(bit(bit(bit(bit(bit(bit(a)))))), bit(bit(bit(bit(bit(bit(b)))))));
    lemma_bit_injective(bit(bit(bit(bit(bit(a))))), bit(bit(bit(bit(bit(b))))));
    lemma_bit_injective(bit(bit(bit(bit(a)))), bit(bit(bit(bit(b)))));
    lemma_bit_injective(bit(bit(bit(a))), bit(bit(bit(b))));
    lemma_bit_injective(bit(bit(a)), bit(bit(b)));
    lemma_bit_injective(bit(a), bit(b));
    lemma_bit_injective(a, b);
}

proof fn lemma_xor_injective(c: u64, d: u64, x: u8, y: u8)
    ensures
        c == d && x != y ==> c ^ (x as u64) != d ^ (y as u64),
        c != d && x == y ==> c ^ (x as u64) != d ^ (y as u64),
        c != d ==> c ^ 0xffff_ffff_ffff_ffff != d ^ 0xffff_ffff_ffff_ffff,
{
    assert((c == d && x != y ==> c ^ (x as u64) != d ^ (y as u64)) && (c != d && x == y ==> c ^ (
    x as u64) != d ^ (y as u64)) && (c != d ==> c ^ 0xffff_ffff_ffff_ffff != d
        ^ 0xffff_ffff_ffff_ffff)) by (bit_vector);
}

proof fn lemma_changed_remainder(a: Seq<u8>, b: Seq<u8>, at: int, n: nat)
    requires
        a.len() == b.len(),
        n <= a.len(),
        0 <= at < a.len(),
        a[at] != b[at],
        forall|i: int| 0 <= i < a.len() && i != at ==> #[trigger] a[i] == b[i],
    ensures
        at < n ==> remainder(a, n) != remainder(b, n),
        n <= at ==> remainder(a, n) == remainder(b, n),
    decreases n,
{
    if n > 0 {
        let m = (n - 1) as nat;
        lemma_changed_remainder(a, b, at, m);
        let c = remainder(a, m);
        let d = remainder(b, m);
        lemma_xor_injective(c, d, a[m as int], b[m as int]);
        if at < n && remainder(a, n) == remainder(b, n) {
            lemma_step_injective(c ^ a[m as int] as u64, d ^ b[m as int] as u64);
        }
        if n <= at {
            assert(a[m as int] == b[m as int]);
        }
    }
}

/// A single changed byte changes the checksum, but for the one pair of values that is
/// written as one; the value that is set aside is never given.
pub proof fn law_a_changed_byte_is_noticed(a: Seq<u8>, b: Seq<u8>, at: int)
    requires
        a.len() == b.len(),
        0 <= at < a.len(),
        a[at] != b[at],
        forall|i: int| 0 <= i < a.len() && i != at ==> #[trigger] a[i] == b[i],
    ensures
        checksum(a) != checksum(b) || checksum(a) == 0xabba_ffff_abba_ffff,
        checksum(a) != 0xabba_ffff_abba_fffe,
{
    lemma_changed_remainder(a, b, at, a.len());
    lemma_xor_injective(remainder(a, a.len()), remainder(b, b.len()), 0, 0);
}

} // verus!
