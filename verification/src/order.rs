//! Dictionary order, and sorting by a stated order.
use vstd::prelude::*;

verus! {

/// `a` comes before `b` in the dictionary of their numbers.
pub open spec fn lex_below(a: Seq<int>, b: Seq<int>) -> bool
    decreases a.len(),
{
    if b.len() == 0 {
        false
    } else if a.len() == 0 {
        true
    } else if a[0] != b[0] {
        a[0] < b[0]
    } else {
        lex_below(a.subrange(1, a.len() as int), b.subrange(1, b.len() as int))
    }
}

pub proof fn lemma_lex_total(a: Seq<int>, b: Seq<int>)
    ensures
        lex_below(a, b) || lex_below(b, a) || a == b,
        !(lex_below(a, b) && lex_below(b, a)),
        a == b ==> !lex_below(a, b),
    decreases a.len(),
{
    if a.len() > 0 && b.len() > 0 && a[0] == b[0] {
        let ra = a.subrange(1, a.len() as int);
        let rb = b.subrange(1, b.len() as int);
        lemma_lex_total(ra, rb);
        if ra == rb {
            assert(a =~= b) by {
                assert(a =~= seq![a[0]] + ra);
                assert(b =~= seq![b[0]] + rb);
            }
        }
    } else if a.len() == 0 && b.len() == 0 {
        assert(a =~= b);
    }
}

pub proof fn lemma_lex_trans(a: Seq<int>, b: Seq<int>, c: Seq<int>)
    requires
        lex_below(a, b),
        lex_below(b, c),
    ensures
        lex_below(a, c),
    decreases a.len(),
{
    if a.len() > 0 && a[0] == b[0] && b[0] == c[0] {
        lemma_lex_trans(
            a.subrange(1, a.len() as int),
            b.subrange(1, b.len() as int),
            c.subrange(1, c.len() as int),
        );
    }
}

/// Equal first numbers do not decide.
proof fn lemma_lex_prefix(a: Seq<int>, b: Seq<int>, n: int)
    requires
        0 <= n <= a.len(),
        n <= b.len(),
        forall|k: int| 0 <= k < n ==> #[trigger] a[k] == b[k],
    ensures
        lex_below(a, b) == lex_below(
            a.subrange(n, a.len() as int),
            b.subrange(n, b.len() as int),
        ),
    decreases n,
{
    if n == 0 {
        assert(a.subrange(0, a.len() as int) =~= a);
        assert(b.subrange(0, b.len() as int) =~= b);
    } else {
        let ra = a.subrange(1, a.len() as int);
        let rb = b.subrange(1, b.len() as int);
        assert(a[0] == b[0]);
        lemma_lex_prefix(ra, rb, n - 1);
        assert(ra.subrange(n - 1, ra.len() as int) =~= a.subrange(n, a.len() as int));
        assert(rb.subrange(n - 1, rb.len() as int) =~= b.subrange(n, b.len() as int));
    }
}

pub open spec fn unit_numbers(s: Seq<u16>) -> Seq<int> {
    s.map_values(|u: u16| u as int)
}

/// Whether `a` comes before `b` in the dictionary of their units.
pub fn units_below(a: &[u16], b: &[u16]) -> (r: bool)
    ensures
        r == lex_below(unit_numbers(a@), unit_numbers(b@)),
{
    let ghost na = unit_numbers(a@);
    let ghost nb = unit_numbers(b@);
    let mut i: usize = 0;
    while i < a.len() && i < b.len() && a[i] == b[i]
        invariant
            i <= a@.len(),
            i <= b@.len(),
            na == unit_numbers(a@),
            nb == unit_numbers(b@),
            forall|k: int| 0 <= k < i ==> #[trigger] na[k] == nb[k],
        decreases a@.len() - i,
    {
        i += 1;
    }
    proof {
        lemma_lex_prefix(na, nb, i as int);
    }
    if i == b.len() {
        false
    } else if i == a.len() {
        true
    } else {
        a[i] < b[i]
    }
}

/// The list is in order.
pub open spec fn in_order(s: Seq<usize>, le: spec_fn(usize, usize) -> bool) -> bool {
    forall|i: int, j: int| 0 <= i < j < s.len() ==> #[trigger] le(s[i], s[j])
}

/// Any two members of the list can be put in order, and order carries over.
pub open spec fn orders(s: Seq<usize>, le: spec_fn(usize, usize) -> bool) -> bool {
    &&& forall|a: usize, b: usize|
        s.contains(a) && s.contains(b) ==> #[trigger] le(a, b) || le(b, a)
    &&& forall|a: usize, b: usize, c: usize|
        s.contains(a) && s.contains(b) && s.contains(c) && #[trigger] le(a, b) && #[trigger] le(
            b,
            c,
        ) ==> le(a, c)
}

/// The executable order decides the stated one on the members of the list.
pub open spec fn decides<F: Fn(usize, usize) -> bool>(
    f: F,
    s: Seq<usize>,
    le: spec_fn(usize, usize) -> bool,
) -> bool {
    &&& forall|a: usize, b: usize|
        s.contains(a) && s.contains(b) ==> #[trigger] call_requires(f, (a, b))
    &&& forall|a: usize, b: usize, r: bool|
        s.contains(a) && s.contains(b) && #[trigger] call_ensures(f, (a, b), r) ==> r == le(a, b)
}

proof fn lemma_push_left(a: Seq<usize>, b: Seq<usize>, x: usize)
    ensures
        (a.push(x) + b).to_multiset() == (a + b).to_multiset().insert(x),
        (a + b).push(x).to_multiset() == (a + b).to_multiset().insert(x),
{
    broadcast use vstd::multiset::group_multiset_axioms;

    vstd::seq_lib::to_multiset_build(a, x);
    vstd::seq_lib::to_multiset_build(a + b, x);
    vstd::seq_lib::lemma_multiset_commutative(a, b);
    vstd::seq_lib::lemma_multiset_commutative(a.push(x), b);
    assert((a.push(x) + b).to_multiset() =~= (a + b).to_multiset().insert(x));
}

proof fn lemma_push_right(a: Seq<usize>, b: Seq<usize>, x: usize)
    ensures
        (a + b.push(x)).to_multiset() == (a + b).to_multiset().insert(x),
{
    vstd::seq_lib::to_multiset_build(a + b, x);
    assert(a + b.push(x) =~= (a + b).push(x));
}

/// Two ordered lists made one.
fn merge<F: Fn(usize, usize) -> bool + Copy>(
    a: Vec<usize>,
    b: Vec<usize>,
    f: F,
    Ghost(le): Ghost<spec_fn(usize, usize) -> bool>,
    Ghost(whole): Ghost<Seq<usize>>,
) -> (r: Vec<usize>)
    requires
        orders(whole, le),
        decides(f, whole, le),
        in_order(a@, le),
        in_order(b@, le),
        forall|i: int| 0 <= i < a@.len() ==> whole.contains(#[trigger] a@[i]),
        forall|i: int| 0 <= i < b@.len() ==> whole.contains(#[trigger] b@[i]),
    ensures
        in_order(r@, le),
        r@.to_multiset() == (a@ + b@).to_multiset(),
        r@.len() == a@.len() + b@.len(),
{
    broadcast use vstd::seq_lib::group_to_multiset_ensures;

    let mut out: Vec<usize> = Vec::new();
    let mut i: usize = 0;
    let mut j: usize = 0;
    proof {
        assert(a@.subrange(0, 0) + b@.subrange(0, 0) =~= Seq::<usize>::empty());
        assert(out@ =~= Seq::<usize>::empty());
    }
    while i < a.len() || j < b.len()
        invariant
            i <= a@.len(),
            j <= b@.len(),
            orders(whole, le),
            decides(f, whole, le),
            in_order(a@, le),
            in_order(b@, le),
            forall|k: int| 0 <= k < a@.len() ==> whole.contains(#[trigger] a@[k]),
            forall|k: int| 0 <= k < b@.len() ==> whole.contains(#[trigger] b@[k]),
            forall|k: int| 0 <= k < out@.len() ==> whole.contains(#[trigger] out@[k]),
            in_order(out@, le),
            out@.len() == i + j,
            forall|k: int, m: int|
                0 <= k < out@.len() && i <= m < a@.len() ==> #[trigger] le(out@[k], a@[m]),
            forall|k: int, m: int|
                0 <= k < out@.len() && j <= m < b@.len() ==> #[trigger] le(out@[k], b@[m]),
            out@.to_multiset() == (a@.subrange(0, i as int) + b@.subrange(
                0,
                j as int,
            )).to_multiset(),
        decreases a@.len() - i + b@.len() - j,
    {
        let ghost had = out@;
        let left: bool = if i == a.len() {
            false
        } else if j == b.len() {
            true
        } else {
            assert(whole.contains(a@[i as int]) && whole.contains(b@[j as int]));
            let first: bool = f(a[i], b[j]);
            assert(first == le(a@[i as int], b@[j as int]));
            first
        };
        if left {
            let x: usize = a[i];
            out.push(x);
            proof {
                assert(out@ =~= had.push(x));
                vstd::seq_lib::to_multiset_build(had, x);
                assert(a@.subrange(0, i + 1) =~= a@.subrange(0, i as int).push(x));
                lemma_push_left(a@.subrange(0, i as int), b@.subrange(0, j as int), x);
                assert forall|k: int, m: int|
                    0 <= k < out@.len() && j <= m < b@.len() implies #[trigger] le(
                    out@[k],
                    b@[m],
                ) by {
                    if k == had.len() {
                        if m > j {
                            assert(le(b@[j as int], b@[m]));
                            assert(whole.contains(b@[j as int]));
                        }
                        assert(le(x, b@[j as int]));
                        assert(whole.contains(x));
                        assert(whole.contains(b@[m]));
                    } else {
                        assert(out@[k] == had[k]);
                    }
                }
                assert forall|k: int, m: int|
                    0 <= k < out@.len() && i + 1 <= m < a@.len() implies #[trigger] le(
                    out@[k],
                    a@[m],
                ) by {
                    if k == had.len() {
                        assert(le(a@[i as int], a@[m]));
                    } else {
                        assert(out@[k] == had[k]);
                    }
                }
                assert forall|k: int, m: int| 0 <= k < m < out@.len() implies #[trigger] le(
                    out@[k],
                    out@[m],
                ) by {
                    if m == had.len() {
                        assert(le(had[k], a@[i as int]));
                    }
                }
            }
            i += 1;
        } else {
            let x: usize = b[j];
            out.push(x);
            proof {
                assert(out@ =~= had.push(x));
                vstd::seq_lib::to_multiset_build(had, x);
                assert(b@.subrange(0, j + 1) =~= b@.subrange(0, j as int).push(x));
                lemma_push_right(a@.subrange(0, i as int), b@.subrange(0, j as int), x);
                assert forall|k: int, m: int|
                    0 <= k < out@.len() && i <= m < a@.len() implies #[trigger] le(
                    out@[k],
                    a@[m],
                ) by {
                    if k == had.len() {
                        assert(whole.contains(x));
                        assert(whole.contains(a@[i as int]));
                        assert(whole.contains(a@[m]));
                        assert(le(x, a@[i as int]) || le(a@[i as int], x));
                        assert(le(x, a@[i as int]));
                        if m > i {
                            assert(le(a@[i as int], a@[m]));
                        }
                    } else {
                        assert(out@[k] == had[k]);
                    }
                }
                assert forall|k: int, m: int|
                    0 <= k < out@.len() && j + 1 <= m < b@.len() implies #[trigger] le(
                    out@[k],
                    b@[m],
                ) by {
                    if k == had.len() {
                        assert(le(b@[j as int], b@[m]));
                    } else {
                        assert(out@[k] == had[k]);
                    }
                }
                assert forall|k: int, m: int| 0 <= k < m < out@.len() implies #[trigger] le(
                    out@[k],
                    out@[m],
                ) by {
                    if m == had.len() {
                        assert(le(had[k], b@[j as int]));
                    }
                }
            }
            j += 1;
        }
    }
    assert(a@.subrange(0, i as int) =~= a@);
    assert(b@.subrange(0, j as int) =~= b@);
    out
}

/// Sorts a list of indices.
pub(crate) fn sort<F: Fn(usize, usize) -> bool + Copy>(
    v: &Vec<usize>,
    from: usize,
    to: usize,
    f: F,
    Ghost(le): Ghost<spec_fn(usize, usize) -> bool>,
) -> (r: Vec<usize>)
    requires
        from <= to <= v@.len(),
        orders(v@, le),
        decides(f, v@, le),
    ensures
        in_order(r@, le),
        r@.to_multiset() == v@.subrange(from as int, to as int).to_multiset(),
        r@.len() == to - from,
    decreases to - from,
{
    broadcast use vstd::seq_lib::group_to_multiset_ensures;

    if to - from <= 1 {
        let mut out: Vec<usize> = Vec::new();
        if from < to {
            out.push(v[from]);
        }
        assert(out@ =~= v@.subrange(from as int, to as int));
        out
    } else {
        let mid: usize = from + (to - from) / 2;
        let a: Vec<usize> = sort(v, from, mid, f, Ghost(le));
        let b: Vec<usize> = sort(v, mid, to, f, Ghost(le));
        proof {
            let sa = v@.subrange(from as int, mid as int);
            let sb = v@.subrange(mid as int, to as int);
            assert(v@.subrange(from as int, to as int) =~= sa + sb);
            vstd::seq_lib::lemma_multiset_commutative(sa, sb);
            vstd::seq_lib::lemma_multiset_commutative(a@, b@);
            assert forall|i: int| 0 <= i < a@.len() implies v@.contains(#[trigger] a@[i]) by {
                lemma_same_members(a@, sa, i);
                let w = sa.index_of(a@[i]);
                assert(v@[from + w] == a@[i]);
            }
            assert forall|i: int| 0 <= i < b@.len() implies v@.contains(#[trigger] b@[i]) by {
                lemma_same_members(b@, sb, i);
                let w = sb.index_of(b@[i]);
                assert(v@[mid + w] == b@[i]);
            }
        }
        merge(a, b, f, Ghost(le), Ghost(v@))
    }
}

/// Lists with the same contents have the same members.
pub proof fn lemma_same_members(a: Seq<usize>, b: Seq<usize>, i: int)
    requires
        a.to_multiset() == b.to_multiset(),
        0 <= i < a.len(),
    ensures
        b.contains(a[i]),
{
    broadcast use vstd::seq_lib::group_to_multiset_ensures;

    assert(a.contains(a[i]));
    assert(a.to_multiset().count(a[i]) > 0);
    assert(b.to_multiset().count(a[i]) > 0);
}

/// The first `n` indices.
pub fn indices(n: usize) -> (r: Vec<usize>)
    ensures
        r@ == Seq::new(n as nat, |i: int| i as usize),
{
    let mut out: Vec<usize> = Vec::new();
    let mut i: usize = 0;
    while i < n
        invariant
            i <= n,
            out@ == Seq::new(i as nat, |k: int| k as usize),
        decreases n - i,
    {
        out.push(i);
        i += 1;
        assert(out@ =~= Seq::new(i as nat, |k: int| k as usize));
    }
    out
}

/// A key as plain numbers.
pub open spec fn key_numbers(s: Seq<u32>) -> Seq<int> {
    s.map_values(|n: u32| n as int)
}

/// `a` comes before `b` in the dictionary of keys.
pub open spec fn key_below(a: Seq<u32>, b: Seq<u32>) -> bool {
    lex_below(key_numbers(a), key_numbers(b))
}

/// Whether `a` comes before `b` in the dictionary of keys.
pub fn keys_below(a: &[u32], b: &[u32]) -> (r: bool)
    ensures
        r == key_below(a@, b@),
{
    let ghost na = key_numbers(a@);
    let ghost nb = key_numbers(b@);
    let mut i: usize = 0;
    while i < a.len() && i < b.len() && a[i] == b[i]
        invariant
            i <= a@.len(),
            i <= b@.len(),
            na == key_numbers(a@),
            nb == key_numbers(b@),
            forall|k: int| 0 <= k < i ==> #[trigger] na[k] == nb[k],
        decreases a@.len() - i,
    {
        i += 1;
    }
    proof {
        lemma_lex_prefix(na, nb, i as int);
    }
    if i == b.len() {
        false
    } else if i == a.len() {
        true
    } else {
        a[i] < b[i]
    }
}

/// Of two keys one comes first, or they are the same.
pub proof fn lemma_keys_total(a: Seq<u32>, b: Seq<u32>)
    ensures
        key_below(a, b) || key_below(b, a) || a == b,
        !(key_below(a, b) && key_below(b, a)),
        a == b ==> !key_below(a, b),
{
    lemma_lex_total(key_numbers(a), key_numbers(b));
    if key_numbers(a) == key_numbers(b) {
        assert(a.len() == key_numbers(a).len());
        assert(b.len() == key_numbers(b).len());
        assert forall|i: int| 0 <= i < a.len() implies a[i] == b[i] by {
            assert(key_numbers(a)[i] == a[i]);
            assert(key_numbers(b)[i] == b[i]);
        }
        assert(a =~= b);
    }
}

pub proof fn lemma_keys_trans(a: Seq<u32>, b: Seq<u32>, c: Seq<u32>)
    requires
        key_below(a, b),
        key_below(b, c),
    ensures
        key_below(a, c),
{
    lemma_lex_trans(key_numbers(a), key_numbers(b), key_numbers(c));
}

/// Rearranging indices rearranges what they stand for.
pub proof fn lemma_map_rearranged<B>(a: Seq<usize>, b: Seq<usize>, f: spec_fn(usize) -> B)
    requires
        a.to_multiset() == b.to_multiset(),
    ensures
        a.map_values(f).to_multiset() == b.map_values(f).to_multiset(),
    decreases a.len(),
{
    broadcast use vstd::seq_lib::group_to_multiset_ensures;

    assert(a.len() == a.to_multiset().len());
    assert(b.len() == b.to_multiset().len());
    if a.len() == 0 {
        assert(a.map_values(f) =~= b.map_values(f));
    } else {
        broadcast use vstd::multiset::group_multiset_axioms;

        let x = a.last();
        let rest = a.drop_last();
        assert(a =~= rest.push(x));
        lemma_same_members(a, b, a.len() - 1);
        let w = b.index_of(x);
        let less = b.remove(w);
        vstd::seq_lib::to_multiset_build(rest, x);
        vstd::seq_lib::to_multiset_remove(b, w);
        assert(rest.to_multiset() =~= less.to_multiset());
        lemma_map_rearranged(rest, less, f);
        assert(a.map_values(f) =~= rest.map_values(f).push(f(x)));
        vstd::seq_lib::to_multiset_build(rest.map_values(f), f(x));
        let mb = b.map_values(f);
        assert(mb.remove(w) =~= less.map_values(f));
        vstd::seq_lib::to_multiset_remove(mb, w);
        assert(mb.contains(f(x))) by {
            assert(mb[w] == f(x));
        }
        assert(mb.to_multiset() =~= mb.to_multiset().remove(f(x)).insert(f(x)));
    }
}

/// The first `n` numbers.
pub open spec fn numbers(n: nat) -> Seq<usize> {
    Seq::new(n, |i: int| i as usize)
}

/// The first `n` numbers, put in order.
pub(crate) fn rank<F: Fn(usize, usize) -> bool + Copy>(
    n: usize,
    f: F,
    Ghost(le): Ghost<spec_fn(usize, usize) -> bool>,
) -> (r: Vec<usize>)
    requires
        vstd::relations::total_ordering(le),
        forall|a: usize, b: usize| a < n && b < n ==> #[trigger] call_requires(f, (a, b)),
        forall|a: usize, b: usize, r: bool|
            a < n && b < n && #[trigger] call_ensures(f, (a, b), r) ==> r == le(a, b),
    ensures
        r@ == numbers(n as nat).sort_by(le),
        r@.len() == n,
        r@.to_multiset() == numbers(n as nat).to_multiset(),
        forall|i: int| 0 <= i < r@.len() ==> (#[trigger] r@[i]) < n,
        in_order(r@, le),
{
    let all: Vec<usize> = indices(n);
    let ghost num = numbers(n as nat);
    proof {
        assert(all@ =~= num);
        assert forall|a: usize| #[trigger] all@.contains(a) implies a < n by {
            let w = all@.index_of(a);
            assert(all@[w] == a);
        }
        assert(orders(all@, le));
    }
    let r: Vec<usize> = sort(&all, 0, n, f, Ghost(le));
    proof {
        assert(all@.subrange(0, n as int) =~= num);
        num.lemma_sort_by_ensures(le);
        vstd::seq_lib::lemma_sorted_unique(r@, num.sort_by(le), le);
        assert forall|i: int| 0 <= i < r@.len() implies (#[trigger] r@[i]) < n by {
            lemma_same_members(r@, num, i);
        }
    }
    r
}

/// Numbers tell units apart.
pub proof fn lemma_unit_numbers(a: Seq<u16>, b: Seq<u16>)
    ensures
        (unit_numbers(a) == unit_numbers(b)) == (a == b),
{
    if unit_numbers(a) == unit_numbers(b) {
        assert(a.len() == unit_numbers(a).len());
        assert(b.len() == unit_numbers(b).len());
        assert forall|i: int| 0 <= i < a.len() implies a[i] == b[i] by {
            assert(unit_numbers(a)[i] == a[i]);
            assert(unit_numbers(b)[i] == b[i]);
        }
        assert(a =~= b);
    }
}

/// By key, and of equal keys by position.
pub open spec fn key_first(keys: Seq<Seq<u32>>, a: usize, b: usize) -> bool {
    let ka = keys[a as int];
    let kb = keys[b as int];
    key_below(ka, kb) || (ka == kb && a <= b)
}

/// Of the first `n` of a sorted list, those whose key differs from the one before.
pub open spec fn firsts(keys: Seq<Seq<u32>>, q: Seq<usize>, n: nat) -> Seq<usize>
    decreases n,
{
    if n == 0 {
        Seq::empty()
    } else {
        let before = firsts(keys, q, (n - 1) as nat);
        if n >= 2 && keys[q[n - 2] as int] == keys[q[n - 1] as int] {
            before
        } else {
            before.push(q[n - 1])
        }
    }
}

/// Where the different keys first stand, in the order of the keys.
pub open spec fn distinct_of(keys: Seq<Seq<u32>>) -> Seq<usize> {
    firsts(
        keys,
        numbers(keys.len()).sort_by(|a: usize, b: usize| key_first(keys, a, b)),
        keys.len(),
    )
}

proof fn lemma_key_order(keys: Seq<Seq<u32>>)
    ensures
        vstd::relations::total_ordering(|a: usize, b: usize| key_first(keys, a, b)),
{
    let le = |a: usize, b: usize| key_first(keys, a, b);
    assert forall|a: usize, b: usize| #[trigger] le(a, b) && #[trigger] le(b, a) implies a == b by {
        lemma_keys_total(keys[a as int], keys[b as int]);
    }
    assert forall|a: usize, b: usize, c: usize| #[trigger]
        le(a, b) && #[trigger] le(b, c) implies le(a, c) by {
        let (ka, kb, kc) = (keys[a as int], keys[b as int], keys[c as int]);
        if key_below(ka, kb) && key_below(kb, kc) {
            lemma_keys_trans(ka, kb, kc);
        }
    }
    assert forall|a: usize, b: usize| #[trigger] le(a, b) || #[trigger] le(b, a) by {
        lemma_keys_total(keys[a as int], keys[b as int]);
    }
}

/// The numbers of several keys.
pub open spec fn key_views(keys: Seq<Vec<u32>>) -> Seq<Seq<u32>> {
    keys.map_values(|k: Vec<u32>| k@)
}

/// Where the different keys first stand, in the order of the keys.
pub fn distinct(lists: &Vec<Vec<u32>>) -> (r: Vec<usize>)
    ensures
        r@ == distinct_of(key_views(lists@)),
        forall|i: int| 0 <= i < r@.len() ==> (#[trigger] r@[i]) < lists@.len(),
{
    let n: usize = lists.len();
    let ghost keys = key_views(lists@);
    proof {
        lemma_key_order(keys);
    }
    let first = |a: usize, b: usize| -> (r: bool)
        requires
            a < n,
            b < n,
            n == lists@.len(),
        ensures
            r == key_first(key_views(lists@), a, b),
        {
            proof {
                lemma_keys_total(lists@[a as int]@, lists@[b as int]@);
            }
            keys_below(&lists[a], &lists[b]) || (!keys_below(&lists[b], &lists[a]) && a <= b)
        };
    let q: Vec<usize> = rank(n, first, Ghost(|a: usize, b: usize| key_first(keys, a, b)));
    let mut out: Vec<usize> = Vec::new();
    let mut i: usize = 0;
    while i < n
        invariant
            i <= n,
            n == lists@.len(),
            n == q@.len(),
            keys == key_views(lists@),
            forall|k: int| 0 <= k < n ==> (#[trigger] q@[k]) < n,
            out@ == firsts(keys, q@, i as nat),
            forall|k: int| 0 <= k < out@.len() ==> (#[trigger] out@[k]) < n,
        decreases n - i,
    {
        let at: usize = q[i];
        let again: bool = if i > 0 {
            let was: usize = q[i - 1];
            proof {
                lemma_keys_total(lists@[was as int]@, lists@[at as int]@);
                lemma_keys_total(lists@[was as int]@, lists@[was as int]@);
            }
            !keys_below(&lists[was], &lists[at]) && !keys_below(&lists[at], &lists[was])
        } else {
            false
        };
        if !again {
            out.push(at);
        }
        i += 1;
    }
    out
}

proof fn lemma_firsts(keys: Seq<Seq<u32>>, q: Seq<usize>, n: nat)
    requires
        n <= q.len(),
    ensures
        ({
            let d = firsts(keys, q, n);
            &&& d.len() <= n
            &&& n > 0 ==> d.len() > 0 && keys[d.last() as int] == keys[q[n - 1] as int]
            &&& forall|a: int| 0 <= a < d.len() ==> q.contains(#[trigger] d[a])
            &&& forall|a: int|
                0 < a < d.len() ==> keys[d[a - 1] as int] != keys[(#[trigger] d[a]) as int]
        }),
    decreases n,
{
    if n > 0 {
        let m = (n - 1) as nat;
        lemma_firsts(keys, q, m);
        let before = firsts(keys, q, m);
        let d = firsts(keys, q, n);
        assert forall|a: int| 0 <= a < d.len() implies q.contains(#[trigger] d[a]) by {
            if a < before.len() {
                assert(d[a] == before[a]);
            } else {
                assert(q[n - 1] == d[a]);
            }
        }
    }
}

proof fn lemma_firsts_reach(keys: Seq<Seq<u32>>, q: Seq<usize>, n: nat, k: int) -> (a: int)
    requires
        0 <= k < n <= q.len(),
    ensures
        0 <= a < firsts(keys, q, n).len(),
        keys[firsts(keys, q, n)[a] as int] == keys[q[k] as int],
    decreases n,
{
    lemma_firsts(keys, q, n);
    if k == n - 1 {
        firsts(keys, q, n).len() - 1
    } else {
        lemma_firsts_reach(keys, q, (n - 1) as nat, k)
    }
}

/// Of entries with the same key one is picked, and of every key one is.
pub proof fn law_every_key_is_picked_once(keys: Seq<Seq<u32>>, i: int) -> (a: int)
    requires
        0 <= i < keys.len() <= usize::MAX,
    ensures
        0 <= a < distinct_of(keys).len() <= keys.len(),
        distinct_of(keys)[a] < keys.len(),
        keys[distinct_of(keys)[a] as int] == keys[i],
        forall|b: int|
            0 < b < distinct_of(keys).len() ==> keys[distinct_of(keys)[b - 1] as int] != keys[(
            #[trigger] distinct_of(keys)[b]) as int],
{
    let le = |a: usize, b: usize| key_first(keys, a, b);
    let num = numbers(keys.len());
    let q = num.sort_by(le);
    lemma_key_order(keys);
    num.lemma_sort_by_ensures(le);
    assert(q.len() == num.len()) by {
        broadcast use vstd::seq_lib::group_to_multiset_ensures;

        assert(q.to_multiset().len() == q.len());
        assert(num.to_multiset().len() == num.len());
    }
    assert(num[i] == i as usize);
    lemma_same_members(num, q, i);
    let k = q.index_of(i as usize);
    lemma_firsts(keys, q, keys.len());
    let a = lemma_firsts_reach(keys, q, keys.len(), k);
    let d = distinct_of(keys);
    let w = q.index_of(d[a]);
    assert(q[w] == d[a]);
    lemma_same_members(q, num, w);
    let v = num.index_of(q[w]);
    assert(num[v] == q[w]);
    a
}

/// One list of numbers comes before another by the first number in which they differ, or if
/// the other goes on where it ends.
pub proof fn law_lists_are_ordered_by_their_first_difference(a: Seq<int>, b: Seq<int>, k: int)
    requires
        0 <= k <= a.len(),
        k <= b.len(),
        a.subrange(0, k) == b.subrange(0, k),
    ensures
        k < a.len() && k < b.len() && a[k] != b[k] ==> (lex_below(a, b) <==> a[k] < b[k]),
        k == a.len() && k < b.len() ==> lex_below(a, b),
        k == b.len() ==> !lex_below(a, b),
    decreases k,
{
    if k > 0 {
        let x = a.subrange(1, a.len() as int);
        let y = b.subrange(1, b.len() as int);
        let front = a.subrange(0, k);
        let other = b.subrange(0, k);
        assert(front[0] == a[0] && other[0] == b[0]);
        assert forall|i: int| 0 <= i < k - 1 implies #[trigger] x[i] == y[i] by {
            assert(front[i + 1] == a[i + 1] && other[i + 1] == b[i + 1]);
        }
        assert(x.subrange(0, k - 1) =~= y.subrange(0, k - 1));
        law_lists_are_ordered_by_their_first_difference(x, y, k - 1);
    }
}

} // verus!
