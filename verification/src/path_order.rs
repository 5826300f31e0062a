//! When two paths are one, and in which order paths stand. Both go by the parts of a path:
//! its prefix, the root, and its names. A drive counts without regard to case.
use crate::text;
use crate::wide;
use crate::wide::Lead;
use vstd::prelude::*;

verus! {

/// The code points of units; a surrogate that stands alone counts as itself.
pub open spec fn points(u: Seq<u16>) -> Seq<u32>
    decreases u.len(),
{
    if u.len() == 0 {
        Seq::empty()
    } else if text::high_surrogate(u[0]) && u.len() > 1 && text::low_surrogate(u[1]) {
        seq![(0x10000 + (u[0] - 0xd800) * 0x400 + (u[1] - 0xdc00)) as u32] + points(
            u.subrange(2, u.len() as int),
        )
    } else {
        seq![u[0] as u32] + points(u.subrange(1, u.len() as int))
    }
}

/// A name as part of a key: its code points, each one more, so that a nought can end it.
pub open spec fn spelled(u: Seq<u16>) -> Seq<u32> {
    points(u).map_values(|c: u32| (c + 1) as u32)
}

/// The capital of a letter.
pub open spec fn capital(u: u16) -> u32 {
    if 97 <= u <= 122 {
        (u - 32) as u32
    } else {
        u as u32
    }
}

/// Two names as part of a key.
pub open spec fn spelled_pair(p: Seq<u16>, from: int, middle: int, to: int) -> Seq<u32> {
    spelled(p.subrange(from, middle)).push(0) + (if middle < to {
        spelled(p.subrange(middle + 1, to))
    } else {
        Seq::empty()
    })
}

/// The key of the prefix of a path. A path after `\\?\` comes first, with any name, then with
/// a share, then with a drive; devices, shares and drives follow.
pub open spec fn prefix_key(p: Seq<u16>) -> Seq<u32> {
    let (kind, n) = wide::lead_of(p);
    match kind {
        Lead::Bare => Seq::empty(),
        Lead::Drive => seq![1u32, 6, capital(p[0]), 0],
        Lead::Verbatim => if wide::long_share(p) {
            (seq![1u32, 2] + spelled_pair(p, 8, wide::name_end(p, 8, false), n)).push(0)
        } else if wide::long_drive(p) {
            seq![1u32, 3, capital(p[4]), 0]
        } else {
            (seq![1u32, 1] + spelled(p.subrange(4, n))).push(0)
        },
        Lead::Other => if wide::is_device(p) {
            (seq![1u32, 4] + spelled(p.subrange(4, n))).push(0)
        } else {
            (seq![1u32, 5] + spelled_pair(p, 2, wide::name_end(p, 2, true), n)).push(0)
        },
    }
}

/// The path starts from a root: after a prefix that is no drive, or by a separator.
pub open spec fn rooted(p: Seq<u16>) -> bool {
    let (kind, n) = wide::lead_of(p);
    kind == Lead::Other || wide::body_at(p) > n
}

/// The key of the first `n` names. A single dot counts behind `\\?\`, and at the front of a
/// path that starts from no root.
pub open spec fn names_key(names: Seq<Seq<u16>>, n: nat, dots: bool, front: bool) -> Seq<u32>
    decreases n,
{
    if n == 0 {
        Seq::empty()
    } else {
        let before = names_key(names, (n - 1) as nat, dots, front);
        let name = names[n - 1];
        if wide::is_dot(name) {
            if dots || (front && n == 1) {
                before + seq![3u32, 0]
            } else {
                before
            }
        } else if wide::is_dots(name) {
            before + seq![4u32, 0]
        } else {
            (before.push(5) + spelled(name)).push(0)
        }
    }
}

/// The place of a path among all paths: paths with the same key are one, and of two paths
/// that with the lesser key comes first. Every part is a number for its kind and what it
/// says, ended by a nought.
pub open spec fn key_of(p: Seq<u16>) -> Seq<u32> {
    let long = wide::lead_of(p).0 == Lead::Verbatim;
    let names = wide::names_from(p, wide::body_at(p), Seq::empty(), !long);
    prefix_key(p) + (if rooted(p) {
        seq![2u32, 0]
    } else {
        Seq::empty()
    }) + names_key(names, names.len(), long, !rooted(p))
}

fn spell(out: &mut Vec<u32>, u: &[u16])
    ensures
        final(out)@ == old(out)@ + spelled(u@),
{
    let ghost first = out@;
    let ghost plus = |c: u32| (c + 1) as u32;
    let n: usize = u.len();
    let mut i: usize = 0;
    assert(u@.subrange(0, n as int) =~= u@);
    assert(first + spelled(u@) =~= out@ + spelled(u@.subrange(0, n as int)));
    while i < n
        invariant
            i <= n,
            n == u@.len(),
            plus == (|c: u32| (c + 1) as u32),
            first + spelled(u@) == out@ + spelled(u@.subrange(i as int, n as int)),
        decreases n - i,
    {
        let ghost rest = u@.subrange(i as int, n as int);
        let ghost had = out@;
        let a: u16 = u[i];
        assert(rest[0] == a);
        if 0xd800 <= a && a < 0xdc00 && i + 1 < n && 0xdc00 <= u[i + 1] && u[i + 1] < 0xe000 {
            let b: u16 = u[i + 1];
            assert(rest[1] == b);
            let c: u32 = 0x10000 + (a as u32 - 0xd800) * 0x400 + (b as u32 - 0xdc00);
            out.push(c + 1);
            i += 2;
            proof {
                let tail = u@.subrange(i as int, n as int);
                assert(rest.subrange(2, rest.len() as int) =~= tail);
                assert(points(rest) == seq![c] + points(tail));
                assert(spelled(rest) =~= seq![(c + 1) as u32] + spelled(tail));
                assert(out@ + spelled(tail) =~= had + spelled(rest));
            }
        } else {
            out.push(a as u32 + 1);
            i += 1;
            proof {
                let tail = u@.subrange(i as int, n as int);
                assert(rest.subrange(1, rest.len() as int) =~= tail);
                assert(points(rest) == seq![a as u32] + points(tail));
                assert(spelled(rest) =~= seq![(a + 1) as u32] + spelled(tail));
                assert(out@ + spelled(tail) =~= had + spelled(rest));
            }
        }
    }
    proof {
        assert(u@.subrange(i as int, n as int) =~= Seq::<u16>::empty());
        assert(spelled(Seq::<u16>::empty()) =~= Seq::<u32>::empty());
        assert(out@ + Seq::<u32>::empty() =~= out@);
    }
}

fn big(u: u16) -> (r: u32)
    ensures
        r == capital(u),
{
    if 97 <= u && u <= 122 {
        u as u32 - 32
    } else {
        u as u32
    }
}

fn spell_pair(out: &mut Vec<u32>, p: &[u16], from: usize, middle: usize, to: usize)
    requires
        from <= middle <= to <= p@.len(),
    ensures
        final(out)@ == old(out)@ + spelled_pair(p@, from as int, middle as int, to as int),
{
    let ghost first = out@;
    spell(out, &p[from..middle]);
    out.push(0);
    if middle < to {
        spell(out, &p[middle + 1..to]);
    }
    assert(out@ =~= first + spelled_pair(p@, from as int, middle as int, to as int));
}

fn put_prefix(out: &mut Vec<u32>, p: &[u16])
    requires
        old(out)@.len() == 0,
    ensures
        final(out)@ == prefix_key(p@),
{
    let (kind, n): (Lead, usize) = wide::lead(p);
    match kind {
        Lead::Bare => {},
        Lead::Drive => {
            out.push(1);
            out.push(6);
            out.push(big(p[0]));
            out.push(0);
        },
        Lead::Verbatim => {
            out.push(1);
            let total: usize = p.len();
            if total >= 8 && p[4] == 85 && p[5] == 78 && p[6] == 67 && (p[7] == 92 || p[7] == 47) {
                out.push(2);
                let middle: usize = wide::end_of_name(p, 8, false);
                spell_pair(out, p, 8, middle, n);
            } else if total >= 6 && ((65 <= p[4] && p[4] <= 90) || (97 <= p[4] && p[4] <= 122))
                && p[5] == 58 && (total == 6 || p[6] == 92 || p[6] == 47) {
                out.push(3);
                out.push(big(p[4]));
            } else {
                out.push(1);
                spell(out, &p[4..n]);
            }
            out.push(0);
        },
        Lead::Other => {
            out.push(1);
            if p.len() >= 4 && p[2] == 46 && (p[3] == 92 || p[3] == 47) {
                out.push(4);
                spell(out, &p[4..n]);
            } else {
                out.push(5);
                let middle: usize = wide::end_of_name(p, 2, true);
                spell_pair(out, p, 2, middle, n);
            }
            out.push(0);
        },
    }
    assert(out@ =~= prefix_key(p@));
}

fn put_names(out: &mut Vec<u32>, names: &Vec<Vec<u16>>, dots: bool, front: bool)
    ensures
        final(out)@ == old(out)@ + names_key(wide::lists(names@), names@.len(), dots, front),
{
    let ghost first = out@;
    let ghost all = wide::lists(names@);
    let mut i: usize = 0;
    assert(first + Seq::<u32>::empty() =~= first);
    while i < names.len()
        invariant
            i <= names@.len(),
            all == wide::lists(names@),
            out@ == first + names_key(all, i as nat, dots, front),
        decreases names@.len() - i,
    {
        let ghost had = names_key(all, i as nat, dots, front);
        let name: &Vec<u16> = &names[i];
        assert(all[i as int] == name@);
        if name.len() == 1 && name[0] == 46 {
            if dots || (front && i == 0) {
                out.push(3);
                out.push(0);
            }
        } else if name.len() == 2 && name[0] == 46 && name[1] == 46 {
            out.push(4);
            out.push(0);
        } else {
            out.push(5);
            spell(out, name.as_slice());
            out.push(0);
        }
        i += 1;
        assert(out@ =~= first + names_key(all, i as nat, dots, front));
    }
}

/// The place of a path among all paths.
pub fn place(p: &[u16]) -> (r: Vec<u32>)
    ensures
        r@ == key_of(p@),
{
    let mut out: Vec<u32> = Vec::new();
    put_prefix(&mut out, p);
    let (kind, n): (Lead, usize) = wide::lead(p);
    let long: bool = matches!(kind, Lead::Verbatim);
    let parted: bool = n < p.len() && (p[n] == 92 || p[n] == 47);
    let from: usize = if parted {
        n + 1
    } else {
        n
    };
    let root: bool = matches!(kind, Lead::Other) || parted;
    assert(root == rooted(p@));
    if root {
        out.push(2);
        out.push(0);
    }
    let names: Vec<Vec<u16>> = wide::split(p, from, !long);
    let ghost so_far = out@;
    put_names(&mut out, &names, long, !root);
    proof {
        assert(wide::lists(names@).len() == names@.len());
        assert(so_far =~= prefix_key(p@) + (if rooted(p@) {
            seq![2u32, 0]
        } else {
            Seq::empty()
        }));
    }
    out
}

} // verus!
