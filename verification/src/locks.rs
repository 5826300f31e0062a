//! Who holds a file open, and whether they may be asked to let go of it.
use crate::order;
use crate::text;
use vstd::prelude::*;
use vstd::relations::*;
use vstd::string::*;

verus! {

/// The kind of a service among the owners of a file.
pub const SERVICE: i32 = 3;

/// The kind of an owner without which the system cannot go on.
pub const CRITICAL: i32 = 1000;

/// The system's code for a list that did not fit.
pub const MORE_DATA: u32 = 234;

/// A list of owners is shorter than this.
pub const MAX_OWNERS: u32 = 4096;

/// How often a changing list is asked for.
pub const LIST_ATTEMPTS: u32 = 4;

/// A process that holds a file open.
#[derive(Debug)]
pub struct Owner {
    pub pid: u32,
    pub name: String,
    pub service: String,
    pub critical: bool,
    pub restartable: bool,
    pub started: u64,
}

impl Clone for Owner {
    fn clone(&self) -> (r: Self)
        ensures
            r == *self,
    {
        Owner {
            pid: self.pid,
            name: self.name.clone(),
            service: self.service.clone(),
            critical: self.critical,
            restartable: self.restartable,
            started: self.started,
        }
    }
}

/// An owner as the system lists it.
#[derive(Debug)]
pub struct RawOwner {
    pub pid: u32,
    pub name: Vec<u16>,
    pub service: Vec<u16>,
    pub kind: i32,
    pub restartable: i32,
    pub started_high: u32,
    pub started_low: u32,
}

/// The owner that an entry of the system's list stands for; `own_pid` is this process.
///
/// Services, critical processes and this process itself must not be closed.
pub fn owner_of(raw: &RawOwner, own_pid: u32) -> (r: Owner)
    ensures
        r.pid == raw.pid,
        r.name@ == text::utf16_text(text::before_nul(raw.name@)),
        r.service@ == text::utf16_text(text::before_nul(raw.service@)),
        r.critical == (raw.kind == CRITICAL || raw.kind == SERVICE || raw.pid == own_pid),
        r.restartable == (raw.restartable != 0),
        r.started == raw.started_high * 0x1_0000_0000 + raw.started_low,
{
    Owner {
        pid: raw.pid,
        name: text::nul_text(&raw.name),
        service: text::nul_text(&raw.service),
        critical: raw.kind == CRITICAL || raw.kind == SERVICE || raw.pid == own_pid,
        restartable: raw.restartable != 0,
        started: raw.started_high as u64 * 0x1_0000_0000 + raw.started_low as u64,
    }
}

/// What to do after the system was asked how many owners there are.
#[derive(Clone, Copy, Debug, PartialEq, Eq, Structural)]
pub enum ListStep {
    /// There are none.
    Nobody,
    /// Ask for so many.
    Fetch(u32),
    /// The list is complete.
    Done,
    /// It changed meanwhile; start over.
    Again,
    /// It keeps changing.
    KeepsChanging,
    TooMany,
    Failed(u32),
}

/// Judges the answer to the question how many owners there are.
pub fn size_answer(code: u32, needed: u32) -> (r: ListStep)
    ensures
        r == (if code == 0 && needed == 0 {
            ListStep::Nobody
        } else if code != MORE_DATA {
            ListStep::Failed(code)
        } else if needed >= MAX_OWNERS {
            ListStep::TooMany
        } else {
            ListStep::Fetch(needed)
        }),
        r == ListStep::Nobody <==> code == 0 && needed == 0,
        r matches ListStep::Fetch(n) ==> code == 234 && n == needed,
        r matches ListStep::Failed(c) ==> c == code && c != 234,
{
    if code == 0 && needed == 0 {
        ListStep::Nobody
    } else if code != MORE_DATA {
        ListStep::Failed(code)
    } else if needed >= MAX_OWNERS {
        ListStep::TooMany
    } else {
        ListStep::Fetch(needed)
    }
}

/// Judges the answer to the request for the list, made for the time `attempt`, from one.
pub fn list_answer(code: u32, attempt: u32) -> (r: ListStep)
    ensures
        r == (if code == MORE_DATA {
            if attempt < LIST_ATTEMPTS {
                ListStep::Again
            } else {
                ListStep::KeepsChanging
            }
        } else if code != 0 {
            ListStep::Failed(code)
        } else {
            ListStep::Done
        }),
        r == ListStep::Done <==> code == 0,
        r == ListStep::Again || r == ListStep::KeepsChanging <==> code == 234,
        r matches ListStep::Failed(c) ==> c == code && c != 0,
{
    if code == MORE_DATA {
        if attempt < LIST_ATTEMPTS {
            ListStep::Again
        } else {
            ListStep::KeepsChanging
        }
    } else if code != 0 {
        ListStep::Failed(code)
    } else {
        ListStep::Done
    }
}

/// Two descriptions of one owner.
pub open spec fn same_owner(a: Owner, b: Owner) -> bool {
    &&& a.pid == b.pid
    &&& a.name@ == b.name@
    &&& a.service@ == b.service@
    &&& a.critical == b.critical
    &&& a.restartable == b.restartable
    &&& a.started == b.started
}

/// By process and start, else as listed.
pub open spec fn owner_first(v: Seq<Owner>, a: usize, b: usize) -> bool {
    let x = v[a as int];
    let y = v[b as int];
    ||| x.pid < y.pid
    ||| x.pid == y.pid && x.started < y.started
    ||| x.pid == y.pid && x.started == y.started && a <= b
}

pub open spec fn in_turn(v: Seq<Owner>) -> Seq<usize> {
    order::numbers(v.len()).sort_by(|a: usize, b: usize| owner_first(v, a, b))
}

/// Two lists of the same owners, in whatever order.
pub open spec fn same_owners(a: Seq<Owner>, b: Seq<Owner>) -> bool {
    a.len() == b.len() && forall|i: int|
        0 <= i < a.len() ==> same_owner(
            a[#[trigger] in_turn(a)[i] as int],
            b[in_turn(b)[i] as int],
        )
}

/// Why the owners of a file are not closed.
#[derive(Clone, Copy, Debug, PartialEq, Eq, Structural)]
pub enum CloseFault {
    OwnersChanged,
    NobodyFound,
    CriticalOwner,
}

impl CloseFault {
    pub fn message(self) -> (r: &'static str)
        ensures
            r@ == (match self {
                CloseFault::OwnersChanged => "file owners changed; another confirmation is required"@,
                CloseFault::NobodyFound => "Restart Manager could not identify an owner; close it manually and retry"@,
                CloseFault::CriticalOwner => "refusing to shut down critical processes/services/the cleaner itself"@,
            }),
    {
        match self {
            CloseFault::OwnersChanged => "file owners changed; another confirmation is required",
            CloseFault::NobodyFound => "Restart Manager could not identify an owner; close it manually and retry",
            CloseFault::CriticalOwner => "refusing to shut down critical processes/services/the cleaner itself",
        }
    }
}

pub open spec fn some_critical(v: Seq<Owner>) -> bool {
    exists|i: int| 0 <= i < v.len() && (#[trigger] v[i]).critical
}

/// Why the current owners must not be closed after the shown ones were agreed to.
pub open spec fn close_fault(current: Seq<Owner>, shown: Seq<Owner>) -> Option<CloseFault> {
    if !same_owners(current, shown) {
        Some(CloseFault::OwnersChanged)
    } else if current.len() == 0 {
        Some(CloseFault::NobodyFound)
    } else if some_critical(current) {
        Some(CloseFault::CriticalOwner)
    } else {
        None
    }
}

proof fn lemma_owner_order(v: Seq<Owner>)
    ensures
        total_ordering(|a: usize, b: usize| owner_first(v, a, b)),
{
}

fn ranked(v: &[Owner]) -> (r: Vec<usize>)
    ensures
        r@ == in_turn(v@),
        r@.len() == v@.len(),
        forall|i: int| 0 <= i < r@.len() ==> (#[trigger] r@[i]) < v@.len(),
{
    let n: usize = v.len();
    proof {
        lemma_owner_order(v@);
    }
    let first = |a: usize, b: usize| -> (r: bool)
        requires
            a < n,
            b < n,
            n == v@.len(),
        ensures
            r == owner_first(v@, a, b),
        {
            let x: &Owner = &v[a];
            let y: &Owner = &v[b];
            x.pid < y.pid || (x.pid == y.pid && (x.started < y.started || (x.started == y.started
                && a <= b)))
        };
    order::rank(n, first, Ghost(|a: usize, b: usize| owner_first(v@, a, b)))
}

fn matches_owner(a: &Owner, b: &Owner) -> (r: bool)
    ensures
        r == same_owner(*a, *b),
{
    a.pid == b.pid && text::same(&a.name, &b.name) && text::same(&a.service, &b.service)
        && a.critical == b.critical && a.restartable == b.restartable && a.started == b.started
}

/// Whether the owners of a file may be closed: they are just those that were shown and
/// agreed to, there is one, and none of them is critical.
pub fn may_close(current: &[Owner], shown: &[Owner]) -> (r: Result<(), CloseFault>)
    ensures
        r == (match close_fault(current@, shown@) {
            Some(f) => Err::<(), CloseFault>(f),
            None => Ok(()),
        }),
{
    if current.len() != shown.len() {
        return Err(CloseFault::OwnersChanged);
    }
    let a: Vec<usize> = ranked(current);
    let b: Vec<usize> = ranked(shown);
    let mut i: usize = 0;
    while i < a.len()
        invariant
            i <= a@.len(),
            a@ == in_turn(current@),
            b@ == in_turn(shown@),
            a@.len() == current@.len(),
            b@.len() == shown@.len(),
            current@.len() == shown@.len(),
            forall|k: int| 0 <= k < a@.len() ==> (#[trigger] a@[k]) < current@.len(),
            forall|k: int| 0 <= k < b@.len() ==> (#[trigger] b@[k]) < shown@.len(),
            forall|k: int|
                0 <= k < i ==> same_owner(
                    current@[(#[trigger] a@[k]) as int],
                    shown@[b@[k] as int],
                ),
        decreases a@.len() - i,
    {
        if !matches_owner(&current[a[i]], &shown[b[i]]) {
            assert(!same_owner(
                current@[in_turn(current@)[i as int] as int],
                shown@[in_turn(shown@)[i as int] as int],
            ));
            return Err(CloseFault::OwnersChanged);
        }
        i += 1;
    }
    assert(same_owners(current@, shown@));
    if current.len() == 0 {
        return Err(CloseFault::NobodyFound);
    }
    let mut j: usize = 0;
    while j < current.len()
        invariant
            j <= current@.len(),
            current@.len() > 0,
            same_owners(current@, shown@),
            forall|k: int| 0 <= k < j ==> !(#[trigger] current@[k]).critical,
        decreases current@.len() - j,
    {
        if current[j].critical {
            assert(current@[j as int].critical);
            return Err(CloseFault::CriticalOwner);
        }
        j += 1;
    }
    Ok(())
}

/// Nobody is closed unless every owner was shown, and no critical owner ever is.
pub proof fn law_only_shown_owners_close(current: Seq<Owner>, shown: Seq<Owner>, i: int)
    requires
        close_fault(current, shown) is None,
        0 <= i < current.len() <= usize::MAX,
    ensures
        !current[i].critical,
        exists|j: int| 0 <= j < shown.len() && same_owner(current[i], #[trigger] shown[j]),
{
    let num = order::numbers(current.len());
    let le = |a: usize, b: usize| owner_first(current, a, b);
    lemma_owner_order(current);
    num.lemma_sort_by_ensures(le);
    let q = in_turn(current);
    assert(num[i] == i as usize);
    order::lemma_same_members(num, q, i);
    let w = q.index_of(i as usize);
    lemma_turns(current);
    lemma_turns(shown);
    assert(same_owner(current[q[w] as int], shown[in_turn(shown)[w] as int]));
}

proof fn lemma_turns(v: Seq<Owner>)
    requires
        v.len() <= usize::MAX,
    ensures
        in_turn(v).len() == v.len(),
        forall|i: int| 0 <= i < v.len() ==> (#[trigger] in_turn(v)[i]) < v.len(),
{
    let num = order::numbers(v.len());
    let q = in_turn(v);
    lemma_owner_order(v);
    num.lemma_sort_by_ensures(|a: usize, b: usize| owner_first(v, a, b));
    assert(q.len() == num.len()) by {
        broadcast use vstd::seq_lib::group_to_multiset_ensures;

        assert(q.to_multiset().len() == q.len());
        assert(num.to_multiset().len() == num.len());
    }
    assert forall|i: int| 0 <= i < v.len() implies (#[trigger] q[i]) < v.len() by {
        order::lemma_same_members(q, num, i);
        let w = num.index_of(q[i]);
        assert(num[w] == q[i]);
    }
}

/// The first system code along the causes of an error.
pub open spec fn first_code(chain: Seq<Option<i32>>) -> Option<i32>
    decreases chain.len(),
{
    if chain.len() == 0 {
        None
    } else if chain[0] is Some {
        chain[0]
    } else {
        first_code(chain.subrange(1, chain.len() as int))
    }
}

/// The system code of an error, of whose causes the codes are given, the outermost first.
pub fn error_code(chain: &[Option<i32>]) -> (r: Option<i32>)
    ensures
        r == first_code(chain@),
{
    let mut i: usize = 0;
    assert(chain@.subrange(0, chain@.len() as int) =~= chain@);
    while i < chain.len()
        invariant
            i <= chain@.len(),
            first_code(chain@.subrange(i as int, chain@.len() as int)) == first_code(chain@),
        decreases chain@.len() - i,
    {
        let ghost rest = chain@.subrange(i as int, chain@.len() as int);
        assert(rest[0] == chain@[i as int]);
        assert(rest.subrange(1, rest.len() as int) =~= chain@.subrange(
            i + 1,
            chain@.len() as int,
        ));
        if chain[i].is_some() {
            return chain[i];
        }
        i += 1;
    }
    None
}

/// Access denied, sharing violation, lock violation.
pub open spec fn lock_code(c: Option<i32>) -> bool {
    c == Some(5i32) || c == Some(32i32) || c == Some(33i32)
}

/// Whether an error may come from somebody holding the file.
pub fn may_be_locked(chain: &[Option<i32>]) -> (r: bool)
    ensures
        r == lock_code(first_code(chain@)),
{
    match error_code(chain) {
        Some(c) => c == 5 || c == 32 || c == 33,
        None => false,
    }
}

/// Owners are closed only if there are some, none of them is critical, and they are one for
/// one those that were shown: the same process, started at the same time, under the same
/// name and service.
pub proof fn law_owners_close_as_shown(current: Seq<Owner>, shown: Seq<Owner>, i: int)
    requires
        close_fault(current, shown) is None,
        0 <= i < current.len() <= usize::MAX,
    ensures
        current.len() == shown.len(),
        current.len() > 0,
        !current[i].critical,
        exists|j: int|
            0 <= j < shown.len() && (#[trigger] shown[j]).pid == current[i].pid && shown[j].started
                == current[i].started && shown[j].name@ == current[i].name@ && shown[j].service@
                == current[i].service@ && shown[j].restartable == current[i].restartable
                && !shown[j].critical,
{
    law_only_shown_owners_close(current, shown, i);
    let j = choose|j: int| 0 <= j < shown.len() && same_owner(current[i], #[trigger] shown[j]);
    assert(shown[j].pid == current[i].pid);
}

/// A critical owner is never closed.
pub proof fn law_critical_owners_stay(current: Seq<Owner>, shown: Seq<Owner>, i: int)
    requires
        0 <= i < current.len(),
        current[i].critical,
    ensures
        close_fault(current, shown) is Some,
{
}

/// An object may be held by another program exactly if access was denied, or shared or
/// locked otherwise.
pub proof fn law_three_codes_tell_of_owners(c: Option<i32>)
    ensures
        lock_code(c) <==> c is Some && (c->0 == 5 || c->0 == 32 || c->0 == 33),
{
}

/// Of a chain of causes, the first code counts.
pub proof fn law_the_first_code_counts(chain: Seq<Option<i32>>, i: int)
    requires
        0 <= i < chain.len(),
        chain[i] is Some,
        forall|k: int| 0 <= k < i ==> (#[trigger] chain[k]) is None,
    ensures
        first_code(chain) == chain[i],
    decreases chain.len(),
{
    if i > 0 {
        assert(chain[0] is None);
        let rest = chain.subrange(1, chain.len() as int);
        assert forall|k: int| 0 <= k < i - 1 implies (#[trigger] rest[k]) is None by {
            assert(chain[k + 1] is None);
        }
        law_the_first_code_counts(rest, i - 1);
    }
}

/// Owners are closed exactly if they are those that were shown, there are any, and none of
/// them is critical.
pub proof fn law_closing_is_refused_for_cause(current: Seq<Owner>, shown: Seq<Owner>)
    ensures
        close_fault(current, shown) is None <==> same_owners(current, shown) && current.len() > 0 && (
        forall|i: int| 0 <= i < current.len() ==> !(#[trigger] current[i]).critical),
        close_fault(current, shown) == Some(CloseFault::OwnersChanged) <==> !same_owners(
            current,
            shown,
        ),
        close_fault(current, shown) == Some(CloseFault::NobodyFound) ==> current.len() == 0,
{
}

} // verus!
