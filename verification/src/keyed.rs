//! Sets and maps of numbers, kept in the hash tables of the `ahash` crate.
use ahash::{AHashMap, AHashSet, RandomState};
use vstd::prelude::*;

verus! {

/// The hash state of the `ahash` crate.
#[verifier::external_type_specification]
#[verifier::external_body]
pub struct ExRandomState(RandomState);

/// The hash set of the `ahash` crate.
#[verifier::external_type_specification]
#[verifier::external_body]
#[verifier::reject_recursive_types(T)]
#[verifier::reject_recursive_types(S)]
pub struct ExAHashSet<T, S>(AHashSet<T, S>);

/// The hash map of the `ahash` crate.
#[verifier::external_type_specification]
#[verifier::external_body]
#[verifier::reject_recursive_types(K)]
#[verifier::reject_recursive_types(V)]
#[verifier::reject_recursive_types(S)]
pub struct ExAHashMap<K, V, S>(AHashMap<K, V, S>);

/// The places of the up to four clusters of a page.
pub type Page = (u64, u64, u64, u64);

/// The objects in a set: volume and identity.
pub uninterp spec fn objects_in(s: AHashSet<(u64, u128)>) -> Set<(u64, u128)>;

/// The pages in a set.
pub uninterp spec fn pages_in(s: AHashSet<Page>) -> Set<Page>;

/// What a map holds.
pub uninterp spec fn table_of(m: AHashMap<u128, u64>) -> Map<u128, u64>;

/// `AHashSet::new`: the set is empty.
#[verifier::external_body]
pub(crate) fn no_objects() -> (r: AHashSet<(u64, u128)>)
    ensures
        objects_in(r) == Set::<(u64, u128)>::empty(),
{
    AHashSet::new()
}

/// `HashSet::insert` on an `AHashSet`: afterwards the object is in the set, nothing else
/// changed, and the result tells whether it was new.
#[verifier::external_body]
pub(crate) fn add_object(s: &mut AHashSet<(u64, u128)>, object: (u64, u128)) -> (fresh: bool)
    ensures
        fresh == !objects_in(*old(s)).contains(object),
        objects_in(*final(s)) == objects_in(*old(s)).insert(object),
{
    s.insert(object)
}

/// `HashSet::capacity` on an `AHashSet`: the number of objects that the table can hold as it
/// is, which is at least the number that it holds. How much more depends on how the table
/// grew, and nothing is said of it.
#[verifier::external_body]
pub(crate) fn object_room(s: &AHashSet<(u64, u128)>) -> (r: usize)
    ensures
        r >= objects_in(*s).len(),
{
    s.capacity()
}

/// `AHashSet::new`: the set is empty.
#[verifier::external_body]
pub(crate) fn no_pages() -> (r: AHashSet<Page>)
    ensures
        pages_in(r) == Set::<Page>::empty(),
{
    AHashSet::new()
}

/// `HashSet::insert` on an `AHashSet`: afterwards the page is in the set, nothing else
/// changed, and the result tells whether it was new.
#[verifier::external_body]
pub(crate) fn add_page(s: &mut AHashSet<Page>, page: Page) -> (fresh: bool)
    ensures
        fresh == !pages_in(*old(s)).contains(page),
        pages_in(*final(s)) == pages_in(*old(s)).insert(page),
{
    s.insert(page)
}

pub open spec fn empty_table() -> Map<u128, u64> {
    Map::empty()
}

/// `AHashMap::new`: the map is empty.
#[verifier::external_body]
pub(crate) fn no_entries() -> (r: AHashMap<u128, u64>)
    ensures
        table_of(r) == empty_table(),
{
    AHashMap::new()
}

/// `AHashMap::insert`: afterwards the key has the value, nothing else changed, and the
/// result is the value that the key had before, if it had one.
#[verifier::external_body]
pub(crate) fn put(m: &mut AHashMap<u128, u64>, key: u128, value: u64) -> (was: Option<u64>)
    ensures
        was == (if table_of(*old(m)).contains_key(key) {
            Some(table_of(*old(m))[key])
        } else {
            None
        }),
        table_of(*final(m)) == table_of(*old(m)).insert(key, value),
{
    m.insert(key, value)
}

/// `AHashMap::get`: the value of the key, if it has one.
#[verifier::external_body]
pub(crate) fn get(m: &AHashMap<u128, u64>, key: u128) -> (r: Option<u64>)
    ensures
        r == (if table_of(*m).contains_key(key) {
            Some(table_of(*m)[key])
        } else {
            None
        }),
{
    m.get(&key).copied()
}

/// `HashMap::capacity` on an `AHashMap`: the number of entries that the table can hold as it
/// is, which is at least the number that it holds. How much more depends on how the table
/// grew, and nothing is said of it.
#[verifier::external_body]
pub(crate) fn table_room(m: &AHashMap<u128, u64>) -> (r: usize)
    ensures
        r >= table_of(*m).len(),
{
    m.capacity()
}

} // verus!
