//! `lru::LruCache` as a list of entries ordered by their last use.

use crate::cache::CacheValue;
use vstd::prelude::*;

verus! {

/// `lru::LruCache`: a map that knows the order in which its entries were
/// used.
#[verifier::external_type_specification]
#[verifier::external_body]
#[verifier::reject_recursive_types(K)]
#[verifier::reject_recursive_types(V)]
#[verifier::reject_recursive_types(S)]
pub struct ExLruCache<K, V, S>(lru::LruCache<K, V, S>);

/// `lru::DefaultHasher`: how keys are hashed, which has no bearing on what a
/// cache holds.
#[verifier::external_type_specification]
#[verifier::external_body]
pub struct ExDefaultHasher(lru::DefaultHasher);

/// Key of an entry, as integers.
pub type KeyCode = (u8, u64, u32, u16, u64);

/// A cache of decoded data.
pub type Recency = lru::LruCache<KeyCode, CacheValue>;

/// Entries of a cache, the one used last coming first.
pub uninterp spec fn recent_entries(c: Recency) -> Seq<(KeyCode, CacheValue)>;

/// Number of entries that a cache was made for.
pub uninterp spec fn recent_limit(c: Recency) -> nat;

/// Position `i` of the entries holds the key `k`.
pub open spec fn holds_key(entries: Seq<(KeyCode, CacheValue)>, i: int, k: KeyCode) -> bool {
    0 <= i < entries.len() && entries[i].0 == k
}

/// The entry at position `i` moved to the front.
pub open spec fn moved_to_front(entries: Seq<(KeyCode, CacheValue)>, i: int) -> Seq<
    (KeyCode, CacheValue),
> {
    seq![entries[i]] + entries.remove(i)
}

/// `lru::LruCache::unbounded`: an empty cache for as many entries as can be
/// counted.
#[verifier::external_body]
pub(crate) fn recent_new() -> (c: Recency)
    ensures
        recent_entries(c) == Seq::<(KeyCode, CacheValue)>::empty(),
        recent_limit(c) == usize::MAX,
{
    lru::LruCache::unbounded()
}

/// `lru::LruCache::get`: finds the entry with the key and moves it to the
/// front; without one, nothing changes.
#[verifier::external_body]
pub(crate) fn recent_get<'a>(c: &'a mut Recency, k: &KeyCode) -> (r: Option<&'a CacheValue>)
    ensures
        recent_limit(*final(c)) == recent_limit(*old(c)),
        match r {
            Some(v) => exists|i: int|
                {
                    &&& #[trigger] holds_key(recent_entries(*old(c)), i, *k)
                    &&& *v == recent_entries(*old(c))[i].1
                    &&& recent_entries(*final(c)) == moved_to_front(recent_entries(*old(c)), i)
                },
            None => {
                &&& forall|i: int| !#[trigger] holds_key(recent_entries(*old(c)), i, *k)
                &&& recent_entries(*final(c)) == recent_entries(*old(c))
            },
        },
{
    c.get(k)
}

/// `lru::LruCache::put`: with a key that the cache does not hold, and room for
/// one more entry, adds the entry at the front.
#[verifier::external_body]
pub(crate) fn recent_put(c: &mut Recency, k: KeyCode, v: CacheValue)
    requires
        forall|i: int| !#[trigger] holds_key(recent_entries(*old(c)), i, k),
        recent_entries(*old(c)).len() < recent_limit(*old(c)),
    ensures
        recent_limit(*final(c)) == recent_limit(*old(c)),
        recent_entries(*final(c)) == seq![(k, v)] + recent_entries(*old(c)),
{
    c.put(k, v);
}

/// `lru::LruCache::pop_lru`: removes the entry that has gone unused for
/// longest, if there is one.
#[verifier::external_body]
pub(crate) fn recent_pop(c: &mut Recency) -> (r: Option<(KeyCode, CacheValue)>)
    ensures
        recent_limit(*final(c)) == recent_limit(*old(c)),
        match r {
            Some(e) => {
                &&& recent_entries(*old(c)).len() > 0
                &&& e == recent_entries(*old(c)).last()
                &&& recent_entries(*final(c)) == recent_entries(*old(c)).drop_last()
            },
            None => {
                &&& recent_entries(*old(c)).len() == 0
                &&& recent_entries(*final(c)) == recent_entries(*old(c))
            },
        },
{
    c.pop_lru()
}

/// `lru::LruCache::clear`: removes all entries.
#[verifier::external_body]
pub(crate) fn recent_clear(c: &mut Recency)
    ensures
        recent_limit(*final(c)) == recent_limit(*old(c)),
        recent_entries(*final(c)) == Seq::<(KeyCode, CacheValue)>::empty(),
{
    c.clear()
}

/// `lru::LruCache::len`: the number of entries.
#[verifier::external_body]
pub(crate) fn recent_len(c: &Recency) -> (n: usize)
    ensures
        n == recent_entries(*c).len(),
{
    c.len()
}

} // verus!
