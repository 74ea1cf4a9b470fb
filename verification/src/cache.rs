//! The bounded result cache, backed by the `lru_map` crate.
//!
//! The cache maps a concrete key sequence to the value list a query
//! computed for it. Its contents are named by `cache_contents`; the number
//! of occupied entry slots by `cache_slots`. The crate stores entries in a
//! fixed array whose slots are never freed short of a full clear, and its
//! eviction path leaves stale keys behind in its index map; so the one
//! writer below that adds an entry requires a free slot, and the trie
//! clears the cache instead of ever letting the crate evict. Under that
//! discipline every key in the index map owns its slot alone, which is
//! what the contracts below say.
//!
//! The capacity is fixed at 32 entries, written as a literal because the
//! crate takes it as a const generic argument.

use vstd::prelude::*;

use crate::token::Tokens;
use crate::token::spec_match_keys;

verus! {

#[verifier::external_type_specification]
#[verifier::external_body]
#[verifier::reject_recursive_types(K)]
#[verifier::reject_recursive_types(T)]
pub struct ExLRUMap<K, T, const N: usize>(lru_map::LRUMap<K, T, N>);

/// What the cache holds: each stored key sequence, viewed as character
/// sequences, mapped to its stored value list.
pub uninterp spec fn cache_contents(m: &lru_map::LRUMap<Vec<String>, Vec<u64>, 32>) -> Map<
    Seq<Seq<char>>,
    Seq<u64>,
>;

/// How many of the cache's entry slots are taken. Slots are only reclaimed
/// by a full clear, never by removing single keys.
pub uninterp spec fn cache_slots(m: &lru_map::LRUMap<Vec<String>, Vec<u64>, 32>) -> usize;

/// Relies on `LRUMap::default`: the entry array and the key map both start
/// empty.
#[verifier::external_body]
pub(crate) fn cache_new() -> (m: lru_map::LRUMap<Vec<String>, Vec<u64>, 32>)
    ensures
        forall|k: Seq<Seq<char>>| !cache_contents(&m).dom().contains(k),
        cache_slots(&m) == 0,
{
    lru_map::LRUMap::default()
}

/// Relies on `LRUMap::get`: it answers from its key map and entry array
/// and only touches the recency order, so the contents and the slot count
/// stay as they are. The stored list is cloned for the caller.
#[verifier::external_body]
pub(crate) fn cache_get(
    m: &mut lru_map::LRUMap<Vec<String>, Vec<u64>, 32>,
    keys: &Vec<String>,
) -> (r: Option<Vec<u64>>)
    ensures
        cache_contents(final(m)) == cache_contents(old(m)),
        cache_slots(final(m)) == cache_slots(old(m)),
        (r is Some) == cache_contents(old(m)).dom().contains(keys.deep_view()),
        r matches Some(v) ==> v@ == cache_contents(old(m))[keys.deep_view()],
{
    m.get(keys).cloned()
}

/// Relies on `LRUMap::put`: with a slot still free, a fresh key takes a
/// new slot and a present key has its value replaced in place, so the
/// contents gain exactly this entry and at most one more slot is taken.
/// The free slot is required so that the crate's eviction path, which
/// leaves a stale key aliased to the overwritten slot, can never run.
#[verifier::external_body]
pub(crate) fn cache_put(
    m: &mut lru_map::LRUMap<Vec<String>, Vec<u64>, 32>,
    keys: Vec<String>,
    values: Vec<u64>,
)
    requires
        cache_slots(old(m)) < 32,
    ensures
        cache_contents(final(m)) == cache_contents(old(m)).insert(keys.deep_view(), values@),
        cache_slots(final(m)) <= cache_slots(old(m)) + 1,
        cache_slots(final(m)) <= 32,
{
    m.put(keys, values);
}

/// Relies on `LRUMap::remove`: it walks every stored key once and drops
/// from its key map exactly those the predicate accepts, leaving slot
/// values and the entry array's length alone. The predicate handed over is
/// this crate's own verified `match_keys`.
#[verifier::external_body]
pub(crate) fn cache_remove_matching(
    m: &mut lru_map::LRUMap<Vec<String>, Vec<u64>, 32>,
    tokens: &Tokens,
)
    ensures
        cache_slots(final(m)) == cache_slots(old(m)),
        forall|k: Seq<Seq<char>>|
            #[trigger] cache_contents(final(m)).dom().contains(k) <==> (cache_contents(
                old(m),
            ).dom().contains(k) && !spec_match_keys(tokens@, k)),
        forall|k: Seq<Seq<char>>|
            cache_contents(final(m)).dom().contains(k) ==> #[trigger] cache_contents(final(m))[k]
                == cache_contents(old(m))[k],
{
    m.remove(|keys| tokens.match_keys(keys));
}

/// Relies on `LRUMap::clear`: the key map and the entry array are both
/// emptied.
#[verifier::external_body]
pub(crate) fn cache_clear(m: &mut lru_map::LRUMap<Vec<String>, Vec<u64>, 32>)
    ensures
        forall|k: Seq<Seq<char>>| !cache_contents(final(m)).dom().contains(k),
        cache_slots(final(m)) == 0,
{
    m.clear();
}

/// Relies on `LRUMap::len`: it reports the entry array's length, the
/// number of occupied slots.
#[verifier::external_body]
pub(crate) fn cache_len(m: &lru_map::LRUMap<Vec<String>, Vec<u64>, 32>) -> (n: usize)
    ensures
        n == cache_slots(m),
{
    m.len()
}

} // verus!
