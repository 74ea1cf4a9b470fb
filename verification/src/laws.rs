//! The laws of the matching engine, stated and proved over the same spec
//! functions the operations' contracts use. Each proof function's
//! hypotheses about a pre- and post-state are exactly what the respective
//! operation's contract guarantees, so the laws apply to any run of those
//! operations.

use vstd::prelude::*;
use vstd::multiset::Multiset;

use crate::Trie;
use crate::node::lemma_pattern_values_in_find;
use crate::token::Tok;
use crate::token::pattern_covers;
use crate::token::spec_no_wildcard;
use crate::token::tok_matches_key;
use crate::token::valid_pattern;

verus! {

broadcast use vstd::seq_lib::group_to_multiset_ensures;

/// A value present under a pattern is found for every key sequence the
/// pattern covers: a find for such keys yields it at least once.
pub proof fn lemma_value_found(t: Trie, pat: Seq<Tok>, keys: Seq<Seq<char>>, v: u64)
    requires
        valid_pattern(pat),
        pattern_covers(pat, keys),
        t.values_at(pat).contains(v),
    ensures
        t.spec_find(keys).count(v) >= 1,
{
    lemma_pattern_values_in_find(t.root, pat, keys);
    assert(t.values_at(pat).to_multiset().count(v) > 0);
}

/// A wildcard-free pattern covers exactly its own literal texts, so an
/// insertion under it is visible to a find for those texts.
pub proof fn lemma_exact_pattern_covers(pat: Seq<Tok>, keys: Seq<Seq<char>>)
    requires
        spec_no_wildcard(pat),
        keys.len() == pat.len(),
        forall|i: int| 0 <= i < pat.len() ==> #[trigger] pat[i] == Tok::Lit(keys[i]),
    ensures
        pattern_covers(pat, keys),
        valid_pattern(pat),
{
    if pat.len() > 0 {
        assert(pat.last() is Lit);
    }
    assert forall|i: int| 0 <= i < pat.len() implies tok_matches_key(
        #[trigger] pat[i],
        keys[i],
    ) by {}
}

/// Inserting a pair a second time reports nothing new and leaves every
/// find result as it was.
pub proof fn lemma_insert_idempotent(mid: Trie, post: Trie, pat: Seq<Tok>, v: u64, added: bool)
    requires
        mid.values_at(pat).contains(v),
        added == !mid.values_at(pat).contains(v),
        forall|ks: Seq<Seq<char>>| #[trigger] post.spec_find(ks) == mid.spec_find(ks).add(
            (if added && pattern_covers(pat, ks) {
                Multiset::singleton(v)
            } else {
                Multiset::empty()
            }),
        ),
    ensures
        !added,
        forall|ks: Seq<Seq<char>>| #[trigger] post.spec_find(ks) == mid.spec_find(ks),
{
    assert forall|ks: Seq<Seq<char>>| #[trigger] post.spec_find(ks) == mid.spec_find(ks) by {
        assert(mid.spec_find(ks).add(Multiset::<u64>::empty()) =~= mid.spec_find(ks));
    }
}

/// Removing a pair after inserting it takes the value back out: starting
/// from a trie whose find for the pattern's covered keys does not hold the
/// value, the removal reports success and that find no longer holds it.
pub proof fn lemma_insert_then_remove(
    pre: Trie,
    mid: Trie,
    post: Trie,
    pat: Seq<Tok>,
    keys: Seq<Seq<char>>,
    v: u64,
    added: bool,
    removed: bool,
)
    requires
        valid_pattern(pat),
        pattern_covers(pat, keys),
        pre.spec_find(keys).count(v) == 0,
        // mid relates to pre as insert's contract states
        added == !pre.values_at(pat).contains(v),
        mid.values_at(pat) == (if added {
            pre.values_at(pat).push(v)
        } else {
            pre.values_at(pat)
        }),
        forall|ks: Seq<Seq<char>>| #[trigger] mid.spec_find(ks) == pre.spec_find(ks).add(
            (if added && pattern_covers(pat, ks) {
                Multiset::singleton(v)
            } else {
                Multiset::empty()
            }),
        ),
        // post relates to mid as remove's contract states
        removed == mid.values_at(pat).contains(v),
        forall|ks: Seq<Seq<char>>| #[trigger] post.spec_find(ks) == (if removed && pattern_covers(
            pat,
            ks,
        ) {
            mid.spec_find(ks).remove(v)
        } else {
            mid.spec_find(ks)
        }),
    ensures
        removed,
        post.spec_find(keys).count(v) == 0,
{
    lemma_pattern_values_in_find(pre.root, pat, keys);
    assert(pre.values_at(pat).to_multiset().count(v) == 0);
    assert(!pre.values_at(pat).contains(v));
    assert(added);
    assert(mid.values_at(pat)[mid.values_at(pat).len() - 1] == v);
    assert(mid.values_at(pat).contains(v));
    assert(mid.spec_find(keys).count(v) == 1);
    assert(post.spec_find(keys) == mid.spec_find(keys).remove(v));
}

/// Removing an absent pair reports false and leaves every find result as
/// it was.
pub proof fn lemma_remove_absent(pre: Trie, post: Trie, pat: Seq<Tok>, v: u64, removed: bool)
    requires
        !pre.values_at(pat).contains(v),
        removed == pre.values_at(pat).contains(v),
        forall|ks: Seq<Seq<char>>| #[trigger] post.spec_find(ks) == (if removed && pattern_covers(
            pat,
            ks,
        ) {
            pre.spec_find(ks).remove(v)
        } else {
            pre.spec_find(ks)
        }),
    ensures
        !removed,
        forall|ks: Seq<Seq<char>>| #[trigger] post.spec_find(ks) == pre.spec_find(ks),
{
}

/// What a pattern ending in the multi-level wildcard covers: at least one
/// key beyond its other tokens is required, so an insertion under it stays
/// invisible to any shorter key sequence.
pub proof fn lemma_multi_wildcard_containment(
    pre: Trie,
    post: Trie,
    pat: Seq<Tok>,
    keys: Seq<Seq<char>>,
    v: u64,
    added: bool,
)
    requires
        valid_pattern(pat),
        pat.len() > 0,
        pat.last() is Multi,
        post.values_at(pat).contains(v),
        forall|ks: Seq<Seq<char>>| #[trigger] post.spec_find(ks) == pre.spec_find(ks).add(
            (if added && pattern_covers(pat, ks) {
                Multiset::singleton(v)
            } else {
                Multiset::empty()
            }),
        ),
    ensures
        keys.len() >= pat.len() && (forall|i: int|
            0 <= i < pat.len() - 1 ==> tok_matches_key(#[trigger] pat[i], keys[i]))
            ==> post.spec_find(keys).count(v) >= 1,
        keys.len() < pat.len() ==> post.spec_find(keys) == pre.spec_find(keys),
{
    if keys.len() >= pat.len() && (forall|i: int|
        0 <= i < pat.len() - 1 ==> tok_matches_key(#[trigger] pat[i], keys[i])) {
        assert(pattern_covers(pat, keys));
        lemma_pattern_values_in_find(post.root, pat, keys);
        assert(post.values_at(pat).to_multiset().count(v) > 0);
    }
    if keys.len() < pat.len() {
        assert(!pattern_covers(pat, keys));
        assert(pre.spec_find(keys).add(Multiset::<u64>::empty()) =~= pre.spec_find(keys));
    }
}

/// Single-wildcard exactness: the lone `*` pattern covers exactly the key
/// sequences of length one.
pub proof fn lemma_single_wildcard_exact(keys: Seq<Seq<char>>)
    ensures
        pattern_covers(seq![Tok::One], keys) == (keys.len() == 1),
{
}

} // verus!
