//! A subject-matching trie: it stores subscription patterns built from
//! hierarchical tokens, including single-level and multi-level wildcards,
//! and answers concrete queries with every value whose pattern matches,
//! backed by a bounded result cache with precise invalidation.
//!
//! The central invariant is cache coherence: every cached entry equals the
//! result a cold recomputation would give for its keys. Each mutation
//! invalidates the cached entries its pattern is consistent with, and the
//! proof that this keeps the invariant rests on one fact: every key
//! sequence whose result a pattern can change is consistent with that
//! pattern (`lemma_covers_implies_match`).

use vstd::prelude::*;
use vstd::multiset::Multiset;

pub mod cache;
pub mod error;
pub mod laws;
pub mod node;
pub mod token;

pub use token::Token;
pub use token::Tokens;

use crate::cache::cache_clear;
use crate::cache::cache_contents;
use crate::cache::cache_get;
use crate::cache::cache_len;
use crate::cache::cache_new;
use crate::cache::cache_put;
use crate::cache::cache_remove_matching;
use crate::node::Node;
use crate::node::copy_values;
use crate::node::lemma_empty_node_find;
use crate::node::lemma_empty_node_values;
use crate::token::Tok;
use crate::token::lemma_covers_implies_match;
use crate::token::pattern_covers;
use crate::token::valid_pattern;

verus! {

/// The subscription trie: the root of the owned node tree, and a bounded
/// cache of query results keyed by concrete key sequences.
pub struct Trie {
    /// cache of query results
    pub cache: lru_map::LRUMap<Vec<String>, Vec<u64>, 32>,
    /// root node
    pub root: Node,
}

/// Builds an owned copy of a key sequence, for storing in the cache.
fn copy_strings(v: &Vec<String>) -> (r: Vec<String>)
    ensures
        r@ == v@,
{
    let n = v.len();
    let mut r: Vec<String> = Vec::new();
    let mut j: usize = 0;
    while j < n
        invariant
            n == v@.len(),
            j <= n,
            r@ =~= v@.take(j as int),
        decreases n - j,
    {
        r.push(v[j].clone());
        j += 1;
    }
    proof {
        assert(v@.take(n as int) =~= v@);
    }
    r
}

impl Trie {
    /// Every value the trie yields for a concrete key sequence, as a cold
    /// computation over the node tree.
    pub open spec fn spec_find(self, keys: Seq<Seq<char>>) -> Multiset<u64> {
        self.root.spec_find(keys)
    }

    /// The value set registered under exactly this pattern.
    pub open spec fn values_at(self, pat: Seq<Tok>) -> Seq<u64> {
        self.root.spec_pattern_values(pat)
    }

    /// The trie's invariant: the node tree is well formed, and the cache
    /// is coherent — every cached entry equals the cold result for its
    /// keys.
    pub open spec fn inv(self) -> bool {
        &&& self.root.wf()
        &&& (forall|k: Seq<Seq<char>>|
            #[trigger] cache_contents(&self.cache).dom().contains(k) ==> cache_contents(
                &self.cache,
            )[k].to_multiset() == self.root.spec_find(k))
    }

    /// Builds an empty trie.
    pub fn new() -> (t: Trie)
        ensures
            t.inv(),
            forall|ks: Seq<Seq<char>>| #[trigger] t.spec_find(ks) == Multiset::<u64>::empty(),
            forall|pat: Seq<Tok>| #[trigger] t.values_at(pat) == Seq::<u64>::empty(),
    {
        let t = Trie { cache: cache_new(), root: Node::new() };
        proof {
            assert forall|ks: Seq<Seq<char>>| #[trigger] t.spec_find(ks) == Multiset::<
                u64,
            >::empty() by {
                lemma_empty_node_find(t.root, ks);
            }
            assert forall|pat: Seq<Tok>| #[trigger] t.values_at(pat) == Seq::<u64>::empty() by {
                lemma_empty_node_values(t.root, pat);
            }
        }
        t
    }

    /// Adds a value under a pattern; reports whether it was new there.
    /// Afterwards every find sees exactly one more occurrence of the
    /// value, for exactly the key sequences the pattern covers.
    pub fn insert(&mut self, tokens: &Tokens, value: u64) -> (added: bool)
        requires
            old(self).inv(),
            valid_pattern(tokens@),
        ensures
            final(self).inv(),
            added == !old(self).values_at(tokens@).contains(value),
            final(self).values_at(tokens@) == (if added {
                old(self).values_at(tokens@).push(value)
            } else {
                old(self).values_at(tokens@)
            }),
            forall|ks: Seq<Seq<char>>| #[trigger] final(self).spec_find(ks) == old(self).spec_find(
                ks,
            ).add(
                (if added && pattern_covers(tokens@, ks) {
                    Multiset::singleton(value)
                } else {
                    Multiset::empty()
                }),
            ),
    {
        proof {
            assert(tokens@.skip(0) =~= tokens@);
        }
        let added = self.root.insert_at(tokens, 0, value);
        cache_remove_matching(&mut self.cache, tokens);
        proof {
            assert forall|k: Seq<Seq<char>>|
                #[trigger] cache_contents(&self.cache).dom().contains(k) implies cache_contents(
                &self.cache,
            )[k].to_multiset() == self.root.spec_find(k) by {
                if added && pattern_covers(tokens@, k) {
                    lemma_covers_implies_match(tokens@, k);
                }
                assert(old(self).root.spec_find(k).add(Multiset::<u64>::empty()) =~= old(
                    self,
                ).root.spec_find(k));
            }
        }
        added
    }

    /// Every value whose pattern matches the concrete keys, once per
    /// matching node. Served from the cache when the same keys were asked
    /// before; a computed result is stored back into the cache.
    pub fn find(&mut self, keys: &Vec<String>) -> (r: Vec<u64>)
        requires
            old(self).inv(),
        ensures
            final(self).inv(),
            final(self).root == old(self).root,
            r@.to_multiset() == old(self).spec_find(keys.deep_view()),
    {
        match cache_get(&mut self.cache, keys) {
            Option::Some(v) => {
                return v;
            },
            Option::None => {},
        }
        proof {
            assert(keys.deep_view().skip(0) =~= keys.deep_view());
        }
        let vals = self.root.find_values(keys, 0);
        let key_copy = copy_strings(keys);
        let val_copy = copy_values(&vals);
        if cache_len(&self.cache) >= 32 {
            cache_clear(&mut self.cache);
        }
        proof {
            assert(key_copy.deep_view() =~= keys.deep_view());
        }
        cache_put(&mut self.cache, key_copy, val_copy);
        vals
    }

    /// Whether any value at all matches the concrete keys. Does not touch
    /// the cache.
    pub fn exist(&self, keys: &Vec<String>) -> (r: bool)
        ensures
            r == (self.spec_find(keys.deep_view()).len() > 0),
    {
        proof {
            assert(keys.deep_view().skip(0) =~= keys.deep_view());
        }
        self.root.exist_values(keys, 0)
    }

    /// The node a pattern addresses, walking the exact path, and whether
    /// the pattern ends in the multi-level wildcard.
    #[allow(dead_code)]
    fn find_node(&self, tokens: &Tokens) -> (r: (Option<&Node>, bool))
        requires
            valid_pattern(tokens@),
        ensures
            r.1 == (tokens@.len() > 0 && tokens@.last() is Multi),
            (r.0 is Some) == (self.root.spec_node_at(tokens@) is Some),
            r.0 matches Option::Some(n) ==> self.root.spec_node_at(tokens@) == Option::Some(*n),
    {
        let mut node: &Node = &self.root;
        let n = tokens.0.len();
        proof {
            assert(n == tokens@.len());
            assert(tokens@.skip(0) =~= tokens@);
        }
        let mut j: usize = 0;
        while j < n
            invariant
                n == tokens.0@.len(),
                n == tokens@.len(),
                j <= n,
                valid_pattern(tokens@),
                forall|k: int| 0 <= k < j ==> !(#[trigger] tokens@[k] is Multi),
                self.root.spec_node_at(tokens@) == node.spec_node_at(tokens@.skip(j as int)),
            decreases n - j,
        {
            let ghost sfx = tokens@.skip(j as int);
            proof {
                assert(sfx[0] == tokens@[j as int]);
                assert(sfx.drop_first() =~= tokens@.skip(j as int + 1));
            }
            match &tokens.0[j] {
                Token::MultiWildcard => {
                    proof {
                        assert(tokens@[j as int] is Multi);
                        assert(j == n - 1);
                        assert(node.spec_node_at(sfx) == Option::Some(*node));
                    }
                    return (Option::Some(node), true);
                },
                Token::OneWildcard => {
                    proof {
                        assert(tokens@[j as int] is One);
                    }
                    match node.owc_node() {
                        Option::Some(c) => {
                            node = c;
                        },
                        Option::None => {
                            let flag = match &tokens.0[n - 1] {
                                Token::MultiWildcard => true,
                                _ => false,
                            };
                            proof {
                                assert(tokens@.last() == tokens@[n - 1]);
                            }
                            return (Option::None, flag);
                        },
                    }
                },
                Token::Normal(s) => {
                    proof {
                        assert(tokens@[j as int] == Tok::Lit(s@));
                    }
                    match node.get_child_node(s) {
                        Option::Some(c) => {
                            node = c;
                        },
                        Option::None => {
                            let flag = match &tokens.0[n - 1] {
                                Token::MultiWildcard => true,
                                _ => false,
                            };
                            proof {
                                assert(tokens@.last() == tokens@[n - 1]);
                            }
                            return (Option::None, flag);
                        },
                    }
                },
            }
            j += 1;
        }
        proof {
            assert(tokens@.skip(n as int) =~= Seq::<Tok>::empty());
            if n > 0 {
                assert(!(tokens@[n - 1] is Multi));
            }
        }
        (Option::Some(node), false)
    }

    /// Removes one value from the set its pattern addresses; reports
    /// whether it was there. Afterwards every find sees one occurrence
    /// less, for exactly the key sequences the pattern covers.
    pub fn remove(&mut self, tokens: &Tokens, value: &u64) -> (removed: bool)
        requires
            old(self).inv(),
            valid_pattern(tokens@),
        ensures
            final(self).inv(),
            removed == old(self).values_at(tokens@).contains(*value),
            !final(self).values_at(tokens@).contains(*value),
            forall|ks: Seq<Seq<char>>| #[trigger] final(self).spec_find(ks) == (if removed
                && pattern_covers(tokens@, ks) {
                old(self).spec_find(ks).remove(*value)
            } else {
                old(self).spec_find(ks)
            }),
    {
        cache_remove_matching(&mut self.cache, tokens);
        proof {
            assert(tokens@.skip(0) =~= tokens@);
        }
        let removed = self.root.remove_at(tokens, 0, value);
        proof {
            assert forall|k: Seq<Seq<char>>|
                #[trigger] cache_contents(&self.cache).dom().contains(k) implies cache_contents(
                &self.cache,
            )[k].to_multiset() == self.root.spec_find(k) by {
                if removed && pattern_covers(tokens@, k) {
                    lemma_covers_implies_match(tokens@, k);
                }
            }
        }
        removed
    }

    /// Clears the whole set a pattern addresses; reports whether it held
    /// anything. Afterwards every find loses exactly the cleared values,
    /// for exactly the key sequences the pattern covers.
    pub fn remove_all(&mut self, tokens: &Tokens) -> (r: bool)
        requires
            old(self).inv(),
            valid_pattern(tokens@),
        ensures
            final(self).inv(),
            r == (old(self).values_at(tokens@).len() > 0),
            final(self).values_at(tokens@) =~= Seq::<u64>::empty(),
            forall|ks: Seq<Seq<char>>| #[trigger] final(self).spec_find(ks) == (if pattern_covers(
                tokens@,
                ks,
            ) {
                old(self).spec_find(ks).sub(old(self).values_at(tokens@).to_multiset())
            } else {
                old(self).spec_find(ks)
            }),
    {
        cache_remove_matching(&mut self.cache, tokens);
        proof {
            assert(tokens@.skip(0) =~= tokens@);
        }
        let r = self.root.remove_all_at(tokens, 0);
        proof {
            assert forall|k: Seq<Seq<char>>|
                #[trigger] cache_contents(&self.cache).dom().contains(k) implies cache_contents(
                &self.cache,
            )[k].to_multiset() == self.root.spec_find(k) by {
                if pattern_covers(tokens@, k) {
                    lemma_covers_implies_match(tokens@, k);
                }
            }
        }
        r
    }
}

} // verus!
