//! The trie vertex: a mapping from literal text to child nodes, an optional
//! single-wildcard child, and the two value sets — one for patterns that end
//! exactly here, one for patterns whose multi-level wildcard ends here.
//!
//! The mathematical model of a node is given by three spec functions:
//! `spec_find` says which values a concrete key sequence collects below the
//! node, `spec_node_at` addresses the unique node a pattern leads to, and
//! `spec_pattern_values` reads the value set that a pattern denotes there.

use vstd::prelude::*;
use vstd::multiset::Multiset;

use crate::token::Tok;
use crate::token::Token;
use crate::token::Tokens;
use crate::token::lemma_covers_shift;
use crate::token::pattern_covers;
use crate::token::tok_matches_key;
use crate::token::valid_pattern;

verus! {

broadcast use {
    vstd::std_specs::vec::axiom_vec_index_decreases,
    vstd::seq_lib::group_to_multiset_ensures,
    vstd::seq_lib::lemma_multiset_commutative,
};

/// No value occurs twice: the vector represents a set.
pub open spec fn no_dups(s: Seq<u64>) -> bool {
    forall|i: int, j: int| 0 <= i < j < s.len() ==> s[i] != s[j]
}

/// A trie node.
#[derive(Debug)]
pub struct Node {
    /// child nodes, keyed by literal token text, one per distinct text
    pub children: Vec<(String, Node)>,
    /// the child reached by a single-level wildcard at this depth
    pub o_node: Option<Box<Node>>,
    /// values of patterns whose multi-level wildcard ends at this node
    pub m_value_set: Vec<u64>,
    /// values of patterns that end exactly at this node
    pub value_set: Vec<u64>,
}

/// The position of the first child entry carrying `name`, or the length of
/// the sequence when no entry does.
pub open spec fn child_index(s: Seq<(String, Node)>, name: Seq<char>) -> int
    decreases s.len(),
{
    if s.len() == 0 {
        0
    } else if s[0].0@ == name {
        0
    } else {
        1 + child_index(s.drop_first(), name)
    }
}

/// If position `j` holds the first entry named `name`, then `child_index`
/// finds exactly `j`.
pub proof fn lemma_child_index_at(s: Seq<(String, Node)>, name: Seq<char>, j: int)
    requires
        0 <= j < s.len(),
        s[j].0@ == name,
        forall|k: int| 0 <= k < j ==> (#[trigger] s[k]).0@ != name,
    ensures
        child_index(s, name) == j,
    decreases j,
{
    if j > 0 {
        assert(s[0].0@ != name);
        assert(s.drop_first()[j - 1] == s[j]);
        assert forall|k: int| 0 <= k < j - 1 implies (#[trigger] s.drop_first()[k]).0@ != name by {
            assert(s.drop_first()[k] == s[k + 1]);
        }
        lemma_child_index_at(s.drop_first(), name, j - 1);
    }
}

pub proof fn lemma_child_index(s: Seq<(String, Node)>, name: Seq<char>)
    ensures
        0 <= child_index(s, name) <= s.len(),
        child_index(s, name) < s.len() ==> s[child_index(s, name)].0@ == name,
        forall|k: int| 0 <= k < child_index(s, name) ==> (#[trigger] s[k]).0@ != name,
    decreases s.len(),
{
    if s.len() > 0 && s[0].0@ != name {
        lemma_child_index(s.drop_first(), name);
        assert forall|k: int| 0 <= k < child_index(s, name) implies (#[trigger] s[k]).0@
            != name by {
            if k > 0 {
                assert(s.drop_first()[k - 1] == s[k]);
            }
        }
    }
}

impl Node {
    /// The well-formedness of a node: each value vector is free of
    /// duplicates, child names are distinct, and all children are again
    /// well formed.
    pub open spec fn wf(self) -> bool
        decreases self,
    {
        &&& no_dups(self.value_set@)
        &&& no_dups(self.m_value_set@)
        &&& (forall|i: int, j: int|
            0 <= i < j < self.children@.len() ==> (#[trigger] self.children@[i]).0@ != (
            #[trigger] self.children@[j]).0@)
        &&& (forall|i: int|
            0 <= i < self.children@.len() ==> (#[trigger] self.children@[i]).1.wf())
        &&& (match self.o_node {
            Option::Some(b) => b.wf(),
            Option::None => true,
        })
    }

    /// The child registered under a literal text, if any.
    pub open spec fn child(self, name: Seq<char>) -> Option<Node> {
        let j = child_index(self.children@, name);
        if j < self.children@.len() {
            Option::Some(self.children@[j].1)
        } else {
            Option::None
        }
    }

    /// Every value that the subtree rooted here yields for the given
    /// concrete keys: with keys left to consume, the multi-wildcard values
    /// of this node plus whatever the matching literal child and the
    /// wildcard child yield for the rest; with no keys left, the values of
    /// patterns ending exactly here. Values reachable along several paths
    /// are counted once per path.
    pub open spec fn spec_find(self, keys: Seq<Seq<char>>) -> Multiset<u64>
        decreases keys.len(),
    {
        if keys.len() == 0 {
            self.value_set@.to_multiset()
        } else {
            let from_child = match self.child(keys[0]) {
                Option::Some(c) => c.spec_find(keys.drop_first()),
                Option::None => Multiset::empty(),
            };
            let from_owc = match self.o_node {
                Option::Some(b) => b.spec_find(keys.drop_first()),
                Option::None => Multiset::empty(),
            };
            self.m_value_set@.to_multiset().add(from_child).add(from_owc)
        }
    }

    /// The node a pattern addresses, walking literal and single-wildcard
    /// edges; a multi-level wildcard stays at the current node (it can only
    /// be the final token of a well-formed pattern).
    pub open spec fn spec_node_at(self, pat: Seq<Tok>) -> Option<Node>
        decreases pat.len(),
    {
        if pat.len() == 0 {
            Option::Some(self)
        } else {
            match pat[0] {
                Tok::Multi => Option::Some(self),
                Tok::One => match self.o_node {
                    Option::Some(b) => b.spec_node_at(pat.drop_first()),
                    Option::None => Option::None,
                },
                Tok::Lit(s) => match self.child(s) {
                    Option::Some(c) => c.spec_node_at(pat.drop_first()),
                    Option::None => Option::None,
                },
            }
        }
    }

    /// The value set a pattern denotes: the multi-wildcard set of its node
    /// when the pattern ends in a multi-level wildcard, else the terminal
    /// set; empty when the path does not exist.
    pub open spec fn spec_pattern_values(self, pat: Seq<Tok>) -> Seq<u64> {
        match self.spec_node_at(pat) {
            Option::Some(n) => if pat.len() > 0 && pat.last() is Multi {
                n.m_value_set@
            } else {
                n.value_set@
            },
            Option::None => Seq::empty(),
        }
    }

    /// A node with nothing in it.
    pub open spec fn is_empty_node(self) -> bool {
        &&& self.children@.len() == 0
        &&& self.o_node is None
        &&& self.m_value_set@.len() == 0
        &&& self.value_set@.len() == 0
    }
}

/// An empty node yields nothing, whatever the keys.
pub proof fn lemma_empty_node_find(n: Node, keys: Seq<Seq<char>>)
    requires
        n.is_empty_node(),
    ensures
        n.spec_find(keys) =~= Multiset::empty(),
    decreases keys.len(),
{
    if keys.len() == 0 {
        assert(n.value_set@ =~= Seq::empty());
        n.value_set@.to_multiset_ensures();
    } else {
        assert(n.m_value_set@ =~= Seq::empty());
        n.m_value_set@.to_multiset_ensures();
        lemma_child_index(n.children@, keys[0]);
        assert(n.child(keys[0]) is None);
    }
}

/// An empty node holds no value under any pattern.
pub proof fn lemma_empty_node_values(n: Node, pat: Seq<Tok>)
    requires
        n.is_empty_node(),
    ensures
        n.spec_pattern_values(pat) =~= Seq::<u64>::empty(),
    decreases pat.len(),
{
    if pat.len() > 0 {
        lemma_child_index(n.children@, match pat[0] {
            Tok::Lit(s) => s,
            _ => Seq::empty(),
        });
    }
}

/// Two child sequences with the same names everywhere are indexed alike.
pub proof fn lemma_child_index_same_names(
    s1: Seq<(String, Node)>,
    s2: Seq<(String, Node)>,
    q: Seq<char>,
)
    requires
        s1.len() == s2.len(),
        forall|k: int| 0 <= k < s1.len() ==> (#[trigger] s1[k]).0@ == (#[trigger] s2[k]).0@,
    ensures
        child_index(s1, q) == child_index(s2, q),
    decreases s1.len(),
{
    if s1.len() > 0 {
        assert(s1[0].0@ == s2[0].0@);
        if s1[0].0@ != q {
            assert forall|k: int| 0 <= k < s1.drop_first().len() implies (#[trigger] s1.drop_first()[k]).0@
                == (#[trigger] s2.drop_first()[k]).0@ by {
                assert(s1.drop_first()[k] == s1[k + 1]);
                assert(s2.drop_first()[k] == s2[k + 1]);
            }
            lemma_child_index_same_names(s1.drop_first(), s2.drop_first(), q);
        }
    }
}

/// Reading a pattern's value set through its first token: a pattern that
/// opens with a literal or single wildcard denotes, below this node, what
/// its remainder denotes below the corresponding child.
pub proof fn lemma_pattern_values_step(n: Node, pat: Seq<Tok>)
    requires
        pat.len() > 0,
        !(pat[0] is Multi),
    ensures
        pat[0] is One ==> n.spec_pattern_values(pat) == (match n.o_node {
            Option::Some(b) => b.spec_pattern_values(pat.drop_first()),
            Option::None => Seq::<u64>::empty(),
        }),
        pat[0] matches Tok::Lit(s) ==> n.spec_pattern_values(pat) == (match n.child(s) {
            Option::Some(c) => c.spec_pattern_values(pat.drop_first()),
            Option::None => Seq::<u64>::empty(),
        }),
{
    let p2 = pat.drop_first();
    if p2.len() > 0 {
        assert(p2.last() == pat.last());
    } else {
        assert(pat.last() == pat[0]);
    }
}

/// Replacing the node of one child entry leaves every name lookup where it
/// was.
pub proof fn lemma_update_same_names(cs: Seq<(String, Node)>, j: int, r1: Node, q: Seq<char>)
    requires
        0 <= j < cs.len(),
    ensures
        child_index(cs.update(j, (cs[j].0, r1)), q) == child_index(cs, q),
{
    let cs2 = cs.update(j, (cs[j].0, r1));
    assert forall|k: int| 0 <= k < cs.len() implies (#[trigger] cs[k]).0@ == (
    #[trigger] cs2[k]).0@ by {}
    lemma_child_index_same_names(cs, cs2, q);
}

/// Whatever a pattern holds at its node shows up in every find whose keys
/// the pattern covers: the find result counts each such value at least as
/// often as the pattern's own value set does.
pub proof fn lemma_pattern_values_in_find(n: Node, pat: Seq<Tok>, ks: Seq<Seq<char>>)
    requires
        valid_pattern(pat),
        pattern_covers(pat, ks),
    ensures
        forall|v: u64|
            #[trigger] n.spec_find(ks).count(v) >= n.spec_pattern_values(
                pat,
            ).to_multiset().count(v),
    decreases pat.len(),
{
    if pat.len() == 0 {
        assert(ks.len() == 0);
    } else if pat[0] is Multi {
        assert(pat.len() == 1) by {
            if pat.len() > 1 {
                assert(!(pat[0] is Multi));
            }
        }
        assert(ks.len() >= 1);
        assert(n.spec_node_at(pat) == Option::Some(n));
        assert(pat.last() is Multi);
        assert(n.spec_pattern_values(pat) == n.m_value_set@);
    } else {
        assert(ks.len() >= 1);
        lemma_covers_shift(pat, ks);
        let p2 = pat.drop_first();
        let k2 = ks.drop_first();
        assert(valid_pattern(p2)) by {
            assert(forall|k: int| 0 <= k < p2.len() ==> p2[k] == pat[k + 1]);
        }
        lemma_pattern_values_step(n, pat);
        match pat[0] {
            Tok::One => {
                match n.o_node {
                    Option::Some(b) => {
                        lemma_pattern_values_in_find(*b, p2, k2);
                        assert forall|v: u64|
                            #[trigger] n.spec_find(ks).count(v) >= n.spec_pattern_values(
                                pat,
                            ).to_multiset().count(v) by {
                            assert(b.spec_find(k2).count(v) >= b.spec_pattern_values(
                                p2,
                            ).to_multiset().count(v));
                        }
                    },
                    Option::None => {
                        assert(n.spec_pattern_values(pat) =~= Seq::<u64>::empty());
                    },
                }
            },
            Tok::Lit(s) => {
                match n.child(s) {
                    Option::Some(c) => {
                        lemma_pattern_values_in_find(c, p2, k2);
                        assert(ks[0] == s);
                        assert forall|v: u64|
                            #[trigger] n.spec_find(ks).count(v) >= n.spec_pattern_values(
                                pat,
                            ).to_multiset().count(v) by {
                            assert(c.spec_find(k2).count(v) >= c.spec_pattern_values(
                                p2,
                            ).to_multiset().count(v));
                        }
                    },
                    Option::None => {
                        assert(n.spec_pattern_values(pat) =~= Seq::<u64>::empty());
                    },
                }
            },
            Tok::Multi => {},
        }
    }
}

fn vec_contains_u64(v: &Vec<u64>, x: u64) -> (b: bool)
    ensures
        b == v@.contains(x),
{
    let n = v.len();
    let mut j: usize = 0;
    while j < n
        invariant
            n == v@.len(),
            j <= n,
            forall|k: int| 0 <= k < j ==> v@[k] != x,
        decreases n - j,
    {
        if v[j] == x {
            return true;
        }
        j += 1;
    }
    false
}

pub(crate) fn copy_values(v: &Vec<u64>) -> (r: Vec<u64>)
    ensures
        r@ == v@,
{
    let n = v.len();
    let mut r: Vec<u64> = Vec::new();
    let mut j: usize = 0;
    while j < n
        invariant
            n == v@.len(),
            j <= n,
            r@ =~= v@.take(j as int),
        decreases n - j,
    {
        r.push(v[j]);
        j += 1;
    }
    proof {
        assert(v@.take(n as int) =~= v@);
    }
    r
}

impl Node {
    /// Builds a fresh, empty node.
    pub fn new() -> (r: Node)
        ensures
            r.wf(),
            r.is_empty_node(),
    {
        Node { children: Vec::new(), value_set: Vec::new(), o_node: Option::None, m_value_set: Vec::new() }
    }

    /// Adds a value to the terminal set; reports whether it was new.
    pub fn add(&mut self, value: u64) -> (added: bool)
        ensures
            added == !old(self).value_set@.contains(value),
            final(self).value_set@ == (if added {
                old(self).value_set@.push(value)
            } else {
                old(self).value_set@
            }),
            final(self).children == old(self).children,
            final(self).o_node == old(self).o_node,
            final(self).m_value_set == old(self).m_value_set,
    {
        if vec_contains_u64(&self.value_set, value) {
            false
        } else {
            self.value_set.push(value);
            true
        }
    }

    /// The terminal values of this node.
    pub fn values(&self) -> (r: Vec<u64>)
        ensures
            r@ == self.value_set@,
    {
        copy_values(&self.value_set)
    }

    /// Removes one value from the terminal set; reports whether it was there.
    pub fn remove(&mut self, value: &u64) -> (removed: bool)
        ensures
            removed == old(self).value_set@.contains(*value),
            !removed ==> final(self).value_set@ == old(self).value_set@,
            removed ==> final(self).value_set@.to_multiset() == old(self).value_set@.to_multiset().remove(*value),
            no_dups(old(self).value_set@) ==> no_dups(final(self).value_set@) && !final(self).value_set@.contains(*value),
            final(self).children == old(self).children,
            final(self).o_node == old(self).o_node,
            final(self).m_value_set == old(self).m_value_set,
    {
        remove_value(&mut self.value_set, value)
    }

    /// The terminal set holds nothing.
    pub fn is_empty(&self) -> (r: bool)
        ensures
            r == (self.value_set@.len() == 0),
    {
        self.value_set.is_empty()
    }

    /// Clears the terminal set; reports whether it held anything.
    pub fn remove_all(&mut self) -> (r: bool)
        ensures
            r == (old(self).value_set@.len() > 0),
            final(self).value_set@ =~= Seq::<u64>::empty(),
            final(self).children == old(self).children,
            final(self).o_node == old(self).o_node,
            final(self).m_value_set == old(self).m_value_set,
    {
        if self.is_empty() {
            false
        } else {
            self.value_set.clear();
            true
        }
    }

    /// Adds a value to the multi-wildcard set; reports whether it was new.
    pub fn mwc_add(&mut self, value: u64) -> (added: bool)
        ensures
            added == !old(self).m_value_set@.contains(value),
            final(self).m_value_set@ == (if added {
                old(self).m_value_set@.push(value)
            } else {
                old(self).m_value_set@
            }),
            final(self).children == old(self).children,
            final(self).o_node == old(self).o_node,
            final(self).value_set == old(self).value_set,
    {
        if vec_contains_u64(&self.m_value_set, value) {
            false
        } else {
            self.m_value_set.push(value);
            true
        }
    }

    /// Removes one value from the multi-wildcard set; reports whether it was
    /// there.
    pub fn mwc_remove(&mut self, value: &u64) -> (removed: bool)
        ensures
            removed == old(self).m_value_set@.contains(*value),
            !removed ==> final(self).m_value_set@ == old(self).m_value_set@,
            removed ==> final(self).m_value_set@.to_multiset() == old(self).m_value_set@.to_multiset().remove(*value),
            no_dups(old(self).m_value_set@) ==> no_dups(final(self).m_value_set@) && !final(self).m_value_set@.contains(*value),
            final(self).children == old(self).children,
            final(self).o_node == old(self).o_node,
            final(self).value_set == old(self).value_set,
    {
        remove_value(&mut self.m_value_set, value)
    }

    /// The multi-wildcard values of this node.
    pub fn mwc_values(&self) -> (r: Vec<u64>)
        ensures
            r@ == self.m_value_set@,
    {
        copy_values(&self.m_value_set)
    }

    /// The multi-wildcard set holds nothing.
    pub fn is_mwc_empty(&self) -> (r: bool)
        ensures
            r == (self.m_value_set@.len() == 0),
    {
        self.m_value_set.is_empty()
    }

    /// Clears the multi-wildcard set; reports whether it held anything.
    pub fn mwc_remove_all(&mut self) -> (r: bool)
        ensures
            r == (old(self).m_value_set@.len() > 0),
            final(self).m_value_set@ =~= Seq::<u64>::empty(),
            final(self).children == old(self).children,
            final(self).o_node == old(self).o_node,
            final(self).value_set == old(self).value_set,
    {
        if self.is_mwc_empty() {
            false
        } else {
            self.m_value_set.clear();
            true
        }
    }

    /// The single-wildcard child, if one exists.
    pub fn owc_node(&self) -> (r: Option<&Node>)
        ensures
            match r {
                Option::Some(n) => self.o_node matches Option::Some(b) && *n == *b,
                Option::None => self.o_node is None,
            },
    {
        match &self.o_node {
            Option::Some(b) => Option::Some(&**b),
            Option::None => Option::None,
        }
    }

    /// The child registered under a literal text, if one exists.
    pub fn get_child_node(&self, token: &String) -> (r: Option<&Node>)
        ensures
            match r {
                Option::Some(n) => self.child(token@) matches Option::Some(c) && *n == c,
                Option::None => self.child(token@) is None,
            },
    {
        proof {
            lemma_child_index(self.children@, token@);
        }
        let n = self.children.len();
        let mut j: usize = 0;
        while j < n
            invariant
                n == self.children@.len(),
                j <= n,
                forall|k: int| 0 <= k < j ==> (#[trigger] self.children@[k]).0@ != token@,
            decreases n - j,
        {
            if self.children[j].0.eq(token) {
                proof {
                    lemma_child_index_at(self.children@, token@, j as int);
                }
                return Option::Some(&self.children[j].1);
            }
            j += 1;
        }
        Option::None
    }
}

impl Node {
    /// Collects every value the subtree yields for the keys from position
    /// `i` on, by walking the matching literal child and the wildcard child
    /// and taking multi-wildcard values along the way.
    pub fn find_values(&self, keys: &Vec<String>, i: usize) -> (r: Vec<u64>)
        requires
            i <= keys@.len(),
        ensures
            r@.to_multiset() == self.spec_find(keys.deep_view().skip(i as int)),
        decreases keys@.len() - i,
    {
        let ghost ks = keys.deep_view().skip(i as int);
        if i == keys.len() {
            let r = copy_values(&self.value_set);
            proof {
                assert(ks.len() == 0);
            }
            r
        } else {
            proof {
                assert(ks[0] == keys@[i as int]@);
                assert(ks.drop_first() =~= keys.deep_view().skip(i as int + 1));
            }
            let mut r = copy_values(&self.m_value_set);
            let ghost part_m = r@;
            match self.get_child_node(&keys[i]) {
                Option::Some(c) => {
                    let mut sub = c.find_values(keys, i + 1);
                    r.append(&mut sub);
                },
                Option::None => {},
            }
            let ghost part_mc = r@;
            match &self.o_node {
                Option::Some(b) => {
                    let mut sub = b.find_values(keys, i + 1);
                    r.append(&mut sub);
                },
                Option::None => {},
            }
            proof {
                let from_child = match self.child(ks[0]) {
                    Option::Some(c) => c.spec_find(ks.drop_first()),
                    Option::None => Multiset::empty(),
                };
                let from_owc = match &self.o_node {
                    Option::Some(b) => b.spec_find(ks.drop_first()),
                    Option::None => Multiset::empty(),
                };
                assert(part_mc.to_multiset() =~= self.m_value_set@.to_multiset().add(from_child));
                assert(r@.to_multiset() =~= self.m_value_set@.to_multiset().add(from_child).add(
                    from_owc,
                ));
            }
            r
        }
    }

    /// Whether the subtree yields anything at all for the keys from
    /// position `i` on; stops as soon as a non-empty multi-wildcard set is
    /// met.
    pub fn exist_values(&self, keys: &Vec<String>, i: usize) -> (r: bool)
        requires
            i <= keys@.len(),
        ensures
            r == (self.spec_find(keys.deep_view().skip(i as int)).len() > 0),
        decreases keys@.len() - i,
    {
        let ghost ks = keys.deep_view().skip(i as int);
        if i == keys.len() {
            proof {
                assert(ks.len() == 0);
            }
            !self.is_empty()
        } else {
            proof {
                assert(ks[0] == keys@[i as int]@);
                assert(ks.drop_first() =~= keys.deep_view().skip(i as int + 1));
            }
            if !self.is_mwc_empty() {
                return true;
            }
            match self.get_child_node(&keys[i]) {
                Option::Some(c) => {
                    if c.exist_values(keys, i + 1) {
                        return true;
                    }
                },
                Option::None => {},
            }
            match &self.o_node {
                Option::Some(b) => {
                    if b.exist_values(keys, i + 1) {
                        return true;
                    }
                },
                Option::None => {},
            }
            false
        }
    }
}

impl Node {
    /// References to all literal children, in storage order.
    #[allow(dead_code)]
    pub(crate) fn child_nodes(&self) -> (r: Vec<&Node>)
        ensures
            r@.len() == self.children@.len(),
            forall|k: int| 0 <= k < r@.len() ==> *(#[trigger] r@[k]) == self.children@[k].1,
    {
        let n = self.children.len();
        let mut r: Vec<&Node> = Vec::new();
        let mut j: usize = 0;
        while j < n
            invariant
                n == self.children@.len(),
                j <= n,
                r@.len() == j,
                forall|k: int| 0 <= k < j ==> *(#[trigger] r@[k]) == self.children@[k].1,
            decreases n - j,
        {
            r.push(&self.children[j].1);
            j += 1;
        }
        r
    }
}

fn remove_value(v: &mut Vec<u64>, value: &u64) -> (removed: bool)
    ensures
        removed == old(v)@.contains(*value),
        !removed ==> final(v)@ == old(v)@,
        removed ==> final(v)@.to_multiset() == old(v)@.to_multiset().remove(*value),
        no_dups(old(v)@) ==> no_dups(final(v)@) && !final(v)@.contains(*value),
{
    let n = v.len();
    let mut j: usize = 0;
    while j < n
        invariant
            n == v@.len(),
            j <= n,
            v@ == old(v)@,
            forall|k: int| 0 <= k < j ==> v@[k] != *value,
        decreases n - j,
    {
        if v[j] == *value {
            let ghost prev = v@;
            proof {
                assert(prev[j as int] == *value);
                assert(prev.contains(*value));
            }
            v.remove(j);
            proof {
                prev.to_multiset_ensures();
                assert(prev.remove(j as int).to_multiset() =~= prev.to_multiset().remove(
                    prev[j as int],
                ));
                if no_dups(prev) {
                    assert forall|k: int| 0 <= k < final(v)@.len() implies final(v)@[k]
                        != *value by {
                        if k >= j {
                            assert(final(v)@[k] == prev[k + 1]);
                        }
                    }
                    assert(!final(v)@.contains(*value));
                }
            }
            return true;
        }
        j += 1;
    }
    false
}

impl Node {
    /// The position of the child carrying `token`, or the number of
    /// children when none does.
    fn child_position(&self, token: &String) -> (j: usize)
        ensures
            j as int == child_index(self.children@, token@),
    {
        let n = self.children.len();
        let mut j: usize = 0;
        while j < n
            invariant
                n == self.children@.len(),
                j <= n,
                forall|k: int| 0 <= k < j ==> (#[trigger] self.children@[k]).0@ != token@,
            decreases n - j,
        {
            if self.children[j].0.eq(token) {
                proof {
                    lemma_child_index_at(self.children@, token@, j as int);
                }
                return j;
            }
            j += 1;
        }
        proof {
            lemma_child_index(self.children@, token@);
        }
        j
    }

    /// The single-wildcard child, created first if absent.
    pub fn owc_node_mut(&mut self) -> (r: &mut Node)
        ensures
            old(self).o_node matches Option::Some(b) ==> *r == *b,
            old(self).o_node is None ==> (*r).is_empty_node() && (*r).wf(),
            final(self).o_node matches Option::Some(b2) && *b2 == *final(r),
            final(self).children == old(self).children,
            final(self).value_set == old(self).value_set,
            final(self).m_value_set == old(self).m_value_set,
    {
        if self.o_node.is_none() {
            self.o_node = Option::Some(Box::new(Node::new()));
        }
        match &mut self.o_node {
            Option::Some(b) => &mut **b,
            Option::None => vstd::pervasive::unreached(),
        }
    }

    /// The child registered under a literal text, if one exists, for
    /// mutation.
    pub fn get_child_node_mut(&mut self, token: &String) -> (r: Option<&mut Node>)
        ensures
            (r is Some) == (old(self).child(token@) is Some),
            r is None ==> *final(self) == *old(self),
            r matches Option::Some(n) ==> ({
                let cs = old(self).children@;
                let j = child_index(cs, token@);
                &&& *n == cs[j].1
                &&& final(self).o_node == old(self).o_node
                &&& final(self).value_set == old(self).value_set
                &&& final(self).m_value_set == old(self).m_value_set
                &&& final(self).children@ =~= cs.update(j, (cs[j].0, *final(n)))
            }),
    {
        proof {
            lemma_child_index(self.children@, token@);
        }
        let j = self.child_position(token);
        let n = self.children.len();
        if j == n {
            return Option::None;
        }
        let p = &mut self.children[j];
        Option::Some(&mut p.1)
    }

    /// The child registered under a literal text, created first if absent.
    pub fn get_child_node_mut_or_insert(&mut self, token: &String) -> (r: &mut Node)
        ensures
            ({
                let cs = old(self).children@;
                let j = child_index(cs, token@);
                &&& final(self).o_node == old(self).o_node
                &&& final(self).value_set == old(self).value_set
                &&& final(self).m_value_set == old(self).m_value_set
                &&& (if j < cs.len() {
                    *r == cs[j].1 && final(self).children@ =~= cs.update(j, (cs[j].0, *final(r)))
                } else {
                    (*r).is_empty_node() && (*r).wf() && final(self).children@ =~= cs.push(
                        ((*token), *final(r)),
                    )
                })
            }),
    {
        proof {
            lemma_child_index(self.children@, token@);
        }
        let j = self.child_position(token);
        let n = self.children.len();
        if j == n {
            self.children.push((token.clone(), Node::new()));
        }
        let p = &mut self.children[j];
        &mut p.1
    }
}

impl Node {
    /// Inserts a value under the pattern's tokens from position `i` on,
    /// creating nodes along the way; reports whether the value was new.
    /// The contract pins the effect down pointwise: afterwards every find
    /// sees exactly one more occurrence of the value, for exactly the key
    /// sequences the inserted pattern covers, and nothing else changes.
    pub fn insert_at(&mut self, tokens: &Tokens, i: usize, value: u64) -> (added: bool)
        requires
            old(self).wf(),
            i <= tokens@.len(),
            valid_pattern(tokens@.skip(i as int)),
        ensures
            final(self).wf(),
            added == !old(self).spec_pattern_values(tokens@.skip(i as int)).contains(value),
            final(self).spec_pattern_values(tokens@.skip(i as int)) == (if added {
                old(self).spec_pattern_values(tokens@.skip(i as int)).push(value)
            } else {
                old(self).spec_pattern_values(tokens@.skip(i as int))
            }),
            forall|ks: Seq<Seq<char>>| #[trigger] final(self).spec_find(ks) == old(self).spec_find(
                ks,
            ).add(
                (if added && pattern_covers(tokens@.skip(i as int), ks) {
                    Multiset::singleton(value)
                } else {
                    Multiset::empty()
                }),
            ),
        decreases tokens@.len() - i,
    {
        let ghost sfx = tokens@.skip(i as int);
        proof {
            assert(tokens@.len() == tokens.0@.len());
        }
        if i == tokens.0.len() {
            let added = self.add(value);
            proof {
                assert(sfx.len() == 0);
                if added {
                    assert(no_dups(self.value_set@)) by {
                        assert(forall|k: int|
                            0 <= k < old(self).value_set@.len() ==> self.value_set@[k] == old(
                                self,
                            ).value_set@[k]);
                    }
                }
                assert forall|ks: Seq<Seq<char>>| #[trigger] self.spec_find(ks) == old(
                    self,
                ).spec_find(ks).add(
                    (if added && pattern_covers(sfx, ks) {
                        Multiset::singleton(value)
                    } else {
                        Multiset::empty()
                    }),
                ) by {
                    if ks.len() == 0 {
                        if added {
                            assert(self.value_set@ == old(self).value_set@.push(value));
                            assert(self.value_set@.to_multiset() =~= old(
                                self,
                            ).value_set@.to_multiset().insert(value));
                        } else {
                            assert(old(self).spec_find(ks).add(Multiset::<u64>::empty()) =~= old(
                                self,
                            ).spec_find(ks));
                        }
                    } else {
                        assert(!pattern_covers(sfx, ks));
                        assert(self.children@ == old(self).children@);
                        assert(self.spec_find(ks) == old(self).spec_find(ks));
                        assert(old(self).spec_find(ks).add(Multiset::<u64>::empty()) =~= old(
                            self,
                        ).spec_find(ks));
                    }
                }
            }
            added
        } else {
            proof {
                assert(sfx[0] == tokens@[i as int]);
                assert(sfx.drop_first() =~= tokens@.skip(i as int + 1));
            }
            match &tokens.0[i] {
                Token::MultiWildcard => {
                    proof {
                        assert(tokens@[i as int] is Multi);
                        assert(sfx.len() == 1) by {
                            if sfx.len() > 1 {
                                assert(!(sfx[0] is Multi));
                            }
                        }
                    }
                    let added = self.mwc_add(value);
                    proof {
                        if added {
                            assert(no_dups(self.m_value_set@)) by {
                                assert(forall|k: int|
                                    0 <= k < old(self).m_value_set@.len() ==> self.m_value_set@[k]
                                        == old(self).m_value_set@[k]);
                            }
                        }
                        assert(self.spec_node_at(sfx) == Option::Some(*self));
                        assert(sfx.last() is Multi);
                        assert forall|ks: Seq<Seq<char>>| #[trigger] self.spec_find(ks) == old(
                            self,
                        ).spec_find(ks).add(
                            (if added && pattern_covers(sfx, ks) {
                                Multiset::singleton(value)
                            } else {
                                Multiset::empty()
                            }),
                        ) by {
                            assert(self.children@ == old(self).children@);
                            if ks.len() == 0 {
                                assert(!pattern_covers(sfx, ks));
                                assert(self.spec_find(ks) == old(self).spec_find(ks));
                                assert(old(self).spec_find(ks).add(Multiset::<u64>::empty())
                                    =~= old(self).spec_find(ks));
                            } else {
                                assert(pattern_covers(sfx, ks));
                                if added {
                                    assert(self.m_value_set@ == old(self).m_value_set@.push(value));
                                    assert(self.m_value_set@.to_multiset() =~= old(
                                        self,
                                    ).m_value_set@.to_multiset().insert(value));
                                    assert(self.spec_find(ks) =~= old(self).spec_find(ks).add(
                                        Multiset::singleton(value),
                                    ));
                                } else {
                                    assert(self.spec_find(ks) == old(self).spec_find(ks));
                                    assert(old(self).spec_find(ks).add(Multiset::<u64>::empty())
                                        =~= old(self).spec_find(ks));
                                }
                            }
                        }
                    }
                    added
                },
                Token::OneWildcard => {
                    let ghost sfx2 = tokens@.skip(i as int + 1);
                    proof {
                        assert(tokens@[i as int] is One);
                        assert(valid_pattern(sfx2)) by {
                            assert(forall|k: int| 0 <= k < sfx2.len() ==> sfx2[k] == sfx[k + 1]);
                        }
                        lemma_pattern_values_step(*old(self), sfx);
                    }
                    let r = self.owc_node_mut();
                    let ghost r0 = *r;
                    let added = r.insert_at(tokens, i + 1, value);
                    let ghost r1 = *r;
                    proof {
                        let prior = *old(self);
                        if prior.o_node is None {
                            lemma_empty_node_values(r0, sfx2);
                        }
                        assert(added == !prior.spec_pattern_values(sfx).contains(value));
                        assert(self.o_node matches Option::Some(b2) && *b2 == r1);
                        lemma_pattern_values_step(*self, sfx);
                        assert(self.spec_pattern_values(sfx) == r1.spec_pattern_values(sfx2));
                        assert forall|ks: Seq<Seq<char>>| #[trigger] self.spec_find(ks)
                            == prior.spec_find(ks).add(
                            (if added && pattern_covers(sfx, ks) {
                                Multiset::singleton(value)
                            } else {
                                Multiset::empty()
                            }),
                        ) by {
                            if ks.len() == 0 {
                                assert(!pattern_covers(sfx, ks));
                                assert(self.spec_find(ks) == prior.spec_find(ks));
                                assert(prior.spec_find(ks).add(Multiset::<u64>::empty())
                                    =~= prior.spec_find(ks));
                            } else {
                                let ks2 = ks.drop_first();
                                lemma_covers_shift(sfx, ks);
                                let delta2 = (if added && pattern_covers(sfx2, ks2) {
                                    Multiset::singleton(value)
                                } else {
                                    Multiset::<u64>::empty()
                                });
                                assert(r1.spec_find(ks2) == r0.spec_find(ks2).add(delta2));
                                if prior.o_node is None {
                                    lemma_empty_node_find(r0, ks2);
                                }
                                assert(self.child(ks[0]) == prior.child(ks[0]));
                                assert(self.spec_find(ks) =~= prior.spec_find(ks).add(delta2));
                            }
                        }
                    }
                    added
                },
                Token::Normal(s) => {
                    let ghost sfx2 = tokens@.skip(i as int + 1);
                    let ghost name = s@;
                    proof {
                        assert(tokens@[i as int] == Tok::Lit(name));
                        assert(valid_pattern(sfx2)) by {
                            assert(forall|k: int| 0 <= k < sfx2.len() ==> sfx2[k] == sfx[k + 1]);
                        }
                        lemma_pattern_values_step(*old(self), sfx);
                        lemma_child_index(old(self).children@, name);
                    }
                    let r = self.get_child_node_mut_or_insert(s);
                    let ghost r0 = *r;
                    let added = r.insert_at(tokens, i + 1, value);
                    let ghost r1 = *r;
                    proof {
                        let prior = *old(self);
                        let cs = prior.children@;
                        let j = child_index(cs, name);
                        let cs2 = self.children@;
                        if j < cs.len() {
                            assert(cs2 == cs.update(j, (cs[j].0, r1)));
                            assert(forall|k: int|
                                0 <= k < cs2.len() ==> (#[trigger] cs2[k]).0@ == cs[k].0@);
                            assert(prior.child(name) == Option::Some(r0));
                        } else {
                            assert(cs2 == cs.push((cs2[cs.len() as int].0, r1)));
                            assert(cs2[cs.len() as int].0@ == name);
                            assert(prior.child(name) is None);
                            lemma_empty_node_values(r0, sfx2);
                        }
                        assert(added == !prior.spec_pattern_values(sfx).contains(value));
                        // the child under `name` is now r1, every other lookup unchanged
                        assert forall|q: Seq<char>| true implies #[trigger] self.child(q) == (if q
                            == name {
                            Option::Some(r1)
                        } else {
                            prior.child(q)
                        }) by {
                            if j < cs.len() {
                                lemma_child_index_same_names(cs, cs2, q);
                                if q == name {
                                    assert(self.child(q) == Option::Some(cs2[j].1));
                                } else {
                                    let jq = child_index(cs, q);
                                    lemma_child_index(cs, q);
                                    if jq < cs.len() {
                                        assert(cs[jq].0@ == q && cs[j].0@ == name);
                                        assert(jq != j);
                                        assert(cs2[jq] == cs[jq]);
                                    }
                                }
                            } else {
                                lemma_child_index(cs, q);
                                let jq = child_index(cs, q);
                                if q == name {
                                    lemma_child_index_at(cs2, name, cs.len() as int);
                                } else {
                                    if jq < cs.len() {
                                        assert(cs2[jq] == cs[jq]);
                                        assert forall|k: int| 0 <= k < jq implies (#[trigger] cs2[k]).0@
                                            != q by {
                                            assert(cs2[k] == cs[k]);
                                        }
                                        lemma_child_index_at(cs2, q, jq);
                                    } else {
                                        lemma_child_index(cs2, q);
                                        assert forall|k: int| 0 <= k < cs2.len() implies (
                                        #[trigger] cs2[k]).0@ != q by {
                                            if k < cs.len() {
                                                assert(cs2[k] == cs[k]);
                                            }
                                        }
                                        assert(self.child(q) is None);
                                    }
                                }
                            }
                        }
                        // well-formedness of the rebuilt children list
                        assert(self.wf()) by {
                            assert forall|a: int, b: int|
                                0 <= a < b < cs2.len() implies (#[trigger] cs2[a]).0@ != (
                            #[trigger] cs2[b]).0@ by {
                                if j < cs.len() {
                                    assert(cs2[a].0@ == cs[a].0@ && cs2[b].0@ == cs[b].0@);
                                } else {
                                    if b < cs.len() {
                                        assert(cs2[a] == cs[a] && cs2[b] == cs[b]);
                                    } else {
                                        assert(cs2[a] == cs[a]);
                                        assert(cs[a].0@ != name);
                                    }
                                }
                            }
                            assert forall|k: int| 0 <= k < cs2.len() implies (
                            #[trigger] cs2[k]).1.wf() by {
                                if j < cs.len() {
                                    if k == j {
                                        assert(cs2[k].1 == r1);
                                    } else {
                                        assert(cs2[k] == cs[k]);
                                    }
                                } else {
                                    if k < cs.len() {
                                        assert(cs2[k] == cs[k]);
                                    } else {
                                        assert(cs2[k].1 == r1);
                                    }
                                }
                            }
                        }
                        lemma_pattern_values_step(*self, sfx);
                        assert(self.spec_pattern_values(sfx) == r1.spec_pattern_values(sfx2));
                        assert forall|ks: Seq<Seq<char>>| #[trigger] self.spec_find(ks)
                            == prior.spec_find(ks).add(
                            (if added && pattern_covers(sfx, ks) {
                                Multiset::singleton(value)
                            } else {
                                Multiset::empty()
                            }),
                        ) by {
                            if ks.len() == 0 {
                                assert(!pattern_covers(sfx, ks));
                                assert(self.spec_find(ks) == prior.spec_find(ks));
                                assert(prior.spec_find(ks).add(Multiset::<u64>::empty())
                                    =~= prior.spec_find(ks));
                            } else {
                                let ks2 = ks.drop_first();
                                lemma_covers_shift(sfx, ks);
                                let delta2 = (if added && pattern_covers(sfx2, ks2) {
                                    Multiset::singleton(value)
                                } else {
                                    Multiset::<u64>::empty()
                                });
                                assert(r1.spec_find(ks2) == r0.spec_find(ks2).add(delta2));
                                if ks[0] == name {
                                    assert(self.child(ks[0]) == Option::Some(r1));
                                    if j == cs.len() {
                                        lemma_empty_node_find(r0, ks2);
                                    }
                                    assert(self.spec_find(ks) =~= prior.spec_find(ks).add(delta2));
                                } else {
                                    assert(self.child(ks[0]) == prior.child(ks[0]));
                                    assert(!tok_matches_key(sfx[0], ks[0]));
                                    assert(!pattern_covers(sfx, ks));
                                    assert(self.spec_find(ks) == prior.spec_find(ks));
                                    assert(prior.spec_find(ks).add(Multiset::<u64>::empty())
                                        =~= prior.spec_find(ks));
                                }
                            }
                        }
                    }
                    added
                },
            }
        }
    }
}

impl Node {
    /// Removes one value from the set the pattern's tokens from position
    /// `i` on address, walking the exact path without wildcard expansion;
    /// reports whether the value was there. Afterwards every find sees one
    /// occurrence less, for exactly the key sequences the pattern covers.
    pub fn remove_at(&mut self, tokens: &Tokens, i: usize, value: &u64) -> (removed: bool)
        requires
            old(self).wf(),
            i <= tokens@.len(),
            valid_pattern(tokens@.skip(i as int)),
        ensures
            final(self).wf(),
            removed == old(self).spec_pattern_values(tokens@.skip(i as int)).contains(*value),
            !final(self).spec_pattern_values(tokens@.skip(i as int)).contains(*value),
            !removed ==> final(self).spec_pattern_values(tokens@.skip(i as int)) == old(
                self,
            ).spec_pattern_values(tokens@.skip(i as int)),
            removed ==> final(self).spec_pattern_values(tokens@.skip(i as int)).to_multiset()
                == old(self).spec_pattern_values(tokens@.skip(i as int)).to_multiset().remove(
                *value,
            ),
            forall|ks: Seq<Seq<char>>| #[trigger] final(self).spec_find(ks) == (if removed
                && pattern_covers(tokens@.skip(i as int), ks) {
                old(self).spec_find(ks).remove(*value)
            } else {
                old(self).spec_find(ks)
            }),
        decreases tokens@.len() - i,
    {
        let ghost sfx = tokens@.skip(i as int);
        proof {
            assert(tokens@.len() == tokens.0@.len());
        }
        if i == tokens.0.len() {
            let removed = self.remove(value);
            proof {
                assert(sfx.len() == 0);
                assert forall|ks: Seq<Seq<char>>| #[trigger] self.spec_find(ks) == (if removed
                    && pattern_covers(sfx, ks) {
                    old(self).spec_find(ks).remove(*value)
                } else {
                    old(self).spec_find(ks)
                }) by {
                    if ks.len() > 0 {
                        assert(!pattern_covers(sfx, ks));
                        assert(self.children@ == old(self).children@);
                        assert(self.spec_find(ks) == old(self).spec_find(ks));
                    }
                }
            }
            removed
        } else {
            proof {
                assert(sfx[0] == tokens@[i as int]);
                assert(sfx.drop_first() =~= tokens@.skip(i as int + 1));
            }
            match &tokens.0[i] {
                Token::MultiWildcard => {
                    proof {
                        assert(tokens@[i as int] is Multi);
                        assert(sfx.len() == 1) by {
                            if sfx.len() > 1 {
                                assert(!(sfx[0] is Multi));
                            }
                        }
                    }
                    let removed = self.mwc_remove(value);
                    proof {
                        assert(self.spec_node_at(sfx) == Option::Some(*self));
                        assert(sfx.last() is Multi);
                        assert forall|ks: Seq<Seq<char>>| #[trigger] self.spec_find(ks) == (if
                            removed && pattern_covers(sfx, ks) {
                            old(self).spec_find(ks).remove(*value)
                        } else {
                            old(self).spec_find(ks)
                        }) by {
                            assert(self.children@ == old(self).children@);
                            if ks.len() == 0 {
                                assert(!pattern_covers(sfx, ks));
                                assert(self.spec_find(ks) == old(self).spec_find(ks));
                            } else {
                                assert(pattern_covers(sfx, ks));
                                if removed {
                                    assert(old(self).m_value_set@.to_multiset().count(*value)
                                        >= 1);
                                    assert(self.spec_find(ks) =~= old(self).spec_find(ks).remove(
                                        *value,
                                    ));
                                } else {
                                    assert(self.spec_find(ks) == old(self).spec_find(ks));
                                }
                            }
                        }
                    }
                    removed
                },
                Token::OneWildcard => {
                    let ghost sfx2 = tokens@.skip(i as int + 1);
                    proof {
                        assert(tokens@[i as int] is One);
                        assert(valid_pattern(sfx2)) by {
                            assert(forall|k: int| 0 <= k < sfx2.len() ==> sfx2[k] == sfx[k + 1]);
                        }
                        lemma_pattern_values_step(*old(self), sfx);
                    }
                    if self.o_node.is_none() {
                        return false;
                    }
                    let r = self.owc_node_mut();
                    let ghost r0 = *r;
                    let removed = r.remove_at(tokens, i + 1, value);
                    let ghost r1 = *r;
                    proof {
                        let prior = *old(self);
                        assert(prior.spec_pattern_values(sfx) == r0.spec_pattern_values(sfx2));
                        assert(self.o_node matches Option::Some(b2) && *b2 == r1);
                        lemma_pattern_values_step(*self, sfx);
                        assert(self.spec_pattern_values(sfx) == r1.spec_pattern_values(sfx2));
                        assert forall|ks: Seq<Seq<char>>| #[trigger] self.spec_find(ks) == (if
                            removed && pattern_covers(sfx, ks) {
                            prior.spec_find(ks).remove(*value)
                        } else {
                            prior.spec_find(ks)
                        }) by {
                            if ks.len() == 0 {
                                assert(!pattern_covers(sfx, ks));
                                assert(self.spec_find(ks) == prior.spec_find(ks));
                            } else {
                                let ks2 = ks.drop_first();
                                lemma_covers_shift(sfx, ks);
                                assert(r1.spec_find(ks2) == (if removed && pattern_covers(
                                    sfx2,
                                    ks2,
                                ) {
                                    r0.spec_find(ks2).remove(*value)
                                } else {
                                    r0.spec_find(ks2)
                                }));
                                assert(self.child(ks[0]) == prior.child(ks[0]));
                                if removed && pattern_covers(sfx, ks) {
                                    lemma_pattern_values_in_find(r0, sfx2, ks2);
                                    assert(r0.spec_find(ks2).count(*value) >= 1);
                                    assert(self.spec_find(ks) =~= prior.spec_find(ks).remove(
                                        *value,
                                    ));
                                } else {
                                    assert(self.spec_find(ks) == prior.spec_find(ks));
                                }
                            }
                        }
                    }
                    removed
                },
                Token::Normal(s) => {
                    let ghost sfx2 = tokens@.skip(i as int + 1);
                    let ghost name = s@;
                    proof {
                        assert(tokens@[i as int] == Tok::Lit(name));
                        assert(valid_pattern(sfx2)) by {
                            assert(forall|k: int| 0 <= k < sfx2.len() ==> sfx2[k] == sfx[k + 1]);
                        }
                        lemma_pattern_values_step(*old(self), sfx);
                        lemma_child_index(old(self).children@, name);
                    }
                    let j = self.child_position(s);
                    let n = self.children.len();
                    if j == n {
                        proof {
                            assert(old(self).child(name) is None);
                        }
                        return false;
                    }
                    let r = self.get_child_node_mut_or_insert(s);
                    let ghost r0 = *r;
                    let removed = r.remove_at(tokens, i + 1, value);
                    let ghost r1 = *r;
                    proof {
                        let prior = *old(self);
                        let cs = prior.children@;
                        let cs2 = self.children@;
                        assert(cs2 == cs.update(j as int, (cs[j as int].0, r1)));
                        assert(prior.child(name) == Option::Some(r0));
                        assert(prior.spec_pattern_values(sfx) == r0.spec_pattern_values(sfx2));
                        assert forall|q: Seq<char>| true implies #[trigger] self.child(q) == (if q
                            == name {
                            Option::Some(r1)
                        } else {
                            prior.child(q)
                        }) by {
                            lemma_update_same_names(cs, j as int, r1, q);
                            if q != name {
                                let jq = child_index(cs, q);
                                lemma_child_index(cs, q);
                                if jq < cs.len() {
                                    assert(cs[jq].0@ == q && cs[j as int].0@ == name);
                                    assert(jq != j as int);
                                    assert(cs2[jq] == cs[jq]);
                                }
                            }
                        }
                        assert(self.wf()) by {
                            assert forall|a: int, b: int|
                                0 <= a < b < cs2.len() implies (#[trigger] cs2[a]).0@ != (
                            #[trigger] cs2[b]).0@ by {
                                assert(cs2[a].0@ == cs[a].0@ && cs2[b].0@ == cs[b].0@);
                            }
                            assert forall|k: int| 0 <= k < cs2.len() implies (
                            #[trigger] cs2[k]).1.wf() by {
                                if k == j as int {
                                    assert(cs2[k].1 == r1);
                                } else {
                                    assert(cs2[k] == cs[k]);
                                }
                            }
                        }
                        lemma_pattern_values_step(*self, sfx);
                        assert(self.spec_pattern_values(sfx) == r1.spec_pattern_values(sfx2));
                        assert forall|ks: Seq<Seq<char>>| #[trigger] self.spec_find(ks) == (if
                            removed && pattern_covers(sfx, ks) {
                            prior.spec_find(ks).remove(*value)
                        } else {
                            prior.spec_find(ks)
                        }) by {
                            if ks.len() == 0 {
                                assert(!pattern_covers(sfx, ks));
                                assert(self.spec_find(ks) == prior.spec_find(ks));
                            } else {
                                let ks2 = ks.drop_first();
                                lemma_covers_shift(sfx, ks);
                                assert(r1.spec_find(ks2) == (if removed && pattern_covers(
                                    sfx2,
                                    ks2,
                                ) {
                                    r0.spec_find(ks2).remove(*value)
                                } else {
                                    r0.spec_find(ks2)
                                }));
                                if ks[0] == name {
                                    assert(self.child(ks[0]) == Option::Some(r1));
                                    if removed && pattern_covers(sfx, ks) {
                                        lemma_pattern_values_in_find(r0, sfx2, ks2);
                                        assert(r0.spec_find(ks2).count(*value) >= 1);
                                        assert(self.spec_find(ks) =~= prior.spec_find(ks).remove(
                                            *value,
                                        ));
                                    } else {
                                        assert(self.spec_find(ks) == prior.spec_find(ks));
                                    }
                                } else {
                                    assert(self.child(ks[0]) == prior.child(ks[0]));
                                    assert(!tok_matches_key(sfx[0], ks[0]));
                                    assert(!pattern_covers(sfx, ks));
                                    assert(self.spec_find(ks) == prior.spec_find(ks));
                                }
                            }
                        }
                    }
                    removed
                },
            }
        }
    }
}

impl Node {
    /// Clears the whole set the pattern's tokens from position `i` on
    /// address, walking the exact path without wildcard expansion; reports
    /// whether that set held anything. Afterwards every find loses exactly
    /// the cleared values, for exactly the key sequences the pattern
    /// covers.
    pub fn remove_all_at(&mut self, tokens: &Tokens, i: usize) -> (r: bool)
        requires
            old(self).wf(),
            i <= tokens@.len(),
            valid_pattern(tokens@.skip(i as int)),
        ensures
            final(self).wf(),
            r == (old(self).spec_pattern_values(tokens@.skip(i as int)).len() > 0),
            final(self).spec_pattern_values(tokens@.skip(i as int)) =~= Seq::<u64>::empty(),
            forall|ks: Seq<Seq<char>>| #[trigger] final(self).spec_find(ks) == (if pattern_covers(
                tokens@.skip(i as int),
                ks,
            ) {
                old(self).spec_find(ks).sub(
                    old(self).spec_pattern_values(tokens@.skip(i as int)).to_multiset(),
                )
            } else {
                old(self).spec_find(ks)
            }),
        decreases tokens@.len() - i,
    {
        let ghost sfx = tokens@.skip(i as int);
        proof {
            assert(tokens@.len() == tokens.0@.len());
        }
        if i == tokens.0.len() {
            let r = self.remove_all();
            proof {
                assert(sfx.len() == 0);
                let s0 = old(self).spec_pattern_values(sfx).to_multiset();
                assert forall|ks: Seq<Seq<char>>| #[trigger] self.spec_find(ks) == (if
                    pattern_covers(sfx, ks) {
                    old(self).spec_find(ks).sub(s0)
                } else {
                    old(self).spec_find(ks)
                }) by {
                    if ks.len() == 0 {
                        assert(self.spec_find(ks) =~= old(self).spec_find(ks).sub(s0));
                    } else {
                        assert(!pattern_covers(sfx, ks));
                        assert(self.children@ == old(self).children@);
                        assert(self.spec_find(ks) == old(self).spec_find(ks));
                    }
                }
            }
            r
        } else {
            proof {
                assert(sfx[0] == tokens@[i as int]);
                assert(sfx.drop_first() =~= tokens@.skip(i as int + 1));
            }
            match &tokens.0[i] {
                Token::MultiWildcard => {
                    proof {
                        assert(tokens@[i as int] is Multi);
                        assert(sfx.len() == 1) by {
                            if sfx.len() > 1 {
                                assert(!(sfx[0] is Multi));
                            }
                        }
                    }
                    let r = self.mwc_remove_all();
                    proof {
                        assert(self.spec_node_at(sfx) == Option::Some(*self));
                        assert(sfx.last() is Multi);
                        let s0 = old(self).spec_pattern_values(sfx).to_multiset();
                        assert forall|ks: Seq<Seq<char>>| #[trigger] self.spec_find(ks) == (if
                            pattern_covers(sfx, ks) {
                            old(self).spec_find(ks).sub(s0)
                        } else {
                            old(self).spec_find(ks)
                        }) by {
                            assert(self.children@ == old(self).children@);
                            if ks.len() == 0 {
                                assert(!pattern_covers(sfx, ks));
                                assert(self.spec_find(ks) == old(self).spec_find(ks));
                            } else {
                                assert(pattern_covers(sfx, ks));
                                assert(self.m_value_set@.to_multiset().len() == 0);
                                assert(self.spec_find(ks) =~= old(self).spec_find(ks).sub(s0));
                            }
                        }
                    }
                    r
                },
                Token::OneWildcard => {
                    let ghost sfx2 = tokens@.skip(i as int + 1);
                    proof {
                        assert(tokens@[i as int] is One);
                        assert(valid_pattern(sfx2)) by {
                            assert(forall|k: int| 0 <= k < sfx2.len() ==> sfx2[k] == sfx[k + 1]);
                        }
                        lemma_pattern_values_step(*old(self), sfx);
                    }
                    if self.o_node.is_none() {
                        proof {
                            let s0 = self.spec_pattern_values(sfx).to_multiset();
                            assert(s0.len() == 0);
                            assert forall|ks: Seq<Seq<char>>| #[trigger] self.spec_find(ks) == (if
                                pattern_covers(sfx, ks) {
                                self.spec_find(ks).sub(s0)
                            } else {
                                self.spec_find(ks)
                            }) by {
                                assert(self.spec_find(ks).sub(s0) =~= self.spec_find(ks));
                            }
                        }
                        return false;
                    }
                    let r = self.owc_node_mut();
                    let ghost r0 = *r;
                    let rr = r.remove_all_at(tokens, i + 1);
                    let ghost r1 = *r;
                    proof {
                        let prior = *old(self);
                        let s0 = prior.spec_pattern_values(sfx).to_multiset();
                        assert(prior.spec_pattern_values(sfx) == r0.spec_pattern_values(sfx2));
                        assert(self.o_node matches Option::Some(b2) && *b2 == r1);
                        lemma_pattern_values_step(*self, sfx);
                        assert(self.spec_pattern_values(sfx) == r1.spec_pattern_values(sfx2));
                        assert forall|ks: Seq<Seq<char>>| #[trigger] self.spec_find(ks) == (if
                            pattern_covers(sfx, ks) {
                            prior.spec_find(ks).sub(s0)
                        } else {
                            prior.spec_find(ks)
                        }) by {
                            if ks.len() == 0 {
                                assert(!pattern_covers(sfx, ks));
                                assert(self.spec_find(ks) == prior.spec_find(ks));
                            } else {
                                let ks2 = ks.drop_first();
                                lemma_covers_shift(sfx, ks);
                                assert(r1.spec_find(ks2) == (if pattern_covers(sfx2, ks2) {
                                    r0.spec_find(ks2).sub(
                                        r0.spec_pattern_values(sfx2).to_multiset(),
                                    )
                                } else {
                                    r0.spec_find(ks2)
                                }));
                                assert(self.child(ks[0]) == prior.child(ks[0]));
                                if pattern_covers(sfx, ks) {
                                    lemma_pattern_values_in_find(r0, sfx2, ks2);
                                    assert(self.spec_find(ks) =~= prior.spec_find(ks).sub(s0));
                                } else {
                                    assert(self.spec_find(ks) == prior.spec_find(ks));
                                }
                            }
                        }
                    }
                    rr
                },
                Token::Normal(s) => {
                    let ghost sfx2 = tokens@.skip(i as int + 1);
                    let ghost name = s@;
                    proof {
                        assert(tokens@[i as int] == Tok::Lit(name));
                        assert(valid_pattern(sfx2)) by {
                            assert(forall|k: int| 0 <= k < sfx2.len() ==> sfx2[k] == sfx[k + 1]);
                        }
                        lemma_pattern_values_step(*old(self), sfx);
                        lemma_child_index(old(self).children@, name);
                    }
                    let j = self.child_position(s);
                    let n = self.children.len();
                    if j == n {
                        proof {
                            assert(old(self).child(name) is None);
                            let s0 = self.spec_pattern_values(sfx).to_multiset();
                            assert(s0.len() == 0);
                            assert forall|ks: Seq<Seq<char>>| #[trigger] self.spec_find(ks) == (if
                                pattern_covers(sfx, ks) {
                                self.spec_find(ks).sub(s0)
                            } else {
                                self.spec_find(ks)
                            }) by {
                                assert(self.spec_find(ks).sub(s0) =~= self.spec_find(ks));
                            }
                        }
                        return false;
                    }
                    let r = self.get_child_node_mut_or_insert(s);
                    let ghost r0 = *r;
                    let rr = r.remove_all_at(tokens, i + 1);
                    let ghost r1 = *r;
                    proof {
                        let prior = *old(self);
                        let cs = prior.children@;
                        let cs2 = self.children@;
                        let s0 = prior.spec_pattern_values(sfx).to_multiset();
                        assert(cs2 == cs.update(j as int, (cs[j as int].0, r1)));
                        assert(prior.child(name) == Option::Some(r0));
                        assert(prior.spec_pattern_values(sfx) == r0.spec_pattern_values(sfx2));
                        assert forall|q: Seq<char>| true implies #[trigger] self.child(q) == (if q
                            == name {
                            Option::Some(r1)
                        } else {
                            prior.child(q)
                        }) by {
                            lemma_update_same_names(cs, j as int, r1, q);
                            if q != name {
                                let jq = child_index(cs, q);
                                lemma_child_index(cs, q);
                                if jq < cs.len() {
                                    assert(cs[jq].0@ == q && cs[j as int].0@ == name);
                                    assert(jq != j as int);
                                    assert(cs2[jq] == cs[jq]);
                                }
                            }
                        }
                        assert(self.wf()) by {
                            assert forall|a: int, b: int|
                                0 <= a < b < cs2.len() implies (#[trigger] cs2[a]).0@ != (
                            #[trigger] cs2[b]).0@ by {
                                assert(cs2[a].0@ == cs[a].0@ && cs2[b].0@ == cs[b].0@);
                            }
                            assert forall|k: int| 0 <= k < cs2.len() implies (
                            #[trigger] cs2[k]).1.wf() by {
                                if k == j as int {
                                    assert(cs2[k].1 == r1);
                                } else {
                                    assert(cs2[k] == cs[k]);
                                }
                            }
                        }
                        lemma_pattern_values_step(*self, sfx);
                        assert(self.spec_pattern_values(sfx) == r1.spec_pattern_values(sfx2));
                        assert forall|ks: Seq<Seq<char>>| #[trigger] self.spec_find(ks) == (if
                            pattern_covers(sfx, ks) {
                            prior.spec_find(ks).sub(s0)
                        } else {
                            prior.spec_find(ks)
                        }) by {
                            if ks.len() == 0 {
                                assert(!pattern_covers(sfx, ks));
                                assert(self.spec_find(ks) == prior.spec_find(ks));
                            } else {
                                let ks2 = ks.drop_first();
                                lemma_covers_shift(sfx, ks);
                                assert(r1.spec_find(ks2) == (if pattern_covers(sfx2, ks2) {
                                    r0.spec_find(ks2).sub(
                                        r0.spec_pattern_values(sfx2).to_multiset(),
                                    )
                                } else {
                                    r0.spec_find(ks2)
                                }));
                                if ks[0] == name {
                                    assert(self.child(ks[0]) == Option::Some(r1));
                                    if pattern_covers(sfx, ks) {
                                        lemma_pattern_values_in_find(r0, sfx2, ks2);
                                        assert(self.spec_find(ks) =~= prior.spec_find(ks).sub(s0));
                                    } else {
                                        assert(self.spec_find(ks) == prior.spec_find(ks));
                                    }
                                } else {
                                    assert(self.child(ks[0]) == prior.child(ks[0]));
                                    assert(!tok_matches_key(sfx[0], ks[0]));
                                    assert(!pattern_covers(sfx, ks));
                                    assert(self.spec_find(ks) == prior.spec_find(ks));
                                }
                            }
                        }
                    }
                    rr
                },
            }
        }
    }
}

} // verus!
