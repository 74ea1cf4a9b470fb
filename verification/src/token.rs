//! Tokens of a subject pattern, and the parser that turns raw text into them.
//!
//! A subject such as `a.b.c` is split on a separator character into segments;
//! each segment becomes a literal token, a single-level wildcard, or a
//! multi-level wildcard. All trie operations work on typed tokens, never on
//! raw text, so a literal segment that happens to look like a wildcard marker
//! is classified once, at parse time, and never re-interpreted.

use vstd::prelude::*;

verus! {

/// Token is the smallest unit of an inserted subject.
#[derive(Debug, PartialEq, Eq, Hash)]
pub enum Token {
    /// a plain segment, matched by exact text
    Normal(String),
    /// wildcard which always matches a single token
    OneWildcard,
    /// wildcard which matches one or more tokens;
    /// it may only appear at the end of a subject
    MultiWildcard,
}

/// The mathematical shape of a token: literal text as a character sequence,
/// or one of the two wildcards.
pub enum Tok {
    Lit(Seq<char>),
    One,
    Multi,
}

impl View for Token {
    type V = Tok;

    open spec fn view(&self) -> Tok {
        match self {
            Token::Normal(s) => Tok::Lit(s@),
            Token::OneWildcard => Tok::One,
            Token::MultiWildcard => Tok::Multi,
        }
    }
}

/// A wrapper for a vector of tokens.
#[derive(Debug, Default, PartialEq, Hash)]
pub struct Tokens(pub Vec<Token>);

impl DeepView for Token {
    type V = Tok;

    open spec fn deep_view(&self) -> Tok {
        self@
    }
}

impl View for Tokens {
    type V = Seq<Tok>;

    open spec fn view(&self) -> Seq<Tok> {
        self.0.deep_view()
    }
}

impl From<Vec<Token>> for Tokens {
    fn from(v: Vec<Token>) -> (r: Tokens) {
        Tokens(v)
    }
}

impl vstd::std_specs::convert::FromSpecImpl<Vec<Token>> for Tokens {
    open spec fn obeys_from_spec() -> bool {
        true
    }

    open spec fn from_spec(v: Vec<Token>) -> Tokens {
        Tokens(v)
    }
}

/// Does one token accept one concrete key segment?
/// Both wildcards accept anything; a literal only its own text.
pub open spec fn tok_matches_key(t: Tok, k: Seq<char>) -> bool {
    match t {
        Tok::Lit(s) => s == k,
        Tok::One => true,
        Tok::Multi => true,
    }
}

/// A pattern is well formed when a multi-level wildcard can only stand
/// as its final token.
pub open spec fn valid_pattern(pat: Seq<Tok>) -> bool {
    forall|i: int| 0 <= i < pat.len() - 1 ==> !(#[trigger] pat[i] is Multi)
}

/// The pattern holds no wildcard at all: every token is a literal.
pub open spec fn spec_no_wildcard(pat: Seq<Tok>) -> bool {
    forall|i: int| 0 <= i < pat.len() ==> #[trigger] pat[i] is Lit
}

/// The conservative consistency predicate used for cache invalidation:
/// true whenever a result computed for `keys` could involve this pattern.
/// A pattern longer than the keys never matches; a shorter one only when it
/// ends in a multi-level wildcard; token positions are compared pairwise.
pub open spec fn spec_match_keys(pat: Seq<Tok>, keys: Seq<Seq<char>>) -> bool {
    &&& pat.len() <= keys.len()
    &&& (pat.len() < keys.len() ==> pat.len() > 0 && pat.last() is Multi)
    &&& (forall|i: int| 0 <= i < pat.len() ==> tok_matches_key(#[trigger] pat[i], keys[i]))
}

/// The live matching rule of a query: a pattern ending in a multi-level
/// wildcard covers any strictly longer key sequence whose prefix fits its
/// other tokens; any other pattern covers exactly the key sequences of its
/// own length that fit token by token.
pub open spec fn pattern_covers(pat: Seq<Tok>, keys: Seq<Seq<char>>) -> bool {
    if pat.len() > 0 && pat.last() is Multi {
        &&& keys.len() >= pat.len()
        &&& (forall|i: int| 0 <= i < pat.len() - 1 ==> tok_matches_key(#[trigger] pat[i], keys[i]))
    } else {
        &&& keys.len() == pat.len()
        &&& (forall|i: int| 0 <= i < pat.len() ==> tok_matches_key(#[trigger] pat[i], keys[i]))
    }
}

/// Every key sequence that a well-formed pattern covers live is also caught
/// by the conservative cache predicate, so invalidating by `spec_match_keys`
/// never leaves a stale cache entry behind.
pub proof fn lemma_covers_implies_match(pat: Seq<Tok>, keys: Seq<Seq<char>>)
    requires
        valid_pattern(pat),
        pattern_covers(pat, keys),
    ensures
        spec_match_keys(pat, keys),
{
    if pat.len() > 0 && pat.last() is Multi {
        assert(tok_matches_key(pat[pat.len() - 1], keys[pat.len() - 1]));
    }
}

/// Splitting a character sequence on a separator, as Rust's `str::split`
/// does it: an empty input yields one empty segment, and every separator
/// occurrence starts a new segment, so `n` separators yield `n + 1` segments.
pub open spec fn spec_split(s: Seq<char>, sep: char) -> Seq<Seq<char>>
    decreases s.len(),
{
    if s.len() == 0 {
        seq![Seq::<char>::empty()]
    } else if s[0] == sep {
        seq![Seq::<char>::empty()] + spec_split(s.drop_first(), sep)
    } else {
        let rest = spec_split(s.drop_first(), sep);
        seq![seq![s[0]] + rest[0]] + rest.drop_first()
    }
}

/// How one raw segment is read: the single-wildcard marker is checked first,
/// then the multi-wildcard marker, and anything else is a literal.
pub open spec fn classify_tok(seg: Seq<char>, owc: Seq<char>, mwc: Seq<char>) -> Tok {
    if seg == owc {
        Tok::One
    } else if seg == mwc {
        Tok::Multi
    } else {
        Tok::Lit(seg)
    }
}

pub open spec fn classify_all(segs: Seq<Seq<char>>, owc: Seq<char>, mwc: Seq<char>) -> Seq<Tok> {
    segs.map_values(|g: Seq<char>| classify_tok(g, owc, mwc))
}

/// What parsing a subject yields: its segments classified in order, unless a
/// multi-level wildcard stands anywhere but last, which is the one parse error.
pub open spec fn spec_parse(s: Seq<char>, sep: char, owc: Seq<char>, mwc: Seq<char>) -> Result<
    Seq<Tok>,
    CommonTokenError,
> {
    let toks = classify_all(spec_split(s, sep), owc, mwc);
    if valid_pattern(toks) {
        Result::Ok(toks)
    } else {
        Result::Err(CommonTokenError::MultiWildcardNotAtEnd)
    }
}

/// A scan that ran from `start` to `j` without meeting the separator pins
/// down the head of the remaining split: the segment `s[start..j]`, followed
/// by the split of what comes after the separator at `j`, if any.
proof fn lemma_split_step(s: Seq<char>, sep: char, start: int, j: int)
    requires
        0 <= start <= j <= s.len(),
        forall|k: int| start <= k < j ==> s[k] != sep,
    ensures
        j == s.len() ==> spec_split(s.skip(start), sep) =~= seq![s.subrange(start, j)],
        j < s.len() && s[j] == sep ==> spec_split(s.skip(start), sep) =~= seq![
            s.subrange(start, j),
        ] + spec_split(s.skip(j + 1), sep),
    decreases j - start,
{
    if start == j {
        if j == s.len() {
            assert(s.skip(start) =~= Seq::<char>::empty());
            assert(s.subrange(start, j) =~= Seq::<char>::empty());
        } else if s[j] == sep {
            assert(s.skip(start).len() > 0 && s.skip(start)[0] == sep);
            assert(s.skip(start).drop_first() =~= s.skip(j + 1));
            assert(s.subrange(start, j) =~= Seq::<char>::empty());
        }
    } else {
        assert(s.skip(start).len() > 0 && s.skip(start)[0] == s[start]);
        assert(s[start] != sep);
        assert(s.skip(start).drop_first() =~= s.skip(start + 1));
        lemma_split_step(s, sep, start + 1, j);
        let rest = spec_split(s.skip(start + 1), sep);
        if j == s.len() {
            assert(rest =~= seq![s.subrange(start + 1, j)]);
            assert(seq![s[start]] + s.subrange(start + 1, j) =~= s.subrange(start, j));
            assert(spec_split(s.skip(start), sep) =~= seq![s.subrange(start, j)]);
        } else if s[j] == sep {
            assert(rest =~= seq![s.subrange(start + 1, j)] + spec_split(s.skip(j + 1), sep));
            assert(rest[0] == s.subrange(start + 1, j));
            assert(seq![s[start]] + s.subrange(start + 1, j) =~= s.subrange(start, j));
            assert(rest.drop_first() =~= spec_split(s.skip(j + 1), sep));
            assert(spec_split(s.skip(start), sep) =~= seq![s.subrange(start, j)] + spec_split(
                s.skip(j + 1),
                sep,
            ));
        }
    }
}

/// Pushing one more classified segment keeps a token vector aligned with
/// the classification of the segments seen so far.
proof fn lemma_classified_push(
    ts: Seq<Token>,
    t: Token,
    segs: Seq<Seq<char>>,
    g: Seq<char>,
    owc: Seq<char>,
    mwc: Seq<char>,
)
    requires
        ts.map_values(|x: Token| x@) == classify_all(segs, owc, mwc),
        t@ == classify_tok(g, owc, mwc),
    ensures
        ts.push(t).map_values(|x: Token| x@) =~= classify_all(segs.push(g), owc, mwc),
{
    let lhs = ts.push(t).map_values(|x: Token| x@);
    let rhs = classify_all(segs.push(g), owc, mwc);
    assert(ts.map_values(|x: Token| x@).len() == ts.len());
    assert(classify_all(segs, owc, mwc).len() == segs.len());
    assert(ts.len() == segs.len());
    assert forall|k: int| 0 <= k < lhs.len() implies lhs[k] == rhs[k] by {
        if k < ts.len() {
            assert(ts.map_values(|x: Token| x@)[k] == classify_all(segs, owc, mwc)[k]);
            assert(ts.push(t)[k] == ts[k]);
            assert(segs.push(g)[k] == segs[k]);
        } else {
            assert(ts.push(t)[k] == t);
            assert(segs.push(g)[k] == g);
        }
    }
}

/// The one way a parse can fail.
#[derive(Debug, PartialEq, Eq, Structural, Clone, Copy)]
pub enum CommonTokenError {
    MultiWildcardNotAtEnd,
}

/// Can parse text into a token vector.
pub trait TokenParser {
    type Error;

    /// Parses a subject string into a token sequence.
    fn parse_tokens(&self, source: &str) -> Result<Tokens, Self::Error>;
}

/// Common configuration for parsing a subject string into tokens.
pub struct CommonTokenParser {
    /// char that separates tokens
    seperate_char: char,
    /// text that stands for the one-token wildcard
    one_wildcard_chars: String,
    /// text that stands for the multi-token wildcard
    multi_wildcard_chars: String,
}

impl CommonTokenParser {
    pub closed spec fn sep(self) -> char {
        self.seperate_char
    }

    pub closed spec fn owc(self) -> Seq<char> {
        self.one_wildcard_chars@
    }

    pub closed spec fn mwc(self) -> Seq<char> {
        self.multi_wildcard_chars@
    }

    /// Returns a CommonTokenParser instance.
    pub fn new(sc: char, owc: &str, mwc: &str) -> (r: Self)
        ensures
            r.sep() == sc,
            r.owc() == owc@,
            r.mwc() == mwc@,
    {
        Self {
            seperate_char: sc,
            one_wildcard_chars: String::from_str(owc),
            multi_wildcard_chars: String::from_str(mwc),
        }
    }

    /// Reads one raw segment as a token.
    fn classify(&self, seg: &str) -> (t: Token)
        ensures
            t@ == classify_tok(seg@, self.owc(), self.mwc()),
    {
        let seg_string = String::from_str(seg);
        if seg_string.eq(&self.one_wildcard_chars) {
            Token::OneWildcard
        } else if seg_string.eq(&self.multi_wildcard_chars) {
            Token::MultiWildcard
        } else {
            Token::Normal(seg_string)
        }
    }
}

impl TokenParser for CommonTokenParser {
    type Error = CommonTokenError;

    fn parse_tokens(&self, source: &str) -> (r: Result<Tokens, CommonTokenError>)
        ensures
            (r is Ok) == (spec_parse(source@, self.sep(), self.owc(), self.mwc()) is Ok),
            r matches Ok(ts) ==> ts@ == spec_parse(source@, self.sep(), self.owc(), self.mwc())
                -> Ok_0 && valid_pattern(ts@),
            r matches Err(e) ==> e == CommonTokenError::MultiWildcardNotAtEnd,
    {
        let ghost segs = spec_split(source@, self.sep());
        let len = source.unicode_len();
        let mut toks: Vec<Token> = Vec::new();
        let mut start: usize = 0;
        let mut i: usize = 0;
        let mut has_mwc = false;
        let ghost mut done: Seq<Seq<char>> = Seq::empty();
        proof {
            assert(source@.skip(0) =~= source@);
        }
        while i < len
            invariant
                start <= i <= len,
                len == source@.len(),
                forall|k: int| start <= k < i ==> source@[k] != self.sep(),
                segs == spec_split(source@, self.sep()),
                segs =~= done + spec_split(source@.skip(start as int), self.sep()),
                toks@.map_values(|t: Token| t@) =~= classify_all(done, self.owc(), self.mwc()),
                has_mwc == (done.len() > 0 && classify_tok(done.last(), self.owc(), self.mwc())
                    is Multi),
                forall|k: int|
                    0 <= k < done.len() - 1 ==> !(classify_tok(
                        #[trigger] done[k],
                        self.owc(),
                        self.mwc(),
                    ) is Multi),
            decreases len - i,
        {
            let c = source.get_char(i);
            if c == self.seperate_char {
                proof {
                    lemma_split_step(source@, self.sep(), start as int, i as int);
                }
                if has_mwc {
                    proof {
                        let all = classify_all(segs, self.owc(), self.mwc());
                        assert(segs[done.len() - 1] == done.last());
                        assert(all[done.len() - 1] is Multi);
                        assert(spec_split(source@.skip(start as int), self.sep()).len() > 0);
                        assert(segs.len() > done.len());
                        assert(!valid_pattern(all));
                    }
                    return Result::Err(CommonTokenError::MultiWildcardNotAtEnd);
                }
                let seg = source.substring_char(start, i);
                let t = self.classify(seg);
                let ghost seg_view = source@.subrange(start as int, i as int);
                let ghost prev = toks@;
                toks.push(t);
                proof {
                    lemma_classified_push(prev, t, done, seg_view, self.owc(), self.mwc());
                    done = done.push(seg_view);
                }
                has_mwc = match toks[toks.len() - 1] {
                    Token::MultiWildcard => true,
                    _ => false,
                };
                start = i + 1;
            }
            i += 1;
        }
        proof {
            lemma_split_step(source@, self.sep(), start as int, len as int);
        }
        if has_mwc {
            proof {
                let all = classify_all(segs, self.owc(), self.mwc());
                assert(segs[done.len() - 1] == done.last());
                assert(all[done.len() - 1] is Multi);
                assert(segs.len() == done.len() + 1);
                assert(!valid_pattern(all));
            }
            return Result::Err(CommonTokenError::MultiWildcardNotAtEnd);
        }
        let seg = source.substring_char(start, len);
        let t = self.classify(seg);
        let ghost seg_view = source@.subrange(start as int, len as int);
        let ghost prev = toks@;
        toks.push(t);
        proof {
            lemma_classified_push(prev, t, done, seg_view, self.owc(), self.mwc());
            done = done.push(seg_view);
            assert(segs =~= done);
            let all = classify_all(segs, self.owc(), self.mwc());
            assert(toks@.map_values(|t: Token| t@) =~= all);
            assert(valid_pattern(all));
        }
        Result::Ok(Tokens(toks))
    }
}

/// For a pattern that does not open with a multi-level wildcard, covering a
/// non-empty key sequence means: the first token accepts the first key, and
/// the rest of the pattern covers the rest of the keys.
pub proof fn lemma_covers_shift(pat: Seq<Tok>, keys: Seq<Seq<char>>)
    requires
        pat.len() > 0,
        !(pat[0] is Multi),
        keys.len() > 0,
    ensures
        pattern_covers(pat, keys) == (tok_matches_key(pat[0], keys[0]) && pattern_covers(
            pat.drop_first(),
            keys.drop_first(),
        )),
{
    let p2 = pat.drop_first();
    let k2 = keys.drop_first();
    assert(p2.len() == pat.len() - 1 && k2.len() == keys.len() - 1);
    if p2.len() > 0 {
        assert(p2.last() == pat.last());
    }
    if pattern_covers(pat, keys) {
        assert(tok_matches_key(pat[0], keys[0]));
        if pat.len() > 0 && pat.last() is Multi {
            assert forall|i: int| 0 <= i < p2.len() - 1 implies tok_matches_key(
                #[trigger] p2[i],
                k2[i],
            ) by {
                assert(p2[i] == pat[i + 1] && k2[i] == keys[i + 1]);
            }
        } else {
            assert forall|i: int| 0 <= i < p2.len() implies tok_matches_key(
                #[trigger] p2[i],
                k2[i],
            ) by {
                assert(p2[i] == pat[i + 1] && k2[i] == keys[i + 1]);
            }
        }
        assert(pattern_covers(p2, k2));
    }
    if tok_matches_key(pat[0], keys[0]) && pattern_covers(p2, k2) {
        if pat.len() > 0 && pat.last() is Multi {
            assert forall|i: int| 0 <= i < pat.len() - 1 implies tok_matches_key(
                #[trigger] pat[i],
                keys[i],
            ) by {
                if i > 0 {
                    assert(pat[i] == p2[i - 1] && keys[i] == k2[i - 1]);
                }
            }
        } else {
            assert forall|i: int| 0 <= i < pat.len() implies tok_matches_key(
                #[trigger] pat[i],
                keys[i],
            ) by {
                if i > 0 {
                    assert(pat[i] == p2[i - 1] && keys[i] == k2[i - 1]);
                }
            }
        }
        assert(pattern_covers(pat, keys));
    }
}

impl Tokens {
    /// Whether the pattern is free of wildcards.
    pub fn has_no_wildcard(&self) -> (r: bool)
        ensures
            r == spec_no_wildcard(self@),
    {
        let n = self.0.len();
        let mut j: usize = 0;
        while j < n
            invariant
                n == self.0.len(),
                j <= n,
                forall|i: int| 0 <= i < j ==> #[trigger] self@[i] is Lit,
            decreases n - j,
        {
            match &self.0[j] {
                Token::Normal(_) => {
                    j += 1;
                },
                _ => {
                    assert(!(self@[j as int] is Lit));
                    return false;
                },
            }
        }
        true
    }

    /// Whether this pattern is consistent with a concrete key sequence,
    /// in the conservative sense used for cache invalidation.
    pub fn match_keys(&self, keys: &Vec<String>) -> (r: bool)
        ensures
            r == spec_match_keys(self@, keys.deep_view()),
    {
        let n = self.0.len();
        if n > keys.len() {
            return false;
        }
        if n < keys.len() {
            if n == 0 {
                return false;
            }
            match &self.0[n - 1] {
                Token::MultiWildcard => {},
                _ => {
                    assert(!(self@.last() is Multi));
                    return false;
                },
            }
        }
        let mut j: usize = 0;
        while j < n
            invariant
                n == self.0.len(),
                j <= n,
                n <= keys@.len(),
                forall|i: int|
                    0 <= i < j ==> tok_matches_key(#[trigger] self@[i], keys.deep_view()[i]),
            decreases n - j,
        {
            match &self.0[j] {
                Token::Normal(s) => {
                    if !s.eq(&keys[j]) {
                        assert(!tok_matches_key(self@[j as int], keys.deep_view()[j as int]));
                        return false;
                    }
                },
                _ => {},
            }
            j += 1;
        }
        true
    }
}

} // verus!
