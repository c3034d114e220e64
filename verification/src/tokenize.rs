//! Similarity scoring over prepared strings, and the tokenizers that prepare
//! them: `TokenCmp` holds one pair of comparison strings and derives the
//! global and the best-local-window similarity score from the matching-block
//! engine.
use vstd::prelude::*;

verus! {

use crate::ratcliff_obershelp::{
    assemble_blocks,
    blocks_spec,
    lemma_blocks_spec_props,
    lemma_total_k_prefix,
    total_k,
    triples,
};
use crate::score_spec;
use crate::lemma_score_range;
use crate::text::{
    alphanumeric,
    chars_of,
    concat_all,
    concat_seqs,
    join_seqs,
    join_with,
    lex_le,
    lex_leq,
    lower_of,
    lowercase,
    push_char,
    slice_chars,
    sort_strings,
    str_le,
    string_of,
    whitespace,
};

/// Of two comparison strings, the one that comes first in lexicographic
/// order; despite the traditional name of the ordering step, ties of length
/// play no part in it.
pub open spec fn ordered_first(a: Seq<char>, b: Seq<char>) -> Seq<char> {
    if lex_le(a, b) {
        a
    } else {
        b
    }
}

/// Of two comparison strings, the one that comes last in lexicographic order.
pub open spec fn ordered_second(a: Seq<char>, b: Seq<char>) -> Seq<char> {
    if lex_le(a, b) {
        b
    } else {
        a
    }
}

/// The global similarity score of the two strings: their matching blocks'
/// summed length, doubled, relative to their combined length, rounded half
/// up; `100` when both strings are empty.
pub open spec fn similarity_spec(a: Seq<char>, b: Seq<char>) -> int {
    score_spec(
        total_k(blocks_spec(ordered_first(a, b), ordered_second(a, b))) as nat,
        (a.len() + b.len()) as nat,
    )
}

/// The global score always lies in the score band.
pub proof fn lemma_similarity_spec_range(a: Seq<char>, b: Seq<char>)
    ensures
        0 <= similarity_spec(a, b) <= 100,
{
    let sh = ordered_first(a, b);
    let lo = ordered_second(a, b);
    lemma_blocks_spec_props(sh, lo);
    let t = total_k(blocks_spec(sh, lo));
    assert(sh.len() + lo.len() == a.len() + b.len());
    assert(2 * t <= sh.len() + lo.len());
    lemma_score_range(t as nat, (a.len() + b.len()) as nat);
}

/// The best score among the windows that the blocks of `bl` cut out of `sh`:
/// each block `(i, _, k)` is scored as the similarity of `sh` with
/// `sh[i..i+k]`, and the maximum is kept; an empty block list scores `0`.
pub open spec fn partial_best(sh: Seq<char>, bl: Seq<(int, int, int)>) -> int
    decreases bl.len(),
{
    if bl.len() == 0 {
        0
    } else {
        let b = bl.last();
        let s = similarity_spec(sh, sh.subrange(b.0, b.0 + b.2));
        let rest = partial_best(sh, bl.drop_last());
        if s > rest {
            s
        } else {
            rest
        }
    }
}

/// The best-local-window similarity score of the two strings.
pub open spec fn partial_similarity_spec(a: Seq<char>, b: Seq<char>) -> int {
    let sh = ordered_first(a, b);
    let lo = ordered_second(a, b);
    partial_best(sh, blocks_spec(sh, lo))
}

/// The best-window score always lies in the score band.
pub proof fn lemma_partial_best_range(sh: Seq<char>, bl: Seq<(int, int, int)>)
    ensures
        0 <= partial_best(sh, bl) <= 100,
    decreases bl.len(),
{
    if bl.len() > 0 {
        let b = bl.last();
        lemma_similarity_spec_range(sh, sh.subrange(b.0, b.0 + b.2));
        lemma_partial_best_range(sh, bl.drop_last());
    }
}

/// The best over a prefix never beats the best over the whole list.
pub proof fn lemma_partial_best_prefix(sh: Seq<char>, bl: Seq<(int, int, int)>, i: int)
    requires
        0 <= i <= bl.len(),
    ensures
        partial_best(sh, bl.take(i)) <= partial_best(sh, bl),
    decreases bl.len() - i,
{
    if i == bl.len() {
        assert(bl.take(i) =~= bl);
    } else {
        lemma_partial_best_prefix(sh, bl, i + 1);
        assert(bl.take(i + 1).drop_last() =~= bl.take(i));
        assert(bl.take(i + 1).last() == bl[i]);
    }
}

/// One pair of prepared comparison strings, held as character sequences.
pub struct TokenCmp {
    term1: Vec<char>,
    term2: Vec<char>,
}

impl View for TokenCmp {
    type V = (Seq<char>, Seq<char>);

    closed spec fn view(&self) -> (Seq<char>, Seq<char>) {
        (self.term1@, self.term2@)
    }
}

/// The global similarity score of two character vectors.
pub(crate) fn similarity_chars(t1: &Vec<char>, t2: &Vec<char>) -> (r: u8)
    ensures
        r as int == similarity_spec(t1@, t2@),
        r <= 100,
{
    let sumlen: u128 = t1.len() as u128 + t2.len() as u128;
    let first_le = str_le(t1, t2);
    let (sh, lo) = if first_le {
        (t1, t2)
    } else {
        (t2, t1)
    };
    let blocks = assemble_blocks(sh, lo);
    let ghost bl = blocks_spec(sh@, lo@);
    proof {
        lemma_blocks_spec_props(sh@, lo@);
    }
    let mut similar: usize = 0;
    let mut idx: usize = 0;
    proof {
        assert(bl.take(0) =~= Seq::<(int, int, int)>::empty());
    }
    while idx < blocks.len()
        invariant
            triples(blocks@) == bl,
            bl == blocks_spec(sh@, lo@),
            blocks@.len() == bl.len(),
            sh@.len() <= t1@.len() + t2@.len(),
            forall|x: int|
                0 <= x < bl.len() ==> 0 <= (#[trigger] bl[x]).0 && bl[x].0 + bl[x].2 <= sh@.len()
                    && bl[x].2 >= 0,
            0 <= total_k(bl) <= sh@.len(),
            idx <= blocks@.len(),
            similar as int == total_k(bl.take(idx as int)),
            similar <= sh@.len(),
        decreases blocks@.len() - idx,
    {
        let b = blocks[idx];
        proof {
            assert(triples(blocks@)[idx as int] == (b.0 as int, b.1 as int, b.2 as int));
            assert(bl.take(idx as int + 1).drop_last() =~= bl.take(idx as int));
            assert(bl.take(idx as int + 1).last() == bl[idx as int]);
            lemma_total_k_prefix(bl, idx as int + 1);
        }
        similar = similar + b.2;
        idx = idx + 1;
    }
    proof {
        assert(bl.take(blocks@.len() as int) =~= bl);
    }
    if sumlen > 0 {
        let num: u128 = 400 * (similar as u128) + sumlen;
        let den: u128 = 2 * sumlen;
        let q: u128 = num / den;
        proof {
            assert(2 * total_k(bl) <= sh@.len() + lo@.len());
            assert(sh@.len() + lo@.len() == t1@.len() + t2@.len());
            lemma_score_range(total_k(bl) as nat, (t1@.len() + t2@.len()) as nat);
            assert(q == score_spec(total_k(bl) as nat, (t1@.len() + t2@.len()) as nat));
        }
        q as u8
    } else {
        proof {
            assert(t1@.len() + t2@.len() == 0);
        }
        100
    }
}

impl TokenCmp {
    /// A comparison pair taken from two strings as they are.
    pub fn new_from_str(s1: &str, s2: &str) -> (r: TokenCmp)
        ensures
            r@ == (s1@, s2@),
    {
        TokenCmp { term1: chars_of(s1), term2: chars_of(s2) }
    }

    /// The two strings in canonical comparison order. The traditional name
    /// notwithstanding, the order is lexicographic: the smaller string comes
    /// first, and equal strings keep their original order.
    pub fn short_long_order_by_len(&self) -> (r: (&Vec<char>, &Vec<char>))
        ensures
            r.0@ == ordered_first(self@.0, self@.1),
            r.1@ == ordered_second(self@.0, self@.1),
    {
        if str_le(&self.term1, &self.term2) {
            (&self.term1, &self.term2)
        } else {
            (&self.term2, &self.term1)
        }
    }

    /// The matching blocks of the canonically ordered pair: coordinates are
    /// the start in the first (lexicographically smaller) string, the start
    /// in the second, and the length.
    pub fn matching_blocks(&self) -> (r: Vec<(usize, usize, usize)>)
        ensures
            triples(r@) == blocks_spec(
                ordered_first(self@.0, self@.1),
                ordered_second(self@.0, self@.1),
            ),
    {
        let (sh, lo) = self.short_long_order_by_len();
        assemble_blocks(sh, lo)
    }

    /// The global similarity score of the pair, between 0 and 100.
    pub fn similarity(&self) -> (r: u8)
        ensures
            r as int == similarity_spec(self@.0, self@.1),
            r <= 100,
    {
        similarity_chars(&self.term1, &self.term2)
    }

    /// The best-local-window similarity score of the pair, between 0 and
    /// 100: every matching block cuts a window out of the smaller string,
    /// the smaller string is scored against each window, and the best score
    /// wins; `100` is returned as soon as a window scores above 99.
    pub fn partial_similarity(&self) -> (r: u8)
        ensures
            r as int == partial_similarity_spec(self@.0, self@.1),
            r <= 100,
    {
        let (sh, lo) = self.short_long_order_by_len();
        let shlen: usize = sh.len();
        let blocks = assemble_blocks(sh, lo);
        let ghost bl = blocks_spec(sh@, lo@);
        proof {
            lemma_blocks_spec_props(sh@, lo@);
        }
        let mut mx: u8 = 0;
        let mut idx: usize = 0;
        proof {
            assert(bl.take(0) =~= Seq::<(int, int, int)>::empty());
        }
        while idx < blocks.len()
            invariant
                sh@ == ordered_first(self@.0, self@.1),
                lo@ == ordered_second(self@.0, self@.1),
                shlen == sh@.len(),
                triples(blocks@) == bl,
                bl == blocks_spec(sh@, lo@),
                blocks@.len() == bl.len(),
                forall|x: int|
                    0 <= x < bl.len() ==> 0 <= (#[trigger] bl[x]).0 && bl[x].0 + bl[x].2
                        <= sh@.len() && bl[x].2 >= 0,
                idx <= blocks@.len(),
                mx as int == partial_best(sh@, bl.take(idx as int)),
                mx <= 100,
            decreases blocks@.len() - idx,
        {
            let b = blocks[idx];
            proof {
                assert(triples(blocks@)[idx as int] == (b.0 as int, b.1 as int, b.2 as int));
                assert(bl[idx as int].0 + bl[idx as int].2 <= sh@.len());
                assert(bl.take(idx as int + 1).drop_last() =~= bl.take(idx as int));
                assert(bl.take(idx as int + 1).last() == bl[idx as int]);
            }
            let sub = slice_chars(sh, b.0, b.0 + b.2);
            let s = similarity_chars(sh, &sub);
            if s > 99 {
                proof {
                    assert(sub@ == sh@.subrange(
                        bl[idx as int].0,
                        bl[idx as int].0 + bl[idx as int].2,
                    ));
                    assert(partial_best(sh@, bl.take(idx as int + 1)) >= s as int);
                    lemma_partial_best_prefix(sh@, bl, idx as int + 1);
                    lemma_partial_best_range(sh@, bl);
                    assert(partial_best(sh@, bl) == 100);
                }
                return 100;
            }
            if s > mx {
                mx = s;
            }
            idx = idx + 1;
        }
        proof {
            assert(bl.take(blocks@.len() as int) =~= bl);
        }
        mx
    }
}

/// The separator predicate of the alphanumeric tokenizer: everything that is
/// not alphanumeric splits tokens.
pub open spec fn alnum_sep() -> spec_fn(char) -> bool {
    |c: char| !alphanumeric(c)
}

/// Whitespace as a separator predicate.
pub open spec fn ws_sep() -> spec_fn(char) -> bool {
    |c: char| whitespace(c)
}

/// The first position at or after `i` holding a separator, or the end.
pub open spec fn token_end(s: Seq<char>, p: spec_fn(char) -> bool, i: int) -> int
    decreases s.len() - i,
    when 0 <= i <= s.len()
{
    if i >= s.len() {
        s.len() as int
    } else if p(s[i]) {
        i
    } else {
        token_end(s, p, i + 1)
    }
}

/// The first position at or after `i` holding a token character, or the end.
pub open spec fn next_token_start(s: Seq<char>, p: spec_fn(char) -> bool, i: int) -> int
    decreases s.len() - i,
    when 0 <= i <= s.len()
{
    if i >= s.len() {
        s.len() as int
    } else if !p(s[i]) {
        i
    } else {
        next_token_start(s, p, i + 1)
    }
}

pub proof fn lemma_token_end_props(s: Seq<char>, p: spec_fn(char) -> bool, i: int)
    requires
        0 <= i <= s.len(),
    ensures
        i <= token_end(s, p, i) <= s.len(),
        forall|x: int| i <= x < token_end(s, p, i) ==> !p(s[x]),
        token_end(s, p, i) < s.len() ==> p(s[token_end(s, p, i)]),
    decreases s.len() - i,
{
    if i < s.len() && !p(s[i]) {
        lemma_token_end_props(s, p, i + 1);
    }
}

pub proof fn lemma_next_token_start_props(s: Seq<char>, p: spec_fn(char) -> bool, i: int)
    requires
        0 <= i <= s.len(),
    ensures
        i <= next_token_start(s, p, i) <= s.len(),
        forall|x: int| i <= x < next_token_start(s, p, i) ==> p(s[x]),
        next_token_start(s, p, i) < s.len() ==> !p(s[next_token_start(s, p, i)]),
    decreases s.len() - i,
{
    if i < s.len() && p(s[i]) {
        lemma_next_token_start_props(s, p, i + 1);
    }
}

/// The maximal runs of token characters at or after `i`, in order; the runs
/// of separators between them are dropped.
pub open spec fn tokens_from(s: Seq<char>, p: spec_fn(char) -> bool, i: int) -> Seq<Seq<char>>
    decreases s.len() - i,
    when 0 <= i <= s.len()
    via tokens_from_decreases
{
    let st = next_token_start(s, p, i);
    if st >= s.len() {
        Seq::empty()
    } else {
        seq![s.subrange(st, token_end(s, p, st))] + tokens_from(s, p, token_end(s, p, st))
    }
}

#[via_fn]
proof fn tokens_from_decreases(s: Seq<char>, p: spec_fn(char) -> bool, i: int) {
    let st = next_token_start(s, p, i);
    lemma_next_token_start_props(s, p, i);
    if st < s.len() {
        lemma_token_end_props(s, p, st);
        assert(token_end(s, p, st) > st) by {
            lemma_token_end_props(s, p, st + 1);
        }
    }
}

/// The tokens of the whole string under separator predicate `p`.
pub open spec fn tokens_of(s: Seq<char>, p: spec_fn(char) -> bool) -> Seq<Seq<char>> {
    tokens_from(s, p, 0)
}

/// Stepping over one separator changes nothing.
pub proof fn lemma_tokens_from_skip(s: Seq<char>, p: spec_fn(char) -> bool, i: int)
    requires
        0 <= i < s.len(),
        p(s[i]),
    ensures
        tokens_from(s, p, i) == tokens_from(s, p, i + 1),
{
    assert(next_token_start(s, p, i) == next_token_start(s, p, i + 1));
}

/// A character classifier: `is_char` answers whether a character belongs to
/// the class the filter looks for (for tokenizers, the separator class).
pub trait CharFilter: Sized {
    spec fn is_char_spec(&self, c: char) -> bool;

    fn is_char(&self, c: char) -> (b: bool)
        ensures
            b == self.is_char_spec(c),
    ;
}

/// The separator predicate a filter value induces.
pub open spec fn sep_of<F: CharFilter>(f: F) -> spec_fn(char) -> bool {
    |c: char| f.is_char_spec(c)
}

/// Splits at every character that is not alphanumeric.
pub struct AlphaNumericCharFilter;

/// Splits at whitespace.
pub struct WhiteSpaceCharFilter;

/// Tokenizes on runs of non-alphanumeric characters and lowercases tokens.
pub struct AlphaNumericTokenizer;

/// A tokenizer over whitespace-delimited tokens.
pub struct WhiteSpaceTokenizer;

impl CharFilter for AlphaNumericCharFilter {
    open spec fn is_char_spec(&self, c: char) -> bool {
        !alphanumeric(c)
    }

    fn is_char(&self, c: char) -> (b: bool) {
        !c.is_alphanumeric()
    }
}

impl CharFilter for WhiteSpaceCharFilter {
    open spec fn is_char_spec(&self, c: char) -> bool {
        whitespace(c)
    }

    fn is_char(&self, c: char) -> (b: bool) {
        c.is_whitespace()
    }
}

/// One token, as the tokenizers hand it out.
pub struct TokenSequence {
    term: String,
}

impl View for TokenSequence {
    type V = Seq<char>;

    closed spec fn view(&self) -> Seq<char> {
        self.term@
    }
}

impl TokenSequence {
    #[inline]
    pub fn convert_str(t: &str) -> (r: Self)
        ensures
            r@ == t@,
    {
        TokenSequence { term: t.to_owned() }
    }

    /// The token lowercased.
    pub fn to_lower_cow(&self) -> (r: String)
        ensures
            r@ == lower_of(self@),
    {
        lowercase(self.term.as_str())
    }
}

/// One token together with its start offset (in characters) and its ordinal
/// position among the tokens.
pub struct TokenPositional {
    term: String,
    start_offset: usize,
    position: usize,
}

impl View for TokenPositional {
    type V = (Seq<char>, int, int);

    closed spec fn view(&self) -> (Seq<char>, int, int) {
        (self.term@, self.start_offset as int, self.position as int)
    }
}

impl TokenPositional {
    #[inline]
    pub fn convert_str(t: &str, start_offset: usize, position: usize) -> (r: Self)
        ensures
            r@ == (t@, start_offset as int, position as int),
    {
        TokenPositional { term: t.to_owned(), start_offset, position }
    }

    /// The token lowercased.
    pub fn to_lower_cow(&self) -> (r: String)
        ensures
            r@ == lower_of(self@.0),
    {
        lowercase(self.term.as_str())
    }
}

/// Walks the tokens of a string under a character filter, handing out plain
/// tokens.
pub struct CharTokenSeqIter<F: CharFilter> {
    filter: F,
    input: Vec<char>,
    char_offset: usize,
    position: usize,
}

impl<F: CharFilter> CharTokenSeqIter<F> {
    pub closed spec fn chars_spec(&self) -> Seq<char> {
        self.input@
    }

    pub closed spec fn offset_spec(&self) -> int {
        self.char_offset as int
    }

    pub closed spec fn position_spec(&self) -> int {
        self.position as int
    }

    pub closed spec fn sep_spec(&self) -> spec_fn(char) -> bool {
        sep_of(self.filter)
    }

    pub closed spec fn wf(&self) -> bool {
        self.position <= self.char_offset <= self.input@.len()
    }

    pub fn new(filter: F, input: &str) -> (r: Self)
        ensures
            r.chars_spec() == input@,
            r.offset_spec() == 0,
            r.position_spec() == 0,
            r.sep_spec() == sep_of(filter),
            r.wf(),
    {
        CharTokenSeqIter { filter, input: chars_of(input), char_offset: 0, position: 0 }
    }

    /// The next token, if any characters of the token class remain: the
    /// iterator skips separators, cuts the token out, and stands past the
    /// separator that ended it.
    #[verifier::loop_isolation(false)]
    pub fn next(&mut self) -> (r: Option<TokenSequence>)
        requires
            old(self).wf(),
        ensures
            final(self).wf(),
            final(self).chars_spec() == old(self).chars_spec(),
            final(self).sep_spec() == old(self).sep_spec(),
            ({
                let s = old(self).chars_spec();
                let p = old(self).sep_spec();
                let st = next_token_start(s, p, old(self).offset_spec());
                let e = token_end(s, p, st);
                if st >= s.len() {
                    &&& r is None
                    &&& final(self).offset_spec() == old(self).offset_spec()
                    &&& final(self).position_spec() == old(self).position_spec()
                } else {
                    &&& r is Some
                    &&& r->0@ == s.subrange(st, e)
                    &&& final(self).offset_spec() == (if e < s.len() {
                        e + 1
                    } else {
                        e
                    })
                    &&& final(self).position_spec() == old(self).position_spec() + 1
                }
            }),
    {
        let n = self.input.len();
        let ghost s = self.input@;
        let ghost p = self.sep_spec();
        let ghost off0 = self.char_offset as int;
        proof {
            lemma_next_token_start_props(s, p, off0);
        }
        let mut st: usize = self.char_offset;
        while st < n && self.filter.is_char(self.input[st])
            invariant
                off0 <= st <= n,
                next_token_start(s, p, off0) == next_token_start(s, p, st as int),
            decreases n - st,
        {
            st = st + 1;
        }
        proof {
            assert(next_token_start(s, p, st as int) == st || st == n);
            assert(next_token_start(s, p, off0) == st);
        }
        if st >= n {
            return None;
        }
        proof {
            lemma_token_end_props(s, p, st as int);
        }
        let mut e: usize = st;
        while e < n && !self.filter.is_char(self.input[e])
            invariant
                st <= e <= n,
                token_end(s, p, st as int) == token_end(s, p, e as int),
            decreases n - e,
        {
            e = e + 1;
        }
        proof {
            assert(token_end(s, p, e as int) == e || e == n);
            assert(token_end(s, p, st as int) == e);
            assert(e > st) by {
                lemma_token_end_props(s, p, st as int + 1);
            }
        }
        let term_chars = slice_chars(&self.input, st, e);
        let term = string_of(&term_chars);
        self.char_offset = if e < n {
            e + 1
        } else {
            n
        };
        self.position = self.position + 1;
        Some(TokenSequence { term })
    }
}

/// Walks the tokens of a string under a character filter, handing out tokens
/// with their offsets and positions.
pub struct CharTokenPosIter<F: CharFilter> {
    filter: F,
    input: Vec<char>,
    char_offset: usize,
    position: usize,
}

impl<F: CharFilter> CharTokenPosIter<F> {
    pub closed spec fn chars_spec(&self) -> Seq<char> {
        self.input@
    }

    pub closed spec fn offset_spec(&self) -> int {
        self.char_offset as int
    }

    pub closed spec fn position_spec(&self) -> int {
        self.position as int
    }

    pub closed spec fn sep_spec(&self) -> spec_fn(char) -> bool {
        sep_of(self.filter)
    }

    pub closed spec fn wf(&self) -> bool {
        self.position <= self.char_offset <= self.input@.len()
    }

    pub fn new(filter: F, input: &str) -> (r: Self)
        ensures
            r.chars_spec() == input@,
            r.offset_spec() == 0,
            r.position_spec() == 0,
            r.sep_spec() == sep_of(filter),
            r.wf(),
    {
        CharTokenPosIter { filter, input: chars_of(input), char_offset: 0, position: 0 }
    }

    /// The next token together with its start offset in characters and its
    /// ordinal position, if any token remains.
    #[verifier::loop_isolation(false)]
    pub fn next(&mut self) -> (r: Option<TokenPositional>)
        requires
            old(self).wf(),
        ensures
            final(self).wf(),
            final(self).chars_spec() == old(self).chars_spec(),
            final(self).sep_spec() == old(self).sep_spec(),
            ({
                let s = old(self).chars_spec();
                let p = old(self).sep_spec();
                let st = next_token_start(s, p, old(self).offset_spec());
                let e = token_end(s, p, st);
                if st >= s.len() {
                    &&& r is None
                    &&& final(self).offset_spec() == old(self).offset_spec()
                    &&& final(self).position_spec() == old(self).position_spec()
                } else {
                    &&& r is Some
                    &&& r->0@ == (s.subrange(st, e), st, old(self).position_spec())
                    &&& final(self).offset_spec() == (if e < s.len() {
                        e + 1
                    } else {
                        e
                    })
                    &&& final(self).position_spec() == old(self).position_spec() + 1
                }
            }),
    {
        let n = self.input.len();
        let ghost s = self.input@;
        let ghost p = self.sep_spec();
        let ghost off0 = self.char_offset as int;
        proof {
            lemma_next_token_start_props(s, p, off0);
        }
        let mut st: usize = self.char_offset;
        while st < n && self.filter.is_char(self.input[st])
            invariant
                off0 <= st <= n,
                next_token_start(s, p, off0) == next_token_start(s, p, st as int),
            decreases n - st,
        {
            st = st + 1;
        }
        proof {
            assert(next_token_start(s, p, st as int) == st || st == n);
            assert(next_token_start(s, p, off0) == st);
        }
        if st >= n {
            return None;
        }
        proof {
            lemma_token_end_props(s, p, st as int);
        }
        let mut e: usize = st;
        while e < n && !self.filter.is_char(self.input[e])
            invariant
                st <= e <= n,
                token_end(s, p, st as int) == token_end(s, p, e as int),
            decreases n - e,
        {
            e = e + 1;
        }
        proof {
            assert(token_end(s, p, e as int) == e || e == n);
            assert(token_end(s, p, st as int) == e);
            assert(e > st) by {
                lemma_token_end_props(s, p, st as int + 1);
            }
        }
        let term_chars = slice_chars(&self.input, st, e);
        let term = string_of(&term_chars);
        let start_offset = st;
        let pos = self.position;
        self.char_offset = if e < n {
            e + 1
        } else {
            n
        };
        self.position = self.position + 1;
        Some(TokenPositional { term, start_offset, position: pos })
    }
}

/// A tokenizer that hands tokens out with offsets and positions, and can
/// summarize them.
pub trait TokenizerPos {
    type TokenIter;

    fn tokenize_pos(&self, input: &str) -> Self::TokenIter;

    fn pos_summary(&self, tokens: Vec<TokenPositional>) -> (r: TokenizerPosSummary)
        ensures
            r.token_strings.deep_view() == tokens@.map_values(
                |tp: TokenPositional| lower_of(tp@.0),
            ),
            r.offsets@.map_values(|o: usize| o as int) == tokens@.map_values(
                |tp: TokenPositional| tp@.1,
            ),
            r.positions@.map_values(|o: usize| o as int) == tokens@.map_values(
                |tp: TokenPositional| tp@.2,
            ),
            r.seqlen == tokens@.len(),
            r.sequence@ == join_seqs(r.token_strings.deep_view(), seq![' ']),
    ;
}

/// A tokenizer that hands tokens out in sequence, lowercased.
pub trait TokenizerSeq {
    type TokenIter;

    /// Which characters separate tokens.
    spec fn sep_spec(&self) -> spec_fn(char) -> bool;

    fn tokenize_seq(&self, input: &str) -> Self::TokenIter;

    fn sequencer(&self, input: &str) -> (r: Vec<String>)
        ensures
            r.deep_view() == tokens_of(input@, self.sep_spec()).map_values(
                |t: Seq<char>| lower_of(t),
            ),
    ;

    fn token(&self, input: &str) -> (r: String)
        ensures
            r@ == join_seqs(
                tokens_of(input@, self.sep_spec()).map_values(|t: Seq<char>| lower_of(t)),
                seq![' '],
            ),
    ;
}

/// The tokens of one string, with their lowercased texts, start offsets and
/// positions collected side by side.
pub struct TokenizerPosSummary {
    pub sequence: String,
    pub seqlen: usize,
    pub token_strings: Vec<String>,
    pub offsets: Vec<usize>,
    pub positions: Vec<usize>,
}

impl TokenizerPosSummary {
    pub fn new(
        sequence: String,
        seqln: usize,
        tstrings: Vec<String>,
        ofs: Vec<usize>,
        psns: Vec<usize>,
    ) -> (r: Self)
        ensures
            r.sequence == sequence,
            r.seqlen == seqln,
            r.token_strings == tstrings,
            r.offsets == ofs,
            r.positions == psns,
    {
        TokenizerPosSummary {
            sequence,
            seqlen: seqln,
            token_strings: tstrings,
            offsets: ofs,
            positions: psns,
        }
    }
}

impl TokenizerPos for AlphaNumericTokenizer {
    type TokenIter = CharTokenPosIter<AlphaNumericCharFilter>;

    fn tokenize_pos(&self, input: &str) -> Self::TokenIter {
        CharTokenPosIter::new(AlphaNumericCharFilter, input)
    }

    fn pos_summary(&self, tokens: Vec<TokenPositional>) -> (r: TokenizerPosSummary) {
        let tlen = tokens.len();
        let mut tks: Vec<String> = Vec::new();
        let mut ofs: Vec<usize> = Vec::new();
        let mut psns: Vec<usize> = Vec::new();
        let mut i: usize = 0;
        proof {
            assert(tks.deep_view() =~= tokens@.take(0).map_values(
                |tp: TokenPositional| lower_of(tp@.0),
            ));
            assert(ofs@.map_values(|o: usize| o as int) =~= tokens@.take(0).map_values(
                |tp: TokenPositional| tp@.1,
            ));
            assert(psns@.map_values(|o: usize| o as int) =~= tokens@.take(0).map_values(
                |tp: TokenPositional| tp@.2,
            ));
        }
        while i < tlen
            invariant
                i <= tokens@.len(),
                tlen == tokens@.len(),
                tks.deep_view() == tokens@.take(i as int).map_values(
                    |tp: TokenPositional| lower_of(tp@.0),
                ),
                ofs@.map_values(|o: usize| o as int) == tokens@.take(i as int).map_values(
                    |tp: TokenPositional| tp@.1,
                ),
                psns@.map_values(|o: usize| o as int) == tokens@.take(i as int).map_values(
                    |tp: TokenPositional| tp@.2,
                ),
            decreases tlen - i,
        {
            let t = &tokens[i];
            let ghost pre_tks = tks.deep_view();
            let ghost pre_ofs = ofs@;
            let ghost pre_psns = psns@;
            tks.push(t.to_lower_cow());
            ofs.push(t.start_offset);
            psns.push(t.position);
            proof {
                assert(tokens@.take(i as int + 1) =~= tokens@.take(i as int).push(
                    tokens@[i as int],
                ));
                assert(tks.deep_view() =~= pre_tks.push(lower_of(tokens@[i as int]@.0)));
                assert(tks.deep_view() =~= tokens@.take(i as int + 1).map_values(
                    |tp: TokenPositional| lower_of(tp@.0),
                ));
                assert(ofs@.map_values(|o: usize| o as int) =~= pre_ofs.map_values(
                    |o: usize| o as int,
                ).push(tokens@[i as int]@.1));
                assert(ofs@.map_values(|o: usize| o as int) =~= tokens@.take(
                    i as int + 1,
                ).map_values(|tp: TokenPositional| tp@.1));
                assert(psns@.map_values(|o: usize| o as int) =~= pre_psns.map_values(
                    |o: usize| o as int,
                ).push(tokens@[i as int]@.2));
                assert(psns@.map_values(|o: usize| o as int) =~= tokens@.take(
                    i as int + 1,
                ).map_values(|tp: TokenPositional| tp@.2));
            }
            i = i + 1;
        }
        proof {
            assert(tokens@.take(tlen as int) =~= tokens@);
        }
        let joined = join_with(&tks, " ");
        proof {
            reveal_strlit(" ");
            assert(" "@ =~= seq![' ']);
        }
        let n = tks.len();
        TokenizerPosSummary::new(joined, n, tks, ofs, psns)
    }
}

impl TokenizerSeq for AlphaNumericTokenizer {
    type TokenIter = CharTokenSeqIter<AlphaNumericCharFilter>;

    open spec fn sep_spec(&self) -> spec_fn(char) -> bool {
        alnum_sep()
    }

    fn tokenize_seq(&self, input: &str) -> Self::TokenIter {
        CharTokenSeqIter::new(AlphaNumericCharFilter, input)
    }

    fn sequencer(&self, input: &str) -> (r: Vec<String>) {
        let mut it = CharTokenSeqIter::new(AlphaNumericCharFilter, input);
        let ghost s = input@;
        let ghost p = it.sep_spec();
        proof {
            assert forall|c: char| #[trigger] p(c) == alnum_sep()(c) by {}
            assert(p =~= alnum_sep());
        }
        let mut out: Vec<String> = Vec::new();
        let ghost mut raw: Seq<Seq<char>> = Seq::empty();
        proof {
            assert(tokens_of(s, p) =~= raw + tokens_from(s, p, 0));
        }
        loop
            invariant
                it.wf(),
                it.chars_spec() == s,
                it.sep_spec() == p,
                p == alnum_sep(),
                s == input@,
                0 <= it.offset_spec() <= s.len(),
                out.deep_view() == raw.map_values(|t: Seq<char>| lower_of(t)),
                tokens_of(s, p) == raw + tokens_from(s, p, it.offset_spec()),
            ensures
                out.deep_view() == tokens_of(input@, alnum_sep()).map_values(
                    |t: Seq<char>| lower_of(t),
                ),
            decreases s.len() - it.offset_spec(),
        {
            let ghost off0 = it.offset_spec();
            let tok_opt = it.next();
            match tok_opt {
                Option::None => {
                    proof {
                        assert(tokens_from(s, p, off0) =~= Seq::<Seq<char>>::empty());
                        assert(tokens_of(s, p) =~= raw);
                        assert(out.deep_view() =~= tokens_of(s, p).map_values(
                            |t: Seq<char>| lower_of(t),
                        ));
                    }
                    break ;
                },
                Option::Some(tok) => {
                    let low = tok.to_lower_cow();
                    let ghost pre_dv = out.deep_view();
                    out.push(low);
                    proof {
                        let st = next_token_start(s, p, off0);
                        let e = token_end(s, p, st);
                        lemma_next_token_start_props(s, p, off0);
                        lemma_token_end_props(s, p, st);
                        raw = raw.push(tok@);
                        assert(out.deep_view() =~= pre_dv.push(lower_of(tok@)));
                        assert(out.deep_view() =~= raw.map_values(|t: Seq<char>| lower_of(t)));
                        assert(tokens_from(s, p, off0) == seq![s.subrange(st, e)] + tokens_from(
                            s,
                            p,
                            e,
                        ));
                        if e < s.len() {
                            lemma_tokens_from_skip(s, p, e);
                        }
                        assert(tokens_of(s, p) =~= raw + tokens_from(s, p, it.offset_spec()));
                    }
                },
            }
        }
        out
    }

    fn token(&self, input: &str) -> (r: String) {
        let toks = self.sequencer(input);
        let joined = join_with(&toks, " ");
        proof {
            reveal_strlit(" ");
            assert(" "@ =~= seq![' ']);
        }
        joined
    }
}

/// The whitespace-delimited tokens of a string, kept as they are.
pub(crate) fn split_ws_tokens(input: &str) -> (r: Vec<String>)
    ensures
        r.deep_view() == tokens_of(input@, ws_sep()),
{
    let mut it = CharTokenSeqIter::new(WhiteSpaceCharFilter, input);
    let ghost s = input@;
    let ghost p = it.sep_spec();
    proof {
        assert forall|c: char| #[trigger] p(c) == ws_sep()(c) by {}
        assert(p =~= ws_sep());
    }
    let mut out: Vec<String> = Vec::new();
    let ghost mut raw: Seq<Seq<char>> = Seq::empty();
    proof {
        assert(tokens_of(s, p) =~= raw + tokens_from(s, p, 0));
        assert(out.deep_view() =~= raw);
    }
    loop
        invariant
            it.wf(),
            it.chars_spec() == s,
            it.sep_spec() == p,
            p == ws_sep(),
            s == input@,
            0 <= it.offset_spec() <= s.len(),
            out.deep_view() == raw,
            tokens_of(s, p) == raw + tokens_from(s, p, it.offset_spec()),
        ensures
            out.deep_view() == tokens_of(input@, ws_sep()),
        decreases s.len() - it.offset_spec(),
    {
        let ghost off0 = it.offset_spec();
        let tok_opt = it.next();
        match tok_opt {
            Option::None => {
                proof {
                    assert(tokens_from(s, p, off0) =~= Seq::<Seq<char>>::empty());
                    assert(tokens_of(s, p) =~= raw);
                }
                break ;
            },
            Option::Some(tok) => {
                let ghost pre_dv = out.deep_view();
                proof {
                    raw = raw.push(tok@);
                }
                out.push(tok.term);
                proof {
                    let st = next_token_start(s, p, off0);
                    let e = token_end(s, p, st);
                    lemma_next_token_start_props(s, p, off0);
                    lemma_token_end_props(s, p, st);
                    assert(out.deep_view() =~= pre_dv.push(tok@));
                    assert(tokens_from(s, p, off0) == seq![s.subrange(st, e)] + tokens_from(
                        s,
                        p,
                        e,
                    ));
                    if e < s.len() {
                        lemma_tokens_from_skip(s, p, e);
                    }
                    assert(tokens_of(s, p) =~= raw + tokens_from(s, p, it.offset_spec()));
                }
            },
        }
    }
    out
}

/// Plain, allocation-happy tokenizing helpers over `&str`.
pub struct TokenizerNaive;

/// The first separator position of mask `m` at or after `i`, or the end.
pub open spec fn seg_end(m: Seq<bool>, i: int) -> int
    decreases m.len() - i,
    when 0 <= i <= m.len()
{
    if i >= m.len() {
        m.len() as int
    } else if m[i] {
        i
    } else {
        seg_end(m, i + 1)
    }
}

pub proof fn lemma_seg_end_props(m: Seq<bool>, i: int)
    requires
        0 <= i <= m.len(),
    ensures
        i <= seg_end(m, i) <= m.len(),
        forall|x: int| i <= x < seg_end(m, i) ==> !m[x],
        seg_end(m, i) < m.len() ==> m[seg_end(m, i)],
    decreases m.len() - i,
{
    if i < m.len() && !m[i] {
        lemma_seg_end_props(m, i + 1);
    }
}

/// The pieces of `s` between the separator positions that mask `m` marks,
/// empty pieces included: splitting keeps what stands between, before and
/// after separators, even when it is nothing.
pub open spec fn segments_from(s: Seq<char>, m: Seq<bool>, i: int) -> Seq<Seq<char>>
    decreases m.len() - i,
    when 0 <= i <= m.len() && m.len() == s.len()
    via segments_from_decreases
{
    let e = seg_end(m, i);
    if e >= m.len() {
        seq![s.subrange(i, s.len() as int)]
    } else {
        seq![s.subrange(i, e)] + segments_from(s, m, e + 1)
    }
}

#[via_fn]
proof fn segments_from_decreases(s: Seq<char>, m: Seq<bool>, i: int) {
    lemma_seg_end_props(m, i);
}

/// Applies the pattern to every character, recording the answers.
fn char_mask<F: Fn(char) -> bool>(tc: &Vec<char>, pattern: F) -> (r: Vec<bool>)
    requires
        forall|c: char| #[trigger] call_requires(pattern, (c,)),
    ensures
        r@.len() == tc@.len(),
        forall|x: int| 0 <= x < r@.len() ==> call_ensures(pattern, (tc@[x],), #[trigger] r@[x]),
{
    let mut r: Vec<bool> = Vec::new();
    let mut i: usize = 0;
    while i < tc.len()
        invariant
            i <= tc@.len(),
            r@.len() == i,
            forall|c: char| #[trigger] call_requires(pattern, (c,)),
            forall|x: int| 0 <= x < i ==> call_ensures(pattern, (tc@[x],), #[trigger] r@[x]),
        decreases tc@.len() - i,
    {
        let b = pattern(tc[i]);
        r.push(b);
        i = i + 1;
    }
    r
}

/// Cuts a string into the pieces a separator mask marks out.
fn segments_exec(tc: &Vec<char>, mask: &Vec<bool>) -> (r: Vec<String>)
    requires
        tc@.len() == mask@.len(),
    ensures
        r.deep_view() == segments_from(tc@, mask@, 0),
{
    let n = tc.len();
    let mut out: Vec<String> = Vec::new();
    let mut i: usize = 0;
    proof {
        assert(segments_from(tc@, mask@, 0) =~= Seq::<Seq<char>>::empty() + segments_from(
            tc@,
            mask@,
            0,
        ));
    }
    loop
        invariant_except_break
            segments_from(tc@, mask@, 0) == out.deep_view() + segments_from(
                tc@,
                mask@,
                i as int,
            ),
        invariant
            i <= n,
            n == tc@.len(),
            tc@.len() == mask@.len(),
        ensures
            out.deep_view() == segments_from(tc@, mask@, 0),
        decreases n - i,
    {
        proof {
            lemma_seg_end_props(mask@, i as int);
        }
        let mut e: usize = i;
        while e < n && !mask[e]
            invariant
                i <= e <= n,
                n == tc@.len(),
                tc@.len() == mask@.len(),
                seg_end(mask@, i as int) == seg_end(mask@, e as int),
            decreases n - e,
        {
            e = e + 1;
        }
        proof {
            assert(seg_end(mask@, i as int) == e);
        }
        let piece_chars = slice_chars(tc, i, e);
        let piece = string_of(&piece_chars);
        let ghost pre_dv = out.deep_view();
        out.push(piece);
        proof {
            assert(out.deep_view() =~= pre_dv.push(tc@.subrange(i as int, e as int)));
        }
        if e >= n {
            proof {
                assert(segments_from(tc@, mask@, i as int) =~= seq![tc@.subrange(
                    i as int,
                    tc@.len() as int,
                )]);
                assert(out.deep_view() =~= segments_from(tc@, mask@, 0));
            }
            break ;
        }
        proof {
            assert(segments_from(tc@, mask@, i as int) == seq![tc@.subrange(i as int, e as int)]
                + segments_from(tc@, mask@, e + 1));
            assert(segments_from(tc@, mask@, 0) =~= out.deep_view() + segments_from(
                tc@,
                mask@,
                e + 1,
            ));
        }
        i = e + 1;
    }
    out
}

impl TokenizerNaive {
    /// Splits `t` at every character the pattern accepts and keeps the
    /// nonempty pieces. The pattern may answer as it pleases; some mask of
    /// answers it could give governs the split.
    pub fn word_splitter<F: Fn(char) -> bool>(t: &str, pattern: F) -> (r: Vec<String>)
        requires
            forall|c: char| #[trigger] call_requires(pattern, (c,)),
        ensures
            exists|m: Seq<bool>|
                {
                    &&& m.len() == t@.len()
                    &&& (forall|x: int|
                        0 <= x < m.len() ==> call_ensures(pattern, (t@[x],), #[trigger] m[x]))
                    &&& r.deep_view() == segments_from(t@, m, 0).filter(
                        |tok: Seq<char>| tok.len() > 0,
                    )
                },
    {
        let tc = chars_of(t);
        let mask = char_mask(&tc, pattern);
        let segs = segments_exec(&tc, &mask);
        let ghost pred = |tok: Seq<char>| tok.len() > 0;
        let mut out: Vec<String> = Vec::new();
        let mut i: usize = 0;
        proof {
            assert(segs.deep_view().take(0).filter(pred) =~= Seq::<Seq<char>>::empty()) by {
                segs.deep_view().take(0).lemma_filter_len(pred);
            }
            assert(out.deep_view() =~= segs.deep_view().take(0).filter(pred));
        }
        while i < segs.len()
            invariant
                i <= segs@.len(),
                segs.deep_view().len() == segs@.len(),
                pred == (|tok: Seq<char>| tok.len() > 0),
                out.deep_view() == segs.deep_view().take(i as int).filter(pred),
            decreases segs@.len() - i,
        {
            let ghost pre_dv = out.deep_view();
            let ghost x = segs.deep_view()[i as int];
            proof {
                reveal_with_fuel(Seq::filter, 2);
                assert(segs.deep_view().take(i as int + 1) =~= segs.deep_view().take(i as int)
                    + seq![x]);
                Seq::filter_distributes_over_add(segs.deep_view().take(i as int), seq![x], pred);
                assert(seq![x].drop_last() =~= Seq::<Seq<char>>::empty());
                assert(x == segs@[i as int]@);
            }
            if !segs[i].as_str().is_empty() {
                out.push(segs[i].clone());
                proof {
                    assert(out.deep_view() =~= pre_dv.push(x));
                    assert(pred(x));
                    assert(seq![x].filter(pred) =~= seq![x]);
                    assert(out.deep_view() =~= segs.deep_view().take(i as int + 1).filter(pred));
                }
            } else {
                proof {
                    assert(!pred(x));
                    assert(seq![x].filter(pred) =~= Seq::<Seq<char>>::empty());
                    assert(out.deep_view() =~= segs.deep_view().take(i as int + 1).filter(pred));
                }
            }
            i = i + 1;
        }
        proof {
            assert(segs.deep_view().take(segs@.len() as int) =~= segs.deep_view());
            assert(mask@.len() == t@.len());
        }
        out
    }

    /// Splits `t` at every character the pattern accepts, keeping empty
    /// pieces, lowercases each piece, and joins them with single spaces.
    pub fn tokens_lower_with_filter<F: Fn(char) -> bool>(t: &str, pattern: F) -> (r: String)
        requires
            forall|c: char| #[trigger] call_requires(pattern, (c,)),
        ensures
            exists|m: Seq<bool>|
                {
                    &&& m.len() == t@.len()
                    &&& (forall|x: int|
                        0 <= x < m.len() ==> call_ensures(pattern, (t@[x],), #[trigger] m[x]))
                    &&& r@ == join_seqs(
                        segments_from(t@, m, 0).map_values(|x: Seq<char>| lower_of(x)),
                        seq![' '],
                    )
                },
    {
        let tc = chars_of(t);
        let mask = char_mask(&tc, pattern);
        let segs = segments_exec(&tc, &mask);
        let mut lowered: Vec<String> = Vec::new();
        let mut i: usize = 0;
        proof {
            assert(lowered.deep_view() =~= segs.deep_view().take(0).map_values(
                |x: Seq<char>| lower_of(x),
            ));
        }
        while i < segs.len()
            invariant
                i <= segs@.len(),
                segs.deep_view().len() == segs@.len(),
                lowered.deep_view() == segs.deep_view().take(i as int).map_values(
                    |x: Seq<char>| lower_of(x),
                ),
            decreases segs@.len() - i,
        {
            let ghost pre_dv = lowered.deep_view();
            lowered.push(lowercase(segs[i].as_str()));
            proof {
                assert(segs.deep_view().take(i as int + 1) =~= segs.deep_view().take(
                    i as int,
                ).push(segs.deep_view()[i as int]));
                assert(segs.deep_view()[i as int] == segs@[i as int]@);
                assert(lowered.deep_view() =~= pre_dv.push(lower_of(segs.deep_view()[i as int])));
                assert(lowered.deep_view() =~= segs.deep_view().take(i as int + 1).map_values(
                    |x: Seq<char>| lower_of(x),
                ));
            }
            i = i + 1;
        }
        proof {
            assert(segs.deep_view().take(segs@.len() as int) =~= segs.deep_view());
        }
        let joined = join_with(&lowered, " ");
        proof {
            reveal_strlit(" ");
            assert(" "@ =~= seq![' ']);
            assert(mask@.len() == t@.len());
        }
        joined
    }

    /// Every character of `t` as a one-character string, spaces included.
    pub fn tokens(t: &str) -> (r: Vec<String>)
        ensures
            r.deep_view() == Seq::new(t@.len(), |i: int| seq![t@[i]]),
    {
        let tc = chars_of(t);
        let mut out: Vec<String> = Vec::new();
        let mut i: usize = 0;
        while i < tc.len()
            invariant
                i <= tc@.len(),
                tc@ == t@,
                out.deep_view() == Seq::new(i as nat, |x: int| seq![t@[x]]),
            decreases tc@.len() - i,
        {
            let ghost pre_dv = out.deep_view();
            let mut one = String::new();
            push_char(&mut one, tc[i]);
            out.push(one);
            proof {
                assert(out.deep_view() =~= pre_dv.push(seq![t@[i as int]]));
                assert(out.deep_view() =~= Seq::new(i as nat + 1, |x: int| seq![t@[x]]));
            }
            i = i + 1;
        }
        proof {
            assert(out.deep_view() =~= Seq::new(t@.len(), |x: int| seq![t@[x]]));
        }
        out
    }

    /// The whole string lowercased.
    pub fn tokens_lower_str(s: &str) -> (r: String)
        ensures
            r@ == lower_of(s@),
    {
        lowercase(s)
    }

    /// Every character that is not alphanumeric replaced by a space.
    pub fn tokens_alphanumeric(s: &str) -> (r: String)
        ensures
            r@ == s@.map_values(
                |c: char|
                    if alphanumeric(c) {
                        c
                    } else {
                        ' '
                    },
            ),
    {
        let sc = chars_of(s);
        let mut out: Vec<char> = Vec::new();
        let mut i: usize = 0;
        while i < sc.len()
            invariant
                i <= sc@.len(),
                sc@ == s@,
                out@ == s@.take(i as int).map_values(
                    |c: char|
                        if alphanumeric(c) {
                            c
                        } else {
                            ' '
                        },
                ),
            decreases sc@.len() - i,
        {
            let c = sc[i];
            if c.is_alphanumeric() {
                out.push(c);
            } else {
                out.push(' ');
            }
            proof {
                assert(s@.take(i as int + 1) =~= s@.take(i as int).push(s@[i as int]));
                assert(out@ =~= s@.take(i as int + 1).map_values(
                    |ch: char|
                        if alphanumeric(ch) {
                            ch
                        } else {
                            ' '
                        },
                ));
            }
            i = i + 1;
        }
        proof {
            assert(s@.take(s@.len() as int) =~= s@);
        }
        string_of(&out)
    }

    /// Lowercases, replaces everything that is not alphanumeric by spaces,
    /// and rejoins the remaining whitespace-delimited tokens with single
    /// spaces, trimming the ends.
    pub fn pre_process(s: &str) -> (r: String)
        ensures
            r@ == join_seqs(
                tokens_of(
                    lower_of(s@).map_values(
                        |c: char|
                            if alphanumeric(c) {
                                c
                            } else {
                                ' '
                            },
                    ),
                    ws_sep(),
                ),
                seq![' '],
            ),
    {
        let lowered = TokenizerNaive::tokens_lower_str(s);
        let replaced = TokenizerNaive::tokens_alphanumeric(lowered.as_str());
        let toks = split_ws_tokens(replaced.as_str());
        let joined = join_with(&toks, " ");
        proof {
            reveal_strlit(" ");
            assert(" "@ =~= seq![' ']);
        }
        joined
    }
}

/// Which similarity measure a token wrapper applies.
#[derive(Clone, Copy, PartialEq, Eq, Structural)]
pub enum ScoreKind {
    Full,
    Partial,
}

/// How sorted tokens are put back together before scoring: run together, or
/// joined by single spaces.
#[derive(Clone, Copy, PartialEq, Eq, Structural)]
pub enum TokenJoin {
    Concat,
    Spaced,
}

/// The score the chosen measure gives two strings.
pub open spec fn score_of(kind: ScoreKind, a: Seq<char>, b: Seq<char>) -> int {
    match kind {
        ScoreKind::Full => similarity_spec(a, b),
        ScoreKind::Partial => partial_similarity_spec(a, b),
    }
}

/// Either measure stays within the score band.
pub proof fn lemma_score_of_range(kind: ScoreKind, a: Seq<char>, b: Seq<char>)
    ensures
        0 <= score_of(kind, a, b) <= 100,
{
    match kind {
        ScoreKind::Full => lemma_similarity_spec_range(a, b),
        ScoreKind::Partial => {
            lemma_partial_best_range(
                ordered_first(a, b),
                blocks_spec(ordered_first(a, b), ordered_second(a, b)),
            );
        },
    }
}

/// The elements of `s` with every later duplicate dropped: each element
/// keeps its first occurrence only, in order.
pub open spec fn dedup_first(s: Seq<Seq<char>>) -> Seq<Seq<char>>
    decreases s.len(),
{
    if s.len() == 0 {
        Seq::empty()
    } else if s.drop_last().contains(s.last()) {
        dedup_first(s.drop_last())
    } else {
        dedup_first(s.drop_last()).push(s.last())
    }
}

/// The distinct tokens of `a` that also occur in `b`, in their order in `a`.
pub open spec fn intersect_spec(a: Seq<Seq<char>>, b: Seq<Seq<char>>) -> Seq<Seq<char>> {
    dedup_first(a).filter(|x: Seq<char>| b.contains(x))
}

/// The distinct tokens of `a` that do not occur in `b`, in their order in
/// `a`.
pub open spec fn uniq_spec(a: Seq<Seq<char>>, b: Seq<Seq<char>>) -> Seq<Seq<char>> {
    dedup_first(a).filter(|x: Seq<char>| !b.contains(x))
}

/// The distinct tokens of `a` and `b` together, ordered by first occurrence.
pub open spec fn union_spec(a: Seq<Seq<char>>, b: Seq<Seq<char>>) -> Seq<Seq<char>> {
    dedup_first(a + b)
}

/// Relies on array_tool's Vec::intersect: the distinct elements of `a` that
/// also occur in `b`, in their order of first occurrence in `a`.
#[verifier::external_body]
pub(crate) fn vec_intersect(a: &Vec<String>, b: &Vec<String>) -> (r: Vec<String>)
    ensures
        r.deep_view() == intersect_spec(a.deep_view(), b.deep_view()),
{
    array_tool::vec::Intersect::intersect(a, b.clone())
}

/// Relies on array_tool's Vec::uniq: the distinct elements of `a` that do
/// not occur in `b`, in their order of first occurrence in `a`.
#[verifier::external_body]
pub(crate) fn vec_uniq(a: &Vec<String>, b: &Vec<String>) -> (r: Vec<String>)
    ensures
        r.deep_view() == uniq_spec(a.deep_view(), b.deep_view()),
{
    array_tool::vec::Uniq::uniq(a, b.clone())
}

/// Relies on array_tool's Vec::union: the elements of `a` then of `b`, with
/// every later duplicate dropped.
#[verifier::external_body]
pub(crate) fn vec_union(a: &Vec<String>, b: &Vec<String>) -> (r: Vec<String>)
    ensures
        r.deep_view() == union_spec(a.deep_view(), b.deep_view()),
{
    array_tool::vec::Union::union(a, b.clone())
}

/// A copy of a token list, token for token.
fn clone_strings(v: &Vec<String>) -> (r: Vec<String>)
    ensures
        r.deep_view() == v.deep_view(),
{
    let mut r: Vec<String> = Vec::new();
    let mut i: usize = 0;
    proof {
        assert(r.deep_view() =~= v.deep_view().take(0));
    }
    while i < v.len()
        invariant
            i <= v@.len(),
            v.deep_view().len() == v@.len(),
            r.deep_view() == v.deep_view().take(i as int),
        decreases v@.len() - i,
    {
        let ghost pre_dv = r.deep_view();
        r.push(v[i].clone());
        proof {
            assert(r.deep_view() =~= pre_dv.push(v.deep_view()[i as int]));
            assert(v.deep_view().take(i as int + 1) =~= v.deep_view().take(i as int).push(
                v.deep_view()[i as int],
            ));
        }
        i = i + 1;
    }
    proof {
        assert(v.deep_view().take(v@.len() as int) =~= v.deep_view());
    }
    r
}

impl TokenCmp {
    /// A comparison pair built by running each token list together, with
    /// nothing between tokens.
    pub fn new_set(tokens1: Vec<String>, tokens2: Vec<String>) -> (r: TokenCmp)
        ensures
            r@ == (concat_seqs(tokens1.deep_view()), concat_seqs(tokens2.deep_view())),
    {
        let s1 = concat_all(&tokens1);
        let s2 = concat_all(&tokens2);
        TokenCmp { term1: chars_of(s1.as_str()), term2: chars_of(s2.as_str()) }
    }

    /// A comparison pair built by sorting each token list and running it
    /// together, with nothing between tokens.
    pub fn new_sort(tokens1: Vec<String>, tokens2: Vec<String>) -> (r: TokenCmp)
        ensures
            r@ == (
                concat_seqs(tokens1.deep_view().sort_by(lex_leq())),
                concat_seqs(tokens2.deep_view().sort_by(lex_leq())),
            ),
    {
        let v1 = sort_strings(&tokens1);
        let v2 = sort_strings(&tokens2);
        let s1 = concat_all(&v1);
        let s2 = concat_all(&v2);
        TokenCmp { term1: chars_of(s1.as_str()), term2: chars_of(s2.as_str()) }
    }

    /// A comparison pair built by joining each token list with `sep`.
    pub fn new_set_join(tokens1: Vec<String>, tokens2: Vec<String>, sep: &str) -> (r: TokenCmp)
        ensures
            r@ == (join_seqs(tokens1.deep_view(), sep@), join_seqs(tokens2.deep_view(), sep@)),
    {
        let s1 = join_with(&tokens1, sep);
        let s2 = join_with(&tokens2, sep);
        TokenCmp { term1: chars_of(s1.as_str()), term2: chars_of(s2.as_str()) }
    }

    /// A comparison pair built by sorting each token list and joining it
    /// with `sep`.
    pub fn new_sort_join(tokens1: Vec<String>, tokens2: Vec<String>, sep: &str) -> (r: TokenCmp)
        ensures
            r@ == (
                join_seqs(tokens1.deep_view().sort_by(lex_leq()), sep@),
                join_seqs(tokens2.deep_view().sort_by(lex_leq()), sep@),
            ),
    {
        let v1 = sort_strings(&tokens1);
        let v2 = sort_strings(&tokens2);
        let s1 = join_with(&v1, sep);
        let s2 = join_with(&v2, sep);
        TokenCmp { term1: chars_of(s1.as_str()), term2: chars_of(s2.as_str()) }
    }
}

/// The lowercased alphanumeric tokens of a string.
pub open spec fn lower_tokens(s: Seq<char>) -> Seq<Seq<char>> {
    tokens_of(s, alnum_sep()).map_values(|t: Seq<char>| lower_of(t))
}

/// One token-sort comparison string: the lowercased alphanumeric tokens,
/// sorted, put back together per the chosen style.
pub open spec fn token_sort_term(s: Seq<char>, sorter: TokenJoin) -> Seq<char> {
    let toks = lower_tokens(s).sort_by(lex_leq());
    match sorter {
        TokenJoin::Concat => concat_seqs(toks),
        TokenJoin::Spaced => join_seqs(toks, seq![' ']),
    }
}

/// Scores two strings on their sorted alphanumeric tokens: each input is
/// tokenized, lowercased, sorted and put back together, and the chosen
/// measure scores the two results.
pub fn token_sort(t1: &str, t2: &str, sorter: TokenJoin, rat: ScoreKind) -> (r: u8)
    ensures
        r as int == score_of(rat, token_sort_term(t1@, sorter), token_sort_term(t2@, sorter)),
        r <= 100,
{
    let an = AlphaNumericTokenizer;
    let p1 = an.sequencer(t1);
    let p2 = an.sequencer(t2);
    let cmp = match sorter {
        TokenJoin::Concat => TokenCmp::new_sort(p1, p2),
        TokenJoin::Spaced => {
            let c = TokenCmp::new_sort_join(p1, p2, " ");
            proof {
                reveal_strlit(" ");
                assert(" "@ =~= seq![' ']);
            }
            c
        },
    };
    match rat {
        ScoreKind::Full => cmp.similarity(),
        ScoreKind::Partial => cmp.partial_similarity(),
    }
}

/// The three comparison strings of the token-set construction: the sorted
/// common tokens; those followed by the tokens only the first string has;
/// and those followed by the tokens only the second string has. Tokens are
/// run together with nothing between them.
pub open spec fn token_set_parts(a: Seq<char>, b: Seq<char>) -> (Seq<char>, Seq<char>, Seq<char>) {
    let ta = lower_tokens(a);
    let tb = lower_tokens(b);
    let both = intersect_spec(ta, tb).sort_by(lex_leq());
    let qa = uniq_spec(ta, tb).sort_by(lex_leq());
    let qb = uniq_spec(tb, ta).sort_by(lex_leq());
    (concat_seqs(both), concat_seqs(union_spec(both, qa)), concat_seqs(union_spec(both, qb)))
}

/// The largest of three scores.
pub open spec fn max3(a: int, b: int, c: int) -> int {
    if a >= b && a >= c {
        a
    } else if b >= c {
        b
    } else {
        c
    }
}

/// Scores two strings on their token sets: the common tokens, and each
/// side's own tokens appended to them, give three comparison strings; the
/// chosen measure scores the three pairs and the best score wins.
pub fn token_set(s1: &str, s2: &str, rat: ScoreKind) -> (r: u8)
    ensures
        ({
            let (ib, ua, ub) = token_set_parts(s1@, s2@);
            r as int == max3(
                score_of(rat, ib, ua),
                score_of(rat, ib, ub),
                score_of(rat, ua, ub),
            )
        }),
        r <= 100,
{
    let an = AlphaNumericTokenizer;
    let p1 = an.sequencer(s1);
    let p2 = an.sequencer(s2);
    let both0 = vec_intersect(&p1, &p2);
    let q1_0 = vec_uniq(&p1, &p2);
    let q2_0 = vec_uniq(&p2, &p1);
    let both = sort_strings(&both0);
    let q1 = sort_strings(&q1_0);
    let q2 = sort_strings(&q2_0);
    let u1 = vec_union(&both, &q1);
    let u2 = vec_union(&both, &q2);
    let ra = {
        let cmp = TokenCmp::new_set(clone_strings(&both), clone_strings(&u1));
        match rat {
            ScoreKind::Full => cmp.similarity(),
            ScoreKind::Partial => cmp.partial_similarity(),
        }
    };
    let rb = {
        let cmp = TokenCmp::new_set(both, clone_strings(&u2));
        match rat {
            ScoreKind::Full => cmp.similarity(),
            ScoreKind::Partial => cmp.partial_similarity(),
        }
    };
    let rc = {
        let cmp = TokenCmp::new_set(u1, u2);
        match rat {
            ScoreKind::Full => cmp.similarity(),
            ScoreKind::Partial => cmp.partial_similarity(),
        }
    };
    let mut best = ra;
    if rb > best {
        best = rb;
    }
    if rc > best {
        best = rc;
    }
    best
}

} // verus!
