//! The scorer-facing interface: the global and best-window ratios on raw
//! strings, and the token-based wrappers, each with optional ASCII filtering
//! and pre-processing.
use vstd::prelude::*;

verus! {

use crate::text::{
    alphanumeric,
    chars_of,
    join_seqs,
    join_with,
    lex_leq,
    lower_of,
    lowercase,
    slice_chars,
    sort_strings,
    string_of,
};
use vstd::string::StringExecFns;
use crate::tokenize::{
    intersect_spec,
    score_of,
    vec_intersect,
    vec_uniq,
    partial_similarity_spec,
    similarity_spec,
    split_ws_tokens,
    tokens_of,
    uniq_spec,
    ws_sep,
    max3,
    ScoreKind,
    TokenCmp,
};

/// The global Ratcliff-Obershelp similarity of two strings, between 0 and
/// 100; both strings empty score 100.
pub fn ratio(a: &str, b: &str) -> (r: u8)
    ensures
        r as int == similarity_spec(a@, b@),
        r <= 100,
{
    TokenCmp::new_from_str(a, b).similarity()
}

/// The best similarity between the smaller string and the windows its
/// matching blocks cut out of it, between 0 and 100.
pub fn partial_ratio(a: &str, b: &str) -> (r: u8)
    ensures
        r as int == partial_similarity_spec(a@, b@),
        r <= 100,
{
    TokenCmp::new_from_str(a, b).partial_similarity()
}

/// The string restricted to its ASCII characters.
pub open spec fn ascii_only(s: Seq<char>) -> Seq<char> {
    s.filter(|c: char| (c as u32) < 128)
}

/// Every character that is not alphanumeric replaced by a space.
pub open spec fn spaced_non_alnum(s: Seq<char>) -> Seq<char> {
    s.map_values(
        |c: char|
            if alphanumeric(c) {
                c
            } else {
                ' '
            },
    )
}

/// The string with every leading space removed.
pub open spec fn trim_front(s: Seq<char>) -> Seq<char>
    decreases s.len(),
{
    if s.len() > 0 && s[0] == ' ' {
        trim_front(s.drop_first())
    } else {
        s
    }
}

/// The string with every trailing space removed.
pub open spec fn trim_back(s: Seq<char>) -> Seq<char>
    decreases s.len(),
{
    if s.len() > 0 && s.last() == ' ' {
        trim_back(s.drop_last())
    } else {
        s
    }
}

/// The string with spaces stripped from both ends.
pub open spec fn trim_spaces(s: Seq<char>) -> Seq<char> {
    trim_back(trim_front(s))
}

/// What `pre_process` returns: optionally drop non-ASCII characters, then
/// replace every non-alphanumeric character by a space, lowercase, and strip
/// the ends.
pub open spec fn pre_process_spec(s: Seq<char>, force_ascii: bool) -> Seq<char> {
    let kept = if force_ascii {
        ascii_only(s)
    } else {
        s
    };
    trim_spaces(lower_of(spaced_non_alnum(kept)))
}

/// The characters of `v` with spaces stripped from both ends.
fn trim_chars(v: &Vec<char>) -> (r: Vec<char>)
    ensures
        r@ == trim_spaces(v@),
{
    let n = v.len();
    let mut st: usize = 0;
    proof {
        assert(v@.skip(0) =~= v@);
    }
    while st < n && v[st] == ' '
        invariant
            st <= n,
            n == v@.len(),
            trim_front(v@) == trim_front(v@.skip(st as int)),
        decreases n - st,
    {
        proof {
            assert(v@.skip(st as int)[0] == v@[st as int]);
            assert(v@.skip(st as int).drop_first() =~= v@.skip(st as int + 1));
        }
        st = st + 1;
    }
    proof {
        if st < n {
            assert(v@.skip(st as int)[0] == v@[st as int]);
            assert(trim_front(v@.skip(st as int)) == v@.skip(st as int));
        } else {
            assert(v@.skip(st as int).len() == 0);
            assert(trim_front(v@.skip(st as int)) == v@.skip(st as int));
        }
    }
    let mut en: usize = n;
    proof {
        assert(v@.subrange(st as int, en as int) =~= v@.skip(st as int));
    }
    while en > st && v[en - 1] == ' '
        invariant
            st <= en <= n,
            n == v@.len(),
            trim_back(v@.skip(st as int)) == trim_back(v@.subrange(st as int, en as int)),
        decreases en,
    {
        proof {
            assert(v@.subrange(st as int, en as int).last() == v@[en - 1]);
            assert(v@.subrange(st as int, en as int).drop_last() =~= v@.subrange(
                st as int,
                en as int - 1,
            ));
        }
        en = en - 1;
    }
    proof {
        if en > st {
            assert(v@.subrange(st as int, en as int).last() == v@[en - 1]);
            assert(trim_back(v@.subrange(st as int, en as int)) == v@.subrange(
                st as int,
                en as int,
            ));
        } else {
            assert(v@.subrange(st as int, en as int).len() == 0);
            assert(trim_back(v@.subrange(st as int, en as int)) == v@.subrange(
                st as int,
                en as int,
            ));
        }
    }
    slice_chars(v, st, en)
}

/// Optionally drops non-ASCII characters, replaces every non-alphanumeric
/// character by a space, lowercases, and strips spaces from the ends.
pub fn pre_process(s: &str, force_ascii: bool) -> (r: String)
    ensures
        r@ == pre_process_spec(s@, force_ascii),
{
    let sc = chars_of(s);
    let ghost pred = |c: char| (c as u32) < 128;
    let kept: Vec<char> = if force_ascii {
        let mut kept: Vec<char> = Vec::new();
        let mut i: usize = 0;
        proof {
            assert(s@.take(0).filter(pred) =~= Seq::<char>::empty()) by {
                s@.take(0).lemma_filter_len(pred);
            }
            assert(kept@ =~= s@.take(0).filter(pred));
        }
        while i < sc.len()
            invariant
                i <= sc@.len(),
                sc@ == s@,
                pred == (|c: char| (c as u32) < 128),
                kept@ == s@.take(i as int).filter(pred),
            decreases sc@.len() - i,
        {
            let c = sc[i];
            proof {
                reveal_with_fuel(Seq::filter, 2);
                assert(s@.take(i as int + 1) =~= s@.take(i as int) + seq![s@[i as int]]);
                Seq::filter_distributes_over_add(s@.take(i as int), seq![s@[i as int]], pred);
                assert(seq![s@[i as int]].drop_last() =~= Seq::<char>::empty());
            }
            if (c as u32) < 128 {
                kept.push(c);
                proof {
                    assert(pred(s@[i as int]));
                    assert(seq![s@[i as int]].filter(pred) =~= seq![s@[i as int]]);
                    assert(kept@ =~= s@.take(i as int + 1).filter(pred));
                }
            } else {
                proof {
                    assert(!pred(s@[i as int]));
                    assert(seq![s@[i as int]].filter(pred) =~= Seq::<char>::empty());
                    assert(kept@ =~= s@.take(i as int + 1).filter(pred));
                }
            }
            i = i + 1;
        }
        proof {
            assert(s@.take(s@.len() as int) =~= s@);
        }
        kept
    } else {
        sc
    };
    let mut spaced: Vec<char> = Vec::new();
    let mut i: usize = 0;
    let ghost keptv = kept@;
    while i < kept.len()
        invariant
            i <= kept@.len(),
            kept@ == keptv,
            spaced@ == keptv.take(i as int).map_values(
                |c: char|
                    if alphanumeric(c) {
                        c
                    } else {
                        ' '
                    },
            ),
        decreases kept@.len() - i,
    {
        let c = kept[i];
        if c.is_alphanumeric() {
            spaced.push(c);
        } else {
            spaced.push(' ');
        }
        proof {
            assert(keptv.take(i as int + 1) =~= keptv.take(i as int).push(keptv[i as int]));
            assert(spaced@ =~= keptv.take(i as int + 1).map_values(
                |ch: char|
                    if alphanumeric(ch) {
                        ch
                    } else {
                        ' '
                    },
            ));
        }
        i = i + 1;
    }
    proof {
        assert(keptv.take(keptv.len() as int) =~= keptv);
    }
    let spaced_str = string_of(&spaced);
    let lowered = lowercase(spaced_str.as_str());
    let lowered_chars = chars_of(lowered.as_str());
    let trimmed = trim_chars(&lowered_chars);
    string_of(&trimmed)
}

/// Whether the inputs are pre-processed before comparison, and the processed
/// form of one input.
pub open spec fn processed(s: Seq<char>, force_ascii: bool, full_process: bool) -> Seq<char> {
    if full_process {
        pre_process_spec(s, force_ascii)
    } else {
        s
    }
}

/// One token-sort comparison string: the whitespace-delimited tokens of the
/// (possibly pre-processed) input, sorted, joined by single spaces.
pub open spec fn token_sort_term(s: Seq<char>, force_ascii: bool, full_process: bool) -> Seq<
    char,
> {
    join_seqs(tokens_of(processed(s, force_ascii, full_process), ws_sep()).sort_by(lex_leq()), seq![' '])
}

/// The sorted, space-joined whitespace tokens of the (possibly
/// pre-processed) input, as a string.
fn sorted_term(s: &str, force_ascii: bool, full_process: bool) -> (r: String)
    ensures
        r@ == token_sort_term(s@, force_ascii, full_process),
{
    let base = if full_process {
        pre_process(s, force_ascii)
    } else {
        s.to_owned()
    };
    let toks = split_ws_tokens(base.as_str());
    let sorted = sort_strings(&toks);
    let joined = join_with(&sorted, " ");
    proof {
        reveal_strlit(" ");
        assert(" "@ =~= seq![' ']);
    }
    joined
}

/// Scores two strings on their sorted whitespace-delimited tokens: each
/// input is optionally pre-processed, its tokens are sorted and rejoined
/// with single spaces, and the two results are scored globally.
pub fn token_sort_ratio(a: &str, b: &str, force_ascii: bool, full_process: bool) -> (r: u8)
    ensures
        r as int == similarity_spec(
            token_sort_term(a@, force_ascii, full_process),
            token_sort_term(b@, force_ascii, full_process),
        ),
        r <= 100,
{
    let ta = sorted_term(a, force_ascii, full_process);
    let tb = sorted_term(b, force_ascii, full_process);
    TokenCmp::new_from_str(ta.as_str(), tb.as_str()).similarity()
}

/// As `token_sort_ratio`, scored with the best-window measure instead.
pub fn partial_token_sort_ratio(a: &str, b: &str, force_ascii: bool, full_process: bool) -> (r:
    u8)
    ensures
        r as int == partial_similarity_spec(
            token_sort_term(a@, force_ascii, full_process),
            token_sort_term(b@, force_ascii, full_process),
        ),
        r <= 100,
{
    let ta = sorted_term(a, force_ascii, full_process);
    let tb = sorted_term(b, force_ascii, full_process);
    TokenCmp::new_from_str(ta.as_str(), tb.as_str()).partial_similarity()
}

/// The three comparison strings of the token-set construction: the sorted
/// common tokens joined by spaces; and, for each side, that string followed
/// directly (no separating space) by the side's own sorted, space-joined
/// tokens. A side with no tokens of its own contributes the common string
/// unchanged.
pub open spec fn token_set_strings(
    a: Seq<char>,
    b: Seq<char>,
    force_ascii: bool,
    full_process: bool,
) -> (Seq<char>, Seq<char>, Seq<char>) {
    let ta = tokens_of(processed(a, force_ascii, full_process), ws_sep());
    let tb = tokens_of(processed(b, force_ascii, full_process), ws_sep());
    let int_s = join_seqs(intersect_spec(ta, tb).sort_by(lex_leq()), seq![' ']);
    let d1 = join_seqs(uniq_spec(ta, tb).sort_by(lex_leq()), seq![' ']);
    let d2 = join_seqs(uniq_spec(tb, ta).sort_by(lex_leq()), seq![' ']);
    (int_s, int_s + d1, int_s + d2)
}

/// The whitespace tokens of the (possibly pre-processed) input.
fn side_tokens(s: &str, force_ascii: bool, full_process: bool) -> (r: Vec<String>)
    ensures
        r.deep_view() == tokens_of(processed(s@, force_ascii, full_process), ws_sep()),
{
    let base = if full_process {
        pre_process(s, force_ascii)
    } else {
        s.to_owned()
    };
    split_ws_tokens(base.as_str())
}

/// Scores two strings on their token sets under the chosen measure.
fn token_set_scored(a: &str, b: &str, force_ascii: bool, full_process: bool, rat: ScoreKind) -> (r:
    u8)
    ensures
        ({
            let (int_s, c1, c2) = token_set_strings(a@, b@, force_ascii, full_process);
            r as int == max3(
                score_of(rat, int_s, c1),
                score_of(rat, int_s, c2),
                score_of(rat, c1, c2),
            )
        }),
        r <= 100,
{
    let ta = side_tokens(a, force_ascii, full_process);
    let tb = side_tokens(b, force_ascii, full_process);
    let both = sort_strings(&vec_intersect(&ta, &tb));
    let d1 = sort_strings(&vec_uniq(&ta, &tb));
    let d2 = sort_strings(&vec_uniq(&tb, &ta));
    let int_s = join_with(&both, " ");
    let d1_s = join_with(&d1, " ");
    let d2_s = join_with(&d2, " ");
    proof {
        reveal_strlit(" ");
        assert(" "@ =~= seq![' ']);
    }
    let c1 = int_s.clone().concat(d1_s.as_str());
    let c2 = int_s.clone().concat(d2_s.as_str());
    let ra = score_pair(int_s.as_str(), c1.as_str(), rat);
    let rb = score_pair(int_s.as_str(), c2.as_str(), rat);
    let rc = score_pair(c1.as_str(), c2.as_str(), rat);
    let mut best = ra;
    if rb > best {
        best = rb;
    }
    if rc > best {
        best = rc;
    }
    best
}

/// One pair scored under the chosen measure.
fn score_pair(a: &str, b: &str, rat: ScoreKind) -> (r: u8)
    ensures
        r as int == score_of(rat, a@, b@),
        r <= 100,
{
    let cmp = TokenCmp::new_from_str(a, b);
    match rat {
        ScoreKind::Full => cmp.similarity(),
        ScoreKind::Partial => cmp.partial_similarity(),
    }
}

/// Scores two strings on their token sets: the tokens both share, and each
/// side's own tokens appended to those, give three comparison strings; the
/// global measure scores the three pairs and the best score wins.
pub fn token_set_ratio(a: &str, b: &str, force_ascii: bool, full_process: bool) -> (r: u8)
    ensures
        ({
            let (int_s, c1, c2) = token_set_strings(a@, b@, force_ascii, full_process);
            r as int == max3(
                similarity_spec(int_s, c1),
                similarity_spec(int_s, c2),
                similarity_spec(c1, c2),
            )
        }),
        r <= 100,
{
    token_set_scored(a, b, force_ascii, full_process, ScoreKind::Full)
}

/// As `token_set_ratio`, scored with the best-window measure instead.
pub fn partial_token_set_ratio(a: &str, b: &str, force_ascii: bool, full_process: bool) -> (r: u8)
    ensures
        ({
            let (int_s, c1, c2) = token_set_strings(a@, b@, force_ascii, full_process);
            r as int == max3(
                partial_similarity_spec(int_s, c1),
                partial_similarity_spec(int_s, c2),
                partial_similarity_spec(c1, c2),
            )
        }),
        r <= 100,
{
    token_set_scored(a, b, force_ascii, full_process, ScoreKind::Partial)
}

/// Pre-processes both inputs unconditionally, then scores them globally.
pub fn qratio(a: &str, b: &str, force_ascii: bool) -> (r: u8)
    ensures
        r as int == similarity_spec(
            pre_process_spec(a@, force_ascii),
            pre_process_spec(b@, force_ascii),
        ),
        r <= 100,
{
    let pa = pre_process(a, force_ascii);
    let pb = pre_process(b, force_ascii);
    TokenCmp::new_from_str(pa.as_str(), pb.as_str()).similarity()
}

/// As `qratio`, without ASCII filtering.
pub fn uqratio(a: &str, b: &str) -> (r: u8)
    ensures
        r as int == similarity_spec(pre_process_spec(a@, false), pre_process_spec(b@, false)),
        r <= 100,
{
    qratio(a, b, false)
}

} // verus!