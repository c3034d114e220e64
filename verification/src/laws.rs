//! The general laws of the similarity measures, proved once and for all:
//! identity, symmetry, and the invariance of the token wrappers under token
//! order and token-set equality.
use vstd::prelude::*;

verus! {

use crate::ratcliff_obershelp::{
    blocks_spec,
    first_match,
    lemma_lcs_spec_of_witness,
    lemma_raw_empty,
    match_in,
    merge_state,
    raw_blocks,
    some_match,
    total_k,
};
use crate::scores::{processed, token_sort_term, token_set_strings};
use crate::text::{join_seqs, lemma_lex_le_total, lemma_lex_total_ordering, lex_leq};
use crate::tokenize::{
    dedup_first,
    lemma_similarity_spec_range,
    max3,
    ordered_first,
    ordered_second,
    partial_best,
    partial_similarity_spec,
    similarity_spec,
    tokens_of,
    uniq_spec,
    ws_sep,
};

/// The matching blocks of a non-empty string against itself: one block
/// covering the whole string, then the sentinel.
pub proof fn lemma_blocks_self(s: Seq<char>)
    requires
        s.len() > 0,
    ensures
        blocks_spec(s, s) =~= seq![
            (0int, 0int, s.len() as int),
            (s.len() as int, s.len() as int, 0int),
        ],
{
    let n = s.len() as int;
    let t = (0int, 0int, n);
    assert(match_in(s, s, 0, n, 0, n, 0, 0, n));
    assert(first_match(s, s, 0, n, 0, n, 0, 0, n)) by {
        assert forall|k2: int| k2 > n implies !some_match(s, s, 0, n, 0, n, k2) by {
            assert forall|i2: int, j2: int| !match_in(s, s, 0, n, 0, n, i2, j2, k2) by {}
        }
    }
    lemma_lcs_spec_of_witness(s, s, 0, n, 0, n, t);
    let raw = raw_blocks(s, s, 0, n, 0, n);
    lemma_raw_empty(s, s, 0, 0, 0, 0);
    lemma_raw_empty(s, s, n, n, n, n);
    assert(raw =~= seq![t]) by {
        assert(raw == raw_blocks(s, s, 0, 0, 0, 0) + seq![t] + raw_blocks(s, s, n, n, n, n));
    }
    let ms = merge_state(seq![t]);
    assert(seq![t].drop_last() =~= Seq::<(int, int, int)>::empty());
    assert(merge_state(Seq::<(int, int, int)>::empty()) == (
        Seq::<(int, int, int)>::empty(),
        (0int, 0int, 0int),
    ));
    assert(seq![t].last() == t);
    assert(ms == (Seq::<(int, int, int)>::empty(), t));
    assert(blocks_spec(s, s) =~= Seq::<(int, int, int)>::empty().push(t).push((n, n, 0int)));
}

/// Any string, the empty one included, is fully similar to itself.
pub proof fn lemma_similarity_self(s: Seq<char>)
    ensures
        similarity_spec(s, s) == 100,
{
    lemma_lex_le_total(s, s);
    assert(ordered_first(s, s) == s && ordered_second(s, s) == s);
    if s.len() > 0 {
        lemma_blocks_self(s);
        let n = s.len() as int;
        let bl = blocks_spec(s, s);
        assert(total_k(bl) == n) by {
            reveal_with_fuel(total_k, 3);
            assert(bl.drop_last() =~= seq![(0int, 0int, n)]);
            assert(bl.last() == (n, n, 0int));
            assert(seq![(0int, 0int, n)].drop_last() =~= Seq::<(int, int, int)>::empty());
            assert(total_k(Seq::<(int, int, int)>::empty()) == 0);
            assert(seq![(0int, 0int, n)].last() == (0int, 0int, n));
        }
        assert((400 * n + 2 * n) / (2 * (2 * n)) == 100) by (nonlinear_arith)
            requires
                n >= 1,
        ;
    }
}

/// Identity: a non-empty string scores a full 100 against itself, under the
/// global measure and under the best-window measure alike.
pub proof fn lemma_identity(s: Seq<char>)
    requires
        s.len() > 0,
    ensures
        similarity_spec(s, s) == 100,
        partial_similarity_spec(s, s) == 100,
{
    lemma_similarity_self(s);
    lemma_lex_le_total(s, s);
    lemma_blocks_self(s);
    let n = s.len() as int;
    let bl = blocks_spec(s, s);
    let inner = seq![(0int, 0int, n)];
    assert(partial_best(s, bl) == 100) by {
        reveal_with_fuel(partial_best, 3);
        assert(bl.drop_last() =~= inner);
        assert(bl.last() == (n, n, 0int));
        assert(inner.drop_last() =~= Seq::<(int, int, int)>::empty());
        assert(inner.last() == (0int, 0int, n));
        assert(s.subrange(0, n) =~= s);
        assert(partial_best(s, Seq::<(int, int, int)>::empty()) == 0);
        assert(partial_best(s, inner) == 100);
        lemma_similarity_spec_range(s, s.subrange(n, n));
    }
}

/// Among the places where `a` occurs in `b`, there is a leftmost one.
proof fn lemma_least_occurrence(a: Seq<char>, b: Seq<char>, j0: int) -> (j: int)
    requires
        0 <= j0,
        j0 + a.len() <= b.len(),
        b.subrange(j0, j0 + a.len() as int) == a,
    ensures
        0 <= j <= j0,
        j + a.len() <= b.len(),
        b.subrange(j, j + a.len() as int) == a,
        forall|j2: int|
            0 <= j2 < j ==> #[trigger] b.subrange(j2, j2 + a.len() as int) != a,
    decreases j0,
{
    if exists|j2: int| 0 <= j2 < j0 && #[trigger] b.subrange(j2, j2 + a.len() as int) == a {
        let j1 = choose|j2: int| 0 <= j2 < j0 && #[trigger] b.subrange(j2, j2 + a.len() as int)
            == a;
        lemma_least_occurrence(a, b, j1)
    } else {
        j0
    }
}

/// Partial containment: when one string occurs contiguously in the other
/// and takes the first comparison role (it comes lexicographically no later
/// than the other), the best-window score is a full 100. The role matters:
/// a contained string that comes lexicographically later is windowed rather
/// than matched whole, and the score can fall short.
pub proof fn lemma_partial_containment(a: Seq<char>, b: Seq<char>, occurrence: int)
    requires
        a.len() > 0,
        crate::text::lex_le(a, b),
        0 <= occurrence,
        occurrence + a.len() <= b.len(),
        b.subrange(occurrence, occurrence + a.len() as int) == a,
    ensures
        partial_similarity_spec(a, b) == 100,
{
    let n = a.len() as int;
    let m = b.len() as int;
    assert(ordered_first(a, b) == a);
    assert(ordered_second(a, b) == b);
    let j = lemma_least_occurrence(a, b, occurrence);
    let t = (0int, j, n);
    assert(a.subrange(0, n) =~= a);
    assert(match_in(a, b, 0, n, 0, m, 0, j, n));
    assert(first_match(a, b, 0, n, 0, m, 0, j, n)) by {
        assert forall|k2: int| k2 > n implies !some_match(a, b, 0, n, 0, m, k2) by {
            crate::ratcliff_obershelp::lemma_no_long_match(a, b, 0, n, 0, m, k2);
        }
        assert forall|j2: int| j2 < j implies !match_in(a, b, 0, n, 0, m, 0, j2, n) by {
            if match_in(a, b, 0, n, 0, m, 0, j2, n) {
                assert(b.subrange(j2, j2 + n) == a.subrange(0, n));
            }
        }
    }
    lemma_lcs_spec_of_witness(a, b, 0, n, 0, m, t);
    let raw = raw_blocks(a, b, 0, n, 0, m);
    lemma_raw_empty(a, b, 0, 0, 0, j);
    lemma_raw_empty(a, b, n, n, j + n, m);
    assert(raw =~= seq![t]) by {
        assert(raw == raw_blocks(a, b, 0, 0, 0, j) + seq![t] + raw_blocks(a, b, n, n, j + n, m));
    }
    assert(seq![t].drop_last() =~= Seq::<(int, int, int)>::empty());
    assert(merge_state(Seq::<(int, int, int)>::empty()) == (
        Seq::<(int, int, int)>::empty(),
        (0int, 0int, 0int),
    ));
    assert(seq![t].last() == t);
    let ms = merge_state(seq![t]);
    assert(ms.0 =~= Seq::<(int, int, int)>::empty());
    assert(ms.1 == t);
    let bl = blocks_spec(a, b);
    assert(bl =~= Seq::<(int, int, int)>::empty().push(t).push((n, m, 0int)));
    let inner = seq![t];
    assert(partial_best(a, bl) == 100) by {
        reveal_with_fuel(partial_best, 3);
        assert(bl.drop_last() =~= inner);
        assert(bl.last() == (n, m, 0int));
        assert(inner.drop_last() =~= Seq::<(int, int, int)>::empty());
        assert(inner.last() == t);
        assert(partial_best(a, Seq::<(int, int, int)>::empty()) == 0);
        lemma_similarity_self(a);
        assert(partial_best(a, inner) == 100);
        lemma_similarity_spec_range(a, a.subrange(n, n));
    }
}

/// Symmetry: both measures give the same score with the arguments swapped.
pub proof fn lemma_symmetry(a: Seq<char>, b: Seq<char>)
    ensures
        similarity_spec(a, b) == similarity_spec(b, a),
        partial_similarity_spec(a, b) == partial_similarity_spec(b, a),
{
    lemma_lex_le_total(a, b);
    assert(ordered_first(a, b) == ordered_first(b, a));
    assert(ordered_second(a, b) == ordered_second(b, a));
}

/// Token-sort invariance: whenever two strings' sorted whitespace-delimited
/// tokens agree, after whatever pre-processing the flags choose, the
/// token-sort comparison strings coincide and score a full 100.
pub proof fn lemma_token_sort_invariance(
    a: Seq<char>,
    b: Seq<char>,
    force_ascii: bool,
    full_process: bool,
)
    ensures
        tokens_of(processed(a, force_ascii, full_process), ws_sep()).sort_by(lex_leq())
            == tokens_of(processed(b, force_ascii, full_process), ws_sep()).sort_by(lex_leq())
            ==> similarity_spec(
            token_sort_term(a, force_ascii, full_process),
            token_sort_term(b, force_ascii, full_process),
        ) == 100,
{
    if tokens_of(processed(a, force_ascii, full_process), ws_sep()).sort_by(lex_leq())
        == tokens_of(processed(b, force_ascii, full_process), ws_sep()).sort_by(lex_leq()) {
        assert(token_sort_term(a, force_ascii, full_process) == token_sort_term(
            b,
            force_ascii,
            full_process,
        ));
        lemma_similarity_self(token_sort_term(a, force_ascii, full_process));
    }
}

/// Whatever the deduplication kept came from the original list.
proof fn lemma_dedup_first_contains(s: Seq<Seq<char>>, x: Seq<char>)
    ensures
        dedup_first(s).contains(x) ==> s.contains(x),
    decreases s.len(),
{
    if s.len() > 0 {
        lemma_dedup_first_contains(s.drop_last(), x);
        if dedup_first(s).contains(x) {
            if !s.drop_last().contains(s.last()) {
                let d = dedup_first(s.drop_last());
                assert(dedup_first(s) == d.push(s.last()));
                if x == s.last() {
                    assert(s.contains(x)) by {
                        assert(s[s.len() - 1] == x);
                    }
                } else {
                    assert(d.contains(x)) by {
                        let idx = choose|idx: int|
                            0 <= idx < d.push(s.last()).len() && d.push(s.last())[idx] == x;
                        assert(d[idx] == x);
                    }
                }
            }
            if s.drop_last().contains(x) {
                assert(s.contains(x)) by {
                    let idx = choose|idx: int|
                        0 <= idx < s.drop_last().len() && s.drop_last()[idx] == x;
                    assert(s[idx] == x);
                }
            }
        }
    }
}

/// When every token of `a` also occurs in `b`, `a` keeps nothing of its own.
proof fn lemma_uniq_empty(a: Seq<Seq<char>>, b: Seq<Seq<char>>)
    requires
        forall|x: Seq<char>| a.contains(x) ==> #[trigger] b.contains(x),
    ensures
        uniq_spec(a, b) =~= Seq::<Seq<char>>::empty(),
{
    let d = dedup_first(a);
    let pred = |x: Seq<char>| !b.contains(x);
    assert(d.all(|x: Seq<char>| !pred(x))) by {
        assert forall|i: int| 0 <= i < d.len() implies !pred(d[i]) by {
            assert(d.contains(d[i]));
            lemma_dedup_first_contains(a, d[i]);
        }
    }
    d.lemma_all_neg_filter_empty(pred);
    assert(uniq_spec(a, b).len() == 0);
}

/// Token-set invariance: whenever two strings' whitespace-delimited tokens
/// form the same set, after whatever pre-processing the flags choose,
/// neither side has tokens of its own, the three token-set comparison
/// strings coincide, and the best of their three scores is a full 100.
pub proof fn lemma_token_set_invariance(
    a: Seq<char>,
    b: Seq<char>,
    force_ascii: bool,
    full_process: bool,
)
    ensures
        ({
            let ta = tokens_of(processed(a, force_ascii, full_process), ws_sep());
            let tb = tokens_of(processed(b, force_ascii, full_process), ws_sep());
            let (int_s, c1, c2) = token_set_strings(a, b, force_ascii, full_process);
            ta.to_set() == tb.to_set() ==> max3(
                similarity_spec(int_s, c1),
                similarity_spec(int_s, c2),
                similarity_spec(c1, c2),
            ) == 100
        }),
{
    let ta = tokens_of(processed(a, force_ascii, full_process), ws_sep());
    let tb = tokens_of(processed(b, force_ascii, full_process), ws_sep());
    if ta.to_set() == tb.to_set() {
        assert forall|x: Seq<char>| ta.contains(x) implies #[trigger] tb.contains(x) by {
            assert(ta.to_set().contains(x));
            assert(tb.to_set().contains(x));
        }
        assert forall|x: Seq<char>| tb.contains(x) implies #[trigger] ta.contains(x) by {
            assert(tb.to_set().contains(x));
            assert(ta.to_set().contains(x));
        }
        lemma_uniq_empty(ta, tb);
        lemma_uniq_empty(tb, ta);
        let (int_s, c1, c2) = token_set_strings(a, b, force_ascii, full_process);
        let e = Seq::<Seq<char>>::empty();
        assert(e.sort_by(lex_leq()) =~= e) by {
            broadcast use vstd::seq_lib::group_to_multiset_ensures;

            lemma_lex_total_ordering();
            e.lemma_sort_by_ensures(lex_leq());
            assert(e.sort_by(lex_leq()).len() == e.sort_by(lex_leq()).to_multiset().len());
            assert(e.to_multiset().len() == 0);
        }
        assert(uniq_spec(ta, tb).sort_by(lex_leq()) == e.sort_by(lex_leq()));
        assert(uniq_spec(tb, ta).sort_by(lex_leq()) == e.sort_by(lex_leq()));
        assert(join_seqs(Seq::<Seq<char>>::empty(), seq![' ']) =~= Seq::<char>::empty());
        assert(c1 =~= int_s);
        assert(c2 =~= int_s);
        lemma_similarity_self(int_s);
        assert(similarity_spec(int_s, c1) == 100);
        assert(similarity_spec(int_s, c2) == 100);
        assert(similarity_spec(c1, c2) == 100);
    }
}

} // verus!