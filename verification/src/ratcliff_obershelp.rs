//! The Ratcliff-Obershelp matching-block engine.
//!
//! Two strings are compared as character sequences. The engine finds one
//! maximal common substring of a pair of sub-ranges (longest first, then the
//! leftmost start in the first string, then the leftmost occurrence in the
//! second), recurses on the unmatched regions on either side, collects the
//! matches in order of their position, coalesces adjacent ones, and appends
//! a zero-length sentinel. The brute-force search is cubic; it is meant for
//! short strings.
use vstd::prelude::*;

verus! {

use crate::text::chars_of;

/// The sub-ranges `low1..high1` of `sh` and `low2..high2` of `lo` are valid.
pub open spec fn valid_ranges(
    sh: Seq<char>,
    lo: Seq<char>,
    low1: int,
    high1: int,
    low2: int,
    high2: int,
) -> bool {
    0 <= low1 <= high1 <= sh.len() && 0 <= low2 <= high2 <= lo.len()
}

/// A common run of `k` characters starting at `i` in `sh` and `j` in `lo`,
/// lying entirely within the given sub-ranges.
pub open spec fn match_in(
    sh: Seq<char>,
    lo: Seq<char>,
    low1: int,
    high1: int,
    low2: int,
    high2: int,
    i: int,
    j: int,
    k: int,
) -> bool {
    &&& low1 <= i
    &&& i + k <= high1
    &&& low2 <= j
    &&& j + k <= high2
    &&& 0 <= k
    &&& sh.subrange(i, i + k) == lo.subrange(j, j + k)
}

/// Some common run of length `k` exists within the sub-ranges.
pub open spec fn some_match(
    sh: Seq<char>,
    lo: Seq<char>,
    low1: int,
    high1: int,
    low2: int,
    high2: int,
    k: int,
) -> bool {
    exists|i: int, j: int| match_in(sh, lo, low1, high1, low2, high2, i, j, k)
}

/// `(i, j, k)` is the nonzero match the search order finds: the longest
/// length wins, among equal lengths the smallest start in `sh`, and among
/// occurrences of that start the smallest start in `lo`.
pub open spec fn first_match(
    sh: Seq<char>,
    lo: Seq<char>,
    low1: int,
    high1: int,
    low2: int,
    high2: int,
    i: int,
    j: int,
    k: int,
) -> bool {
    &&& match_in(sh, lo, low1, high1, low2, high2, i, j, k)
    &&& k >= 1
    &&& forall|k2: int| k2 > k ==> !some_match(sh, lo, low1, high1, low2, high2, k2)
    &&& forall|i2: int, j2: int|
        i2 < i ==> !match_in(sh, lo, low1, high1, low2, high2, i2, j2, k)
    &&& forall|j2: int| j2 < j ==> !match_in(sh, lo, low1, high1, low2, high2, i, j2, k)
}

/// The match that the deterministic search returns for the given sub-ranges:
/// the first nonzero match in search order, or `(low1, low2, 0)` when the
/// sub-ranges share no characters at all.
pub open spec fn lcs_spec(
    sh: Seq<char>,
    lo: Seq<char>,
    low1: int,
    high1: int,
    low2: int,
    high2: int,
) -> (int, int, int) {
    if exists|k: int| k >= 1 && some_match(sh, lo, low1, high1, low2, high2, k) {
        choose|t: (int, int, int)| first_match(sh, lo, low1, high1, low2, high2, t.0, t.1, t.2)
    } else {
        (low1, low2, 0)
    }
}

/// The first nonzero match is unique.
pub proof fn lemma_first_match_unique(
    sh: Seq<char>,
    lo: Seq<char>,
    low1: int,
    high1: int,
    low2: int,
    high2: int,
    t1: (int, int, int),
    t2: (int, int, int),
)
    requires
        first_match(sh, lo, low1, high1, low2, high2, t1.0, t1.1, t1.2),
        first_match(sh, lo, low1, high1, low2, high2, t2.0, t2.1, t2.2),
    ensures
        t1 == t2,
{
    if t1.2 < t2.2 {
        assert(some_match(sh, lo, low1, high1, low2, high2, t2.2));
    }
    if t2.2 < t1.2 {
        assert(some_match(sh, lo, low1, high1, low2, high2, t1.2));
    }
    assert(t1.2 == t2.2);
    assert(!(t1.0 < t2.0));
    assert(!(t2.0 < t1.0));
    assert(!(t1.1 < t2.1));
    assert(!(t2.1 < t1.1));
    assert(t1 =~= t2);
}

/// When a nonzero match exists, `lcs_spec` is the unique first match.
pub proof fn lemma_lcs_spec_of_witness(
    sh: Seq<char>,
    lo: Seq<char>,
    low1: int,
    high1: int,
    low2: int,
    high2: int,
    t: (int, int, int),
)
    requires
        first_match(sh, lo, low1, high1, low2, high2, t.0, t.1, t.2),
    ensures
        lcs_spec(sh, lo, low1, high1, low2, high2) == t,
{
    assert(some_match(sh, lo, low1, high1, low2, high2, t.2));
    let picked = choose|u: (int, int, int)|
        first_match(sh, lo, low1, high1, low2, high2, u.0, u.1, u.2);
    lemma_first_match_unique(sh, lo, low1, high1, low2, high2, picked, t);
}

/// No match can be longer than either sub-range.
pub proof fn lemma_no_long_match(
    sh: Seq<char>,
    lo: Seq<char>,
    low1: int,
    high1: int,
    low2: int,
    high2: int,
    k: int,
)
    requires
        k > high1 - low1 || k > high2 - low2,
    ensures
        !some_match(sh, lo, low1, high1, low2, high2, k),
{
    assert forall|i2: int, j2: int|
        !match_in(sh, lo, low1, high1, low2, high2, i2, j2, k) by {}
}

/// Finds one maximal common substring of `sh[low1..high1]` and
/// `lo[low2..high2]`: longest first, then the leftmost start in `sh`, then
/// the leftmost occurrence in `lo`. Returns `(low1, low2, 0)` when the
/// sub-ranges have no character in common.
pub fn longest_common_substring(
    sh: &Vec<char>,
    lo: &Vec<char>,
    low1: usize,
    high1: usize,
    low2: usize,
    high2: usize,
) -> (r: (usize, usize, usize))
    requires
        low1 <= high1 <= sh@.len(),
        low2 <= high2 <= lo@.len(),
    ensures
        (r.0 as int, r.1 as int, r.2 as int) == lcs_spec(
            sh@,
            lo@,
            low1 as int,
            high1 as int,
            low2 as int,
            high2 as int,
        ),
        r.2 == 0 ==> r.0 == low1 && r.1 == low2,
        r.2 != 0 ==> first_match(
            sh@,
            lo@,
            low1 as int,
            high1 as int,
            low2 as int,
            high2 as int,
            r.0 as int,
            r.1 as int,
            r.2 as int,
        ),
{
    let slen: usize = high1 - low1;
    let wlen: usize = high2 - low2;
    let mut size: usize = if slen < wlen {
        slen
    } else {
        wlen
    };
    proof {
        assert forall|k2: int|
            k2 > size implies !some_match(
            sh@,
            lo@,
            low1 as int,
            high1 as int,
            low2 as int,
            high2 as int,
            k2,
        ) by {
            lemma_no_long_match(
                sh@,
                lo@,
                low1 as int,
                high1 as int,
                low2 as int,
                high2 as int,
                k2,
            );
        }
    }
    while size >= 1
        invariant
            low1 <= high1 <= sh@.len(),
            low2 <= high2 <= lo@.len(),
            slen == high1 - low1,
            wlen == high2 - low2,
            size <= slen,
            size <= wlen,
            forall|k2: int|
                k2 > size ==> !some_match(
                    sh@,
                    lo@,
                    low1 as int,
                    high1 as int,
                    low2 as int,
                    high2 as int,
                    k2,
                ),
        decreases size,
    {
        let mut start: usize = 0;
        while start <= slen - size
            invariant
                low1 <= high1 <= sh@.len(),
                low2 <= high2 <= lo@.len(),
                slen == high1 - low1,
                wlen == high2 - low2,
                1 <= size <= slen,
                size <= wlen,
                start <= slen,
                forall|k2: int|
                    k2 > size ==> !some_match(
                        sh@,
                        lo@,
                        low1 as int,
                        high1 as int,
                        low2 as int,
                        high2 as int,
                        k2,
                    ),
                forall|i2: int, j2: int|
                    i2 < low1 + start ==> !match_in(
                        sh@,
                        lo@,
                        low1 as int,
                        high1 as int,
                        low2 as int,
                        high2 as int,
                        i2,
                        j2,
                        size as int,
                    ),
            decreases slen - start,
        {
            let i: usize = low1 + start;
            let mut jj: usize = 0;
            while jj <= wlen - size
                invariant
                    low1 <= high1 <= sh@.len(),
                    low2 <= high2 <= lo@.len(),
                    slen == high1 - low1,
                    wlen == high2 - low2,
                    1 <= size <= slen,
                    size <= wlen,
                    start <= slen - size,
                    i == low1 + start,
                    jj <= wlen,
                    forall|k2: int|
                        k2 > size ==> !some_match(
                            sh@,
                            lo@,
                            low1 as int,
                            high1 as int,
                            low2 as int,
                            high2 as int,
                            k2,
                        ),
                    forall|i2: int, j2: int|
                        i2 < low1 + start ==> !match_in(
                            sh@,
                            lo@,
                            low1 as int,
                            high1 as int,
                            low2 as int,
                            high2 as int,
                            i2,
                            j2,
                            size as int,
                        ),
                    forall|j2: int|
                        j2 < low2 + jj ==> !match_in(
                            sh@,
                            lo@,
                            low1 as int,
                            high1 as int,
                            low2 as int,
                            high2 as int,
                            i as int,
                            j2,
                            size as int,
                        ),
                decreases wlen - jj,
            {
                let j: usize = low2 + jj;
                let mut m: usize = 0;
                let mut all_eq = true;
                while m < size
                    invariant
                        low1 <= high1 <= sh@.len(),
                        low2 <= high2 <= lo@.len(),
                        1 <= size,
                        i + size <= high1,
                        j + size <= high2,
                        m <= size,
                        all_eq ==> forall|t: int|
                            0 <= t < m ==> sh@[i + t] == #[trigger] lo@[j + t],
                        !all_eq ==> exists|t: int|
                            0 <= t < size && sh@[i + t] != #[trigger] lo@[j + t],
                    decreases size - m,
                {
                    if sh[i + m] != lo[j + m] {
                        proof {
                            assert(sh@[i + m as int] != lo@[j + m as int]);
                        }
                        all_eq = false;
                    }
                    m = m + 1;
                }
                if all_eq {
                    proof {
                        assert(sh@.subrange(i as int, i + size) =~= lo@.subrange(
                            j as int,
                            j + size,
                        )) by {
                            assert forall|t: int|
                                0 <= t < size implies #[trigger] sh@.subrange(
                                i as int,
                                i + size,
                            )[t] == lo@.subrange(j as int, j + size)[t] by {
                                assert(sh@[i + t] == lo@[j + t]);
                            }
                        }
                        assert(first_match(
                            sh@,
                            lo@,
                            low1 as int,
                            high1 as int,
                            low2 as int,
                            high2 as int,
                            i as int,
                            j as int,
                            size as int,
                        ));
                        lemma_lcs_spec_of_witness(
                            sh@,
                            lo@,
                            low1 as int,
                            high1 as int,
                            low2 as int,
                            high2 as int,
                            (i as int, j as int, size as int),
                        );
                    }
                    return (i, j, size);
                }
                proof {
                    assert(!match_in(
                        sh@,
                        lo@,
                        low1 as int,
                        high1 as int,
                        low2 as int,
                        high2 as int,
                        i as int,
                        j as int,
                        size as int,
                    )) by {
                        let t = choose|t: int|
                            0 <= t < size && sh@[i + t] != #[trigger] lo@[j + t];
                        if match_in(
                            sh@,
                            lo@,
                            low1 as int,
                            high1 as int,
                            low2 as int,
                            high2 as int,
                            i as int,
                            j as int,
                            size as int,
                        ) {
                            assert(sh@.subrange(i as int, i + size)[t] == lo@.subrange(
                                j as int,
                                j + size,
                            )[t]);
                        }
                    }
                }
                jj = jj + 1;
            }
            proof {
                assert forall|j2: int|
                    !match_in(
                    sh@,
                    lo@,
                    low1 as int,
                    high1 as int,
                    low2 as int,
                    high2 as int,
                    i as int,
                    j2,
                    size as int,
                ) by {
                    if match_in(
                        sh@,
                        lo@,
                        low1 as int,
                        high1 as int,
                        low2 as int,
                        high2 as int,
                        i as int,
                        j2,
                        size as int,
                    ) {
                        assert(j2 < low2 + jj);
                    }
                }
            }
            start = start + 1;
        }
        proof {
            assert forall|i2: int, j2: int|
                !match_in(
                sh@,
                lo@,
                low1 as int,
                high1 as int,
                low2 as int,
                high2 as int,
                i2,
                j2,
                size as int,
            ) by {
                if match_in(
                    sh@,
                    lo@,
                    low1 as int,
                    high1 as int,
                    low2 as int,
                    high2 as int,
                    i2,
                    j2,
                    size as int,
                ) {
                    assert(i2 < low1 + start);
                }
            }
            assert forall|k2: int|
                k2 > size - 1 implies !some_match(
                sh@,
                lo@,
                low1 as int,
                high1 as int,
                low2 as int,
                high2 as int,
                k2,
            ) by {
                if k2 == size {
                    assert(!some_match(
                        sh@,
                        lo@,
                        low1 as int,
                        high1 as int,
                        low2 as int,
                        high2 as int,
                        k2,
                    ));
                }
            }
        }
        size = size - 1;
    }
    proof {
        assert(!(exists|k: int|
            k >= 1 && some_match(
                sh@,
                lo@,
                low1 as int,
                high1 as int,
                low2 as int,
                high2 as int,
                k,
            )));
    }
    (low1, low2, 0)
}

/// The matches of the whole divide-and-conquer recursion, in order of their
/// start in `sh`: the first match of the sub-ranges, preceded by the matches
/// of the region before it and followed by the matches of the region after.
pub open spec fn raw_blocks(
    sh: Seq<char>,
    lo: Seq<char>,
    low1: int,
    high1: int,
    low2: int,
    high2: int,
) -> Seq<(int, int, int)>
    decreases (high1 - low1) + (high2 - low2),
{
    let t = lcs_spec(sh, lo, low1, high1, low2, high2);
    if t.2 >= 1 && low1 <= t.0 && t.0 + t.2 <= high1 && low2 <= t.1 && t.1 + t.2 <= high2 {
        raw_blocks(sh, lo, low1, t.0, low2, t.1) + seq![t] + raw_blocks(
            sh,
            lo,
            t.0 + t.2,
            high1,
            t.1 + t.2,
            high2,
        )
    } else {
        Seq::empty()
    }
}

/// The summed length of a block sequence.
pub open spec fn total_k(bl: Seq<(int, int, int)>) -> int
    decreases bl.len(),
{
    if bl.len() == 0 {
        0
    } else {
        total_k(bl.drop_last()) + bl.last().2
    }
}

/// A nonzero block lying within the given sub-ranges.
pub open spec fn block_in(
    b: (int, int, int),
    low1: int,
    high1: int,
    low2: int,
    high2: int,
) -> bool {
    low1 <= b.0 && b.0 + b.2 <= high1 && low2 <= b.1 && b.1 + b.2 <= high2 && b.2 >= 1
}

/// Consecutive blocks never overlap, in either string's coordinates.
pub open spec fn chain(bl: Seq<(int, int, int)>) -> bool {
    forall|x: int|
        0 <= x < bl.len() - 1 ==> (#[trigger] bl[x]).0 + bl[x].2 <= bl[x + 1].0 && bl[x].1
            + bl[x].2 <= bl[x + 1].1
}

/// An empty sub-range on either side yields no matches.
pub proof fn lemma_raw_empty(
    sh: Seq<char>,
    lo: Seq<char>,
    low1: int,
    high1: int,
    low2: int,
    high2: int,
)
    requires
        high1 - low1 == 0 || high2 - low2 == 0,
    ensures
        raw_blocks(sh, lo, low1, high1, low2, high2) =~= Seq::<(int, int, int)>::empty(),
{
    assert forall|k: int|
        k >= 1 implies !some_match(sh, lo, low1, high1, low2, high2, k) by {
        lemma_no_long_match(sh, lo, low1, high1, low2, high2, k);
    }
    assert(lcs_spec(sh, lo, low1, high1, low2, high2) == (low1, low2, 0int));
}

proof fn lemma_total_k_append(s1: Seq<(int, int, int)>, s2: Seq<(int, int, int)>)
    ensures
        total_k(s1 + s2) == total_k(s1) + total_k(s2),
    decreases s2.len(),
{
    if s2.len() == 0 {
        assert(s1 + s2 =~= s1);
    } else {
        lemma_total_k_append(s1, s2.drop_last());
        assert((s1 + s2).drop_last() =~= s1 + s2.drop_last());
        assert((s1 + s2).last() == s2.last());
    }
}

/// Every match of the recursion lies within the queried sub-ranges, the
/// matches are in order without overlap, and their summed length exceeds
/// neither sub-range.
#[verifier::rlimit(60)]
pub proof fn lemma_raw_blocks_props(
    sh: Seq<char>,
    lo: Seq<char>,
    low1: int,
    high1: int,
    low2: int,
    high2: int,
)
    requires
        low1 <= high1,
        low2 <= high2,
    ensures
        ({
            let bl = raw_blocks(sh, lo, low1, high1, low2, high2);
            &&& forall|x: int|
                0 <= x < bl.len() ==> block_in(#[trigger] bl[x], low1, high1, low2, high2)
            &&& chain(bl)
            &&& total_k(bl) <= high1 - low1
            &&& total_k(bl) <= high2 - low2
        }),
    decreases (high1 - low1) + (high2 - low2),
{
    let bl = raw_blocks(sh, lo, low1, high1, low2, high2);
    let t = lcs_spec(sh, lo, low1, high1, low2, high2);
    if t.2 >= 1 && low1 <= t.0 && t.0 + t.2 <= high1 && low2 <= t.1 && t.1 + t.2 <= high2 {
        let left = raw_blocks(sh, lo, low1, t.0, low2, t.1);
        let right = raw_blocks(sh, lo, t.0 + t.2, high1, t.1 + t.2, high2);
        lemma_raw_blocks_props(sh, lo, low1, t.0, low2, t.1);
        lemma_raw_blocks_props(sh, lo, t.0 + t.2, high1, t.1 + t.2, high2);
        assert(bl == left + seq![t] + right);
        assert forall|x: int|
            0 <= x < bl.len() implies block_in(#[trigger] bl[x], low1, high1, low2, high2) by {
            if x < left.len() {
                assert(bl[x] == left[x]);
                assert(block_in(left[x], low1, t.0, low2, t.1));
            } else if x == left.len() {
                assert(bl[x] == t);
            } else {
                assert(bl[x] == right[x - left.len() - 1]);
                assert(block_in(right[x - left.len() - 1], t.0 + t.2, high1, t.1 + t.2, high2));
            }
        }
        assert(chain(bl)) by {
            assert forall|x: int|
                0 <= x < bl.len() - 1 implies (#[trigger] bl[x]).0 + bl[x].2 <= bl[x + 1].0
                && bl[x].1 + bl[x].2 <= bl[x + 1].1 by {
                if x + 1 < left.len() {
                    assert(bl[x] == left[x]);
                    assert(bl[x + 1] == left[x + 1]);
                    assert(chain(left));
                    assert(left[x].0 + left[x].2 <= left[x + 1].0 && left[x].1 + left[x].2
                        <= left[x + 1].1);
                } else if x + 1 == left.len() {
                    assert(bl[x] == left[x]);
                    assert(bl[x + 1] == t);
                    assert(block_in(left[x], low1, t.0, low2, t.1));
                } else if x == left.len() {
                    assert(bl[x] == t);
                    assert(bl[x + 1] == right[0]);
                    assert(block_in(right[0], t.0 + t.2, high1, t.1 + t.2, high2));
                } else {
                    assert(bl[x] == right[x - left.len() - 1]);
                    assert(bl[x + 1] == right[x - left.len()]);
                    assert(chain(right));
                    let y = x - left.len() - 1;
                    assert(right[y].0 + right[y].2 <= right[y + 1].0 && right[y].1 + right[y].2
                        <= right[y + 1].1);
                }
            }
        }
        lemma_total_k_append(left + seq![t], right);
        lemma_total_k_append(left, seq![t]);
        assert(total_k(seq![t]) == t.2) by {
            assert(seq![t].drop_last() =~= Seq::<(int, int, int)>::empty());
            assert(total_k(Seq::<(int, int, int)>::empty()) == 0);
            assert(seq![t].last() == t);
        }
    } else {
        assert(bl =~= Seq::<(int, int, int)>::empty());
    }
}

/// One step of the merge pass: coalesce the running block with the next one
/// when they are contiguous in both coordinate spaces, otherwise emit the
/// running block (unless it is the initial zero block) and start anew.
pub open spec fn merge_step(
    st: (Seq<(int, int, int)>, (int, int, int)),
    b: (int, int, int),
) -> (Seq<(int, int, int)>, (int, int, int)) {
    let (acc, cur) = st;
    if cur.0 + cur.2 == b.0 && cur.1 + cur.2 == b.1 {
        (acc, (cur.0, cur.1, cur.2 + b.2))
    } else if cur.2 != 0 {
        (acc.push(cur), b)
    } else {
        (acc, b)
    }
}

/// The merge pass folded over a block sequence, as the emitted blocks
/// together with the still-running block.
pub open spec fn merge_state(bl: Seq<(int, int, int)>) -> (Seq<(int, int, int)>, (int, int, int))
    decreases bl.len(),
{
    if bl.len() == 0 {
        (Seq::<(int, int, int)>::empty(), (0int, 0int, 0int))
    } else {
        merge_step(merge_state(bl.drop_last()), bl.last())
    }
}

/// The merged form of a block sequence: coalesced blocks followed by the
/// zero-length sentinel `(len1, len2, 0)`.
pub open spec fn merged_blocks(bl: Seq<(int, int, int)>, len1: int, len2: int) -> Seq<
    (int, int, int),
> {
    let (acc, cur) = merge_state(bl);
    (if cur.2 != 0 {
        acc.push(cur)
    } else {
        acc
    }).push((len1, len2, 0))
}

/// The matching-block sequence of `a` against `b`: the recursion's matches in
/// order, coalesced, with the sentinel appended.
pub open spec fn blocks_spec(a: Seq<char>, b: Seq<char>) -> Seq<(int, int, int)> {
    merged_blocks(
        raw_blocks(a, b, 0, a.len() as int, 0, b.len() as int),
        a.len() as int,
        b.len() as int,
    )
}

/// The merge pass keeps every block within bounds and in order, and
/// preserves the summed block length.
pub proof fn lemma_merge_state_props(
    bl: Seq<(int, int, int)>,
    low1: int,
    high1: int,
    low2: int,
    high2: int,
)
    requires
        forall|x: int| 0 <= x < bl.len() ==> block_in(#[trigger] bl[x], low1, high1, low2, high2),
        chain(bl),
    ensures
        ({
            let (acc, cur) = merge_state(bl);
            &&& total_k(acc) + cur.2 == total_k(bl)
            &&& bl.len() == 0 ==> acc =~= Seq::<(int, int, int)>::empty() && cur == (
                0int,
                0int,
                0int,
            )
            &&& bl.len() > 0 ==> block_in(cur, low1, high1, low2, high2)
            &&& bl.len() > 0 ==> cur.0 + cur.2 == bl.last().0 + bl.last().2 && cur.1 + cur.2
                == bl.last().1 + bl.last().2
            &&& forall|x: int|
                0 <= x < acc.len() ==> block_in(#[trigger] acc[x], low1, high1, low2, high2)
            &&& chain(acc.push(cur))
        }),
    decreases bl.len(),
{
    if bl.len() == 0 {
    } else {
        let pre = bl.drop_last();
        let last = bl.last();
        assert(block_in(last, low1, high1, low2, high2));
        assert forall|x: int|
            0 <= x < pre.len() implies block_in(#[trigger] pre[x], low1, high1, low2, high2) by {
            assert(pre[x] == bl[x]);
        }
        assert(chain(pre)) by {
            assert forall|x: int|
                0 <= x < pre.len() - 1 implies (#[trigger] pre[x]).0 + pre[x].2 <= pre[x + 1].0
                && pre[x].1 + pre[x].2 <= pre[x + 1].1 by {
                assert(pre[x] == bl[x]);
                assert(pre[x + 1] == bl[x + 1]);
                assert(bl[x].0 + bl[x].2 <= bl[x + 1].0 && bl[x].1 + bl[x].2 <= bl[x + 1].1);
            }
        }
        lemma_merge_state_props(pre, low1, high1, low2, high2);
        let (acc0, cur0) = merge_state(pre);
        if pre.len() > 0 {
            assert(pre.last() == bl[bl.len() - 2]);
            assert(bl[bl.len() - 2].0 + bl[bl.len() - 2].2 <= bl[bl.len() - 1].0 && bl[bl.len()
                - 2].1 + bl[bl.len() - 2].2 <= bl[bl.len() - 1].1);
            assert(cur0.0 + cur0.2 <= last.0 && cur0.1 + cur0.2 <= last.1);
        }
        let (acc1, cur1) = merge_step(merge_state(pre), last);
        if cur0.0 + cur0.2 == last.0 && cur0.1 + cur0.2 == last.1 {
            if pre.len() == 0 {
                assert(cur0 == (0int, 0int, 0int));
                assert(last.0 == 0 && last.1 == 0);
                assert(cur1 == (0int, 0int, last.2));
                assert(block_in(cur1, low1, high1, low2, high2));
            } else {
                assert(block_in(cur1, low1, high1, low2, high2));
            }
            assert(chain(acc1.push(cur1))) by {
                let s0 = acc0.push(cur0);
                let s1 = acc1.push(cur1);
                assert(acc1 == acc0);
                assert forall|x: int|
                    0 <= x < s1.len() - 1 implies (#[trigger] s1[x]).0 + s1[x].2 <= s1[x + 1].0
                    && s1[x].1 + s1[x].2 <= s1[x + 1].1 by {
                    assert(s1[x] == s0[x]);
                    if x + 1 < s1.len() - 1 {
                        assert(s1[x + 1] == s0[x + 1]);
                        assert(s0[x].0 + s0[x].2 <= s0[x + 1].0 && s0[x].1 + s0[x].2 <= s0[x
                            + 1].1);
                    } else {
                        assert(s0[x].0 + s0[x].2 <= s0[x + 1].0 && s0[x].1 + s0[x].2 <= s0[x
                            + 1].1);
                        assert(s0[x + 1] == cur0);
                        assert(s1[x + 1] == cur1);
                    }
                }
            }
        } else if cur0.2 != 0 {
            assert(pre.len() > 0);
            assert(acc1 == acc0.push(cur0));
            assert(cur1 == last);
            assert forall|x: int|
                0 <= x < acc1.len() implies block_in(
                #[trigger] acc1[x],
                low1,
                high1,
                low2,
                high2,
            ) by {
                if x < acc0.len() {
                    assert(acc1[x] == acc0[x]);
                } else {
                    assert(acc1[x] == cur0);
                }
            }
            assert(chain(acc1.push(cur1))) by {
                let s0 = acc0.push(cur0);
                let s1 = acc1.push(cur1);
                assert forall|x: int|
                    0 <= x < s1.len() - 1 implies (#[trigger] s1[x]).0 + s1[x].2 <= s1[x + 1].0
                    && s1[x].1 + s1[x].2 <= s1[x + 1].1 by {
                    if x + 1 < s1.len() - 1 {
                        assert(s1[x] == s0[x]);
                        assert(s1[x + 1] == s0[x + 1]);
                        assert(s0[x].0 + s0[x].2 <= s0[x + 1].0 && s0[x].1 + s0[x].2 <= s0[x
                            + 1].1);
                    } else {
                        assert(s1[x] == cur0);
                        assert(s1[x + 1] == last);
                    }
                }
            }
            assert(total_k(acc1) == total_k(acc0) + cur0.2) by {
                assert(acc1.drop_last() =~= acc0);
                assert(acc1.last() == cur0);
            }
        } else {
            assert(pre.len() == 0);
            assert(acc1 == acc0);
            assert(cur1 == last);
            assert(chain(acc1.push(cur1)));
        }
    }
}

/// A block sequence without negative lengths has a nonnegative sum.
pub proof fn lemma_total_k_nonneg(bl: Seq<(int, int, int)>)
    requires
        forall|x: int| 0 <= x < bl.len() ==> (#[trigger] bl[x]).2 >= 0,
    ensures
        total_k(bl) >= 0,
    decreases bl.len(),
{
    if bl.len() > 0 {
        let pre = bl.drop_last();
        assert forall|x: int| 0 <= x < pre.len() implies (#[trigger] pre[x]).2 >= 0 by {
            assert(pre[x] == bl[x]);
        }
        lemma_total_k_nonneg(pre);
        assert(bl.last().2 >= 0);
    }
}

/// A prefix never sums to more than the whole, since block lengths are never
/// negative.
pub proof fn lemma_total_k_prefix(bl: Seq<(int, int, int)>, i: int)
    requires
        0 <= i <= bl.len(),
        forall|x: int| 0 <= x < bl.len() ==> (#[trigger] bl[x]).2 >= 0,
    ensures
        total_k(bl.take(i)) <= total_k(bl),
        total_k(bl.take(i)) >= 0,
    decreases bl.len() - i,
{
    assert forall|x: int| 0 <= x < bl.take(i).len() implies (#[trigger] bl.take(i)[x]).2 >= 0 by {
        assert(bl.take(i)[x] == bl[x]);
    }
    lemma_total_k_nonneg(bl.take(i));
    if i == bl.len() {
        assert(bl.take(i) =~= bl);
    } else {
        lemma_total_k_prefix(bl, i + 1);
        assert(bl.take(i + 1).drop_last() =~= bl.take(i));
        assert(bl.take(i + 1).last() == bl[i]);
    }
}

/// Every block of the matching-block sequence lies within the two strings,
/// and the blocks' summed length exceeds neither string's length.
pub proof fn lemma_blocks_spec_props(a: Seq<char>, b: Seq<char>)
    ensures
        ({
            let bl = blocks_spec(a, b);
            &&& forall|x: int|
                0 <= x < bl.len() ==> 0 <= (#[trigger] bl[x]).0 && bl[x].0 + bl[x].2 <= a.len()
                    && 0 <= bl[x].1 && bl[x].1 + bl[x].2 <= b.len() && bl[x].2 >= 0
            &&& 0 <= total_k(bl) <= a.len()
            &&& total_k(bl) <= b.len()
        }),
{
    let raw = raw_blocks(a, b, 0, a.len() as int, 0, b.len() as int);
    lemma_raw_blocks_props(a, b, 0, a.len() as int, 0, b.len() as int);
    lemma_merge_state_props(raw, 0, a.len() as int, 0, b.len() as int);
    let (acc, cur) = merge_state(raw);
    let emitted = if cur.2 != 0 {
        acc.push(cur)
    } else {
        acc
    };
    let bl = blocks_spec(a, b);
    assert(bl == emitted.push((a.len() as int, b.len() as int, 0int)));
    assert(total_k(bl) == total_k(emitted)) by {
        assert(bl.drop_last() =~= emitted);
        assert(bl.last() == (a.len() as int, b.len() as int, 0int));
    }
    if cur.2 != 0 {
        assert(raw.len() > 0) by {
            if raw.len() == 0 {
                assert(cur == (0int, 0int, 0int));
            }
        }
        assert(total_k(emitted) == total_k(acc) + cur.2) by {
            assert(emitted.drop_last() =~= acc);
            assert(emitted.last() == cur);
        }
        assert(block_in(cur, 0, a.len() as int, 0, b.len() as int));
    } else {
        assert(total_k(acc) + cur.2 == total_k(raw));
        assert(total_k(emitted) == total_k(raw) - cur.2);
        assert(total_k(emitted) == total_k(raw));
    }
    assert(total_k(emitted) == total_k(raw));
    assert forall|x: int|
        0 <= x < bl.len() implies 0 <= (#[trigger] bl[x]).0 && bl[x].0 + bl[x].2 <= a.len() && 0
        <= bl[x].1 && bl[x].1 + bl[x].2 <= b.len() && bl[x].2 >= 0 by {
        if x < emitted.len() {
            assert(bl[x] == emitted[x]);
            if cur.2 != 0 && x == emitted.len() - 1 {
                assert(emitted[x] == cur);
            } else {
                assert(emitted[x] == acc[x]);
                assert(block_in(acc[x], 0, a.len() as int, 0, b.len() as int));
            }
        } else {
            assert(bl[x] == (a.len() as int, b.len() as int, 0int));
        }
    }
    assert(total_k(bl) >= 0) by {
        lemma_total_k_prefix(bl, bl.len() as int);
        assert(bl.take(bl.len() as int) =~= bl);
    }
}

/// Mapping a block vector's entries to mathematical integer triples.
pub open spec fn triples(s: Seq<(usize, usize, usize)>) -> Seq<(int, int, int)> {
    s.map_values(|t: (usize, usize, usize)| (t.0 as int, t.1 as int, t.2 as int))
}

/// Collects the matches of the sub-ranges in order of their start in `sh`,
/// appending them to `out`.
fn collect_blocks(
    sh: &Vec<char>,
    lo: &Vec<char>,
    low1: usize,
    high1: usize,
    low2: usize,
    high2: usize,
    out: &mut Vec<(usize, usize, usize)>,
)
    requires
        low1 <= high1 <= sh@.len(),
        low2 <= high2 <= lo@.len(),
    ensures
        triples(final(out)@) == triples(old(out)@) + raw_blocks(
            sh@,
            lo@,
            low1 as int,
            high1 as int,
            low2 as int,
            high2 as int,
        ),
    decreases (high1 - low1) + (high2 - low2),
{
    let ghost bl = raw_blocks(
        sh@,
        lo@,
        low1 as int,
        high1 as int,
        low2 as int,
        high2 as int,
    );
    let (i, j, k) = longest_common_substring(sh, lo, low1, high1, low2, high2);
    if k != 0 {
        let ghost t = (i as int, j as int, k as int);
        proof {
            assert(bl == raw_blocks(sh@, lo@, low1 as int, t.0, low2 as int, t.1) + seq![t]
                + raw_blocks(sh@, lo@, t.0 + t.2, high1 as int, t.1 + t.2, high2 as int));
        }
        if low1 < i && low2 < j {
            collect_blocks(sh, lo, low1, i, low2, j, out);
        } else {
            proof {
                lemma_raw_empty(sh@, lo@, low1 as int, t.0, low2 as int, t.1);
                assert(triples(out@) =~= triples(out@) + raw_blocks(
                    sh@,
                    lo@,
                    low1 as int,
                    t.0,
                    low2 as int,
                    t.1,
                ));
            }
        }
        let ghost mid = out@;
        out.push((i, j, k));
        proof {
            assert(triples(out@) =~= triples(mid).push(t));
        }
        if i + k < high1 && j + k < high2 {
            collect_blocks(sh, lo, i + k, high1, j + k, high2, out);
        } else {
            proof {
                lemma_raw_empty(sh@, lo@, t.0 + t.2, high1 as int, t.1 + t.2, high2 as int);
                assert(triples(out@) =~= triples(out@) + raw_blocks(
                    sh@,
                    lo@,
                    t.0 + t.2,
                    high1 as int,
                    t.1 + t.2,
                    high2 as int,
                ));
            }
        }
        proof {
            assert(triples(final(out)@) =~= triples(old(out)@) + bl);
        }
    } else {
        proof {
            assert(bl =~= Seq::<(int, int, int)>::empty());
            assert(triples(out@) =~= triples(old(out)@) + bl);
        }
    }
}

/// The matching blocks of the character vectors `sh` against `lo`, exactly as
/// `blocks_spec` describes them.
#[verifier::rlimit(60)]
pub(crate) fn assemble_blocks(sh: &Vec<char>, lo: &Vec<char>) -> (r: Vec<(usize, usize, usize)>)
    ensures
        triples(r@) == blocks_spec(sh@, lo@),
{
    let len1 = sh.len();
    let len2 = lo.len();
    let mut collected: Vec<(usize, usize, usize)> = Vec::new();
    collect_blocks(sh, lo, 0, len1, 0, len2, &mut collected);
    let ghost bl = raw_blocks(sh@, lo@, 0, len1 as int, 0, len2 as int);
    proof {
        assert(triples(collected@) =~= Seq::<(int, int, int)>::empty() + bl);
        assert(triples(collected@) =~= bl);
        lemma_raw_blocks_props(sh@, lo@, 0, len1 as int, 0, len2 as int);
    }
    let mut i1: usize = 0;
    let mut j1: usize = 0;
    let mut k1: usize = 0;
    let mut out: Vec<(usize, usize, usize)> = Vec::new();
    let mut idx: usize = 0;
    proof {
        assert(bl.take(0) =~= Seq::<(int, int, int)>::empty());
    }
    while idx < collected.len()
        invariant
            len1 == sh@.len(),
            len2 == lo@.len(),
            triples(collected@) == bl,
            collected@.len() == bl.len(),
            forall|x: int| 0 <= x < bl.len() ==> block_in(#[trigger] bl[x], 0, len1 as int, 0, len2 as int),
            chain(bl),
            idx <= collected@.len(),
            (triples(out@), (i1 as int, j1 as int, k1 as int)) == merge_state(
                bl.take(idx as int),
            ),
        decreases collected@.len() - idx,
    {
        let b = collected[idx];
        proof {
            assert(triples(collected@)[idx as int] == (b.0 as int, b.1 as int, b.2 as int));
            assert(bl[idx as int] == (b.0 as int, b.1 as int, b.2 as int));
            assert(block_in(bl[idx as int], 0, len1 as int, 0, len2 as int));
            assert(bl.take(idx as int + 1).drop_last() =~= bl.take(idx as int));
            assert(bl.take(idx as int + 1).last() == bl[idx as int]);
            lemma_merge_state_props(bl.take(idx as int), 0, len1 as int, 0, len2 as int);
            assert forall|x: int|
                0 <= x < bl.take(idx as int).len() implies block_in(
                #[trigger] bl.take(idx as int)[x],
                0,
                len1 as int,
                0,
                len2 as int,
            ) by {
                assert(bl.take(idx as int)[x] == bl[x]);
            }
            assert(chain(bl.take(idx as int))) by {
                assert forall|x: int|
                    0 <= x < bl.take(idx as int).len() - 1 implies (#[trigger] bl.take(
                    idx as int,
                )[x]).0 + bl.take(idx as int)[x].2 <= bl.take(idx as int)[x + 1].0 && bl.take(
                    idx as int,
                )[x].1 + bl.take(idx as int)[x].2 <= bl.take(idx as int)[x + 1].1 by {
                    assert(bl.take(idx as int)[x] == bl[x]);
                    assert(bl.take(idx as int)[x + 1] == bl[x + 1]);
                    assert(bl[x].0 + bl[x].2 <= bl[x + 1].0 && bl[x].1 + bl[x].2 <= bl[x + 1].1);
                }
            }
        }
        if i1 + k1 == b.0 && j1 + k1 == b.1 {
            k1 = k1 + b.2;
        } else {
            if k1 != 0 {
                let ghost preout = out@;
                out.push((i1, j1, k1));
                proof {
                    assert(triples(out@) =~= triples(preout).push(
                        (i1 as int, j1 as int, k1 as int),
                    ));
                }
            }
            i1 = b.0;
            j1 = b.1;
            k1 = b.2;
        }
        idx = idx + 1;
    }
    proof {
        assert(bl.take(collected@.len() as int) =~= bl);
    }
    if k1 != 0 {
        let ghost preout = out@;
        out.push((i1, j1, k1));
        proof {
            assert(triples(out@) =~= triples(preout).push((i1 as int, j1 as int, k1 as int)));
        }
    }
    let ghost preout = out@;
    out.push((len1, len2, 0));
    proof {
        assert(triples(out@) =~= triples(preout).push((len1 as int, len2 as int, 0int)));
        assert(triples(out@) =~= blocks_spec(sh@, lo@));
    }
    out
}

/// The matching blocks of `shorter` against `longer`, as triples of the start
/// in `shorter`, the start in `longer`, and the length, in characters; the
/// sequence is ordered, non-overlapping, coalesced, and ends with the
/// zero-length sentinel.
pub fn matching_blocks(shorter: &str, longer: &str) -> (r: Vec<(usize, usize, usize)>)
    ensures
        triples(r@) == blocks_spec(shorter@, longer@),
{
    let sh = chars_of(shorter);
    let lo = chars_of(longer);
    assemble_blocks(&sh, &lo)
}

} // verus!
