//! Bitwise population counts and Hamming distances over words and byte
//! slices.
use vstd::prelude::*;

verus! {

/// The number of set bits among the low eight bits of `b`.
pub open spec fn bit_count8(b: u64) -> int {
    (b & 1) + ((b >> 1) & 1) + ((b >> 2) & 1) + ((b >> 3) & 1) + ((b >> 4) & 1) + ((b >> 5) & 1)
        + ((b >> 6) & 1) + ((b >> 7) & 1)
}

/// The number of set bits of a 64-bit word, byte by byte.
pub open spec fn bit_count64(w: u64) -> int {
    bit_count8(w & 0xff) + bit_count8((w >> 8) & 0xff) + bit_count8((w >> 16) & 0xff)
        + bit_count8((w >> 24) & 0xff) + bit_count8((w >> 32) & 0xff) + bit_count8(
        (w >> 40) & 0xff,
    ) + bit_count8((w >> 48) & 0xff) + bit_count8((w >> 56) & 0xff)
}

/// The summed bit count of a sequence of bytes.
pub open spec fn weight_of(s: Seq<u8>) -> int
    decreases s.len(),
{
    if s.len() == 0 {
        0
    } else {
        weight_of(s.drop_last()) + bit_count8(s.last() as u64)
    }
}

/// The summed bit count of the bytewise differences of two byte sequences.
pub open spec fn distance_of(x: Seq<u8>, y: Seq<u8>) -> int
    decreases x.len(),
{
    if x.len() == 0 {
        0
    } else {
        distance_of(x.drop_last(), y.drop_last()) + bit_count8((x.last() ^ y.last()) as u64)
    }
}

/// Relies on u32::count_ones: the number of ones in the binary
/// representation of `x`.
#[verifier::external_body]
fn count_ones32(x: u32) -> (r: u32)
    ensures
        r == bit_count64(x as u64),
{
    x.count_ones()
}

/// Relies on u64::count_ones: the number of ones in the binary
/// representation of `x`.
#[verifier::external_body]
fn count_ones64(x: u64) -> (r: u32)
    ensures
        r == bit_count64(x),
{
    x.count_ones()
}

/// The cumulative byte counts that `popcount_mult` packs into its result:
/// the counts of set bits among the low 32, 40, 48, 56 and 64 bits of `x`,
/// one per byte of the result, least significant first. The shift the
/// routine ends with keeps these running sums rather than the plain count;
/// only for inputs below 2^32 does every byte hold the full count.
pub open spec fn popcount_mult_spec(x: u64) -> int {
    let c0 = bit_count8(x & 0xff);
    let c1 = bit_count8((x >> 8) & 0xff);
    let c2 = bit_count8((x >> 16) & 0xff);
    let c3 = bit_count8((x >> 24) & 0xff);
    let c4 = bit_count8((x >> 32) & 0xff);
    let c5 = bit_count8((x >> 40) & 0xff);
    let c6 = bit_count8((x >> 48) & 0xff);
    let c7 = bit_count8((x >> 56) & 0xff);
    (c0 + c1 + c2 + c3) + (c0 + c1 + c2 + c3 + c4) * 0x100 + (c0 + c1 + c2 + c3 + c4 + c5)
        * 0x10000 + (c0 + c1 + c2 + c3 + c4 + c5 + c6) * 0x1000000 + (c0 + c1 + c2 + c3 + c4 + c5
        + c6 + c7) * 0x100000000
}

/// Counts set bits with shifts, masks and one multiply. The multiply leaves
/// running sums in the upper bytes and the final shift keeps five of them;
/// see `popcount_mult_spec` for the exact packing.
pub fn popcount_mult(x: u64) -> (r: u64)
    ensures
        r == popcount_mult_spec(x),
{
    let m1: u64 = 0x5555555555555555;
    let m2: u64 = 0x3333333333333333;
    let m4: u64 = 0x0f0f0f0f0f0f0f0f;
    let h01: u64 = 0x0101010101010101;
    proof {
        assert((x >> 1) & 0x5555555555555555 <= x) by (bit_vector);
    }
    let x1: u64 = x - ((x >> 1) & m1);
    proof {
        assert((x1 & 0x3333333333333333) + ((x1 >> 2) & 0x3333333333333333)
            <= 0xffffffffffffffff) by (bit_vector);
    }
    let x2: u64 = (x1 & m2) + ((x1 >> 2) & m2);
    proof {
        assert(x2 + (x2 >> 4) <= 0xffffffffffffffff) by (bit_vector)
            requires
                x2 == (x1 & 0x3333333333333333) + ((x1 >> 2) & 0x3333333333333333),
        ;
    }
    let x2s: u64 = x2 + (x2 >> 4);
    let x3: u64 = x2s & m4;
    let prod: u64 = x3.wrapping_mul(h01);
    let r: u64 = prod >> 24;
    proof {
        assert(r == popcount_mult_spec(x)) by (bit_vector)
            requires
                x1 == x - ((x >> 1) & 0x5555555555555555),
                x2 == (x1 & 0x3333333333333333) + ((x1 >> 2) & 0x3333333333333333),
                x2s == x2 + (x2 >> 4),
                x3 == x2s & 0x0f0f0f0f0f0f0f0f,
                prod as int == (x3 as int * 0x0101010101010101) % 0x10000000000000000,
                r == prod >> 24,
        ;
    }
    r
}

/// The sums of the eight byte lanes of an accumulator word.
pub open spec fn lane_sum8(y: u64) -> int {
    (y & 0xff) + ((y >> 8) & 0xff) + ((y >> 16) & 0xff) + ((y >> 24) & 0xff) + ((y >> 32) & 0xff)
        + ((y >> 40) & 0xff) + ((y >> 48) & 0xff) + ((y >> 56) & 0xff)
}

/// The summed bit count of a sequence of 64-bit words.
pub open spec fn word_counts(s: Seq<u64>) -> int
    decreases s.len(),
{
    if s.len() == 0 {
        0
    } else {
        word_counts(s.drop_last()) + bit_count64(s.last())
    }
}

proof fn lemma_word_counts_bound(s: Seq<u64>)
    ensures
        0 <= word_counts(s) <= 64 * s.len(),
    decreases s.len(),
{
    if s.len() > 0 {
        lemma_word_counts_bound(s.drop_last());
        let w = s.last();
        assert(0 <= bit_count64(w) <= 64) by (bit_vector);
    }
}

proof fn lemma_weight_of_append(a: Seq<u8>, b: Seq<u8>)
    ensures
        weight_of(a + b) == weight_of(a) + weight_of(b),
    decreases b.len(),
{
    if b.len() == 0 {
        assert(a + b =~= a);
    } else {
        lemma_weight_of_append(a, b.drop_last());
        assert((a + b).drop_last() =~= a + b.drop_last());
        assert((a + b).last() == b.last());
    }
}

proof fn lemma_weight_of_bound(s: Seq<u8>)
    ensures
        0 <= weight_of(s) <= 8 * s.len(),
    decreases s.len(),
{
    if s.len() > 0 {
        lemma_weight_of_bound(s.drop_last());
        let b = s.last() as u64;
        assert(0 <= bit_count8(b) <= 8) by (bit_vector);
    }
}

proof fn lemma_distance_of_bound(x: Seq<u8>, y: Seq<u8>)
    ensures
        0 <= distance_of(x, y) <= 8 * x.len(),
    decreases x.len(),
{
    if x.len() > 0 {
        lemma_distance_of_bound(x.drop_last(), y.drop_last());
        let b = (x.last() ^ y.last()) as u64;
        assert(0 <= bit_count8(b) <= 8) by (bit_vector);
    }
}

/// One CSA round of the tree merge, lane by lane: each byte lane of the
/// round's contribution `delta` holds the combined bit count of the
/// corresponding bytes of the three input words.
#[verifier::rlimit(100)]
proof fn lemma_csa_lanes(
    b0: u64,
    b1: u64,
    b2: u64,
    half1: u64,
    half2: u64,
    c1a: u64,
    c2a: u64,
    c1b: u64,
    c2b: u64,
    c1c: u64,
    c1d: u64,
    delta: u64,
)
    requires
        half1 == b2 & 0x5555555555555555,
        half2 == (b2 >> 1) & 0x5555555555555555,
        c1a == b0 - ((b0 >> 1) & 0x5555555555555555),
        c2a == b1 - ((b1 >> 1) & 0x5555555555555555),
        c1b == c1a + half1,
        c2b == c2a + half2,
        c1c == (c1b & 0x3333333333333333) + ((c1b >> 2) & 0x3333333333333333),
        c1d == c1c + ((c2b & 0x3333333333333333) + ((c2b >> 2) & 0x3333333333333333)),
        delta == (c1d & 0x0f0f0f0f0f0f0f0f) + ((c1d >> 4) & 0x0f0f0f0f0f0f0f0f),
    ensures
        lane_sum8(delta) == bit_count64(b0) + bit_count64(b1) + bit_count64(b2),
        delta & 0xff <= 24,
        (delta >> 8) & 0xff <= 24,
        (delta >> 16) & 0xff <= 24,
        (delta >> 24) & 0xff <= 24,
        (delta >> 32) & 0xff <= 24,
        (delta >> 40) & 0xff <= 24,
        (delta >> 48) & 0xff <= 24,
        (delta >> 56) & 0xff <= 24,
{
    assert(delta & 0xff == bit_count8(b0 & 0xff) + bit_count8(b1 & 0xff) + bit_count8(b2 & 0xff)
        && delta & 0xff <= 24) by (bit_vector)
        requires
            half1 == b2 & 0x5555555555555555,
            half2 == (b2 >> 1) & 0x5555555555555555,
            c1a == b0 - ((b0 >> 1) & 0x5555555555555555),
            c2a == b1 - ((b1 >> 1) & 0x5555555555555555),
            c1b == c1a + half1,
            c2b == c2a + half2,
            c1c == (c1b & 0x3333333333333333) + ((c1b >> 2) & 0x3333333333333333),
            c1d == c1c + ((c2b & 0x3333333333333333) + ((c2b >> 2) & 0x3333333333333333)),
            delta == (c1d & 0x0f0f0f0f0f0f0f0f) + ((c1d >> 4) & 0x0f0f0f0f0f0f0f0f),
    ;
    assert((delta >> 8) & 0xff == bit_count8((b0 >> 8) & 0xff) + bit_count8((b1 >> 8) & 0xff)
        + bit_count8((b2 >> 8) & 0xff) && (delta >> 8) & 0xff <= 24) by (bit_vector)
        requires
            half1 == b2 & 0x5555555555555555,
            half2 == (b2 >> 1) & 0x5555555555555555,
            c1a == b0 - ((b0 >> 1) & 0x5555555555555555),
            c2a == b1 - ((b1 >> 1) & 0x5555555555555555),
            c1b == c1a + half1,
            c2b == c2a + half2,
            c1c == (c1b & 0x3333333333333333) + ((c1b >> 2) & 0x3333333333333333),
            c1d == c1c + ((c2b & 0x3333333333333333) + ((c2b >> 2) & 0x3333333333333333)),
            delta == (c1d & 0x0f0f0f0f0f0f0f0f) + ((c1d >> 4) & 0x0f0f0f0f0f0f0f0f),
    ;
    assert((delta >> 16) & 0xff == bit_count8((b0 >> 16) & 0xff) + bit_count8((b1 >> 16) & 0xff)
        + bit_count8((b2 >> 16) & 0xff) && (delta >> 16) & 0xff <= 24) by (bit_vector)
        requires
            half1 == b2 & 0x5555555555555555,
            half2 == (b2 >> 1) & 0x5555555555555555,
            c1a == b0 - ((b0 >> 1) & 0x5555555555555555),
            c2a == b1 - ((b1 >> 1) & 0x5555555555555555),
            c1b == c1a + half1,
            c2b == c2a + half2,
            c1c == (c1b & 0x3333333333333333) + ((c1b >> 2) & 0x3333333333333333),
            c1d == c1c + ((c2b & 0x3333333333333333) + ((c2b >> 2) & 0x3333333333333333)),
            delta == (c1d & 0x0f0f0f0f0f0f0f0f) + ((c1d >> 4) & 0x0f0f0f0f0f0f0f0f),
    ;
    assert((delta >> 24) & 0xff == bit_count8((b0 >> 24) & 0xff) + bit_count8((b1 >> 24) & 0xff)
        + bit_count8((b2 >> 24) & 0xff) && (delta >> 24) & 0xff <= 24) by (bit_vector)
        requires
            half1 == b2 & 0x5555555555555555,
            half2 == (b2 >> 1) & 0x5555555555555555,
            c1a == b0 - ((b0 >> 1) & 0x5555555555555555),
            c2a == b1 - ((b1 >> 1) & 0x5555555555555555),
            c1b == c1a + half1,
            c2b == c2a + half2,
            c1c == (c1b & 0x3333333333333333) + ((c1b >> 2) & 0x3333333333333333),
            c1d == c1c + ((c2b & 0x3333333333333333) + ((c2b >> 2) & 0x3333333333333333)),
            delta == (c1d & 0x0f0f0f0f0f0f0f0f) + ((c1d >> 4) & 0x0f0f0f0f0f0f0f0f),
    ;
    assert((delta >> 32) & 0xff == bit_count8((b0 >> 32) & 0xff) + bit_count8((b1 >> 32) & 0xff)
        + bit_count8((b2 >> 32) & 0xff) && (delta >> 32) & 0xff <= 24) by (bit_vector)
        requires
            half1 == b2 & 0x5555555555555555,
            half2 == (b2 >> 1) & 0x5555555555555555,
            c1a == b0 - ((b0 >> 1) & 0x5555555555555555),
            c2a == b1 - ((b1 >> 1) & 0x5555555555555555),
            c1b == c1a + half1,
            c2b == c2a + half2,
            c1c == (c1b & 0x3333333333333333) + ((c1b >> 2) & 0x3333333333333333),
            c1d == c1c + ((c2b & 0x3333333333333333) + ((c2b >> 2) & 0x3333333333333333)),
            delta == (c1d & 0x0f0f0f0f0f0f0f0f) + ((c1d >> 4) & 0x0f0f0f0f0f0f0f0f),
    ;
    assert((delta >> 40) & 0xff == bit_count8((b0 >> 40) & 0xff) + bit_count8((b1 >> 40) & 0xff)
        + bit_count8((b2 >> 40) & 0xff) && (delta >> 40) & 0xff <= 24) by (bit_vector)
        requires
            half1 == b2 & 0x5555555555555555,
            half2 == (b2 >> 1) & 0x5555555555555555,
            c1a == b0 - ((b0 >> 1) & 0x5555555555555555),
            c2a == b1 - ((b1 >> 1) & 0x5555555555555555),
            c1b == c1a + half1,
            c2b == c2a + half2,
            c1c == (c1b & 0x3333333333333333) + ((c1b >> 2) & 0x3333333333333333),
            c1d == c1c + ((c2b & 0x3333333333333333) + ((c2b >> 2) & 0x3333333333333333)),
            delta == (c1d & 0x0f0f0f0f0f0f0f0f) + ((c1d >> 4) & 0x0f0f0f0f0f0f0f0f),
    ;
    assert((delta >> 48) & 0xff == bit_count8((b0 >> 48) & 0xff) + bit_count8((b1 >> 48) & 0xff)
        + bit_count8((b2 >> 48) & 0xff) && (delta >> 48) & 0xff <= 24) by (bit_vector)
        requires
            half1 == b2 & 0x5555555555555555,
            half2 == (b2 >> 1) & 0x5555555555555555,
            c1a == b0 - ((b0 >> 1) & 0x5555555555555555),
            c2a == b1 - ((b1 >> 1) & 0x5555555555555555),
            c1b == c1a + half1,
            c2b == c2a + half2,
            c1c == (c1b & 0x3333333333333333) + ((c1b >> 2) & 0x3333333333333333),
            c1d == c1c + ((c2b & 0x3333333333333333) + ((c2b >> 2) & 0x3333333333333333)),
            delta == (c1d & 0x0f0f0f0f0f0f0f0f) + ((c1d >> 4) & 0x0f0f0f0f0f0f0f0f),
    ;
    assert((delta >> 56) & 0xff == bit_count8((b0 >> 56) & 0xff) + bit_count8((b1 >> 56) & 0xff)
        + bit_count8((b2 >> 56) & 0xff) && (delta >> 56) & 0xff <= 24) by (bit_vector)
        requires
            half1 == b2 & 0x5555555555555555,
            half2 == (b2 >> 1) & 0x5555555555555555,
            c1a == b0 - ((b0 >> 1) & 0x5555555555555555),
            c2a == b1 - ((b1 >> 1) & 0x5555555555555555),
            c1b == c1a + half1,
            c2b == c2a + half2,
            c1c == (c1b & 0x3333333333333333) + ((c1b >> 2) & 0x3333333333333333),
            c1d == c1c + ((c2b & 0x3333333333333333) + ((c2b >> 2) & 0x3333333333333333)),
            delta == (c1d & 0x0f0f0f0f0f0f0f0f) + ((c1d >> 4) & 0x0f0f0f0f0f0f0f0f),
    ;
}

/// Adding a round's contribution to the accumulator adds each byte lane
/// separately, with no carry between lanes, as long as every lane is small.
proof fn lemma_lane_add8(a: u64, d: u64)
    requires
        a & 0xff <= 216,
        (a >> 8) & 0xff <= 216,
        (a >> 16) & 0xff <= 216,
        (a >> 24) & 0xff <= 216,
        (a >> 32) & 0xff <= 216,
        (a >> 40) & 0xff <= 216,
        (a >> 48) & 0xff <= 216,
        (a >> 56) & 0xff <= 216,
        d & 0xff <= 24,
        (d >> 8) & 0xff <= 24,
        (d >> 16) & 0xff <= 24,
        (d >> 24) & 0xff <= 24,
        (d >> 32) & 0xff <= 24,
        (d >> 40) & 0xff <= 24,
        (d >> 48) & 0xff <= 24,
        (d >> 56) & 0xff <= 24,
    ensures
        a + d <= 0xffffffffffffffff,
        ((a + d) as u64) & 0xff == (a & 0xff) + (d & 0xff),
        (((a + d) as u64) >> 8) & 0xff == ((a >> 8) & 0xff) + ((d >> 8) & 0xff),
        (((a + d) as u64) >> 16) & 0xff == ((a >> 16) & 0xff) + ((d >> 16) & 0xff),
        (((a + d) as u64) >> 24) & 0xff == ((a >> 24) & 0xff) + ((d >> 24) & 0xff),
        (((a + d) as u64) >> 32) & 0xff == ((a >> 32) & 0xff) + ((d >> 32) & 0xff),
        (((a + d) as u64) >> 40) & 0xff == ((a >> 40) & 0xff) + ((d >> 40) & 0xff),
        (((a + d) as u64) >> 48) & 0xff == ((a >> 48) & 0xff) + ((d >> 48) & 0xff),
        (((a + d) as u64) >> 56) & 0xff == ((a >> 56) & 0xff) + ((d >> 56) & 0xff),
        lane_sum8((a + d) as u64) == lane_sum8(a) + lane_sum8(d),
{
    assert(a + d <= 0xffffffffffffffff
        && ((a + d) as u64) & 0xff == (a & 0xff) + (d & 0xff)
        && (((a + d) as u64) >> 8) & 0xff == ((a >> 8) & 0xff) + ((d >> 8) & 0xff)
        && (((a + d) as u64) >> 16) & 0xff == ((a >> 16) & 0xff) + ((d >> 16) & 0xff)
        && (((a + d) as u64) >> 24) & 0xff == ((a >> 24) & 0xff) + ((d >> 24) & 0xff)
        && (((a + d) as u64) >> 32) & 0xff == ((a >> 32) & 0xff) + ((d >> 32) & 0xff)
        && (((a + d) as u64) >> 40) & 0xff == ((a >> 40) & 0xff) + ((d >> 40) & 0xff)
        && (((a + d) as u64) >> 48) & 0xff == ((a >> 48) & 0xff) + ((d >> 48) & 0xff)
        && (((a + d) as u64) >> 56) & 0xff == ((a >> 56) & 0xff) + ((d >> 56) & 0xff)) by (bit_vector)
        requires
            a & 0xff <= 216,
            (a >> 8) & 0xff <= 216,
            (a >> 16) & 0xff <= 216,
            (a >> 24) & 0xff <= 216,
            (a >> 32) & 0xff <= 216,
            (a >> 40) & 0xff <= 216,
            (a >> 48) & 0xff <= 216,
            (a >> 56) & 0xff <= 216,
            d & 0xff <= 24,
            (d >> 8) & 0xff <= 24,
            (d >> 16) & 0xff <= 24,
            (d >> 24) & 0xff <= 24,
            (d >> 32) & 0xff <= 24,
            (d >> 40) & 0xff <= 24,
            (d >> 48) & 0xff <= 24,
            (d >> 56) & 0xff <= 24,
    ;
}

/// Folding the accumulator's byte lanes into its low 16 bits yields their
/// sum, as long as every lane stays small.
proof fn lemma_lane_fold(a: u64)
    requires
        a & 0xff <= 240,
        (a >> 8) & 0xff <= 240,
        (a >> 16) & 0xff <= 240,
        (a >> 24) & 0xff <= 240,
        (a >> 32) & 0xff <= 240,
        (a >> 40) & 0xff <= 240,
        (a >> 48) & 0xff <= 240,
        (a >> 56) & 0xff <= 240,
    ensures
        ({
            let a1 = ((a & 0x00ff00ff00ff00ff) + ((a >> 8) & 0x00ff00ff00ff00ff)) as u64;
            let a2 = (a1 + (a1 >> 16)) as u64;
            let a3 = (a2 + (a2 >> 32)) as u64;
            &&& (a & 0x00ff00ff00ff00ff) + ((a >> 8) & 0x00ff00ff00ff00ff)
                <= 0xffffffffffffffff
            &&& a1 + (a1 >> 16) <= 0xffffffffffffffff
            &&& a2 + (a2 >> 32) <= 0xffffffffffffffff
            &&& a3 & 0xffff == lane_sum8(a)
        }),
{
    assert(({
        let a1 = ((a & 0x00ff00ff00ff00ff) + ((a >> 8) & 0x00ff00ff00ff00ff)) as u64;
        let a2 = (a1 + (a1 >> 16)) as u64;
        let a3 = (a2 + (a2 >> 32)) as u64;
        &&& (a & 0x00ff00ff00ff00ff) + ((a >> 8) & 0x00ff00ff00ff00ff)
            <= 0xffffffffffffffff
        &&& a1 + (a1 >> 16) <= 0xffffffffffffffff
        &&& a2 + (a2 >> 32) <= 0xffffffffffffffff
        &&& a3 & 0xffff == lane_sum8(a)
    })) by (bit_vector)
        requires
            a & 0xff <= 240,
            (a >> 8) & 0xff <= 240,
            (a >> 16) & 0xff <= 240,
            (a >> 24) & 0xff <= 240,
            (a >> 32) & 0xff <= 240,
            (a >> 40) & 0xff <= 240,
            (a >> 48) & 0xff <= 240,
            (a >> 56) & 0xff <= 240,
    ;
}

/// Counts the set bits of thirty 64-bit words with one tree-merge pass,
/// adding them to `count`.
pub fn lauradoux_for_weight(buffer: [[u64; 30]; 1], count: u64) -> (r: u64)
    requires
        count <= 0xffffffffffffffff - 1920,
    ensures
        r == count + word_counts(buffer@[0]@),
{
    let m1: u64 = 0x5555555555555555;
    let m2: u64 = 0x3333333333333333;
    let m4: u64 = 0x0f0f0f0f0f0f0f0f;
    let m8: u64 = 0x00ff00ff00ff00ff;
    let buf = &buffer[0];
    let ghost bv = buffer@[0]@;
    let mut accum: u64 = 0;
    let mut jj: usize = 0;
    proof {
        assert(lane_sum8(0) == 0) by (bit_vector);
        assert(0u64 & 0xff <= 0 && (0u64 >> 8) & 0xff <= 0 && (0u64 >> 16) & 0xff <= 0 && (0u64
            >> 24) & 0xff <= 0 && (0u64 >> 32) & 0xff <= 0 && (0u64 >> 40) & 0xff <= 0 && (0u64
            >> 48) & 0xff <= 0 && (0u64 >> 56) & 0xff <= 0) by (bit_vector);
        assert(bv.take(0) =~= Seq::<u64>::empty());
    }
    while jj < 10
        invariant
            m1 == 0x5555555555555555,
            m2 == 0x3333333333333333,
            m4 == 0x0f0f0f0f0f0f0f0f,
            jj <= 10,
            bv == buffer@[0]@,
            buf@ == bv,
            bv.len() == 30,
            lane_sum8(accum) == word_counts(bv.take(3 * jj as int)),
            accum & 0xff <= 24 * jj,
            (accum >> 8) & 0xff <= 24 * jj,
            (accum >> 16) & 0xff <= 24 * jj,
            (accum >> 24) & 0xff <= 24 * jj,
            (accum >> 32) & 0xff <= 24 * jj,
            (accum >> 40) & 0xff <= 24 * jj,
            (accum >> 48) & 0xff <= 24 * jj,
            (accum >> 56) & 0xff <= 24 * jj,
        decreases 10 - jj,
    {
        let j: usize = jj * 3;
        let b0 = buf[j];
        let b1 = buf[j + 1];
        let b2 = buf[j + 2];
        proof {
            assert((b0 >> 1) & 0x5555555555555555 <= b0) by (bit_vector);
            assert((b1 >> 1) & 0x5555555555555555 <= b1) by (bit_vector);
        }
        let half1: u64 = b2 & m1;
        let half2: u64 = (b2 >> 1) & m1;
        let c1a: u64 = b0 - ((b0 >> 1) & m1);
        let c2a: u64 = b1 - ((b1 >> 1) & m1);
        proof {
            assert(c1a + half1 <= 0xffffffffffffffff && c2a + half2
                <= 0xffffffffffffffff) by (bit_vector)
                requires
                    half1 == b2 & 0x5555555555555555,
                    half2 == (b2 >> 1) & 0x5555555555555555,
                    c1a == b0 - ((b0 >> 1) & 0x5555555555555555),
                    c2a == b1 - ((b1 >> 1) & 0x5555555555555555),
            ;
        }
        let c1b: u64 = c1a + half1;
        let c2b: u64 = c2a + half2;
        proof {
            assert((c1b & 0x3333333333333333) + ((c1b >> 2) & 0x3333333333333333)
                <= 0xffffffffffffffff) by (bit_vector);
        }
        let c1c: u64 = (c1b & m2) + ((c1b >> 2) & m2);
        proof {
            assert(c1c + ((c2b & 0x3333333333333333) + ((c2b >> 2) & 0x3333333333333333))
                <= 0xffffffffffffffff) by (bit_vector)
                requires
                    c1c == (c1b & 0x3333333333333333) + ((c1b >> 2) & 0x3333333333333333),
            ;
        }
        let c1d: u64 = c1c + ((c2b & m2) + ((c2b >> 2) & m2));
        proof {
            assert((c1d & 0x0f0f0f0f0f0f0f0f) + ((c1d >> 4) & 0x0f0f0f0f0f0f0f0f)
                <= 0xffffffffffffffff) by (bit_vector);
        }
        let delta: u64 = (c1d & m4) + ((c1d >> 4) & m4);
        proof {
            lemma_csa_lanes(b0, b1, b2, half1, half2, c1a, c2a, c1b, c2b, c1c, c1d, delta);
            lemma_lane_add8(accum, delta);
            assert(bv.take(3 * jj as int + 3).drop_last() =~= bv.take(3 * jj as int + 2));
            assert(bv.take(3 * jj as int + 2).drop_last() =~= bv.take(3 * jj as int + 1));
            assert(bv.take(3 * jj as int + 1).drop_last() =~= bv.take(3 * jj as int));
            assert(bv.take(3 * jj as int + 3).last() == bv[3 * jj as int + 2]);
            assert(bv.take(3 * jj as int + 2).last() == bv[3 * jj as int + 1]);
            assert(bv.take(3 * jj as int + 1).last() == bv[3 * jj as int]);
            assert(b0 == bv[3 * jj as int] && b1 == bv[3 * jj as int + 1] && b2 == bv[3 * jj
                as int + 2]);
            assert(word_counts(bv.take(3 * jj as int + 1)) == word_counts(bv.take(3 * jj as int))
                + bit_count64(b0));
            assert(word_counts(bv.take(3 * jj as int + 2)) == word_counts(
                bv.take(3 * jj as int + 1),
            ) + bit_count64(b1));
            assert(word_counts(bv.take(3 * jj as int + 3)) == word_counts(
                bv.take(3 * jj as int + 2),
            ) + bit_count64(b2));
            assert(lane_sum8((accum + delta) as u64) == word_counts(bv.take(3 * (jj + 1) as int)));
        }
        accum = accum + delta;
        jj = jj + 1;
    }
    proof {
        assert(bv.take(30) =~= bv);
        lemma_lane_fold(accum);
        lemma_word_counts_bound(bv);
    }
    let a1: u64 = (accum & m8) + ((accum >> 8) & m8);
    let a2: u64 = a1 + (a1 >> 16);
    let a3: u64 = a2 + (a2 >> 32);
    count + (a3 & 0xffff)
}

/// Computes the Hamming weight of a value: the number of its set bits.
pub trait HammingWeight {
    /// The number of set bits the value holds.
    spec fn weight_spec(&self) -> int;

    /// On which values the native count is defined.
    spec fn native_req(&self) -> bool;

    /// On which values the tree-merge count is defined.
    spec fn popcount_req(&self) -> bool;

    /// What the tree-merge count returns; for whole words it keeps the
    /// packed running sums of `popcount_mult`.
    spec fn popcount_spec(&self) -> int;

    fn native(&self) -> (r: u64)
        requires
            self.native_req(),
        ensures
            r == self.weight_spec(),
    ;

    fn popcount(&self) -> (r: u64)
        requires
            self.popcount_req(),
        ensures
            r == self.popcount_spec(),
    ;
}

impl HammingWeight for u64 {
    open spec fn weight_spec(&self) -> int {
        bit_count64(*self)
    }

    open spec fn native_req(&self) -> bool {
        true
    }

    open spec fn popcount_req(&self) -> bool {
        true
    }

    open spec fn popcount_spec(&self) -> int {
        popcount_mult_spec(*self)
    }

    /// The native `count_ones`.
    fn native(&self) -> (r: u64) {
        count_ones64(*self) as u64
    }

    /// The multiply-based count, with its packed result.
    fn popcount(&self) -> (r: u64) {
        popcount_mult(*self)
    }
}

impl HammingWeight for u32 {
    open spec fn weight_spec(&self) -> int {
        bit_count64(*self as u64)
    }

    open spec fn native_req(&self) -> bool {
        true
    }

    open spec fn popcount_req(&self) -> bool {
        true
    }

    open spec fn popcount_spec(&self) -> int {
        popcount_mult_spec(*self as u64)
    }

    /// The native `count_ones`.
    fn native(&self) -> (r: u64) {
        count_ones32(*self) as u64
    }

    /// The multiply-based count of the zero-extended word.
    fn popcount(&self) -> (r: u64) {
        popcount_mult(*self as u64)
    }
}

impl HammingWeight for &[u8] {
    open spec fn weight_spec(&self) -> int {
        weight_of(self@)
    }

    open spec fn native_req(&self) -> bool {
        self@.len() <= 0x1fffffffffffffff
    }

    open spec fn popcount_req(&self) -> bool {
        1 <= self@.len() <= 0x0fffffffffffffff
    }

    open spec fn popcount_spec(&self) -> int {
        weight_of(self@)
    }

    /// Sums the native `count_ones` of every byte.
    fn native(&self) -> (r: u64) {
        let n = self.len();
        let mut sum: u64 = 0;
        let mut i: usize = 0;
        proof {
            assert(self@.take(0) =~= Seq::<u8>::empty());
            lemma_weight_of_bound(self@);
        }
        while i < n
            invariant
                i <= n,
                n == self@.len(),
                n <= 0x1fffffffffffffff,
                sum == weight_of(self@.take(i as int)),
                sum <= 8 * i,
            decreases n - i,
        {
            let b = self[i];
            let c = count_ones64(b as u64) as u64;
            proof {
                assert(self@.take(i as int + 1).drop_last() =~= self@.take(i as int));
                assert(self@.take(i as int + 1).last() == self@[i as int]);
                let v = self@[i as int] as u64;
                assert(v <= 0xff ==> bit_count64(v) == bit_count8(v) && 0 <= bit_count8(v)
                    <= 8) by (bit_vector);
            }
            sum = sum + c;
            i = i + 1;
        }
        proof {
            assert(self@.take(n as int) =~= self@);
        }
        sum
    }

    /// Counts the head and tail bytes natively; the tree-merge pass runs
    /// over an empty (all-zero) buffer, as the reference routine frames it.
    fn popcount(&self) -> (r: u64) {
        let head = vstd::slice::slice_subrange(*self, 0, 1);
        let tail = vstd::slice::slice_subrange(*self, 1, self.len());
        let buffer: [[u64; 30]; 1] = [[0u64; 30]; 1];
        proof {
            lemma_weight_of_bound(head@);
            lemma_weight_of_bound(tail@);
            lemma_weight_of_append(head@, tail@);
            assert(head@ + tail@ =~= self@);
        }
        let count = HammingWeight::native(&head) + HammingWeight::native(&tail);
        let r = lauradoux_for_weight(buffer, count);
        proof {
            let bv = buffer@[0]@;
            assert(word_counts(bv) == 0) by {
                lemma_zero_word_counts(bv);
            }
        }
        r
    }
}

/// An all-zero word sequence counts no bits.
proof fn lemma_zero_word_counts(s: Seq<u64>)
    requires
        forall|i: int| 0 <= i < s.len() ==> s[i] == 0u64,
    ensures
        word_counts(s) == 0,
    decreases s.len(),
{
    if s.len() > 0 {
        lemma_zero_word_counts(s.drop_last());
        assert(s.last() == 0u64);
        assert(bit_count64(0u64) == 0) by (bit_vector);
    }
}

/// The error of the distance routines: the two byte slices differ in size.
#[derive(Clone, Copy, Debug, PartialEq, Eq, Structural)]
pub enum DistanceError {
    Size,
}

impl DistanceError {
    /// The error spelled out.
    pub fn message(&self) -> (r: &'static str)
        ensures
            r@ == "byte arrays must be the same size"@,
    {
        "byte arrays must be the same size"
    }
}

/// The bitwise Hamming distance of two byte slices via the native
/// `count_ones`; slices of different sizes are refused.
pub fn distance_native(x: &[u8], y: &[u8]) -> (r: Result<u64, DistanceError>)
    requires
        x@.len() == y@.len() ==> x@.len() <= 0x1fffffffffffffff,
    ensures
        x@.len() != y@.len() ==> r == Result::<u64, DistanceError>::Err(DistanceError::Size),
        x@.len() == y@.len() ==> r is Ok && r->Ok_0 == distance_of(x@, y@),
{
    if x.len() != y.len() {
        return Result::Err(DistanceError::Size);
    }
    let n = x.len();
    let mut sum: u64 = 0;
    let mut i: usize = 0;
    proof {
        assert(x@.take(0) =~= Seq::<u8>::empty());
    }
    while i < n
        invariant
            i <= n,
            n == x@.len(),
            n == y@.len(),
            n <= 0x1fffffffffffffff,
            sum == distance_of(x@.take(i as int), y@.take(i as int)),
            sum <= 8 * i,
        decreases n - i,
    {
        let b = x[i] ^ y[i];
        let c = count_ones64(b as u64) as u64;
        proof {
            assert(x@.take(i as int + 1).drop_last() =~= x@.take(i as int));
            assert(y@.take(i as int + 1).drop_last() =~= y@.take(i as int));
            assert(x@.take(i as int + 1).last() == x@[i as int]);
            assert(y@.take(i as int + 1).last() == y@[i as int]);
            let v = (x@[i as int] ^ y@[i as int]) as u64;
            assert(v <= 0xff ==> bit_count64(v) == bit_count8(v) && 0 <= bit_count8(v)
                <= 8) by (bit_vector);
        }
        sum = sum + c;
        i = i + 1;
    }
    proof {
        assert(x@.take(n as int) =~= x@);
        assert(y@.take(n as int) =~= y@);
    }
    Result::Ok(sum)
}

proof fn lemma_distance_of_split(x: Seq<u8>, y: Seq<u8>, at: int)
    requires
        x.len() == y.len(),
        0 <= at <= x.len(),
    ensures
        distance_of(x, y) == distance_of(x.take(at), y.take(at)) + distance_of(
            x.skip(at),
            y.skip(at),
        ),
    decreases x.len(),
{
    if at == x.len() {
        assert(x.take(at) =~= x);
        assert(y.take(at) =~= y);
        assert(x.skip(at) =~= Seq::<u8>::empty());
        assert(y.skip(at) =~= Seq::<u8>::empty());
    } else {
        let xp = x.drop_last();
        let yp = y.drop_last();
        lemma_distance_of_split(xp, yp, at);
        assert(x.take(at) =~= xp.take(at));
        assert(y.take(at) =~= yp.take(at));
        assert(x.skip(at).drop_last() =~= xp.skip(at));
        assert(y.skip(at).drop_last() =~= yp.skip(at));
        assert(x.skip(at).last() == x.last());
        assert(y.skip(at).last() == y.last());
    }
}

/// The bitwise Hamming distance via the tree-merge framing: the head and
/// tail are counted natively and the merge pass runs over empty (all-zero)
/// buffers, as the reference routine frames it; slices of different sizes
/// are refused, and a pair of empty slices is not accepted.
pub fn lauradoux_for_distance(x: &[u8], y: &[u8]) -> (r: Result<u64, DistanceError>)
    requires
        x@.len() == y@.len() ==> 1 <= x@.len() <= 0x0fffffffffffffff,
    ensures
        x@.len() != y@.len() ==> r == Result::<u64, DistanceError>::Err(DistanceError::Size),
        x@.len() == y@.len() ==> r is Ok && r->Ok_0 == distance_of(x@, y@),
{
    if x.len() != y.len() {
        return Result::Err(DistanceError::Size);
    }
    let head1 = vstd::slice::slice_subrange(x, 0, 1);
    let tail1 = vstd::slice::slice_subrange(x, 1, x.len());
    let head2 = vstd::slice::slice_subrange(y, 0, 1);
    let tail2 = vstd::slice::slice_subrange(y, 1, y.len());
    let buffer1: [[u64; 30]; 1] = [[0u64; 30]; 1];
    let buffer2: [[u64; 30]; 1] = [[0u64; 30]; 1];
    let c_head = match distance_native(head1, head2) {
        Result::Ok(v) => v,
        Result::Err(err) => {
            return Result::Err(err);
        },
    };
    let c_tail = match distance_native(tail1, tail2) {
        Result::Ok(v) => v,
        Result::Err(err) => {
            return Result::Err(err);
        },
    };
    proof {
        assert(head1@ =~= x@.take(1));
        assert(head2@ =~= y@.take(1));
        assert(tail1@ =~= x@.skip(1));
        assert(tail2@ =~= y@.skip(1));
        lemma_distance_of_bound(head1@, head2@);
        lemma_distance_of_bound(tail1@, tail2@);
        lemma_distance_of_split(x@, y@, 1);
    }
    let mut count: u64 = c_head + c_tail;
    let m1: u64 = 0x5555555555555555;
    let m2: u64 = 0x3333333333333333;
    let m4: u64 = 0x0f0f0f0f0f0f0f0f;
    let m8: u64 = 0x00ff00ff00ff00ff;
    let buf1 = &buffer1[0];
    let buf2 = &buffer2[0];
    proof {
        broadcast use vstd::array::axiom_spec_array_fill_for_copy_type;

        assert(forall|i: int| 0 <= i < 30 ==> buf1@[i] == 0u64);
        assert(forall|i: int| 0 <= i < 30 ==> buf2@[i] == 0u64);
    }
    let mut accum: u64 = 0;
    let mut jj: usize = 0;
    while jj < 10
        invariant
            m1 == 0x5555555555555555,
            m2 == 0x3333333333333333,
            m4 == 0x0f0f0f0f0f0f0f0f,
            jj <= 10,
            accum == 0,
            forall|i: int| 0 <= i < 30 ==> buf1@[i] == 0u64,
            forall|i: int| 0 <= i < 30 ==> buf2@[i] == 0u64,
        decreases 10 - jj,
    {
        let j: usize = jj * 3;
        proof {
            assert(0u64 ^ 0u64 == 0u64) by (bit_vector);
            assert(0u64 & 0x5555555555555555 == 0u64 && (0u64 >> 1) & 0x5555555555555555
                == 0u64 && (0u64 >> 2) & 0x3333333333333333 == 0u64 && 0u64
                & 0x3333333333333333 == 0u64 && 0u64 & 0x0f0f0f0f0f0f0f0f == 0u64 && (0u64
                >> 4) & 0x0f0f0f0f0f0f0f0f == 0u64) by (bit_vector);
        }
        let mut c1: u64 = buf1[j] ^ buf2[j];
        let mut c2: u64 = buf1[j + 1] ^ buf2[j + 1];
        let mut half1: u64 = buf1[j + 2] ^ buf1[j + 2];
        let mut half2: u64 = half1;
        proof {
            assert(c1 == 0u64 && c2 == 0u64 && half1 == 0u64 && half2 == 0u64);
        }
        half1 = half1 & m1;
        half2 = (half2 >> 1) & m1;
        c1 = c1 - ((c1 >> 1) & m1);
        c2 = c2 - ((c2 >> 1) & m1);
        proof {
            assert(c1 == 0u64 && c2 == 0u64 && half1 == 0u64 && half2 == 0u64);
        }
        c1 = c1 + half1;
        c2 = c2 + half2;
        c1 = (c1 & m2) + ((c1 >> 2) & m2);
        c1 = c1 + ((c2 & m2) + ((c2 >> 2) & m2));
        proof {
            assert(c1 == 0u64);
        }
        accum = accum + ((c1 & m4) + ((c1 >> 4) & m4));
        jj = jj + 1;
    }
    proof {
        assert((0u64 & 0x00ff00ff00ff00ff) + ((0u64 >> 8) & 0x00ff00ff00ff00ff) == 0u64 && (0u64
            >> 16) == 0u64 && (0u64 >> 32) == 0u64 && 0u64 & 0xffff == 0u64) by (bit_vector);
    }
    let a1: u64 = (accum & m8) + ((accum >> 8) & m8);
    let a2: u64 = a1 + (a1 >> 16);
    let a3: u64 = a2 + (a2 >> 32);
    count = count + (a3 & 0xffff);
    Result::Ok(count)
}

/// The bitwise Hamming distance of two equally sized byte containers.
pub trait HammingSpace {
    /// On which pairs the distance is defined.
    spec fn distance_req(&self, y: Seq<u8>) -> bool;

    /// Whether the two sides have the same size.
    spec fn same_len(&self, y: Seq<u8>) -> bool;

    /// The distance when the sizes agree.
    spec fn distance_spec(&self, y: Seq<u8>) -> int;

    fn distance(&self, y: &[u8]) -> (r: Result<u64, DistanceError>)
        requires
            self.distance_req(y@),
        ensures
            !self.same_len(y@) ==> r == Result::<u64, DistanceError>::Err(DistanceError::Size),
            self.same_len(y@) ==> r is Ok && r->Ok_0 == self.distance_spec(y@),
    ;
}

impl HammingSpace for &[u8] {
    open spec fn distance_req(&self, y: Seq<u8>) -> bool {
        self@.len() == y.len() ==> 1 <= self@.len() <= 0x0fffffffffffffff
    }

    open spec fn same_len(&self, y: Seq<u8>) -> bool {
        self@.len() == y.len()
    }

    open spec fn distance_spec(&self, y: Seq<u8>) -> int {
        distance_of(self@, y)
    }

    /// Tries the tree-merge routine first and falls back to the native one
    /// on a size mismatch; either way, slices of different sizes are
    /// refused and equal sizes yield the distance.
    fn distance(&self, y: &[u8]) -> (r: Result<u64, DistanceError>) {
        let d = match lauradoux_for_distance(*self, y) {
            Result::Ok(v) => v,
            Result::Err(error) => {
                if matches!(error, DistanceError::Size) {
                    match distance_native(*self, y) {
                        Result::Ok(v) => v,
                        Result::Err(e) => {
                            return Result::Err(e);
                        },
                    }
                } else {
                    return Result::Err(error);
                }
            },
        };
        Result::Ok(d)
    }
}

} // verus!