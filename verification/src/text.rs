//! Character-level string utilities shared by the tokenizers and the
//! matching engine: conversions between `&str`/`String` and `Vec<char>`,
//! lexicographic ordering of character sequences, concatenation and joining
//! of token lists, and the character classifications the tokenizers rely on.
use vstd::prelude::*;

verus! {

use vstd::string::StrSliceExecFns;
use vstd::string::StringExecFns;

/// What `str::to_lowercase` returns: a function of the characters alone.
pub uninterp spec fn lower_of(s: Seq<char>) -> Seq<char>;

/// What `char::is_alphanumeric` returns: a function of the character alone.
pub uninterp spec fn alphanumeric(c: char) -> bool;

/// What `char::is_whitespace` returns: a function of the character alone.
pub uninterp spec fn whitespace(c: char) -> bool;

/// Relies on str::to_lowercase: the result depends on the characters alone,
/// and an empty string stays empty.
#[verifier::external_body]
pub(crate) fn lowercase(s: &str) -> (r: String)
    ensures
        r@ == lower_of(s@),
        s@.len() == 0 ==> r@.len() == 0,
{
    s.to_lowercase()
}

/// Relies on char::is_alphanumeric: a pure classification of the character.
pub assume_specification[ char::is_alphanumeric ](c: char) -> (b: bool)
    ensures
        b == alphanumeric(c),
;

/// Relies on char::is_whitespace: a pure classification of the character.
pub assume_specification[ char::is_whitespace ](c: char) -> (b: bool)
    ensures
        b == whitespace(c),
;

/// Relies on String::push: appends one character at the end.
#[verifier::external_body]
pub(crate) fn push_char(s: &mut String, c: char)
    ensures
        final(s)@ == old(s)@.push(c),
{
    s.push(c)
}

/// The characters of `s`, in order, as a vector.
pub fn chars_of(s: &str) -> (r: Vec<char>)
    ensures
        r@ == s@,
{
    let n = s.unicode_len();
    let mut r: Vec<char> = Vec::new();
    let mut i: usize = 0;
    while i < n
        invariant
            n == s@.len(),
            i <= n,
            r@ == s@.take(i as int),
        decreases n - i,
    {
        let c = s.get_char(i);
        r.push(c);
        i = i + 1;
        proof {
            assert(r@ =~= s@.take(i as int));
        }
    }
    proof {
        assert(r@ =~= s@);
    }
    r
}

/// The characters of `v`, in order, as a string.
pub fn string_of(v: &Vec<char>) -> (r: String)
    ensures
        r@ == v@,
{
    let mut r = String::new();
    let mut i: usize = 0;
    while i < v.len()
        invariant
            i <= v@.len(),
            r@ == v@.take(i as int),
        decreases v@.len() - i,
    {
        push_char(&mut r, v[i]);
        i = i + 1;
        proof {
            assert(r@ =~= v@.take(i as int));
        }
    }
    proof {
        assert(r@ =~= v@);
    }
    r
}

/// A copy of the characters `v[from..to]`.
pub fn slice_chars(v: &Vec<char>, from: usize, to: usize) -> (r: Vec<char>)
    requires
        from <= to <= v@.len(),
    ensures
        r@ == v@.subrange(from as int, to as int),
{
    let mut r: Vec<char> = Vec::new();
    let mut m: usize = 0;
    while m < to - from
        invariant
            from <= to <= v@.len(),
            m <= to - from,
            r@ == v@.subrange(from as int, from + m),
        decreases to - from - m,
    {
        r.push(v[from + m]);
        m = m + 1;
        proof {
            assert(r@ =~= v@.subrange(from as int, from + m));
        }
    }
    r
}

/// Lexicographic order on character sequences, by code point; it agrees with
/// the byte-wise order of the corresponding UTF-8 strings.
pub open spec fn lex_le(a: Seq<char>, b: Seq<char>) -> bool
    decreases a.len(),
{
    if a.len() == 0 {
        true
    } else if b.len() == 0 {
        false
    } else if a[0] != b[0] {
        (a[0] as u32) < (b[0] as u32)
    } else {
        lex_le(a.drop_first(), b.drop_first())
    }
}

pub proof fn lemma_lex_le_total(a: Seq<char>, b: Seq<char>)
    ensures
        lex_le(a, b) || lex_le(b, a),
        lex_le(a, b) && lex_le(b, a) ==> a == b,
    decreases a.len(),
{
    if a.len() == 0 {
        if b.len() == 0 {
            assert(a =~= b);
        }
    } else if b.len() == 0 {
    } else if a[0] != b[0] {
        assert((a[0] as u32) != (b[0] as u32)) by {
            if (a[0] as u32) == (b[0] as u32) {
                vstd::utf8::char_u32_cast(a[0], a[0] as u32);
                vstd::utf8::char_u32_cast(b[0], b[0] as u32);
            }
        }
    } else {
        lemma_lex_le_total(a.drop_first(), b.drop_first());
        if lex_le(a, b) && lex_le(b, a) {
            assert(a.drop_first() == b.drop_first());
            assert forall|i: int| 0 <= i < a.len() implies a[i] == b[i] by {
                if i > 0 {
                    assert(a.drop_first()[i - 1] == b.drop_first()[i - 1]);
                }
            }
            assert(a =~= b);
        }
    }
}

/// The lexicographic order as a relation value, for sorting.
pub open spec fn lex_leq() -> spec_fn(Seq<char>, Seq<char>) -> bool {
    |a: Seq<char>, b: Seq<char>| lex_le(a, b)
}

pub proof fn lemma_lex_le_trans(a: Seq<char>, b: Seq<char>, c: Seq<char>)
    requires
        lex_le(a, b),
        lex_le(b, c),
    ensures
        lex_le(a, c),
    decreases a.len(),
{
    if a.len() == 0 {
    } else if b.len() == 0 {
        assert(false);
    } else if c.len() == 0 {
        assert(false);
    } else {
        let x = a[0];
        let y = b[0];
        let z = c[0];
        if x == y && y == z {
            lemma_lex_le_trans(a.drop_first(), b.drop_first(), c.drop_first());
        } else {
            assert(x != y ==> (x as u32) < (y as u32));
            assert(y != z ==> (y as u32) < (z as u32));
            assert((x as u32) != (z as u32) ==> x != z);
            if x == z {
                assert((x as u32) == (z as u32));
                assert(false);
            } else {
                assert((x as u32) < (z as u32)) by {
                    if (x as u32) == (y as u32) {
                        vstd::utf8::char_u32_cast(x, x as u32);
                        vstd::utf8::char_u32_cast(y, y as u32);
                        assert(x == y);
                    }
                    if (y as u32) == (z as u32) {
                        vstd::utf8::char_u32_cast(y, y as u32);
                        vstd::utf8::char_u32_cast(z, z as u32);
                        assert(y == z);
                    }
                }
            }
        }
    }
}

/// The lexicographic order is total.
pub proof fn lemma_lex_total_ordering()
    ensures
        vstd::relations::total_ordering(lex_leq()),
{
    let leq = lex_leq();
    assert forall|a: Seq<char>| #[trigger] leq(a, a) by {
        lemma_lex_le_total(a, a);
    }
    assert forall|a: Seq<char>, b: Seq<char>| #[trigger] leq(a, b) && #[trigger] leq(b, a)
        implies a == b by {
        lemma_lex_le_total(a, b);
    }
    assert forall|a: Seq<char>, b: Seq<char>, c: Seq<char>|
        #[trigger] leq(a, b) && #[trigger] leq(b, c) implies leq(a, c) by {
        lemma_lex_le_trans(a, b, c);
    }
    assert forall|a: Seq<char>, b: Seq<char>| #[trigger] leq(a, b) || #[trigger] leq(b, a) by {
        lemma_lex_le_total(a, b);
    }
}

/// Whether `a` comes no later than `b` in lexicographic order.
pub fn str_le(a: &Vec<char>, b: &Vec<char>) -> (r: bool)
    ensures
        r == lex_le(a@, b@),
{
    let mut i: usize = 0;
    proof {
        assert(a@.skip(0) =~= a@);
        assert(b@.skip(0) =~= b@);
    }
    loop
        invariant
            i <= a@.len(),
            i <= b@.len(),
            a@.take(i as int) == b@.take(i as int),
            lex_le(a@, b@) == lex_le(a@.skip(i as int), b@.skip(i as int)),
        decreases a@.len() - i,
    {
        if i >= a.len() {
            proof {
                assert(a@.skip(i as int).len() == 0);
            }
            return true;
        }
        if i >= b.len() {
            proof {
                assert(b@.skip(i as int).len() == 0);
                assert(a@.skip(i as int).len() > 0);
            }
            return false;
        }
        let ca = a[i];
        let cb = b[i];
        proof {
            assert(a@.skip(i as int)[0] == a@[i as int]);
            assert(b@.skip(i as int)[0] == b@[i as int]);
            assert(a@.skip(i as int).drop_first() =~= a@.skip(i as int + 1));
            assert(b@.skip(i as int).drop_first() =~= b@.skip(i as int + 1));
        }
        if ca != cb {
            return (ca as u32) < (cb as u32);
        }
        proof {
            assert(a@.take(i as int + 1) =~= b@.take(i as int + 1));
        }
        i = i + 1;
    }
}

/// The concatenation of a list of strings, with nothing between them.
pub open spec fn concat_seqs(v: Seq<Seq<char>>) -> Seq<char>
    decreases v.len(),
{
    if v.len() == 0 {
        Seq::empty()
    } else {
        concat_seqs(v.drop_last()) + v.last()
    }
}

/// The concatenation of a list of strings with `sep` between each pair.
pub open spec fn join_seqs(v: Seq<Seq<char>>, sep: Seq<char>) -> Seq<char>
    decreases v.len(),
{
    if v.len() == 0 {
        Seq::empty()
    } else if v.len() == 1 {
        v[0]
    } else {
        join_seqs(v.drop_last(), sep) + sep + v.last()
    }
}

/// All the strings of `v` run together.
pub fn concat_all(v: &Vec<String>) -> (r: String)
    ensures
        r@ == concat_seqs(v.deep_view()),
{
    let mut r = String::new();
    let mut i: usize = 0;
    proof {
        assert(v.deep_view().take(0) =~= Seq::<Seq<char>>::empty());
    }
    while i < v.len()
        invariant
            i <= v@.len(),
            v.deep_view().len() == v@.len(),
            r@ == concat_seqs(v.deep_view().take(i as int)),
        decreases v@.len() - i,
    {
        proof {
            assert(v.deep_view().take(i as int + 1).drop_last() =~= v.deep_view().take(i as int));
            assert(v.deep_view().take(i as int + 1).last() == v.deep_view()[i as int]);
            assert(v.deep_view()[i as int] == v@[i as int]@);
        }
        r.append(v[i].as_str());
        i = i + 1;
    }
    proof {
        assert(v.deep_view().take(v@.len() as int) =~= v.deep_view());
    }
    r
}

/// The strings of `v` joined by `sep`.
pub fn join_with(v: &Vec<String>, sep: &str) -> (r: String)
    ensures
        r@ == join_seqs(v.deep_view(), sep@),
{
    let mut r = String::new();
    let mut i: usize = 0;
    proof {
        assert(v.deep_view().take(0) =~= Seq::<Seq<char>>::empty());
    }
    while i < v.len()
        invariant
            i <= v@.len(),
            v.deep_view().len() == v@.len(),
            r@ == join_seqs(v.deep_view().take(i as int), sep@),
        decreases v@.len() - i,
    {
        proof {
            assert(v.deep_view().take(i as int + 1).drop_last() =~= v.deep_view().take(i as int));
            assert(v.deep_view().take(i as int + 1).last() == v.deep_view()[i as int]);
            assert(v.deep_view()[i as int] == v@[i as int]@);
            if i == 0 {
                assert(v.deep_view().take(1)[0] == v.deep_view()[0]);
            }
        }
        if i > 0 {
            r.append(sep);
        }
        r.append(v[i].as_str());
        i = i + 1;
    }
    proof {
        assert(v.deep_view().take(v@.len() as int) =~= v.deep_view());
    }
    r
}

/// Whether the string `a` comes no later than `b` in lexicographic order.
pub fn string_le(a: &str, b: &str) -> (r: bool)
    ensures
        r == lex_le(a@, b@),
{
    let ca = chars_of(a);
    let cb = chars_of(b);
    str_le(&ca, &cb)
}

proof fn lemma_insert_multiset(s: Seq<Seq<char>>, pos: int, x: Seq<char>)
    requires
        0 <= pos <= s.len(),
    ensures
        s.insert(pos, x).to_multiset() =~= s.to_multiset().insert(x),
{
    broadcast use vstd::seq_lib::group_to_multiset_ensures;

    assert(s.insert(pos, x) =~= (s.take(pos).push(x)) + s.skip(pos));
    assert(s =~= s.take(pos) + s.skip(pos));
    vstd::seq_lib::lemma_multiset_commutative(s.take(pos).push(x), s.skip(pos));
    vstd::seq_lib::lemma_multiset_commutative(s.take(pos), s.skip(pos));
    assert(s.take(pos).push(x).to_multiset() =~= s.take(pos).to_multiset().insert(x));
}

/// The strings of `v`, sorted lexicographically.
pub fn sort_strings(v: &Vec<String>) -> (r: Vec<String>)
    ensures
        r.deep_view() == v.deep_view().sort_by(lex_leq()),
{
    proof {
        lemma_lex_total_ordering();
        v.deep_view().lemma_sort_by_ensures(lex_leq());
    }
    let mut out: Vec<String> = Vec::new();
    let mut i: usize = 0;
    proof {
        broadcast use vstd::seq_lib::group_to_multiset_ensures;

        assert(out.deep_view() =~= v.deep_view().take(0));
    }
    while i < v.len()
        invariant
            i <= v@.len(),
            v.deep_view().len() == v@.len(),
            out.deep_view().to_multiset() == v.deep_view().take(i as int).to_multiset(),
            vstd::relations::sorted_by(out.deep_view(), lex_leq()),
        decreases v@.len() - i,
    {
        let x = &v[i];
        let ghost xv = v.deep_view()[i as int];
        proof {
            assert(xv == v@[i as int]@);
        }
        let mut pos: usize = 0;
        while pos < out.len() && string_le(out[pos].as_str(), x.as_str())
            invariant
                pos <= out@.len(),
                out.deep_view().len() == out@.len(),
                xv == x@,
                forall|y: int| 0 <= y < pos ==> lex_le(#[trigger] out.deep_view()[y], xv),
            decreases out@.len() - pos,
        {
            proof {
                assert(out.deep_view()[pos as int] == out@[pos as int]@);
            }
            pos = pos + 1;
        }
        proof {
            if pos < out@.len() {
                assert(out.deep_view()[pos as int] == out@[pos as int]@);
                assert(!lex_le(out.deep_view()[pos as int], xv));
                lemma_lex_le_total(out.deep_view()[pos as int], xv);
                assert(lex_le(xv, out.deep_view()[pos as int]));
            }
        }
        let ghost pre = out.deep_view();
        let ghost prevec = out@;
        let xc = x.clone();
        proof {
            assert(xc@ == xv);
        }
        out.insert(pos, xc);
        proof {
            broadcast use vstd::seq_lib::group_to_multiset_ensures;

            let cur = out.deep_view();
            prevec.insert_ensures(pos as int, out@[pos as int]);
            pre.insert_ensures(pos as int, xv);
            assert forall|y: int| 0 <= y < cur.len() implies cur[y] == pre.insert(
                pos as int,
                xv,
            )[y] by {
                assert(cur[y] == out@[y]@);
                if y < pos {
                    assert(out@[y] == prevec[y]);
                    assert(pre.insert(pos as int, xv)[y] == pre[y]);
                    assert(pre[y] == prevec[y]@);
                } else if y == pos {
                    assert(pre.insert(pos as int, xv)[y] == xv);
                } else {
                    assert(out@[y] == prevec[y - 1]);
                    assert(pre.insert(pos as int, xv)[y] == pre[y - 1]);
                    assert(pre[y - 1] == prevec[y - 1]@);
                }
            }
            assert(cur =~= pre.insert(pos as int, xv));
            lemma_insert_multiset(pre, pos as int, xv);
            assert(v.deep_view().take(i as int + 1) =~= v.deep_view().take(i as int).push(xv));
            assert(v.deep_view().take(i as int).push(xv).to_multiset() =~= v.deep_view().take(
                i as int,
            ).to_multiset().insert(xv));
            assert(vstd::relations::sorted_by(cur, lex_leq())) by {
                assert forall|y: int, z: int| 0 <= y < z < cur.len() implies lex_leq()(
                    cur[y],
                    cur[z],
                ) by {
                    if z < pos {
                        assert(cur[y] == pre[y] && cur[z] == pre[z]);
                    } else if y > pos {
                        assert(cur[y] == pre[y - 1] && cur[z] == pre[z - 1]);
                    } else if y < pos && z == pos {
                        assert(cur[y] == pre[y] && cur[z] == xv);
                        assert(lex_le(pre[y], xv));
                    } else if y < pos && z > pos {
                        assert(cur[y] == pre[y] && cur[z] == pre[z - 1]);
                    } else if y == pos && z > pos {
                        assert(cur[y] == xv && cur[z] == pre[z - 1]);
                        assert(lex_le(xv, pre[pos as int]));
                        if z - 1 > pos {
                            assert(lex_leq()(pre[pos as int], pre[z - 1]));
                            lemma_lex_le_trans(xv, pre[pos as int], pre[z - 1]);
                        }
                    }
                }
            }
        }
        i = i + 1;
    }
    proof {
        assert(v.deep_view().take(v@.len() as int) =~= v.deep_view());
        vstd::seq_lib::lemma_sorted_unique(
            out.deep_view(),
            v.deep_view().sort_by(lex_leq()),
            lex_leq(),
        );
    }
    out
}

} // verus!
