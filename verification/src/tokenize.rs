//! Splitting one source line into tokens: a double-quoted run kept whole,
//! quotes included, or a maximal run of non-whitespace bytes.
use vstd::prelude::*;
use crate::chars::{is_space_byte, byte_is_space};
use vstd::slice::{slice_index_get, slice_subrange, slice_to_vec};

verus! {

/// Length of the maximal whitespace-free prefix of `s`.
pub open spec fn nonspace_prefix(s: Seq<u8>) -> nat
    decreases s.len(),
{
    if s.len() > 0 && !is_space_byte(s[0]) {
        1 + nonspace_prefix(s.drop_first())
    } else {
        0
    }
}

/// Index of the first quote byte of `s`, or `s.len()` when there is none.
pub open spec fn quote_pos(s: Seq<u8>) -> nat
    decreases s.len(),
{
    if s.len() == 0 {
        0
    } else if s[0] == 34 {
        0
    } else {
        1 + quote_pos(s.drop_first())
    }
}

/// Length of the first token of `s`, whose first byte must not be whitespace:
/// a quoted run when `s` opens a quote that closes, else the non-space run.
pub open spec fn first_token_len(s: Seq<u8>) -> nat
    recommends
        s.len() > 0 && !is_space_byte(s[0]),
{
    if s[0] == 34 && quote_pos(s.drop_first()) < s.drop_first().len() {
        2 + quote_pos(s.drop_first())
    } else {
        nonspace_prefix(s)
    }
}

/// The token sequence of a line, in left-to-right order.
pub open spec fn spec_tokens(s: Seq<u8>) -> Seq<Seq<u8>>
    decreases s.len(),
    via spec_tokens_decreases
{
    if s.len() == 0 {
        Seq::empty()
    } else if is_space_byte(s[0]) {
        spec_tokens(s.drop_first())
    } else {
        let n = first_token_len(s) as int;
        seq![s.take(n)] + spec_tokens(s.skip(n))
    }
}

/// Bounds on the non-space run: never longer than the line.
pub proof fn lemma_nonspace_prefix_bounds(s: Seq<u8>)
    ensures
        nonspace_prefix(s) <= s.len(),
    decreases s.len(),
{
    if s.len() > 0 && !is_space_byte(s[0]) {
        lemma_nonspace_prefix_bounds(s.drop_first());
    }
}

/// Bounds on the quote search: never past the end of the line.
pub proof fn lemma_quote_pos_bounds(s: Seq<u8>)
    ensures
        quote_pos(s) <= s.len(),
    decreases s.len(),
{
    if s.len() > 0 && s[0] != 34 {
        lemma_quote_pos_bounds(s.drop_first());
    }
}

/// A first token is non-empty and lies within the line.
pub proof fn lemma_first_token_len_bounds(s: Seq<u8>)
    requires
        s.len() > 0,
        !is_space_byte(s[0]),
    ensures
        1 <= first_token_len(s) <= s.len(),
{
    lemma_nonspace_prefix_bounds(s);
    lemma_quote_pos_bounds(s.drop_first());
}

#[via_fn]
proof fn spec_tokens_decreases(s: Seq<u8>) {
    if s.len() > 0 && !is_space_byte(s[0]) {
        lemma_first_token_len_bounds(s);
    }
}

/// The byte sequences held by a vector of owned tokens.
pub open spec fn views_of(ts: Seq<Vec<u8>>) -> Seq<Seq<u8>> {
    ts.map_values(|t: Vec<u8>| t@)
}

proof fn lemma_nonspace_prefix_at(s: Seq<u8>, j: int)
    requires
        0 <= j <= s.len(),
        forall|k: int| 0 <= k < j ==> !is_space_byte(#[trigger] s[k]),
        j == s.len() || is_space_byte(s[j]),
    ensures
        nonspace_prefix(s) == j,
    decreases j,
{
    if j == 0 {
    } else {
        assert(!is_space_byte(s[0]));
        lemma_nonspace_prefix_at(s.drop_first(), j - 1);
    }
}

proof fn lemma_quote_pos_at(s: Seq<u8>, j: int)
    requires
        0 <= j <= s.len(),
        forall|k: int| 0 <= k < j ==> #[trigger] s[k] != 34,
        j == s.len() || s[j] == 34,
    ensures
        quote_pos(s) == j,
    decreases j,
{
    if j == 0 {
    } else {
        assert(s[0] != 34);
        lemma_quote_pos_at(s.drop_first(), j - 1);
    }
}

/// End of the maximal non-space run that starts at `i`.
fn nonspace_end(line: &[u8], i: usize) -> (e: usize)
    requires
        i < line@.len(),
        !is_space_byte(line@[i as int]),
    ensures
        i < e <= line@.len(),
        nonspace_prefix(line@.skip(i as int)) == e - i,
{
    let n = line.len();
    let mut m: usize = i;
    while m < n && !byte_is_space(*slice_index_get(line, m))
        invariant
            i <= m <= n,
            n == line@.len(),
            forall|k: int| i <= k < m ==> !is_space_byte(#[trigger] line@[k]),
        decreases n - m,
    {
        m = m + 1;
    }
    proof {
        assert(forall|k: int|
            0 <= k < m - i ==> #[trigger] line@.skip(i as int)[k] == line@[k + i]);
        lemma_nonspace_prefix_at(line@.skip(i as int), m - i);
        if m == i {
            assert(is_space_byte(line@[i as int]));
        }
    }
    m
}

/// Splits a line into its tokens, each an owned copy of a span of the line.
pub fn tokenize(line: &[u8]) -> (r: Vec<Vec<u8>>)
    ensures
        views_of(r@) == spec_tokens(line@),
{
    let mut out: Vec<Vec<u8>> = Vec::new();
    let mut i: usize = 0;
    let n = line.len();
    proof {
        assert(line@.skip(0) =~= line@);
        assert(views_of(out@) + spec_tokens(line@) =~= spec_tokens(line@));
    }
    while i < n
        invariant
            0 <= i <= n,
            n == line@.len(),
            spec_tokens(line@) == views_of(out@) + spec_tokens(line@.skip(i as int)),
        decreases n - i,
    {
        let ghost sub = line@.skip(i as int);
        let b = *slice_index_get(line, i);
        if byte_is_space(b) {
            proof {
                assert(sub.drop_first() =~= line@.skip(i + 1));
            }
            i = i + 1;
        } else {
            let tok_end: usize;
            if b == 34 {
                let mut j: usize = i + 1;
                while j < n && *slice_index_get(line, j) != 34
                    invariant
                        i + 1 <= j <= n,
                        n == line@.len(),
                        forall|k: int| i + 1 <= k < j ==> #[trigger] line@[k] != 34,
                    decreases n - j,
                {
                    j = j + 1;
                }
                proof {
                    assert(sub.drop_first() =~= line@.skip(i + 1));
                    assert(forall|k: int|
                        0 <= k < j - (i + 1) ==> #[trigger] line@.skip(i + 1)[k] == line@[k + i
                            + 1]);
                    lemma_quote_pos_at(line@.skip(i + 1), j - (i + 1));
                }
                if j < n {
                    tok_end = j + 1;
                    proof {
                        assert(first_token_len(sub) == j + 1 - i);
                    }
                } else {
                    tok_end = nonspace_end(line, i);
                    proof {
                        assert(quote_pos(sub.drop_first()) == sub.drop_first().len());
                        assert(first_token_len(sub) == nonspace_prefix(sub));
                    }
                }
            } else {
                tok_end = nonspace_end(line, i);
                proof {
                    assert(first_token_len(sub) == nonspace_prefix(sub));
                }
            }
            let ghost ftl = first_token_len(sub) as int;
            proof {
                assert(ftl == tok_end - i);
                assert(sub.take(ftl) =~= line@.subrange(i as int, tok_end as int));
                assert(sub.skip(ftl) =~= line@.skip(tok_end as int));
            }
            let tok = slice_to_vec(slice_subrange(line, i, tok_end));
            let ghost old_out = out@;
            out.push(tok);
            proof {
                assert(views_of(out@) =~= views_of(old_out) + seq![tok@]);
                assert(views_of(old_out) + (seq![sub.take(ftl)] + spec_tokens(sub.skip(ftl)))
                    =~= (views_of(old_out) + seq![sub.take(ftl)]) + spec_tokens(sub.skip(ftl)));
            }
            i = tok_end;
        }
    }
    proof {
        assert(spec_tokens(line@.skip(n as int)) =~= Seq::<Seq<u8>>::empty());
        assert(views_of(out@) + Seq::<Seq<u8>>::empty() =~= views_of(out@));
    }
    out
}

} // verus!
