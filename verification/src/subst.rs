//! The substitution pass: every `&name` reference in a line is rewritten to
//! the decimal text of the variable's current value, in one left-to-right
//! scan that never re-reads replaced text; an undefined name fails the line.
use vstd::prelude::*;
use crate::chars::{is_name_byte, byte_is_name};
use crate::num::{i64_dec, i64_to_dec};
use crate::store::VarStore;
use vstd::slice::{slice_index_get, slice_subrange, slice_to_vec};

verus! {

/// Length of the maximal run of name bytes at the front of `s`.
pub open spec fn name_prefix(s: Seq<u8>) -> nat
    decreases s.len(),
{
    if s.len() > 0 && is_name_byte(s[0]) {
        1 + name_prefix(s.drop_first())
    } else {
        0
    }
}

/// A name run never reaches past the end of the text.
pub proof fn lemma_name_prefix_bounds(s: Seq<u8>)
    ensures
        name_prefix(s) <= s.len(),
    decreases s.len(),
{
    if s.len() > 0 && is_name_byte(s[0]) {
        lemma_name_prefix_bounds(s.drop_first());
    }
}

/// What substitution makes of a line: the rewritten text, or the name of
/// the first reference whose variable is not defined.
pub enum SubstSpec {
    Done(Seq<u8>),
    Undef(Seq<u8>),
}

/// The rewriting itself. A `&` directly followed by a byte that is not a
/// space opens a reference; its name is the maximal following run of name
/// bytes, and the whole reference is replaced by the value's decimal text.
/// The scan resumes after the replacement, never inside it.
pub open spec fn subst(s: Seq<u8>, vars: Map<Seq<u8>, i64>) -> SubstSpec
    decreases s.len(),
    via subst_decreases
{
    if s.len() == 0 {
        SubstSpec::Done(Seq::empty())
    } else if s[0] == 38 && s.len() >= 2 && s[1] != 32 {
        let np = name_prefix(s.skip(1)) as int;
        let name = s.skip(1).take(np);
        if vars.contains_key(name) {
            match subst(s.skip(1 + np), vars) {
                SubstSpec::Done(rest) => SubstSpec::Done(i64_dec(vars[name] as int) + rest),
                SubstSpec::Undef(n) => SubstSpec::Undef(n),
            }
        } else {
            SubstSpec::Undef(name)
        }
    } else {
        match subst(s.drop_first(), vars) {
            SubstSpec::Done(rest) => SubstSpec::Done(seq![s[0]] + rest),
            SubstSpec::Undef(n) => SubstSpec::Undef(n),
        }
    }
}

#[via_fn]
proof fn subst_decreases(s: Seq<u8>, vars: Map<Seq<u8>, i64>) {
    if s.len() > 0 && s[0] == 38 && s.len() >= 2 && s[1] != 32 {
        lemma_name_prefix_bounds(s.skip(1));
    }
}

/// Prepending already-rewritten text to the outcome of the rest of the scan.
pub open spec fn subst_cont(prefix: Seq<u8>, r: SubstSpec) -> SubstSpec {
    match r {
        SubstSpec::Done(t) => SubstSpec::Done(prefix + t),
        SubstSpec::Undef(n) => SubstSpec::Undef(n),
    }
}

pub proof fn lemma_subst_cont_assoc(a: Seq<u8>, b: Seq<u8>, r: SubstSpec)
    ensures
        subst_cont(a, subst_cont(b, r)) == subst_cont(a + b, r),
{
    match r {
        SubstSpec::Done(t) => {
            assert(a + (b + t) =~= (a + b) + t);
        },
        SubstSpec::Undef(_) => {},
    }
}

/// The outcome of the substitution pass, owned.
pub enum SubstOut {
    Done(Vec<u8>),
    Undef(Vec<u8>),
}

pub proof fn lemma_name_prefix_at(s: Seq<u8>, j: int)
    requires
        0 <= j <= s.len(),
        forall|k: int| 0 <= k < j ==> is_name_byte(#[trigger] s[k]),
        j == s.len() || !is_name_byte(s[j]),
    ensures
        name_prefix(s) == j,
    decreases j,
{
    if j == 0 {
    } else {
        assert(is_name_byte(s[0]));
        lemma_name_prefix_at(s.drop_first(), j - 1);
    }
}

/// Rewrites one line against the current variable store.
pub fn substitute(line: &[u8], vars: &VarStore) -> (r: SubstOut)
    ensures
        match r {
            SubstOut::Done(t) => subst(line@, vars@) == SubstSpec::Done(t@),
            SubstOut::Undef(n) => subst(line@, vars@) == SubstSpec::Undef(n@),
        },
{
    let mut out: Vec<u8> = Vec::new();
    let mut i: usize = 0;
    let n = line.len();
    proof {
        assert(line@.skip(0) =~= line@);
        assert(subst_cont(out@, subst(line@, vars@)) == subst(line@, vars@)) by {
            match subst(line@, vars@) {
                SubstSpec::Done(t) => {
                    assert(out@ + t =~= t);
                },
                SubstSpec::Undef(_) => {},
            }
        }
    }
    while i < n
        invariant
            0 <= i <= n,
            n == line@.len(),
            subst(line@, vars@) == subst_cont(out@, subst(line@.skip(i as int), vars@)),
        decreases n - i,
    {
        let ghost sub = line@.skip(i as int);
        let b = *slice_index_get(line, i);
        if b == 38 && i + 1 < n && *slice_index_get(line, i + 1) != 32 {
            let mut j: usize = i + 1;
            while j < n && byte_is_name(*slice_index_get(line, j))
                invariant
                    i + 1 <= j <= n,
                    n == line@.len(),
                    forall|k: int| i + 1 <= k < j ==> is_name_byte(#[trigger] line@[k]),
                decreases n - j,
            {
                j = j + 1;
            }
            proof {
                assert(sub.skip(1) =~= line@.skip(i + 1));
                assert(forall|k: int|
                    0 <= k < j - (i + 1) ==> #[trigger] line@.skip(i + 1)[k] == line@[k + i
                        + 1]);
                lemma_name_prefix_at(line@.skip(i + 1), j - (i + 1));
                assert(sub.skip(1).take(j - (i + 1)) =~= line@.subrange(i + 1, j as int));
            }
            let name_slice = slice_subrange(line, i + 1, j);
            match vars.get(name_slice) {
                Some(v) => {
                    let mut txt = i64_to_dec(v);
                    let ghost old_out = out@;
                    let ghost txt_view = txt@;
                    out.append(&mut txt);
                    proof {
                        assert(sub.skip(1 + (j - (i + 1))) =~= line@.skip(j as int));
                        assert(subst(sub, vars@) == subst_cont(
                            i64_dec(v as int),
                            subst(line@.skip(j as int), vars@),
                        ));
                        lemma_subst_cont_assoc(
                            old_out,
                            txt_view,
                            subst(line@.skip(j as int), vars@),
                        );
                    }
                    i = j;
                },
                None => {
                    return SubstOut::Undef(slice_to_vec(name_slice));
                },
            }
        } else {
            let ghost old_out = out@;
            out.push(b);
            proof {
                assert(sub.drop_first() =~= line@.skip(i + 1));
                assert(subst(sub, vars@) == subst_cont(
                    seq![b],
                    subst(line@.skip(i + 1), vars@),
                ));
                assert(out@ =~= old_out + seq![b]);
                lemma_subst_cont_assoc(old_out, seq![b], subst(line@.skip(i + 1), vars@));
            }
            i = i + 1;
        }
    }
    proof {
        assert(line@.skip(n as int) =~= Seq::<u8>::empty());
        match subst(line@, vars@) {
            SubstSpec::Done(t) => {
                assert(out@ + Seq::<u8>::empty() =~= out@);
            },
            SubstSpec::Undef(_) => {},
        }
    }
    SubstOut::Done(out)
}

} // verus!
