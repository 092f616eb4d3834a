//! The expression evaluator is an outside capability: given expression text,
//! it returns an integer, a boolean, some other kind of value, or a failure.
//! The engine never does arithmetic itself; it only routes the outcome, and
//! it hands the evaluator only text the evaluator is relied on to return
//! from: ASCII, and free of the evaluator's unchecked integer builtins.
use vstd::prelude::*;
use crate::chars::{all_ascii, bytes_all_ascii};
use vstd::slice::slice_index_get;

verus! {

/// The outcome of evaluating one expression text.
#[derive(Clone, Copy, PartialEq, Eq, Structural, Debug)]
pub enum EvalOutcome {
    /// The expression evaluated to a 64-bit signed integer.
    Int(i64),
    /// The expression evaluated to a boolean.
    Bool(bool),
    /// The expression evaluated, but to a kind of value outside the
    /// dialect's data model (a string, a tuple, an empty value, a float).
    Other,
    /// The evaluator rejected the text.
    Fail,
}

/// The outcome the outside evaluator gives to an expression text. The
/// evaluator is deterministic: it runs with an empty context and no
/// environment access, so within any one machine the outcome is a function
/// of the bytes alone. Float-backed builtins (math::sin and kin) follow
/// the platform's libm, so the outcome is machine-fixed rather than
/// universal; no contract of this crate pins such a value.
pub uninterp spec fn eval_outcome_of(s: Seq<u8>) -> EvalOutcome;

/// `pat` occurs in `s` starting at position `i`.
pub open spec fn match_at(s: Seq<u8>, pat: Seq<u8>, i: int) -> bool {
    0 <= i && i + pat.len() <= s.len() && s.subrange(i, i + pat.len()) == pat
}

/// `pat` occurs somewhere in `s`.
pub open spec fn contains_bytes(s: Seq<u8>, pat: Seq<u8>) -> bool {
    exists|i: int| match_at(s, pat, i)
}

/// The name of the evaluator's unchecked left-shift builtin.
pub open spec fn shl_name() -> Seq<u8> {
    seq![115u8, 104u8, 108u8]
}

/// The name of the evaluator's unchecked right-shift builtin.
pub open spec fn shr_name() -> Seq<u8> {
    seq![115u8, 104u8, 114u8]
}

/// The name of the evaluator's unchecked absolute-value builtin.
pub open spec fn abs_name() -> Seq<u8> {
    seq![109u8, 97u8, 116u8, 104u8, 58u8, 58u8, 97u8, 98u8, 115u8]
}

/// Expression text the evaluator is relied on to return from: wholly
/// ASCII, and free of the three builtin names whose integer versions the
/// evaluator applies unchecked. To call such a builtin the text must spell
/// its name, so keeping the name out keeps the call out.
pub open spec fn eval_text_ok(s: Seq<u8>) -> bool {
    all_ascii(s) && !contains_bytes(s, shl_name()) && !contains_bytes(s, shr_name())
        && !contains_bytes(s, abs_name())
}

/// Whether `pat` occurs in `s` as a contiguous run of bytes.
fn bytes_contain(s: &[u8], pat: &[u8]) -> (r: bool)
    requires
        pat@.len() >= 1,
    ensures
        r == contains_bytes(s@, pat@),
{
    let n = s.len();
    let m = pat.len();
    if m > n {
        proof {
            assert(forall|i2: int| !#[trigger] match_at(s@, pat@, i2));
        }
        return false;
    }
    let mut i: usize = 0;
    while i <= n - m
        invariant
            0 <= i <= n - m + 1,
            1 <= m <= n,
            n == s@.len(),
            m == pat@.len(),
            forall|i2: int| 0 <= i2 < i ==> !#[trigger] match_at(s@, pat@, i2),
        decreases n - m - i + 1,
    {
        let mut k: usize = 0;
        let mut ok = true;
        while k < m
            invariant
                0 <= k <= m,
                i + m <= n,
                n == s@.len(),
                m == pat@.len(),
                ok == (forall|k2: int| 0 <= k2 < k ==> s@[i + k2] == #[trigger] pat@[k2]),
            decreases m - k,
        {
            if *slice_index_get(s, i + k) != *slice_index_get(pat, k) {
                proof {
                    assert(s@[i + k] != pat@[k as int]);
                }
                ok = false;
                k = m;
            } else {
                k = k + 1;
            }
        }
        if ok {
            proof {
                assert(s@.subrange(i as int, i + m) =~= pat@);
                assert(match_at(s@, pat@, i as int));
            }
            return true;
        }
        proof {
            assert(!match_at(s@, pat@, i as int)) by {
                if match_at(s@, pat@, i as int) {
                    assert(forall|k2: int|
                        0 <= k2 < m ==> s@[i + k2] == #[trigger] pat@[k2]) by {
                        assert(forall|k2: int|
                            0 <= k2 < m ==> #[trigger] s@.subrange(i as int, i + m)[k2] == s@[i
                                + k2]);
                    }
                }
            }
        }
        i = i + 1;
    }
    proof {
        assert(forall|i2: int| !#[trigger] match_at(s@, pat@, i2));
    }
    false
}

fn shl_pat() -> (r: Vec<u8>)
    ensures
        r@ == shl_name(),
{
    let mut out: Vec<u8> = Vec::new();
    out.push(115);
    out.push(104);
    out.push(108);
    proof {
        assert(out@ =~= shl_name());
    }
    out
}

fn shr_pat() -> (r: Vec<u8>)
    ensures
        r@ == shr_name(),
{
    let mut out: Vec<u8> = Vec::new();
    out.push(115);
    out.push(104);
    out.push(114);
    proof {
        assert(out@ =~= shr_name());
    }
    out
}

fn abs_pat() -> (r: Vec<u8>)
    ensures
        r@ == abs_name(),
{
    let mut out: Vec<u8> = Vec::new();
    out.push(109);
    out.push(97);
    out.push(116);
    out.push(104);
    out.push(58);
    out.push(58);
    out.push(97);
    out.push(98);
    out.push(115);
    proof {
        assert(out@ =~= abs_name());
    }
    out
}

/// Whether the engine may hand this expression text to the evaluator.
pub(crate) fn expr_text_ok(e: &[u8]) -> (r: bool)
    ensures
        r == eval_text_ok(e@),
{
    if !bytes_all_ascii(e) {
        return false;
    }
    let shl = shl_pat();
    if bytes_contain(e, shl.as_slice()) {
        return false;
    }
    let shr = shr_pat();
    if bytes_contain(e, shr.as_slice()) {
        return false;
    }
    let abs = abs_pat();
    !bytes_contain(e, abs.as_slice())
}

/// Relies on evalexpr::eval: evaluates the text with an empty context; with
/// the crate's default features it reads no clock, randomness or
/// environment, so the outcome depends on the argument bytes alone.
/// Integer results are i64, boolean results are bool; every other success
/// kind (string, float, tuple, empty) is reported as `Other`, every
/// evaluation error as `Fail`. The input must satisfy `eval_text_ok`: over
/// ASCII text every value the evaluator builds is ASCII, so its string
/// builtins (str::substring among them) index at character boundaries and
/// return checked errors — on a multi-byte character that byte-index
/// slicing could abort instead — and with the three names shl, shr and
/// math::abs absent the text cannot reach the evaluator's only unchecked
/// integer operations (raw shifts, which abort on an out-of-range shift
/// amount, and absolute value, which aborts at the most negative integer);
/// all its other integer arithmetic is checked. Deeply nested text
/// recurses in the evaluator's parser; exhausting the stack on it is
/// resource exhaustion, outside this contract.
#[verifier::external_body]
pub(crate) fn eval_expr(e: &[u8]) -> (r: EvalOutcome)
    requires
        eval_text_ok(e@),
    ensures
        r == eval_outcome_of(e@),
{
    match core::str::from_utf8(e) {
        Ok(s) => match evalexpr::eval(s) {
            Ok(evalexpr::Value::Int(i)) => EvalOutcome::Int(i),
            Ok(evalexpr::Value::Boolean(b)) => EvalOutcome::Bool(b),
            Ok(_) => EvalOutcome::Other,
            Err(_) => EvalOutcome::Fail,
        },
        Err(_) => EvalOutcome::Fail,
    }
}

} // verus!
