//! The meaning of one execution step: which statement a line's tokens form,
//! what it prints, how it changes the variable store, and where the program
//! counter goes next. The interpreter is proved against these definitions.
use vstd::prelude::*;
use crate::chars::{all_digits, is_space_byte};
use crate::evalx::{EvalOutcome, eval_outcome_of, eval_text_ok};
use crate::num::{digits_val, i64_dec, parse_i64_spec};
use crate::subst::{SubstSpec, subst};
use crate::tokenize::spec_tokens;

verus! {

/// One recoverable error, as the contracts speak of it. Every error is
/// soft: the step that signals it falls through to the next line.
pub enum ErrView {
    /// A substituted reference named a variable with no value.
    UndefinedVariable(Seq<u8>),
    /// An assignment line without the `& name = value` shape, or whose
    /// value token is neither an argument reference, an expression, nor an
    /// integer literal.
    MalformedAssignment,
    /// A print line whose argument is neither a quoted string nor a
    /// parenthesized expression.
    MalformedPrintArgument,
    /// A conditional line whose condition is not parenthesized, or whose
    /// condition does not evaluate to a boolean.
    MalformedCondition,
    /// A first token that names no statement.
    UnknownCommand,
    /// An argument reference `!N` outside the supplied argument vector.
    ArgumentIndexOutOfRange,
    /// The evaluator rejected an expression, or produced a value outside
    /// the dialect's data model where an integer was required.
    ExpressionEvaluationFailure,
    /// A jump target that no label line declares.
    UnresolvedLabel(Seq<u8>),
}

/// The whole state of a run: the (substituted-in-place) program text, the
/// label table, the variable store, the argument vector and the program
/// counter.
#[verifier::ext_equal]
pub struct StateView {
    pub lines: Seq<Seq<u8>>,
    pub labels: Map<Seq<u8>, usize>,
    pub vars: Map<Seq<u8>, i64>,
    pub args: Seq<i64>,
    pub pc: int,
}

/// What one step does: the state after it, the bytes it prints, the error
/// it signals, and whether it took a jump.
#[verifier::ext_equal]
pub struct SpecStep {
    pub s2: StateView,
    pub out: Seq<u8>,
    pub err: Option<ErrView>,
    pub jumped: bool,
}

pub open spec fn amp_tok() -> Seq<u8> {
    seq![38u8]
}

pub open spec fn eq_tok() -> Seq<u8> {
    seq![61u8]
}

pub open spec fn print_tok() -> Seq<u8> {
    seq![112u8, 114u8, 105u8, 110u8, 116u8]
}

pub open spec fn if_tok() -> Seq<u8> {
    seq![105u8, 102u8]
}

pub open spec fn goto_tok() -> Seq<u8> {
    seq![103u8, 111u8, 116u8, 111u8]
}

pub open spec fn comment_tok() -> Seq<u8> {
    seq![47u8, 47u8]
}

pub open spec fn true_text() -> Seq<u8> {
    seq![116u8, 114u8, 117u8, 101u8]
}

pub open spec fn false_text() -> Seq<u8> {
    seq![102u8, 97u8, 108u8, 115u8, 101u8]
}

/// A token that declares a label: it ends with a colon.
pub open spec fn is_label_tok(t: Seq<u8>) -> bool {
    t.len() > 0 && t.last() == 58
}

/// The label name a declaring token carries: the token minus its trailing
/// colons.
pub open spec fn strip_trail_colons(s: Seq<u8>) -> Seq<u8>
    decreases s.len(),
{
    if s.len() > 0 && s.last() == 58 {
        strip_trail_colons(s.drop_last())
    } else {
        s
    }
}

/// The name a jump target token names: the token minus its leading colons.
pub open spec fn strip_lead_colons(s: Seq<u8>) -> Seq<u8>
    decreases s.len(),
{
    if s.len() > 0 && s[0] == 58 {
        strip_lead_colons(s.drop_first())
    } else {
        s
    }
}

/// The label table of a program: one scan over all lines, before execution;
/// a line whose first token ends with a colon declares that name at that
/// line's index. When a name is declared twice, the later line wins.
pub open spec fn label_table_of(lines: Seq<Seq<u8>>) -> Map<Seq<u8>, usize>
    decreases lines.len(),
{
    if lines.len() == 0 {
        Map::empty()
    } else {
        let m = label_table_of(lines.drop_last());
        let toks = spec_tokens(lines.last());
        if toks.len() > 0 && is_label_tok(toks[0]) {
            m.insert(strip_trail_colons(toks[0]), (lines.len() - 1) as usize)
        } else {
            m
        }
    }
}

/// The text a quoted print argument emits: each literal backslash-n pair
/// becomes one newline byte, scanning left to right without overlap.
pub open spec fn unescape_newlines(s: Seq<u8>) -> Seq<u8>
    decreases s.len(),
{
    if s.len() >= 2 && s[0] == 92 && s[1] == 110 {
        seq![10u8] + unescape_newlines(s.skip(2))
    } else if s.len() > 0 {
        seq![s[0]] + unescape_newlines(s.drop_first())
    } else {
        Seq::empty()
    }
}

/// The integer an assignment's value token names: an argument reference
/// `!N` (1-based, and it must be in range), a parenthesized expression
/// (which must evaluate to an integer), or a plain decimal literal.
/// Expression text that is not wholly ASCII, or that names one of the
/// evaluator's unchecked integer builtins, is rejected as an evaluation
/// failure without reaching the evaluator.
pub open spec fn resolve_value_spec(tok: Seq<u8>, args: Seq<i64>) -> Result<i64, ErrView> {
    if tok.len() > 0 && tok[0] == 33 {
        let rest = tok.drop_first();
        if rest.len() > 0 && all_digits(rest) {
            let v = digits_val(rest);
            if 1 <= v && v <= args.len() {
                Result::Ok(args[v - 1])
            } else {
                Result::Err(ErrView::ArgumentIndexOutOfRange)
            }
        } else {
            Result::Err(ErrView::MalformedAssignment)
        }
    } else if tok.len() >= 2 && tok[0] == 40 && tok.last() == 41 {
        if eval_text_ok(tok.subrange(1, tok.len() - 1)) {
            match eval_outcome_of(tok.subrange(1, tok.len() - 1)) {
                EvalOutcome::Int(v) => Result::Ok(v),
                _ => Result::Err(ErrView::ExpressionEvaluationFailure),
            }
        } else {
            Result::Err(ErrView::ExpressionEvaluationFailure)
        }
    } else {
        match parse_i64_spec(tok) {
            Some(v) => Result::Ok(v),
            None => Result::Err(ErrView::MalformedAssignment),
        }
    }
}

/// Index of the first token at or after `from` that closes a parenthesized
/// region (its last byte is `)`), or the token count when none does.
pub open spec fn close_idx(toks: Seq<Seq<u8>>, from: int) -> int
    recommends
        0 <= from,
    decreases toks.len() - from,
{
    if from >= toks.len() {
        toks.len() as int
    } else if toks[from].len() > 0 && toks[from].last() == 41 {
        from
    } else {
        close_idx(toks, from + 1)
    }
}

/// The text a run of tokens came from, rebuilt with single spaces.
pub open spec fn join_tokens(toks: Seq<Seq<u8>>) -> Seq<u8>
    decreases toks.len(),
{
    if toks.len() == 0 {
        Seq::empty()
    } else if toks.len() == 1 {
        toks[0]
    } else {
        toks[0] + seq![32u8] + join_tokens(toks.drop_first())
    }
}

/// The state after a step that does not jump.
pub open spec fn advance(s: StateView) -> StateView {
    StateView { lines: s.lines, labels: s.labels, vars: s.vars, args: s.args, pc: s.pc + 1 }
}

/// A step that prints nothing and falls through, with or without an error.
pub open spec fn no_step(s: StateView, err: Option<ErrView>) -> SpecStep {
    SpecStep { s2: advance(s), out: Seq::empty(), err, jumped: false }
}

/// A step that prints `out` and falls through.
pub open spec fn out_step(s: StateView, out: Seq<u8>) -> SpecStep {
    SpecStep { s2: advance(s), out, err: None, jumped: false }
}

/// A taken jump: execution resumes on the line after the label line.
pub open spec fn jump_step(s: StateView, target: usize) -> SpecStep {
    SpecStep {
        s2: StateView {
            lines: s.lines,
            labels: s.labels,
            vars: s.vars,
            args: s.args,
            pc: target + 1,
        },
        out: Seq::empty(),
        err: None,
        jumped: true,
    }
}

/// The assignment statement `& name = value`: on success the resolved
/// integer is stored under the name; any failure leaves the store unchanged.
pub open spec fn assign_spec(s: StateView, toks: Seq<Seq<u8>>) -> SpecStep {
    if toks.len() >= 4 && toks[2] == eq_tok() {
        match resolve_value_spec(toks[3], s.args) {
            Result::Ok(v) => SpecStep {
                s2: StateView {
                    lines: s.lines,
                    labels: s.labels,
                    vars: s.vars.insert(toks[1], v),
                    args: s.args,
                    pc: s.pc + 1,
                },
                out: Seq::empty(),
                err: None,
                jumped: false,
            },
            Result::Err(e) => no_step(s, Some(e)),
        }
    } else {
        no_step(s, Some(ErrView::MalformedAssignment))
    }
}

/// The print statement: a quoted literal is emitted with backslash-n
/// breaks, a parenthesized expression is emitted as the evaluator's integer
/// or boolean; one argument token counts, extra tokens are ignored.
/// Expression text that is not wholly ASCII, or that names one of the
/// evaluator's unchecked integer builtins, fails softly without reaching
/// the evaluator.
pub open spec fn print_spec(s: StateView, toks: Seq<Seq<u8>>) -> SpecStep {
    if toks.len() >= 2 {
        let a = toks[1];
        if a.len() >= 2 && a[0] == 34 && a.last() == 34 {
            out_step(s, unescape_newlines(a.subrange(1, a.len() - 1)))
        } else if a.len() >= 2 && a[0] == 40 && a.last() == 41 {
            if eval_text_ok(a.subrange(1, a.len() - 1)) {
                match eval_outcome_of(a.subrange(1, a.len() - 1)) {
                    EvalOutcome::Int(v) => out_step(s, i64_dec(v as int)),
                    EvalOutcome::Bool(b) => out_step(
                        s,
                        if b {
                            true_text()
                        } else {
                            false_text()
                        },
                    ),
                    EvalOutcome::Other => no_step(s, Some(ErrView::ExpressionEvaluationFailure)),
                    EvalOutcome::Fail => no_step(s, Some(ErrView::ExpressionEvaluationFailure)),
                }
            } else {
                no_step(s, Some(ErrView::ExpressionEvaluationFailure))
            }
        } else {
            no_step(s, Some(ErrView::MalformedPrintArgument))
        }
    } else {
        no_step(s, Some(ErrView::MalformedPrintArgument))
    }
}

/// A jump to a label token: strip its leading colons, look the name up;
/// a hit moves the program counter past the label line, a miss signals
/// an unresolved label and falls through.
pub open spec fn goto_spec(s: StateView, label_tok: Seq<u8>) -> SpecStep {
    let name = strip_lead_colons(label_tok);
    if s.labels.contains_key(name) {
        jump_step(s, s.labels[name])
    } else {
        no_step(s, Some(ErrView::UnresolvedLabel(name)))
    }
}

/// The conditional jump `if (condition) goto label`. The condition is the
/// token run from the opening parenthesis to the first token that closes
/// one; it must evaluate to a boolean. On true, the literal `goto label`
/// continuation is followed when present and is a no-op when absent; on
/// false the statement falls through. Condition text that is not wholly
/// ASCII, or that names one of the evaluator's unchecked integer builtins,
/// fails softly without reaching the evaluator.
pub open spec fn cond_spec(s: StateView, toks: Seq<Seq<u8>>) -> SpecStep {
    if toks.len() >= 2 && toks[1].len() > 0 && toks[1][0] == 40 {
        let k = close_idx(toks, 1);
        if k < toks.len() {
            let joined = join_tokens(toks.subrange(1, k + 1));
            if eval_text_ok(joined.subrange(1, joined.len() - 1)) {
                match eval_outcome_of(joined.subrange(1, joined.len() - 1)) {
                    EvalOutcome::Bool(b) => {
                        if b && toks.len() >= k + 3 && toks[k + 1] == goto_tok() {
                            goto_spec(s, toks[k + 2])
                        } else {
                            no_step(s, None)
                        }
                    },
                    EvalOutcome::Fail => no_step(s, Some(ErrView::ExpressionEvaluationFailure)),
                    _ => no_step(s, Some(ErrView::MalformedCondition)),
                }
            } else {
                no_step(s, Some(ErrView::ExpressionEvaluationFailure))
            }
        } else {
            no_step(s, Some(ErrView::MalformedCondition))
        }
    } else {
        no_step(s, Some(ErrView::MalformedCondition))
    }
}

/// Dispatch on a line's first token. An empty line, a comment and a label
/// line fall through silently; anything unrecognized signals an unknown
/// command and falls through.
pub open spec fn dispatch_spec(s: StateView, toks: Seq<Seq<u8>>) -> SpecStep {
    if toks.len() == 0 {
        no_step(s, None)
    } else if toks[0] == amp_tok() {
        assign_spec(s, toks)
    } else if toks[0] == print_tok() {
        print_spec(s, toks)
    } else if toks[0] == if_tok() {
        cond_spec(s, toks)
    } else if toks[0] == goto_tok() {
        if toks.len() >= 2 {
            goto_spec(s, toks[1])
        } else {
            no_step(s, Some(ErrView::UnresolvedLabel(Seq::empty())))
        }
    } else if toks[0] == comment_tok() {
        no_step(s, None)
    } else if is_label_tok(toks[0]) {
        no_step(s, None)
    } else {
        no_step(s, Some(ErrView::UnknownCommand))
    }
}

/// One full step at the current line: substitute the line against the
/// variable store (an undefined reference abandons the line, advancing past
/// it with nothing else changed), write the substituted text back in place,
/// re-tokenize it and dispatch.
pub open spec fn step_spec(s: StateView) -> SpecStep
    recommends
        0 <= s.pc < s.lines.len(),
{
    match subst(s.lines[s.pc], s.vars) {
        SubstSpec::Undef(name) => no_step(s, Some(ErrView::UndefinedVariable(name))),
        SubstSpec::Done(newline) => dispatch_spec(
            StateView {
                lines: s.lines.update(s.pc, newline),
                labels: s.labels,
                vars: s.vars,
                args: s.args,
                pc: s.pc,
            },
            spec_tokens(newline),
        ),
    }
}

/// A bounded run: the loop repeats steps while the program counter is in
/// bounds and fuel remains, collecting output, errors, the executed line
/// indices, and whether any step jumped.
#[verifier::ext_equal]
pub struct RunView {
    pub s2: StateView,
    pub out: Seq<u8>,
    pub errs: Seq<ErrView>,
    pub pcs: Seq<int>,
    pub any_jump: bool,
}

pub open spec fn opt_err_seq(e: Option<ErrView>) -> Seq<ErrView> {
    match e {
        Some(x) => seq![x],
        None => Seq::empty(),
    }
}

pub open spec fn run_spec(s: StateView, fuel: nat) -> RunView
    decreases fuel,
{
    if fuel == 0 || !(0 <= s.pc < s.lines.len()) {
        RunView {
            s2: s,
            out: Seq::empty(),
            errs: Seq::empty(),
            pcs: Seq::empty(),
            any_jump: false,
        }
    } else {
        let st = step_spec(s);
        let rest = run_spec(st.s2, (fuel - 1) as nat);
        RunView {
            s2: rest.s2,
            out: st.out + rest.out,
            errs: opt_err_seq(st.err) + rest.errs,
            pcs: seq![s.pc] + rest.pcs,
            any_jump: st.jumped || rest.any_jump,
        }
    }
}

/// A line of only whitespace: dropped before execution, never addressable.
pub open spec fn is_blank(s: Seq<u8>) -> bool {
    forall|i: int| 0 <= i < s.len() ==> is_space_byte(#[trigger] s[i])
}

/// The program a raw line sequence loads as: the blank lines removed, the
/// rest kept in order.
pub open spec fn strip_blanks(lines: Seq<Seq<u8>>) -> Seq<Seq<u8>>
    decreases lines.len(),
{
    if lines.len() == 0 {
        Seq::empty()
    } else {
        strip_blanks(lines.drop_last()) + (if is_blank(lines.last()) {
            Seq::empty()
        } else {
            seq![lines.last()]
        })
    }
}

} // verus!
