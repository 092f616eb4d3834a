//! The interpreter: the executable engine, proved to follow the step
//! semantics of `engine` exactly.
use vstd::prelude::*;
use crate::chars::{all_digits, byte_is_digit, byte_is_space, is_digit, is_space_byte};
use crate::engine::{
    ErrView, StateView, amp_tok, eq_tok, print_tok, if_tok, goto_tok, comment_tok, true_text,
    false_text, is_label_tok, strip_trail_colons, strip_lead_colons, label_table_of,
    unescape_newlines, resolve_value_spec, close_idx, join_tokens, advance, assign_spec,
    goto_spec, cond_spec, dispatch_spec, step_spec, opt_err_seq, run_spec, is_blank,
    strip_blanks,
};
use crate::evalx::{EvalOutcome, eval_expr, expr_text_ok};
use crate::num::{i64_to_dec, parse_i64};
use crate::store::{LabelTable, VarStore};
use crate::subst::{SubstOut, substitute};
use crate::tokenize::{spec_tokens, tokenize, views_of};
use vstd::slice::{slice_index_get, slice_subrange, slice_to_vec};

verus! {

/// One recoverable error, carried to the caller so it can be reported.
#[derive(Debug, PartialEq, Eq)]
pub enum ZenError {
    UndefinedVariable(Vec<u8>),
    MalformedAssignment,
    MalformedPrintArgument,
    MalformedCondition,
    UnknownCommand,
    ArgumentIndexOutOfRange,
    ExpressionEvaluationFailure,
    UnresolvedLabel(Vec<u8>),
}

impl View for ZenError {
    type V = ErrView;

    open spec fn view(&self) -> ErrView {
        match self {
            ZenError::UndefinedVariable(n) => ErrView::UndefinedVariable(n@),
            ZenError::MalformedAssignment => ErrView::MalformedAssignment,
            ZenError::MalformedPrintArgument => ErrView::MalformedPrintArgument,
            ZenError::MalformedCondition => ErrView::MalformedCondition,
            ZenError::UnknownCommand => ErrView::UnknownCommand,
            ZenError::ArgumentIndexOutOfRange => ErrView::ArgumentIndexOutOfRange,
            ZenError::ExpressionEvaluationFailure => ErrView::ExpressionEvaluationFailure,
            ZenError::UnresolvedLabel(n) => ErrView::UnresolvedLabel(n@),
        }
    }
}

/// The error a step may signal, as the spec sees it.
pub open spec fn opt_err_view(e: Option<ZenError>) -> Option<ErrView> {
    match e {
        Some(x) => Some(x@),
        None => None,
    }
}

fn tok_is_amp(t: &[u8]) -> (r: bool)
    ensures
        r == (t@ == amp_tok()),
{
    let r = t.len() == 1 && *slice_index_get(t, 0) == 38;
    proof {
        if r {
            assert(t@ =~= amp_tok());
        }
    }
    r
}

fn tok_is_eq(t: &[u8]) -> (r: bool)
    ensures
        r == (t@ == eq_tok()),
{
    let r = t.len() == 1 && *slice_index_get(t, 0) == 61;
    proof {
        if r {
            assert(t@ =~= eq_tok());
        }
    }
    r
}

fn tok_is_print(t: &[u8]) -> (r: bool)
    ensures
        r == (t@ == print_tok()),
{
    let r = t.len() == 5 && *slice_index_get(t, 0) == 112 && *slice_index_get(t, 1) == 114
        && *slice_index_get(t, 2) == 105 && *slice_index_get(t, 3) == 110 && *slice_index_get(
        t,
        4,
    ) == 116;
    proof {
        if r {
            assert(t@ =~= print_tok());
        }
    }
    r
}

fn tok_is_if(t: &[u8]) -> (r: bool)
    ensures
        r == (t@ == if_tok()),
{
    let r = t.len() == 2 && *slice_index_get(t, 0) == 105 && *slice_index_get(t, 1) == 102;
    proof {
        if r {
            assert(t@ =~= if_tok());
        }
    }
    r
}

fn tok_is_goto(t: &[u8]) -> (r: bool)
    ensures
        r == (t@ == goto_tok()),
{
    let r = t.len() == 4 && *slice_index_get(t, 0) == 103 && *slice_index_get(t, 1) == 111
        && *slice_index_get(t, 2) == 116 && *slice_index_get(t, 3) == 111;
    proof {
        if r {
            assert(t@ =~= goto_tok());
        }
    }
    r
}

fn tok_is_comment(t: &[u8]) -> (r: bool)
    ensures
        r == (t@ == comment_tok()),
{
    let r = t.len() == 2 && *slice_index_get(t, 0) == 47 && *slice_index_get(t, 1) == 47;
    proof {
        if r {
            assert(t@ =~= comment_tok());
        }
    }
    r
}

proof fn lemma_strip_trail_at(t: Seq<u8>, e: int)
    requires
        0 <= e <= t.len(),
        forall|k: int| e <= k < t.len() ==> #[trigger] t[k] == 58,
        e == 0 || t[e - 1] != 58,
    ensures
        strip_trail_colons(t) == t.take(e),
    decreases t.len(),
{
    if t.len() == e {
        assert(t.take(e) =~= t);
    } else {
        assert(t.last() == 58);
        assert(forall|k: int| e <= k < t.len() - 1 ==> #[trigger] t.drop_last()[k] == 58);
        lemma_strip_trail_at(t.drop_last(), e);
        assert(t.drop_last().take(e) =~= t.take(e));
    }
}

/// The label name of a declaring token: the token minus trailing colons.
fn strip_trailing_colons(t: &[u8]) -> (r: Vec<u8>)
    ensures
        r@ == strip_trail_colons(t@),
{
    let n = t.len();
    let mut e: usize = n;
    while e > 0 && *slice_index_get(t, e - 1) == 58
        invariant
            0 <= e <= n,
            n == t@.len(),
            forall|k: int| e <= k < n ==> #[trigger] t@[k] == 58,
        decreases e,
    {
        e = e - 1;
    }
    proof {
        lemma_strip_trail_at(t@, e as int);
    }
    slice_to_vec(slice_subrange(t, 0, e))
}

proof fn lemma_strip_lead_at(t: Seq<u8>, b: int)
    requires
        0 <= b <= t.len(),
        forall|k: int| 0 <= k < b ==> #[trigger] t[k] == 58,
        b == t.len() || t[b] != 58,
    ensures
        strip_lead_colons(t) == t.skip(b),
    decreases b,
{
    if b == 0 {
        assert(t.skip(0) =~= t);
    } else {
        assert(t[0] == 58);
        assert(forall|k: int| 0 <= k < b - 1 ==> #[trigger] t.drop_first()[k] == 58);
        lemma_strip_lead_at(t.drop_first(), b - 1);
        assert(t.drop_first().skip(b - 1) =~= t.skip(b));
    }
}

/// The name a jump target token names: the token minus leading colons.
fn strip_leading_colons(t: &[u8]) -> (r: Vec<u8>)
    ensures
        r@ == strip_lead_colons(t@),
{
    let n = t.len();
    let mut b: usize = 0;
    while b < n && *slice_index_get(t, b) == 58
        invariant
            0 <= b <= n,
            n == t@.len(),
            forall|k: int| 0 <= k < b ==> #[trigger] t@[k] == 58,
        decreases n - b,
    {
        b = b + 1;
    }
    proof {
        lemma_strip_lead_at(t@, b as int);
    }
    slice_to_vec(slice_subrange(t, b, n))
}

/// Emits a quoted literal's text, one newline byte for each backslash-n.
fn unescape(text: &[u8]) -> (r: Vec<u8>)
    ensures
        r@ == unescape_newlines(text@),
{
    let mut out: Vec<u8> = Vec::new();
    let mut i: usize = 0;
    let n = text.len();
    proof {
        assert(text@.skip(0) =~= text@);
        assert(out@ + unescape_newlines(text@) =~= unescape_newlines(text@));
    }
    while i < n
        invariant
            0 <= i <= n,
            n == text@.len(),
            unescape_newlines(text@) == out@ + unescape_newlines(text@.skip(i as int)),
        decreases n - i,
    {
        let ghost sub = text@.skip(i as int);
        let ghost old_out = out@;
        if i + 1 < n && *slice_index_get(text, i) == 92 && *slice_index_get(text, i + 1) == 110 {
            out.push(10);
            proof {
                assert(sub.skip(2) =~= text@.skip(i + 2));
                assert(old_out + (seq![10u8] + unescape_newlines(text@.skip(i + 2))) =~= (old_out
                    + seq![10u8]) + unescape_newlines(text@.skip(i + 2)));
            }
            i = i + 2;
        } else {
            let b = *slice_index_get(text, i);
            out.push(b);
            proof {
                assert(sub.drop_first() =~= text@.skip(i + 1));
                assert(sub[0] == b);
                assert(old_out + (seq![b] + unescape_newlines(text@.skip(i + 1))) =~= (old_out
                    + seq![b]) + unescape_newlines(text@.skip(i + 1)));
            }
            i = i + 1;
        }
    }
    proof {
        assert(unescape_newlines(text@.skip(n as int)) =~= Seq::<u8>::empty());
        assert(out@ + Seq::<u8>::empty() =~= out@);
    }
    out
}

/// Resolves an assignment's value token against the argument vector and
/// the outside evaluator.
fn resolve_value(tok: &[u8], args: &Vec<i64>) -> (r: Result<i64, ZenError>)
    requires
        args@.len() < 0x8000000000000000,
    ensures
        match r {
            Result::Ok(v) => resolve_value_spec(tok@, args@) == Result::<i64, ErrView>::Ok(v),
            Result::Err(e) => resolve_value_spec(tok@, args@) == Result::<i64, ErrView>::Err(e@),
        },
{
    let n = tok.len();
    if n > 0 && *slice_index_get(tok, 0) == 33 {
        let rest = slice_subrange(tok, 1, n);
        proof {
            assert(rest@ =~= tok@.drop_first());
        }
        if rest.len() == 0 {
            return Result::Err(ZenError::MalformedAssignment);
        }
        let rn = rest.len();
        let mut j: usize = 0;
        while j < rn
            invariant
                0 <= j <= rn,
                rn == rest@.len(),
                rn > 0,
                tok@.len() > 0,
                tok@[0] == 33,
                rest@ == tok@.drop_first(),
                forall|k: int| 0 <= k < j ==> is_digit(#[trigger] rest@[k]),
            decreases rn - j,
        {
            if !byte_is_digit(*slice_index_get(rest, j)) {
                return Result::Err(ZenError::MalformedAssignment);
            }
            j = j + 1;
        }
        assert(all_digits(rest@));
        match crate::num::digits_value_bounded(rest) {
            None => Result::Err(ZenError::ArgumentIndexOutOfRange),
            Some(v) => {
                if v >= 1 && v <= args.len() as u64 {
                    Result::Ok(args[(v - 1) as usize])
                } else {
                    Result::Err(ZenError::ArgumentIndexOutOfRange)
                }
            },
        }
    } else if n >= 2 && *slice_index_get(tok, 0) == 40 && *slice_index_get(tok, n - 1) == 41 {
        let inner = slice_subrange(tok, 1, n - 1);
        proof {
            assert(inner@ =~= tok@.subrange(1, tok@.len() - 1));
        }
        if !expr_text_ok(inner) {
            return Result::Err(ZenError::ExpressionEvaluationFailure);
        }
        match eval_expr(inner) {
            EvalOutcome::Int(v) => Result::Ok(v),
            _ => Result::Err(ZenError::ExpressionEvaluationFailure),
        }
    } else {
        match parse_i64(tok) {
            Some(v) => Result::Ok(v),
            None => Result::Err(ZenError::MalformedAssignment),
        }
    }
}

/// The boolean rendering the evaluator's booleans print as.
fn bool_text(b: bool) -> (r: Vec<u8>)
    ensures
        r@ == (if b {
            true_text()
        } else {
            false_text()
        }),
{
    let mut out: Vec<u8> = Vec::new();
    if b {
        out.push(116);
        out.push(114);
        out.push(117);
        out.push(101);
        proof {
            assert(out@ =~= true_text());
        }
    } else {
        out.push(102);
        out.push(97);
        out.push(108);
        out.push(115);
        out.push(101);
        proof {
            assert(out@ =~= false_text());
        }
    }
    out
}

proof fn lemma_join_push(ts: Seq<Seq<u8>>, t: Seq<u8>)
    ensures
        join_tokens(ts.push(t)) == (if ts.len() == 0 {
            t
        } else {
            join_tokens(ts) + seq![32u8] + t
        }),
    decreases ts.len(),
{
    if ts.len() == 0 {
        assert(ts.push(t)[0] == t);
    } else {
        assert(ts.push(t).drop_first() =~= ts.drop_first().push(t));
        lemma_join_push(ts.drop_first(), t);
        assert(ts.push(t)[0] == ts[0]);
        if ts.len() == 1 {
        } else {
            assert(ts[0] + seq![32u8] + (join_tokens(ts.drop_first()) + seq![32u8] + t) =~= (
            ts[0] + seq![32u8] + join_tokens(ts.drop_first())) + seq![32u8] + t);
        }
    }
}

proof fn lemma_close_idx_at(toks: Seq<Seq<u8>>, from: int, k: int)
    requires
        0 <= from <= k <= toks.len(),
        forall|j: int|
            from <= j < k ==> !((#[trigger] toks[j]).len() > 0 && toks[j].last() == 41),
        k == toks.len() || (toks[k].len() > 0 && toks[k].last() == 41),
    ensures
        close_idx(toks, from) == k,
    decreases k - from,
{
    if from < k {
        lemma_close_idx_at(toks, from + 1, k);
    }
}

/// What one step of the engine hands back: the bytes it printed, the error
/// it signalled, and whether it took a jump.
pub struct StepOutcome {
    pub out: Vec<u8>,
    pub err: Option<ZenError>,
    pub jumped: bool,
}

/// The execution engine: the program text, the label table resolved before
/// the run, the variable store, the argument vector, and the program
/// counter.
pub struct Interp {
    lines: Vec<Vec<u8>>,
    labels: LabelTable,
    vars: VarStore,
    args: Vec<i64>,
    pc: usize,
}

impl View for Interp {
    type V = StateView;

    closed spec fn view(&self) -> StateView {
        StateView {
            lines: views_of(self.lines@),
            labels: self.labels@,
            vars: self.vars@,
            args: self.args@,
            pc: self.pc as int,
        }
    }
}

impl Interp {
    /// Every label resolves to a line of the program, and the argument
    /// vector is addressable: what every step relies on.
    pub open spec fn inv(&self) -> bool {
        &&& forall|k: Seq<u8>|
            self@.labels.contains_key(k) ==> (#[trigger] self@.labels[k]) < self@.lines.len()
        &&& self@.args.len() < 0x8000000000000000
        &&& 0 <= self@.pc
    }

    /// Builds the engine for a program: one scan resolves every label to
    /// its line index (a duplicate name resolves to its last declaration),
    /// the store starts empty, and execution will start at line zero.
    pub fn new(lines: Vec<Vec<u8>>, args: Vec<i64>) -> (r: Self)
        requires
            args@.len() < 0x8000000000000000,
        ensures
            r.inv(),
            r@.lines == views_of(lines@),
            r@.labels == label_table_of(views_of(lines@)),
            r@.vars == Map::<Seq<u8>, i64>::empty(),
            r@.args == args@,
            r@.pc == 0,
    {
        let mut table = LabelTable::new();
        let n = lines.len();
        let mut i: usize = 0;
        proof {
            assert(views_of(lines@).take(0) =~= Seq::<Seq<u8>>::empty());
        }
        while i < n
            invariant
                0 <= i <= n,
                n == lines@.len(),
                table@ == label_table_of(views_of(lines@).take(i as int)),
                forall|k: Seq<u8>| table@.contains_key(k) ==> (#[trigger] table@[k]) < i,
            decreases n - i,
        {
            let toks = tokenize(lines[i].as_slice());
            let ghost pre = views_of(lines@).take(i as int);
            let ghost cur = views_of(lines@).take(i as int + 1);
            proof {
                assert(cur.drop_last() =~= pre);
                assert(cur.last() == lines@[i as int]@);
            }
            if toks.len() > 0 && toks[0].len() > 0 && toks[0][toks[0].len() - 1] == 58 {
                proof {
                    assert(views_of(toks@)[0] == toks@[0]@);
                    assert(is_label_tok(spec_tokens(lines@[i as int]@)[0]));
                }
                let name = strip_trailing_colons(toks[0].as_slice());
                table.set(name, i);
            } else {
                proof {
                    if spec_tokens(lines@[i as int]@).len() > 0 {
                        assert(views_of(toks@)[0] == toks@[0]@);
                    }
                    assert(label_table_of(cur) == label_table_of(pre));
                }
            }
            i = i + 1;
        }
        proof {
            assert(views_of(lines@).take(n as int) =~= views_of(lines@));
        }
        let r = Interp { lines, labels: table, vars: VarStore::new(), args, pc: 0 };
        r
    }

    /// A taken or failed jump: resolve the target name and either move the
    /// program counter past the label line or fall through with an error.
    fn do_goto(&mut self, label_tok: &[u8]) -> (r: StepOutcome)
        requires
            old(self).inv(),
            old(self)@.pc < old(self)@.lines.len(),
        ensures
            final(self).inv(),
            ({
                let sp = goto_spec(old(self)@, label_tok@);
                final(self)@ == sp.s2 && r.out@ == sp.out && opt_err_view(r.err) == sp.err
                    && r.jumped == sp.jumped
            }),
    {
        let ghost s0 = self@;
        let nlines = self.lines.len();
        proof {
            assert(self@.lines.len() == self.lines@.len());
            assert(self.pc < nlines);
        }
        let name = strip_leading_colons(label_tok);
        match self.labels.get(name.as_slice()) {
            Some(idx) => {
                proof {
                    assert(idx < self@.lines.len());
                }
                self.pc = idx + 1;
                proof {
                    assert(self@ =~= goto_spec(s0, label_tok@).s2);
                }
                StepOutcome { out: Vec::new(), err: None, jumped: true }
            },
            None => {
                self.pc = self.pc + 1;
                proof {
                    assert(self@ =~= goto_spec(s0, label_tok@).s2);
                }
                StepOutcome {
                    out: Vec::new(),
                    err: Some(ZenError::UnresolvedLabel(name)),
                    jumped: false,
                }
            },
        }
    }

    /// Dispatch on the first token of a substituted, re-tokenized line.
    fn dispatch(&mut self, toks: &Vec<Vec<u8>>) -> (r: StepOutcome)
        requires
            old(self).inv(),
            old(self)@.pc < old(self)@.lines.len(),
        ensures
            final(self).inv(),
            ({
                let sp = dispatch_spec(old(self)@, views_of(toks@));
                final(self)@ == sp.s2 && r.out@ == sp.out && opt_err_view(r.err) == sp.err
                    && r.jumped == sp.jumped
            }),
    {
        let ghost s0 = self@;
        let nlines = self.lines.len();
        proof {
            assert(self@.lines.len() == self.lines@.len());
            assert(self.pc < nlines);
        }
        let ghost tv = views_of(toks@);
        let tn = toks.len();
        if tn == 0 {
            self.pc = self.pc + 1;
            proof {
                assert(self@ =~= advance(s0));
            }
            return StepOutcome { out: Vec::new(), err: None, jumped: false };
        }
        proof {
            assert(tv[0] == toks@[0]@);
        }
        if tok_is_amp(toks[0].as_slice()) {
            if tn >= 4 && tok_is_eq(toks[2].as_slice()) {
                proof {
                    assert(tv[2] == toks@[2]@);
                    assert(tv[3] == toks@[3]@);
                    assert(tv[1] == toks@[1]@);
                }
                match resolve_value(toks[3].as_slice(), &self.args) {
                    Result::Ok(v) => {
                        let name = slice_to_vec(toks[1].as_slice());
                        self.vars.set(name, v);
                        self.pc = self.pc + 1;
                        proof {
                            assert(self@ =~= assign_spec(s0, tv).s2);
                        }
                        StepOutcome { out: Vec::new(), err: None, jumped: false }
                    },
                    Result::Err(e) => {
                        self.pc = self.pc + 1;
                        proof {
                            assert(self@ =~= advance(s0));
                        }
                        StepOutcome { out: Vec::new(), err: Some(e), jumped: false }
                    },
                }
            } else {
                proof {
                    if tn >= 4 {
                        assert(tv[2] == toks@[2]@);
                    }
                }
                self.pc = self.pc + 1;
                proof {
                    assert(self@ =~= advance(s0));
                }
                StepOutcome {
                    out: Vec::new(),
                    err: Some(ZenError::MalformedAssignment),
                    jumped: false,
                }
            }
        } else if tok_is_print(toks[0].as_slice()) {
            if tn >= 2 {
                let a = &toks[1];
                let alen = a.len();
                proof {
                    assert(tv[1] == toks@[1]@);
                }
                if alen >= 2 && a[0] == 34 && a[alen - 1] == 34 {
                    let innerq = slice_subrange(a.as_slice(), 1, alen - 1);
                    proof {
                        assert(innerq@ =~= tv[1].subrange(1, tv[1].len() - 1));
                    }
                    let out = unescape(innerq);
                    self.pc = self.pc + 1;
                    proof {
                        assert(self@ =~= advance(s0));
                    }
                    StepOutcome { out, err: None, jumped: false }
                } else if alen >= 2 && a[0] == 40 && a[alen - 1] == 41 {
                    let inner = slice_subrange(a.as_slice(), 1, alen - 1);
                    proof {
                        assert(inner@ =~= tv[1].subrange(1, tv[1].len() - 1));
                    }
                    if !expr_text_ok(inner) {
                        self.pc = self.pc + 1;
                        proof {
                            assert(self@ =~= advance(s0));
                        }
                        return StepOutcome {
                            out: Vec::new(),
                            err: Some(ZenError::ExpressionEvaluationFailure),
                            jumped: false,
                        };
                    }
                    let outcome = eval_expr(inner);
                    self.pc = self.pc + 1;
                    proof {
                        assert(self@ =~= advance(s0));
                    }
                    match outcome {
                        EvalOutcome::Int(v) => StepOutcome {
                            out: i64_to_dec(v),
                            err: None,
                            jumped: false,
                        },
                        EvalOutcome::Bool(b) => StepOutcome {
                            out: bool_text(b),
                            err: None,
                            jumped: false,
                        },
                        EvalOutcome::Other => StepOutcome {
                            out: Vec::new(),
                            err: Some(ZenError::ExpressionEvaluationFailure),
                            jumped: false,
                        },
                        EvalOutcome::Fail => StepOutcome {
                            out: Vec::new(),
                            err: Some(ZenError::ExpressionEvaluationFailure),
                            jumped: false,
                        },
                    }
                } else {
                    self.pc = self.pc + 1;
                    proof {
                        assert(self@ =~= advance(s0));
                    }
                    StepOutcome {
                        out: Vec::new(),
                        err: Some(ZenError::MalformedPrintArgument),
                        jumped: false,
                    }
                }
            } else {
                self.pc = self.pc + 1;
                proof {
                    assert(self@ =~= advance(s0));
                }
                StepOutcome {
                    out: Vec::new(),
                    err: Some(ZenError::MalformedPrintArgument),
                    jumped: false,
                }
            }
        } else if tok_is_if(toks[0].as_slice()) {
            self.dispatch_cond(toks)
        } else if tok_is_goto(toks[0].as_slice()) {
            if tn >= 2 {
                proof {
                    assert(tv[1] == toks@[1]@);
                }
                self.do_goto(toks[1].as_slice())
            } else {
                self.pc = self.pc + 1;
                let empty_name: Vec<u8> = Vec::new();
                proof {
                    assert(self@ =~= advance(s0));
                    assert(empty_name@ =~= Seq::<u8>::empty());
                }
                StepOutcome {
                    out: Vec::new(),
                    err: Some(ZenError::UnresolvedLabel(empty_name)),
                    jumped: false,
                }
            }
        } else if tok_is_comment(toks[0].as_slice()) {
            self.pc = self.pc + 1;
            proof {
                assert(self@ =~= advance(s0));
            }
            StepOutcome { out: Vec::new(), err: None, jumped: false }
        } else if toks[0].len() > 0 && toks[0][toks[0].len() - 1] == 58 {
            self.pc = self.pc + 1;
            proof {
                assert(is_label_tok(tv[0]));
                assert(self@ =~= advance(s0));
            }
            StepOutcome { out: Vec::new(), err: None, jumped: false }
        } else {
            self.pc = self.pc + 1;
            proof {
                assert(!is_label_tok(tv[0]));
                assert(self@ =~= advance(s0));
            }
            StepOutcome { out: Vec::new(), err: Some(ZenError::UnknownCommand), jumped: false }
        }
    }

    /// The conditional jump: gather the parenthesized condition region,
    /// evaluate it, and on a true boolean follow the `goto label`
    /// continuation when it is present.
    fn dispatch_cond(&mut self, toks: &Vec<Vec<u8>>) -> (r: StepOutcome)
        requires
            old(self).inv(),
            old(self)@.pc < old(self)@.lines.len(),
            views_of(toks@).len() > 0,
            views_of(toks@)[0] == if_tok(),
        ensures
            final(self).inv(),
            ({
                let sp = cond_spec(old(self)@, views_of(toks@));
                final(self)@ == sp.s2 && r.out@ == sp.out && opt_err_view(r.err) == sp.err
                    && r.jumped == sp.jumped
            }),
    {
        let ghost s0 = self@;
        let nlines = self.lines.len();
        proof {
            assert(self@.lines.len() == self.lines@.len());
            assert(self.pc < nlines);
        }
        let ghost tv = views_of(toks@);
        let tn = toks.len();
        if !(tn >= 2 && toks[1].len() > 0 && toks[1][0] == 40) {
            proof {
                if tn >= 2 {
                    assert(tv[1] == toks@[1]@);
                }
            }
            self.pc = self.pc + 1;
            proof {
                assert(self@ =~= advance(s0));
            }
            return StepOutcome {
                out: Vec::new(),
                err: Some(ZenError::MalformedCondition),
                jumped: false,
            };
        }
        proof {
            assert(tv[1] == toks@[1]@);
        }
        let mut k: usize = 1;
        while k < tn && !(toks[k].len() > 0 && toks[k][toks[k].len() - 1] == 41)
            invariant
                1 <= k <= tn,
                tn == toks@.len(),
                tv == views_of(toks@),
                forall|j: int|
                    1 <= j < k ==> !((#[trigger] tv[j]).len() > 0 && tv[j].last() == 41),
            decreases tn - k,
        {
            proof {
                assert(tv[k as int] == toks@[k as int]@);
            }
            k = k + 1;
        }
        proof {
            if k < tn {
                assert(tv[k as int] == toks@[k as int]@);
            }
            lemma_close_idx_at(tv, 1, k as int);
        }
        if k == tn {
            self.pc = self.pc + 1;
            proof {
                assert(self@ =~= advance(s0));
            }
            return StepOutcome {
                out: Vec::new(),
                err: Some(ZenError::MalformedCondition),
                jumped: false,
            };
        }
        // Rebuild the condition text from its token run, single spaces
        // between tokens, as the region between the outer parentheses.
        let mut joined = slice_to_vec(toks[1].as_slice());
        proof {
            assert(tv.subrange(1, 2) =~= seq![tv[1]]);
            assert(join_tokens(seq![tv[1]]) == tv[1]);
        }
        let mut j: usize = 2;
        while j <= k
            invariant
                2 <= j <= k + 1,
                k < tn,
                tn == toks@.len(),
                tv == views_of(toks@),
                joined@ == join_tokens(tv.subrange(1, j as int)),
            decreases k + 1 - j,
        {
            joined.push(32);
            let mut piece = slice_to_vec(toks[j].as_slice());
            let ghost before = joined@;
            joined.append(&mut piece);
            proof {
                assert(tv[j as int] == toks@[j as int]@);
                lemma_join_push(tv.subrange(1, j as int), tv[j as int]);
                assert(tv.subrange(1, j + 1) =~= tv.subrange(1, j as int).push(tv[j as int]));
                assert(joined@ =~= join_tokens(tv.subrange(1, j as int)) + seq![32u8] + tv[
                    j as int]);
            }
            j = j + 1;
        }
        let ghost region = tv.subrange(1, k as int + 1);
        proof {
            assert(joined@ == join_tokens(region));
            if k == 1 {
                assert(region =~= seq![tv[1]]);
                assert(join_tokens(region) == tv[1]);
                assert(tv[1].len() >= 2) by {
                    assert(tv[1][0] == 40);
                    assert(tv[1].last() == 41);
                }
            } else {
                assert(region.len() >= 2);
                assert(join_tokens(region) == region[0] + seq![32u8] + join_tokens(
                    region.drop_first(),
                ));
                assert(region[0] == tv[1]);
            }
            assert(joined@.len() >= 2);
        }
        let inner = slice_subrange(joined.as_slice(), 1, joined.len() - 1);
        proof {
            assert(inner@ =~= join_tokens(region).subrange(1, join_tokens(region).len() - 1));
        }
        if !expr_text_ok(inner) {
            self.pc = self.pc + 1;
            proof {
                assert(self@ =~= advance(s0));
            }
            return StepOutcome {
                out: Vec::new(),
                err: Some(ZenError::ExpressionEvaluationFailure),
                jumped: false,
            };
        }
        let outcome = eval_expr(inner);
        match outcome {
            EvalOutcome::Bool(b) => {
                if b && tn - k >= 3 && tok_is_goto(toks[k + 1].as_slice()) {
                    proof {
                        assert(tv[k + 1] == toks@[k + 1]@);
                        assert(tv[k + 2] == toks@[k + 2]@);
                    }
                    self.do_goto(toks[k + 2].as_slice())
                } else {
                    proof {
                        if b && tn - k >= 3 {
                            assert(tv[k + 1] == toks@[k + 1]@);
                        }
                    }
                    self.pc = self.pc + 1;
                    proof {
                        assert(self@ =~= advance(s0));
                    }
                    StepOutcome { out: Vec::new(), err: None, jumped: false }
                }
            },
            EvalOutcome::Fail => {
                self.pc = self.pc + 1;
                proof {
                    assert(self@ =~= advance(s0));
                }
                StepOutcome {
                    out: Vec::new(),
                    err: Some(ZenError::ExpressionEvaluationFailure),
                    jumped: false,
                }
            },
            _ => {
                self.pc = self.pc + 1;
                proof {
                    assert(self@ =~= advance(s0));
                }
                StepOutcome {
                    out: Vec::new(),
                    err: Some(ZenError::MalformedCondition),
                    jumped: false,
                }
            },
        }
    }

    /// One full step at the current line: substitute, and either abandon
    /// the line on an undefined reference, or write the substituted text
    /// back in place, re-tokenize and dispatch.
    pub fn step(&mut self) -> (r: StepOutcome)
        requires
            old(self).inv(),
            old(self)@.pc < old(self)@.lines.len(),
        ensures
            final(self).inv(),
            ({
                let sp = step_spec(old(self)@);
                final(self)@ == sp.s2 && r.out@ == sp.out && opt_err_view(r.err) == sp.err
                    && r.jumped == sp.jumped
            }),
    {
        let ghost s0 = self@;
        let nlines = self.lines.len();
        proof {
            assert(self@.lines.len() == self.lines@.len());
            assert(self.pc < nlines);
        }
        let pc = self.pc;
        let line_ref: &Vec<u8> = &self.lines[pc];
        let sres = substitute(line_ref.as_slice(), &self.vars);
        proof {
            assert(s0.lines[s0.pc] == self.lines@[pc as int]@);
        }
        match sres {
            SubstOut::Undef(name) => {
                self.pc = pc + 1;
                proof {
                    assert(self@ =~= advance(s0));
                }
                StepOutcome {
                    out: Vec::new(),
                    err: Some(ZenError::UndefinedVariable(name)),
                    jumped: false,
                }
            },
            SubstOut::Done(newline) => {
                let toks = tokenize(newline.as_slice());
                let ghost nl = newline@;
                self.lines[pc] = newline;
                proof {
                    assert(self@.lines =~= s0.lines.update(s0.pc, nl));
                    assert(self@ =~= StateView {
                        lines: s0.lines.update(s0.pc, nl),
                        labels: s0.labels,
                        vars: s0.vars,
                        args: s0.args,
                        pc: s0.pc,
                    });
                }
                self.dispatch(&toks)
            },
        }
    }

    /// The program counter: the index of the line the next step executes.
    pub fn pc(&self) -> (r: usize)
        ensures
            r == self@.pc,
    {
        self.pc
    }

    /// How many lines the program has.
    pub fn line_count(&self) -> (r: usize)
        ensures
            r == self@.lines.len(),
    {
        proof {
            assert(self@.lines.len() == self.lines@.len());
        }
        self.lines.len()
    }

    /// Whether execution has fallen off the end of the program, the only
    /// way a run terminates.
    pub fn finished(&self) -> (r: bool)
        ensures
            r == !(self@.pc < self@.lines.len()),
    {
        proof {
            assert(self@.lines.len() == self.lines@.len());
        }
        self.pc >= self.lines.len()
    }

    /// The current value of a script variable, when it has one.
    pub fn get_var(&self, name: &[u8]) -> (r: Option<i64>)
        ensures
            r == (if self@.vars.contains_key(name@) {
                Some(self@.vars[name@])
            } else {
                None::<i64>
            }),
    {
        self.vars.get(name)
    }

    /// Runs at most `fuel` steps, stopping early when execution falls off
    /// the end; the output and the signalled errors are collected in order.
    pub fn run_with_fuel(&mut self, fuel: usize) -> (r: (Vec<u8>, Vec<ZenError>))
        requires
            old(self).inv(),
        ensures
            final(self).inv(),
            final(self)@ == run_spec(old(self)@, fuel as nat).s2,
            r.0@ == run_spec(old(self)@, fuel as nat).out,
            errs_view(r.1@) == run_spec(old(self)@, fuel as nat).errs,
    {
        let ghost s0 = self@;
        let ghost total = fuel as nat;
        let mut out: Vec<u8> = Vec::new();
        let mut errs: Vec<ZenError> = Vec::new();
        let mut remaining: usize = fuel;
        proof {
            assert(errs_view(errs@) =~= Seq::<ErrView>::empty());
            assert(out@ + run_spec(s0, total).out =~= run_spec(s0, total).out);
            assert(errs_view(errs@) + run_spec(s0, total).errs =~= run_spec(s0, total).errs);
        }
        loop
            invariant
                self.inv(),
                s0 == old(self)@,
                total == fuel as nat,
                remaining <= fuel,
                run_spec(s0, total).s2 == run_spec(self@, remaining as nat).s2,
                run_spec(s0, total).out == out@ + run_spec(self@, remaining as nat).out,
                run_spec(s0, total).errs == errs_view(errs@) + run_spec(
                    self@,
                    remaining as nat,
                ).errs,
            decreases remaining,
        {
            proof {
                assert(self@.lines.len() == self.lines@.len());
            }
            if remaining == 0 || self.pc >= self.lines.len() {
                proof {
                    assert(run_spec(self@, remaining as nat).s2 == self@);
                    assert(run_spec(self@, remaining as nat).out =~= Seq::<u8>::empty());
                    assert(run_spec(self@, remaining as nat).errs =~= Seq::<ErrView>::empty());
                    assert(out@ + Seq::<u8>::empty() =~= out@);
                    assert(errs_view(errs@) + Seq::<ErrView>::empty() =~= errs_view(errs@));
                }
                return (out, errs);
            }
            let ghost cur = self@;
            let ghost rem = remaining as nat;
            let step_r = self.step();
            let mut piece = step_r.out;
            let ghost out_before = out@;
            let ghost errs_before = errs_view(errs@);
            out.append(&mut piece);
            match step_r.err {
                Some(e) => {
                    let ghost ev = e@;
                    errs.push(e);
                    proof {
                        assert(errs_view(errs@) =~= errs_before + seq![ev]);
                    }
                },
                None => {
                    proof {
                        assert(opt_err_seq(opt_err_view(None::<ZenError>)) =~= Seq::<
                            ErrView,
                        >::empty());
                    }
                },
            }
            remaining = remaining - 1;
            proof {
                let st = step_spec(cur);
                let rest = run_spec(st.s2, (rem - 1) as nat);
                assert(run_spec(cur, rem).s2 == rest.s2);
                assert(run_spec(cur, rem).out == st.out + rest.out);
                assert(run_spec(cur, rem).errs == opt_err_seq(st.err) + rest.errs);
                assert(out@ =~= out_before + st.out);
                assert(out_before + (st.out + rest.out) =~= (out_before + st.out) + rest.out);
                assert(errs_view(errs@) + rest.errs =~= errs_before + (opt_err_seq(st.err)
                    + rest.errs)) by {
                    match st.err {
                        Some(x) => {
                            assert(errs_view(errs@) =~= errs_before + seq![x]);
                            assert(errs_before + (seq![x] + rest.errs) =~= (errs_before
                                + seq![x]) + rest.errs);
                        },
                        None => {
                            assert(opt_err_seq(st.err) =~= Seq::<ErrView>::empty());
                            assert(errs_before + (Seq::<ErrView>::empty() + rest.errs)
                                =~= errs_before + rest.errs);
                            assert(errs_view(errs@) =~= errs_before);
                        },
                    }
                }
            }
        }
    }
}

/// The errors a run collected, as the spec sees them.
pub open spec fn errs_view(es: Seq<ZenError>) -> Seq<ErrView> {
    es.map_values(|e: ZenError| e@)
}

/// Drops the blank lines of a raw line sequence: what remains is the
/// program, its lines addressable by index.
pub fn load_lines(raw: Vec<Vec<u8>>) -> (r: Vec<Vec<u8>>)
    ensures
        views_of(r@) == strip_blanks(views_of(raw@)),
{
    let mut out: Vec<Vec<u8>> = Vec::new();
    let n = raw.len();
    let mut i: usize = 0;
    proof {
        assert(views_of(raw@).take(0) =~= Seq::<Seq<u8>>::empty());
        assert(views_of(out@) =~= Seq::<Seq<u8>>::empty());
    }
    while i < n
        invariant
            0 <= i <= n,
            n == raw@.len(),
            views_of(out@) == strip_blanks(views_of(raw@).take(i as int)),
        decreases n - i,
    {
        let line = &raw[i];
        let ln = line.len();
        let mut blank = true;
        let mut j: usize = 0;
        while j < ln
            invariant
                0 <= j <= ln,
                ln == line@.len(),
                blank == (forall|k: int| 0 <= k < j ==> is_space_byte(#[trigger] line@[k])),
            decreases ln - j,
        {
            if !byte_is_space(line[j]) {
                blank = false;
                proof {
                    assert(!is_space_byte(line@[j as int]));
                }
                j = ln;
            } else {
                j = j + 1;
            }
        }
        let ghost pre = views_of(raw@).take(i as int);
        let ghost cur = views_of(raw@).take(i as int + 1);
        proof {
            assert(cur.drop_last() =~= pre);
            assert(cur.last() == raw@[i as int]@);
        }
        if !blank {
            let ghost old_out = out@;
            let kept = slice_to_vec(line.as_slice());
            out.push(kept);
            proof {
                assert(!is_blank(raw@[i as int]@));
                assert(views_of(out@) =~= views_of(old_out) + seq![raw@[i as int]@]);
            }
        } else {
            proof {
                assert(is_blank(raw@[i as int]@));
                assert(strip_blanks(cur) =~= strip_blanks(pre) + Seq::<Seq<u8>>::empty());
                assert(strip_blanks(pre) + Seq::<Seq<u8>>::empty() =~= strip_blanks(pre));
            }
        }
        i = i + 1;
    }
    proof {
        assert(views_of(raw@).take(n as int) =~= views_of(raw@));
    }
    out
}

} // verus!
