//! The engine's general guarantees, stated over the step semantics and
//! proved once and for all: label resolution, straight-line execution
//! order, the assignment round trip, and recovery from undefined
//! references.
use vstd::prelude::*;
use crate::chars::{is_name_byte, ref_free};
use crate::engine::{
    ErrView, StateView, amp_tok, dispatch_spec, eq_tok, goto_tok, is_label_tok, label_table_of,
    no_step, opt_err_seq, resolve_value_spec, run_spec, step_spec, strip_lead_colons,
    strip_trail_colons,
};
use crate::num::i64_dec;
use crate::subst::{
    SubstSpec, lemma_name_prefix_at, lemma_subst_cont_assoc, name_prefix, subst, subst_cont,
};
use crate::tokenize::spec_tokens;

verus! {

/// `line` declares the label `name`: its first token is `name` followed by
/// colons.
pub open spec fn declares(line: Seq<u8>, name: Seq<u8>) -> bool {
    let toks = spec_tokens(line);
    toks.len() > 0 && is_label_tok(toks[0]) && strip_trail_colons(toks[0]) == name
}

/// The label table maps a name to the last line that declares it —
/// resolution is a pure function of the program text, so building the
/// table any number of times gives the same table.
pub proof fn lemma_label_table_last_wins(lines: Seq<Seq<u8>>, name: Seq<u8>, j: int)
    requires
        lines.len() <= usize::MAX,
        0 <= j < lines.len(),
        declares(lines[j], name),
        forall|j2: int| j < j2 < lines.len() ==> !declares(#[trigger] lines[j2], name),
    ensures
        label_table_of(lines).contains_key(name),
        label_table_of(lines)[name] == j,
    decreases lines.len(),
{
    if j == lines.len() - 1 {
        assert(lines.last() == lines[j]);
        let toks = spec_tokens(lines[j]);
        assert(toks.len() > 0 && is_label_tok(toks[0]) && strip_trail_colons(toks[0]) == name);
        assert(label_table_of(lines) == label_table_of(lines.drop_last()).insert(
            name,
            (lines.len() - 1) as usize,
        ));
        assert(label_table_of(lines)[name] == j);
    } else {
        assert(!declares(lines[lines.len() - 1], name));
        assert(lines.last() == lines[lines.len() - 1]);
        assert(lines.drop_last()[j] == lines[j]);
        assert(forall|j2: int|
            j < j2 < lines.len() - 1 ==> #[trigger] lines.drop_last()[j2] == lines[j2]);
        lemma_label_table_last_wins(lines.drop_last(), name, j);
        let toks2 = spec_tokens(lines.last());
        if toks2.len() > 0 && is_label_tok(toks2[0]) {
            assert(strip_trail_colons(toks2[0]) != name);
            assert(label_table_of(lines)[name] == j);
        } else {
            assert(label_table_of(lines) == label_table_of(lines.drop_last()));
            assert(label_table_of(lines)[name] == j);
        }
    }
}

/// A name no line declares is not in the table.
pub proof fn lemma_label_table_absent(lines: Seq<Seq<u8>>, name: Seq<u8>)
    requires
        forall|j: int| 0 <= j < lines.len() ==> !declares(#[trigger] lines[j], name),
    ensures
        !label_table_of(lines).contains_key(name),
    decreases lines.len(),
{
    if lines.len() > 0 {
        assert(lines.last() == lines[lines.len() - 1]);
        assert(forall|j: int|
            0 <= j < lines.len() - 1 ==> #[trigger] lines.drop_last()[j] == lines[j]);
        lemma_label_table_absent(lines.drop_last(), name);
    }
}

/// Label resolution is order-independent: a `goto` to any declared label —
/// declared before or after the jump in source order, nothing here
/// constrains which — jumps, with no error and no output, and execution
/// resumes at the line immediately following the label line. Resolution
/// reads the table and changes nothing but the program counter.
pub proof fn lemma_goto_resolves(s: StateView, toks: Seq<Seq<u8>>)
    requires
        toks.len() >= 2,
        toks[0] == goto_tok(),
        s.labels.contains_key(strip_lead_colons(toks[1])),
    ensures
        ({
            let st = dispatch_spec(s, toks);
            &&& st.jumped
            &&& st.s2.pc == s.labels[strip_lead_colons(toks[1])] + 1
            &&& st.err is None
            &&& st.out == Seq::<u8>::empty()
            &&& st.s2.labels == s.labels
            &&& st.s2.vars == s.vars
            &&& st.s2.lines == s.lines
        }),
{
    assert(toks[0] != amp_tok());
    assert(toks[0] != crate::engine::print_tok());
    assert(toks[0] != crate::engine::if_tok());
}

/// The whole resolution path: in a state whose label table was built from
/// the program text, a `goto` to a name declared on line `j` — with no
/// later declaration of the same name, and nothing said about whether `j`
/// lies before or after the jump — takes the jump and resumes execution at
/// line `j + 1`.
pub proof fn lemma_goto_to_declared_label(
    s: StateView,
    toks: Seq<Seq<u8>>,
    lines0: Seq<Seq<u8>>,
    j: int,
)
    requires
        lines0.len() <= usize::MAX,
        s.labels == label_table_of(lines0),
        0 <= j < lines0.len(),
        toks.len() >= 2,
        toks[0] == goto_tok(),
        declares(lines0[j], strip_lead_colons(toks[1])),
        forall|j2: int|
            j < j2 < lines0.len() ==> !declares(
                #[trigger] lines0[j2],
                strip_lead_colons(toks[1]),
            ),
    ensures
        dispatch_spec(s, toks).jumped,
        dispatch_spec(s, toks).s2.pc == j + 1,
        dispatch_spec(s, toks).err is None,
{
    lemma_label_table_last_wins(lines0, strip_lead_colons(toks[1]), j);
    lemma_goto_resolves(s, toks);
}

/// The frame of one step: the label table and the argument vector never
/// change, the program keeps its length, and a step that takes no jump
/// moves the program counter to exactly the next line.
pub proof fn lemma_step_frame(s: StateView)
    requires
        0 <= s.pc < s.lines.len(),
    ensures
        ({
            let st = step_spec(s);
            &&& st.s2.lines.len() == s.lines.len()
            &&& st.s2.labels == s.labels
            &&& st.s2.args == s.args
            &&& (!st.jumped ==> st.s2.pc == s.pc + 1)
        }),
{
    match subst(s.lines[s.pc], s.vars) {
        SubstSpec::Undef(_) => {},
        SubstSpec::Done(newline) => {
            let mid = StateView {
                lines: s.lines.update(s.pc, newline),
                labels: s.labels,
                vars: s.vars,
                args: s.args,
                pc: s.pc,
            };
            assert(mid.lines.len() == s.lines.len());
            let toks = spec_tokens(newline);
            assert({
                let st = dispatch_spec(mid, toks);
                st.s2.lines.len() == s.lines.len() && st.s2.labels == s.labels && st.s2.args
                    == s.args && (!st.jumped ==> st.s2.pc == s.pc + 1)
            });
        },
    }
}

/// For a program in which no jump is taken, execution order equals source
/// line order: the executed line indices are consecutive, each line
/// visited exactly once, until the fuel or the program runs out.
pub proof fn lemma_straightline_order(s: StateView, fuel: nat)
    requires
        0 <= s.pc <= s.lines.len(),
        !run_spec(s, fuel).any_jump,
    ensures
        ({
            let m: int = if fuel <= s.lines.len() - s.pc {
                fuel as int
            } else {
                s.lines.len() - s.pc
            };
            run_spec(s, fuel).pcs == Seq::new(m as nat, |i: int| s.pc + i)
        }),
    decreases fuel,
{
    let m: int = if fuel <= s.lines.len() - s.pc {
        fuel as int
    } else {
        s.lines.len() - s.pc
    };
    if fuel == 0 || !(0 <= s.pc < s.lines.len()) {
        assert(run_spec(s, fuel).pcs =~= Seq::new(m as nat, |i: int| s.pc + i));
    } else {
        let st = step_spec(s);
        lemma_step_frame(s);
        assert(!st.jumped);
        assert(st.s2.pc == s.pc + 1);
        lemma_straightline_order(st.s2, (fuel - 1) as nat);
        assert(run_spec(s, fuel).pcs =~= Seq::new(m as nat, |i: int| s.pc + i));
    }
}

/// Text without references substitutes to itself.
pub proof fn lemma_subst_ref_free(s: Seq<u8>, vars: Map<Seq<u8>, i64>)
    requires
        ref_free(s),
    ensures
        subst(s, vars) == SubstSpec::Done(s),
    decreases s.len(),
{
    if s.len() == 0 {
        assert(s =~= Seq::<u8>::empty());
    } else {
        assert(s[0] != 38);
        assert(forall|i: int| 0 <= i < s.len() - 1 ==> #[trigger] s.drop_first()[i] == s[i + 1]);
        lemma_subst_ref_free(s.drop_first(), vars);
        assert(seq![s[0]] + s.drop_first() =~= s);
    }
}

/// A reference `&x` whose variable is defined substitutes to exactly the
/// decimal text of the variable's value, wherever it stands in the line.
pub proof fn lemma_subst_ref(
    pre: Seq<u8>,
    x: Seq<u8>,
    suf: Seq<u8>,
    vars: Map<Seq<u8>, i64>,
)
    requires
        ref_free(pre),
        ref_free(suf),
        x.len() > 0,
        forall|i: int| 0 <= i < x.len() ==> is_name_byte(#[trigger] x[i]),
        suf.len() == 0 || !is_name_byte(suf[0]),
        vars.contains_key(x),
    ensures
        subst(pre + seq![38u8] + x + suf, vars) == SubstSpec::Done(
            pre + i64_dec(vars[x] as int) + suf,
        ),
    decreases pre.len(),
{
    let line = pre + seq![38u8] + x + suf;
    if pre.len() == 0 {
        assert(line =~= seq![38u8] + x + suf);
        assert(line[0] == 38);
        assert(line.len() >= 2);
        assert(line[1] == x[0]);
        assert(line[1] != 32);
        let tail = line.skip(1);
        assert(tail =~= x + suf);
        assert(forall|k: int| 0 <= k < x.len() ==> is_name_byte(#[trigger] tail[k]));
        lemma_name_prefix_at(tail, x.len() as int);
        assert(name_prefix(tail) == x.len());
        assert(tail.take(x.len() as int) =~= x);
        assert(line.skip(1 + x.len() as int) =~= suf);
        lemma_subst_ref_free(suf, vars);
        assert(subst(line, vars) == SubstSpec::Done(i64_dec(vars[x] as int) + suf));
        assert(pre + i64_dec(vars[x] as int) + suf =~= i64_dec(vars[x] as int) + suf);
    } else {
        assert(line[0] == pre[0]);
        assert(pre[0] != 38);
        assert(forall|i: int|
            0 <= i < pre.len() - 1 ==> #[trigger] pre.drop_first()[i] == pre[i + 1]);
        assert(line.drop_first() =~= pre.drop_first() + seq![38u8] + x + suf);
        lemma_subst_ref(pre.drop_first(), x, suf, vars);
        assert(seq![pre[0]] + (pre.drop_first() + i64_dec(vars[x] as int) + suf) =~= pre
            + i64_dec(vars[x] as int) + suf);
    }
}

/// Reference-free text at the front of a line passes through substitution
/// unchanged, whatever follows it.
pub proof fn lemma_subst_lit_prefix(a: Seq<u8>, b: Seq<u8>, vars: Map<Seq<u8>, i64>)
    requires
        ref_free(a),
    ensures
        subst(a + b, vars) == subst_cont(a, subst(b, vars)),
    decreases a.len(),
{
    if a.len() == 0 {
        assert(a + b =~= b);
        match subst(b, vars) {
            SubstSpec::Done(t) => {
                assert(a + t =~= t);
            },
            SubstSpec::Undef(_) => {},
        }
    } else {
        let s = a + b;
        assert(s[0] == a[0]);
        assert(a[0] != 38);
        assert(s.drop_first() =~= a.drop_first() + b);
        assert(forall|i: int| 0 <= i < a.len() - 1 ==> #[trigger] a.drop_first()[i] == a[i + 1]);
        lemma_subst_lit_prefix(a.drop_first(), b, vars);
        lemma_subst_cont_assoc(seq![a[0]], a.drop_first(), subst(b, vars));
        assert(seq![a[0]] + a.drop_first() =~= a);
    }
}

/// A defined reference at the front of a line becomes its value's decimal
/// text, whatever follows, provided the byte after the name cannot
/// lengthen it.
pub proof fn lemma_subst_ref_prefix(x: Seq<u8>, b: Seq<u8>, vars: Map<Seq<u8>, i64>)
    requires
        x.len() > 0,
        forall|i: int| 0 <= i < x.len() ==> is_name_byte(#[trigger] x[i]),
        vars.contains_key(x),
        b.len() == 0 || !is_name_byte(b[0]),
    ensures
        subst(seq![38u8] + x + b, vars) == subst_cont(i64_dec(vars[x] as int), subst(b, vars)),
{
    let line = seq![38u8] + x + b;
    assert(line[0] == 38);
    assert(line.len() >= 2);
    assert(line[1] == x[0]);
    let tail = line.skip(1);
    assert(tail =~= x + b);
    assert(forall|k: int| 0 <= k < x.len() ==> is_name_byte(#[trigger] tail[k]));
    lemma_name_prefix_at(tail, x.len() as int);
    assert(tail.take(x.len() as int) =~= x);
    assert(line.skip(1 + x.len() as int) =~= b);
}

/// One piece of a line: a literal span, or a reference to a variable.
pub enum LinePiece {
    Lit(Seq<u8>),
    Ref(Seq<u8>),
}

/// The line a sequence of pieces spells, each reference written `&name`.
pub open spec fn pieces_text(ps: Seq<LinePiece>) -> Seq<u8>
    decreases ps.len(),
{
    if ps.len() == 0 {
        Seq::empty()
    } else {
        (match ps[0] {
            LinePiece::Lit(t) => t,
            LinePiece::Ref(x) => seq![38u8] + x,
        }) + pieces_text(ps.drop_first())
    }
}

/// The same line after substitution: each reference replaced by the
/// decimal text of its variable's current value.
pub open spec fn pieces_rendered(ps: Seq<LinePiece>, vars: Map<Seq<u8>, i64>) -> Seq<u8>
    decreases ps.len(),
{
    if ps.len() == 0 {
        Seq::empty()
    } else {
        (match ps[0] {
            LinePiece::Lit(t) => t,
            LinePiece::Ref(x) => i64_dec(vars[x] as int),
        }) + pieces_rendered(ps.drop_first(), vars)
    }
}

/// Pieces that substitution reads back exactly as written: literal spans
/// carry no `&`, every referenced variable is defined under a non-empty
/// name of name bytes, and what follows a reference does not begin with a
/// name byte (which would lengthen the name).
pub open spec fn pieces_wf(ps: Seq<LinePiece>, vars: Map<Seq<u8>, i64>) -> bool
    decreases ps.len(),
{
    ps.len() == 0 || ((match ps[0] {
        LinePiece::Lit(t) => ref_free(t),
        LinePiece::Ref(x) => x.len() > 0 && (forall|i: int|
            0 <= i < x.len() ==> is_name_byte(#[trigger] x[i])) && vars.contains_key(x) && (
        pieces_text(ps.drop_first()).len() == 0 || !is_name_byte(
            pieces_text(ps.drop_first())[0],
        )),
    }) && pieces_wf(ps.drop_first(), vars))
}

/// Substitution of a whole well-formed line, however many references it
/// holds and wherever they stand: the result is the rendered text.
pub proof fn lemma_subst_pieces(ps: Seq<LinePiece>, vars: Map<Seq<u8>, i64>)
    requires
        pieces_wf(ps, vars),
    ensures
        subst(pieces_text(ps), vars) == SubstSpec::Done(pieces_rendered(ps, vars)),
    decreases ps.len(),
{
    if ps.len() == 0 {
        assert(pieces_text(ps) =~= Seq::<u8>::empty());
        assert(pieces_rendered(ps, vars) =~= Seq::<u8>::empty());
    } else {
        let rest = ps.drop_first();
        lemma_subst_pieces(rest, vars);
        match ps[0] {
            LinePiece::Lit(t) => {
                lemma_subst_lit_prefix(t, pieces_text(rest), vars);
            },
            LinePiece::Ref(x) => {
                lemma_subst_ref_prefix(x, pieces_text(rest), vars);
            },
        }
    }
}

/// The assignment round trip: when `& x = value` resolves its value token
/// to the integer `v` — a literal, an in-range argument reference, or an
/// expression the evaluator returns an integer for — the step stores `v`
/// under `x` with no error, and afterwards any downstream reference `&x`
/// substitutes exactly the decimal text of `v`.
pub proof fn lemma_assign_round_trip(
    s: StateView,
    toks: Seq<Seq<u8>>,
    pre: Seq<u8>,
    suf: Seq<u8>,
    v: i64,
)
    requires
        toks.len() >= 4,
        toks[0] == amp_tok(),
        toks[2] == eq_tok(),
        resolve_value_spec(toks[3], s.args) == Result::<i64, ErrView>::Ok(v),
        ref_free(pre),
        ref_free(suf),
        toks[1].len() > 0,
        forall|i: int| 0 <= i < toks[1].len() ==> is_name_byte(#[trigger] toks[1][i]),
        suf.len() == 0 || !is_name_byte(suf[0]),
    ensures
        ({
            let st = dispatch_spec(s, toks);
            &&& st.s2.vars == s.vars.insert(toks[1], v)
            &&& st.err is None
            &&& !st.jumped
            &&& subst(pre + seq![38u8] + toks[1] + suf, st.s2.vars) == SubstSpec::Done(
                pre + i64_dec(v as int) + suf,
            )
        }),
{
    assert(toks[0] == amp_tok());
    let st = dispatch_spec(s, toks);
    assert(st.s2.vars == s.vars.insert(toks[1], v));
    assert(st.s2.vars.contains_key(toks[1]));
    assert(st.s2.vars[toks[1]] == v);
    lemma_subst_ref(pre, toks[1], suf, st.s2.vars);
}

/// The assignment round trip in general: after `& x = value` stores `v`,
/// any downstream line of literal spans and defined references — several
/// references, to `x` and to other variables alike — substitutes to its
/// rendered text, in which each `&x` has become the decimal text of `v`.
pub proof fn lemma_assign_round_trip_multi(
    s: StateView,
    toks: Seq<Seq<u8>>,
    ps: Seq<LinePiece>,
    v: i64,
)
    requires
        toks.len() >= 4,
        toks[0] == amp_tok(),
        toks[2] == eq_tok(),
        resolve_value_spec(toks[3], s.args) == Result::<i64, ErrView>::Ok(v),
        pieces_wf(ps, s.vars.insert(toks[1], v)),
    ensures
        ({
            let st = dispatch_spec(s, toks);
            &&& st.s2.vars == s.vars.insert(toks[1], v)
            &&& st.s2.vars[toks[1]] == v
            &&& st.err is None
            &&& subst(pieces_text(ps), st.s2.vars) == SubstSpec::Done(
                pieces_rendered(ps, st.s2.vars),
            )
        }),
{
    let st = dispatch_spec(s, toks);
    assert(st.s2.vars == s.vars.insert(toks[1], v));
    lemma_subst_pieces(ps, st.s2.vars);
}

/// An undefined variable reference skips exactly the one offending line:
/// the step signals the name, prints nothing, leaves the variable store,
/// the program text and the label table unchanged, and execution resumes
/// at the next line.
pub proof fn lemma_undefined_skips(s: StateView, name: Seq<u8>)
    requires
        0 <= s.pc < s.lines.len(),
        subst(s.lines[s.pc], s.vars) == SubstSpec::Undef(name),
    ensures
        step_spec(s) == no_step(s, Some(ErrView::UndefinedVariable(name))),
        step_spec(s).s2.vars == s.vars,
        step_spec(s).s2.lines == s.lines,
        step_spec(s).s2.labels == s.labels,
        step_spec(s).s2.pc == s.pc + 1,
        step_spec(s).out == Seq::<u8>::empty(),
        !step_spec(s).jumped,
{
}

/// Splitting a run: when the first `a` steps all execute a line (none
/// falls off the end — one line index is recorded per step taken), a run
/// of `a + b` steps is the run of `a` steps followed by a run of `b`
/// steps from the state it stopped in.
pub proof fn lemma_run_append(s: StateView, a: nat, b: nat)
    requires
        run_spec(s, a).pcs.len() == a,
    ensures
        ({
            let head = run_spec(s, a);
            let tail = run_spec(head.s2, b);
            let whole = run_spec(s, (a + b) as nat);
            &&& whole.s2 == tail.s2
            &&& whole.out == head.out + tail.out
            &&& whole.errs == head.errs + tail.errs
            &&& whole.pcs == head.pcs + tail.pcs
            &&& whole.any_jump == (head.any_jump || tail.any_jump)
        }),
    decreases a,
{
    let head = run_spec(s, a);
    let tail = run_spec(head.s2, b);
    if a == 0 {
        assert(head.s2 == s);
        assert(head.out + tail.out =~= tail.out);
        assert(head.errs + tail.errs =~= tail.errs);
        assert(head.pcs + tail.pcs =~= tail.pcs);
    } else {
        assert(0 <= s.pc < s.lines.len()) by {
            if !(0 <= s.pc < s.lines.len()) {
                assert(head.pcs =~= Seq::<int>::empty());
            }
        }
        let st = step_spec(s);
        let mid = run_spec(st.s2, (a - 1) as nat);
        assert(head.pcs == seq![s.pc] + mid.pcs);
        assert(mid.pcs.len() == a - 1);
        lemma_run_append(st.s2, (a - 1) as nat, b);
        let midtail = run_spec(mid.s2, b);
        assert(st.out + (mid.out + midtail.out) =~= (st.out + mid.out) + midtail.out);
        assert(opt_err_seq(st.err) + (mid.errs + midtail.errs) =~= (opt_err_seq(st.err)
            + mid.errs) + midtail.errs);
        assert(seq![s.pc] + (mid.pcs + midtail.pcs) =~= (seq![s.pc] + mid.pcs) + midtail.pcs);
    }
}

/// A state the step relation returns to after `k` steps keeps cycling:
/// however much fuel the run is given, every step of it executes a line,
/// so execution never falls off the end — the engine imposes no iteration
/// cap of its own, and only an outside step budget ends such a run.
pub proof fn lemma_cycle_never_ends(s: StateView, k: nat, fuel: nat)
    requires
        k > 0,
        0 <= s.pc < s.lines.len(),
        run_spec(s, k).s2 == s,
        run_spec(s, k).pcs.len() == k,
    ensures
        run_spec(s, fuel).pcs.len() == fuel,
    decreases fuel,
{
    if fuel > 0 {
        let st = step_spec(s);
        let s1 = st.s2;
        assert(run_spec(s, 1).s2 == s1 && run_spec(s, 1).pcs.len() == 1) by {
            reveal_with_fuel(run_spec, 2);
            assert(run_spec(s1, 0).pcs =~= Seq::<int>::empty());
        }
        lemma_run_append(s, 1, k);
        lemma_run_append(s, k, 1);
        assert(run_spec(s, (k + 1) as nat).s2 == run_spec(s1, k).s2);
        assert(run_spec(s, (k + 1) as nat).s2 == s1);
        assert(run_spec(s, (k + 1) as nat).pcs.len() == 1 + run_spec(s1, k).pcs.len());
        assert(run_spec(s, (k + 1) as nat).pcs.len() == k + 1);
        assert(run_spec(s1, k).pcs.len() == k);
        assert(0 <= s1.pc < s1.lines.len()) by {
            if !(0 <= s1.pc < s1.lines.len()) {
                assert(run_spec(s1, k).pcs =~= Seq::<int>::empty());
            }
        }
        lemma_cycle_never_ends(s1, k, (fuel - 1) as nat);
        assert(run_spec(s, fuel).pcs == seq![s.pc] + run_spec(s1, (fuel - 1) as nat).pcs);
    }
}

/// `t` written out `n` times over.
pub open spec fn repeat_bytes(t: Seq<u8>, n: nat) -> Seq<u8>
    decreases n,
{
    if n == 0 {
        Seq::empty()
    } else {
        t + repeat_bytes(t, (n - 1) as nat)
    }
}

/// A cycling state emits its cycle's output once per pass: `n` cycles of
/// `k` steps return to the same state having emitted the cycle's output
/// `n` times — the seeded jump-back loop prints its text unboundedly,
/// once per pass.
pub proof fn lemma_cycle_repeats_output(s: StateView, k: nat, n: nat)
    requires
        k > 0,
        0 <= s.pc < s.lines.len(),
        run_spec(s, k).s2 == s,
        run_spec(s, k).pcs.len() == k,
    ensures
        run_spec(s, (n * k) as nat).s2 == s,
        run_spec(s, (n * k) as nat).out == repeat_bytes(run_spec(s, k).out, n),
    decreases n,
{
    if n == 0 {
        assert(n * k == 0) by (nonlinear_arith)
            requires
                n == 0,
        ;
        assert(run_spec(s, 0).out =~= Seq::<u8>::empty());
    } else {
        assert(n * k == k + (n - 1) * k) by (nonlinear_arith)
            requires
                n >= 1,
        ;
        lemma_run_append(s, k, ((n - 1) * k) as nat);
        lemma_cycle_repeats_output(s, k, (n - 1) as nat);
        assert(run_spec(s, (n * k) as nat).out == run_spec(s, k).out + run_spec(
            s,
            ((n - 1) * k) as nat,
        ).out);
    }
}

} // verus!
