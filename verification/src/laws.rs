//! Laws of the state machine, proved once and for all over the transition
//! function `step`: digit entry spells the digits, chained operators fold
//! left to right, repeat-equals reapplies the last operand, division by
//! zero locks and the clear commands recover, the decimal point is
//! idempotent, and backspace never empties the display.

use crate::calc::{
    apply_op, eval_internal, fresh_start, has_dot, init_state, is_clear_all, is_clear_entry,
    op_char, step, step_clear_entry, step_digit, zero_text, CalcG, Op,
};
use crate::decimal::{
    is_digit, lemma_e_add_norm, lemma_e_div_norm, lemma_e_mul_norm, lemma_e_sub_norm,
    lemma_parse_render, parse_dec, render, DecG,
};
use vstd::prelude::*;

verus! {

/// The result of any operator is in normal form with a fitting mantissa.
pub proof fn lemma_apply_op_norm(op: Op, a: DecG, b: DecG)
    ensures
        crate::decimal::is_norm(apply_op(op, a, b)),
        -(i128::MAX as int) <= apply_op(op, a, b).mant <= i128::MAX as int,
{
    match op {
        Op::Add => lemma_e_add_norm(a, b),
        Op::Sub => lemma_e_sub_norm(a, b),
        Op::Mul => lemma_e_mul_norm(a, b),
        Op::Div => lemma_e_div_norm(a, b),
    }
}

/// The state after a run of single-character tokens.
pub open spec fn apply_digits(s: CalcG, ds: Seq<char>) -> CalcG
    decreases ds.len(),
{
    if ds.len() == 0 {
        s
    } else {
        apply_digits(step(s, seq![ds[0]]), ds.subrange(1, ds.len() as int))
    }
}

/// Typing digits onto a display that does not start with a zero appends
/// them one for one.
proof fn lemma_digit_run(s: CalcG, ds: Seq<char>)
    requires
        !s.error,
        !s.evaluated,
        s.current.len() > 0,
        s.current[0] != '0',
        forall|i: int| 0 <= i < ds.len() ==> is_digit(#[trigger] ds[i]),
    ensures
        apply_digits(s, ds).current == s.current + ds,
        !apply_digits(s, ds).error,
        !apply_digits(s, ds).evaluated,
    decreases ds.len(),
{
    if ds.len() == 0 {
        assert(s.current + ds =~= s.current);
    } else {
        let c = ds[0];
        let tok = seq![c];
        assert(is_digit(c));
        let s1 = step(s, tok);
        assert(s1 == step_digit(s, c));
        assert(s.current != zero_text()) by {
            if s.current == zero_text() {
                assert(s.current[0] == '0');
            }
        }
        assert(s1.current == s.current.push(c));
        assert(s1.current[0] == s.current[0]);
        let tail = ds.subrange(1, ds.len() as int);
        assert(forall|i: int| 0 <= i < tail.len() ==> tail[i] == ds[i + 1]);
        lemma_digit_run(s1, tail);
        assert(s.current.push(c) + tail =~= s.current + ds);
    }
}

/// Digits typed right after construction or after a completed evaluation
/// spell exactly their own concatenation; a leading zero collapses.
pub proof fn lemma_digit_entry(s: CalcG, ds: Seq<char>)
    requires
        !s.error,
        s.evaluated || s.current == zero_text(),
        ds.len() > 0,
        forall|i: int| 0 <= i < ds.len() ==> is_digit(#[trigger] ds[i]),
        ds[0] != '0',
    ensures
        apply_digits(s, ds).current == ds,
{
    let c = ds[0];
    let s1 = step(s, seq![c]);
    assert(is_digit(c));
    assert(s1 == step_digit(s, c));
    assert(fresh_start(s).current == zero_text());
    assert(s1.current == seq![c]);
    assert(!s1.error && !s1.evaluated);
    let tail = ds.subrange(1, ds.len() as int);
    assert(forall|i: int| 0 <= i < tail.len() ==> tail[i] == ds[i + 1]);
    lemma_digit_run(s1, tail);
    assert(seq![c] + tail =~= ds);
}

/// Chained operators fold left to right with no precedence: choosing a
/// second operator applies the pending one, and equals then applies the
/// second to that result.
pub proof fn lemma_chained_ops_left_assoc(s: CalcG, op1: Op, op2: Op, c_text: Seq<char>)
    requires
        !s.error,
        s.op == Some(op1),
        !(op1 is Div && parse_dec(s.current).mant == 0),
        !(op2 is Div && parse_dec(c_text).mant == 0),
    ensures
        ({
            let r1 = apply_op(op1, s.stored, parse_dec(s.current));
            let s1 = step(s, seq![op_char(op2)]);
            let s2 = CalcG { current: c_text, ..s1 };
            let s3 = step(s2, seq!['=']);
            &&& s1.stored == r1
            &&& s1.op == Some(op2)
            &&& !s1.error
            &&& s3.current == render(apply_op(op2, r1, parse_dec(c_text)))
            &&& s3.stored == apply_op(op2, r1, parse_dec(c_text))
        }),
{
    let b1 = parse_dec(s.current);
    let r1 = apply_op(op1, s.stored, b1);
    let g = op_char(op2);
    assert(!is_digit(g) && g != '.' && crate::calc::char_op(g) == Some(op2));
    let s1 = step(s, seq![g]);
    let t = eval_internal(s, op1);
    assert(t.current == render(r1) && !t.error);
    lemma_apply_op_norm(op1, s.stored, b1);
    lemma_parse_render(r1);
    assert(s1.stored == r1);
    let s2 = CalcG { current: c_text, ..s1 };
    let b2 = parse_dec(c_text);
    let s3 = step(s2, seq!['=']);
    assert(!is_digit('=') && crate::calc::char_op('=') is None);
    assert(s3.current == render(apply_op(op2, r1, b2)));
}

/// A completed evaluation remembers its operator and right operand, in
/// normal form: exactly what repeat-equals needs.
pub proof fn lemma_equals_remembers_operand(s: CalcG, op: Op)
    requires
        !s.error,
        s.op == Some(op),
        !(op is Div && parse_dec(s.current).mant == 0),
    ensures
        ({
            let b = parse_dec(s.current);
            let s1 = step(s, seq!['=']);
            &&& s1.last_operand == Some(b)
            &&& s1.last_op == Some(op)
            &&& s1.op is None
            &&& !s1.error
            &&& s1.evaluated
            &&& crate::decimal::is_norm(b)
            &&& -(i128::MAX as int) <= b.mant <= i128::MAX as int
        }),
{
    assert(!is_digit('=') && crate::calc::char_op('=') is None);
    crate::decimal::lemma_parse_dec_norm(s.current);
}

/// Repeat-equals reapplies the last operator to the display with the same
/// remembered operand, and remembers both again.
pub proof fn lemma_repeat_equals(s: CalcG, op: Op, b: DecG)
    requires
        !s.error,
        s.op is None,
        s.last_op == Some(op),
        s.last_operand == Some(b),
        crate::decimal::is_norm(b),
        -(i128::MAX as int) <= b.mant <= i128::MAX as int,
        !(op is Div && b.mant == 0),
    ensures
        ({
            let r = apply_op(op, parse_dec(s.current), b);
            let s1 = step(s, seq!['=']);
            &&& s1.current == render(r)
            &&& s1.stored == r
            &&& s1.last_op == Some(op)
            &&& s1.last_operand == Some(b)
            &&& s1.op is None
            &&& s1.evaluated
        }),
{
    let stored = parse_dec(s.current);
    let r = apply_op(op, stored, b);
    lemma_parse_render(b);
    let s1 = step(s, seq!['=']);
    assert(!is_digit('=') && crate::calc::char_op('=') is None);
    assert(s1.current == render(r));
}

/// Dividing by a display that reads zero locks the machine: the display
/// says so, the trail is wiped, and the error flag is set.
pub proof fn lemma_div_by_zero_locks(s: CalcG)
    requires
        !s.error,
        s.op == Some(Op::Div),
        parse_dec(s.current).mant == 0,
    ensures
        step(s, seq!['=']).error,
        step(s, seq!['=']).current == crate::calc::error_text(),
        step(s, seq!['=']).history.len() == 0,
{
    assert(!is_digit('=') && crate::calc::char_op('=') is None);
}

/// While locked, every token but the two clear commands does nothing.
pub proof fn lemma_lockout(s: CalcG, t: Seq<char>)
    requires
        s.error,
        !is_clear_all(t),
        !is_clear_entry(t),
    ensures
        step(s, t) == s,
{
}

/// Clear-all rebuilds the construction state, whatever came before.
pub proof fn lemma_clear_all_resets(s: CalcG)
    ensures
        step(s, seq!['C']) == init_state(),
{
    assert(!is_digit('C') && crate::calc::char_op('C') is None);
}

/// Clear-entry recovers from the lock but keeps the stored operand, the
/// pending and last operators, the last operand and the trail.
pub proof fn lemma_clear_entry_recovers(s: CalcG)
    ensures
        step(s, seq!['C', 'E']) == step_clear_entry(s),
        !step(s, seq!['C', 'E']).error,
        step(s, seq!['C', 'E']).current == zero_text(),
        step(s, seq!['C', 'E']).stored == s.stored,
        step(s, seq!['C', 'E']).op == s.op,
        step(s, seq!['C', 'E']).last_op == s.last_op,
        step(s, seq!['C', 'E']).last_operand == s.last_operand,
        step(s, seq!['C', 'E']).history == s.history,
{
    assert(is_clear_entry(seq!['C', 'E']));
}

/// Pressing the decimal point twice is the same as pressing it once.
pub proof fn lemma_decimal_point_idempotent(s: CalcG)
    ensures
        step(step(s, seq!['.']), seq!['.']) == step(s, seq!['.']),
{
    let tok = seq!['.'];
    assert(!is_digit('.') && crate::calc::char_op('.') is None);
    if s.error {
    } else {
        let s1 = step(s, tok);
        let t = fresh_start(s);
        if has_dot(t.current) {
            assert(s1 == t);
        } else {
            assert(s1.current == t.current.push('.'));
            assert(s1.current[s1.current.len() - 1] == '.');
            assert(has_dot(s1.current));
        }
        assert(!s1.evaluated && !s1.error);
        assert(has_dot(s1.current));
        assert(step(s1, tok) == s1);
    }
}

/// Backspace never empties the display; on a one-character or zero display
/// it reads zero.
pub proof fn lemma_backspace_never_empty(s: CalcG)
    requires
        !s.error,
    ensures
        step(s, seq!['←']).current.len() > 0,
        (s.evaluated || s.current.len() <= 1 || s.current == zero_text()) ==> step(
            s,
            seq!['←'],
        ).current == zero_text(),
{
    assert(!is_digit('←') && crate::calc::char_op('←') is None);
}

} // verus!

