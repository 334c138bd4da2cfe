//! The calculator's input-handling state machine: one entry point,
//! `handle_input`, consumes a token and mutates the state in place. The
//! whole machine is specified by the transition function `step` on the
//! ghost state `CalcG`.

use crate::decimal::{
    dec_neg, dec_zero, e_add, e_div, e_mul, e_sub, is_digit, parse_dec, push_char, render, Dec,
    DecG,
};
use vstd::prelude::*;

verus! {

#[derive(Clone, Copy, Debug, PartialEq, Eq, Structural)]
pub enum Op {
    Add,
    Sub,
    Mul,
    Div,
}

/// Display glyph of an operator.
pub open spec fn op_char(op: Op) -> char {
    match op {
        Op::Add => '+',
        Op::Sub => '−',
        Op::Mul => 'x',
        Op::Div => '÷',
    }
}

/// The operator a glyph names, if any.
pub open spec fn char_op(c: char) -> Option<Op> {
    if c == '+' {
        Some(Op::Add)
    } else if c == '−' {
        Some(Op::Sub)
    } else if c == 'x' {
        Some(Op::Mul)
    } else if c == '÷' {
        Some(Op::Div)
    } else {
        None
    }
}

/// Ghost state of the calculator.
#[verifier::ext_equal]
pub struct CalcG {
    pub current: Seq<char>,
    pub history: Seq<char>,
    pub stored: DecG,
    pub op: Option<Op>,
    pub last_op: Option<Op>,
    pub last_operand: Option<DecG>,
    pub error: bool,
    pub evaluated: bool,
}

pub open spec fn zero_text() -> Seq<char> {
    seq!['0']
}

pub open spec fn error_text() -> Seq<char> {
    seq!['E', 'r', 'r', 'o', 'r']
}

pub open spec fn init_state() -> CalcG {
    CalcG {
        current: zero_text(),
        history: Seq::empty(),
        stored: dec_zero(),
        op: None,
        last_op: None,
        last_operand: None,
        error: false,
        evaluated: false,
    }
}

/// The first input after a completed evaluation starts a fresh entry.
pub open spec fn fresh_start(s: CalcG) -> CalcG {
    if s.evaluated {
        CalcG { history: Seq::empty(), current: zero_text(), evaluated: false, ..s }
    } else {
        s
    }
}

pub open spec fn step_digit(s: CalcG, c: char) -> CalcG {
    let t = fresh_start(s);
    if t.current == zero_text() {
        CalcG { current: seq![c], ..t }
    } else {
        CalcG { current: t.current.push(c), ..t }
    }
}

pub open spec fn has_dot(b: Seq<char>) -> bool {
    exists|i: int| 0 <= i < b.len() && b[i] == '.'
}

pub open spec fn step_decimal(s: CalcG) -> CalcG {
    let t = fresh_start(s);
    if has_dot(t.current) {
        t
    } else {
        CalcG { current: t.current.push('.'), ..t }
    }
}

pub open spec fn step_backspace(s: CalcG) -> CalcG {
    let t = fresh_start(s);
    let cur = if t.current.len() > 0 {
        t.current.drop_last()
    } else {
        t.current
    };
    if cur.len() == 0 {
        CalcG { current: zero_text(), ..t }
    } else {
        CalcG { current: cur, ..t }
    }
}

pub open spec fn step_toggle_sign(s: CalcG) -> CalcG {
    let t = fresh_start(s);
    if t.current == zero_text() {
        t
    } else {
        CalcG { current: render(dec_neg(parse_dec(t.current))), ..t }
    }
}

/// The arithmetic of one operator on two decimals.
pub open spec fn apply_op(op: Op, a: DecG, b: DecG) -> DecG {
    match op {
        Op::Add => e_add(a, b),
        Op::Sub => e_sub(a, b),
        Op::Mul => e_mul(a, b),
        Op::Div => e_div(a, b),
    }
}

/// Combines `stored` and the parsed display under `op` and writes the
/// result back; division by zero locks the machine instead.
pub open spec fn eval_internal(s: CalcG, op: Op) -> CalcG {
    let b = parse_dec(s.current);
    if op is Div && b.mant == 0 {
        CalcG { error: true, current: error_text(), history: Seq::empty(), ..s }
    } else {
        let r = apply_op(op, s.stored, b);
        CalcG { current: render(r), stored: r, ..s }
    }
}

/// Records a newly chosen operator over the state `t`.
pub open spec fn set_op_apply(t: CalcG, op: Op) -> CalcG {
    let stored = parse_dec(t.current);
    CalcG {
        evaluated: false,
        stored: stored,
        op: Some(op),
        last_op: Some(op),
        current: zero_text(),
        last_operand: None,
        history: render(stored) + seq![' '] + seq![op_char(op)],
        ..t
    }
}

pub open spec fn step_set_op(s: CalcG, op: Op) -> CalcG {
    match s.op {
        Some(pending) => {
            let t = eval_internal(s, pending);
            if t.error {
                t
            } else {
                set_op_apply(t, op)
            }
        },
        None => set_op_apply(s, op),
    }
}

pub open spec fn step_equals(s: CalcG) -> CalcG {
    match s.op {
        Some(op) => {
            let b = parse_dec(s.current);
            let t = CalcG {
                last_operand: Some(b),
                last_op: Some(op),
                history: s.history + seq![' '] + render(b) + seq![' ', '='],
                ..s
            };
            let u = eval_internal(t, op);
            CalcG { op: None, evaluated: true, ..u }
        },
        None => match s.last_op {
            Some(op) => {
                let stored = parse_dec(s.current);
                let b = match s.last_operand {
                    Some(x) => x,
                    None => dec_zero(),
                };
                let t = CalcG {
                    stored: stored,
                    history: render(stored) + seq![' '] + seq![op_char(op)] + seq![' '] + render(b)
                        + seq!['='],
                    current: render(b),
                    ..s
                };
                let u = eval_internal(t, op);
                CalcG { op: None, evaluated: true, ..u }
            },
            None => s,
        },
    }
}

pub open spec fn step_clear_entry(s: CalcG) -> CalcG {
    CalcG { current: zero_text(), error: false, ..s }
}

pub open spec fn is_clear_all(t: Seq<char>) -> bool {
    t.len() == 1 && t[0] == 'C'
}

pub open spec fn is_clear_entry(t: Seq<char>) -> bool {
    t.len() == 2 && t[0] == 'C' && t[1] == 'E'
}

/// One step of the machine on one input token. Unknown tokens do nothing;
/// in the locked state everything but the two clear commands does nothing.
pub open spec fn step(s: CalcG, t: Seq<char>) -> CalcG {
    if s.error && !is_clear_all(t) && !is_clear_entry(t) {
        s
    } else if t.len() == 1 {
        let c = t[0];
        if is_digit(c) {
            step_digit(s, c)
        } else if c == '.' {
            step_decimal(s)
        } else if char_op(c) is Some {
            step_set_op(
                s,
                match char_op(c) {
                    Some(o) => o,
                    None => Op::Add,
                },
            )
        } else if c == '=' {
            step_equals(s)
        } else if c == 'C' {
            init_state()
        } else if c == '←' {
            step_backspace(s)
        } else if c == '±' {
            step_toggle_sign(s)
        } else {
            s
        }
    } else if is_clear_entry(t) {
        step_clear_entry(s)
    } else {
        s
    }
}

/// The calculator: display text, expression trail and evaluation state.
#[derive(Debug)]
pub struct CalculatorState {
    pub current: String,
    pub history: String,
    stored: Dec,
    op: Option<Op>,
    last_op: Option<Op>,
    last_operand: Option<Dec>,
    error: bool,
    evaluated: bool,
}

impl View for CalculatorState {
    type V = CalcG;

    closed spec fn view(&self) -> CalcG {
        CalcG {
            current: self.current@,
            history: self.history@,
            stored: self.stored@,
            op: self.op,
            last_op: self.last_op,
            last_operand: match self.last_operand {
                Some(d) => Some(d@),
                None => None,
            },
            error: self.error,
            evaluated: self.evaluated,
        }
    }
}

fn zero_string() -> (r: String)
    ensures
        r@ == zero_text(),
{
    let r = String::from_str("0");
    proof {
        reveal_strlit("0");
        assert(r@ =~= zero_text());
    }
    r
}

fn error_string() -> (r: String)
    ensures
        r@ == error_text(),
{
    let r = String::from_str("Error");
    proof {
        reveal_strlit("Error");
        assert(r@ =~= error_text());
    }
    r
}

fn is_zero_string(s: &String) -> (r: bool)
    ensures
        r == (s@ == zero_text()),
{
    if s.as_str().unicode_len() == 1 {
        let c = s.as_str().get_char(0);
        if c == '0' {
            proof {
                assert(s@ =~= zero_text());
            }
            true
        } else {
            false
        }
    } else {
        false
    }
}

fn contains_dot(s: &String) -> (r: bool)
    ensures
        r == has_dot(s@),
{
    let n = s.as_str().unicode_len();
    let mut i: usize = 0;
    while i < n
        invariant
            i <= n,
            n == s@.len(),
            forall|j: int| 0 <= j < i ==> s@[j] != '.',
        decreases n - i,
    {
        if s.as_str().get_char(i) == '.' {
            return true;
        }
        i = i + 1;
    }
    false
}

fn op_char_exec(op: Op) -> (c: char)
    ensures
        c == op_char(op),
{
    match op {
        Op::Add => '+',
        Op::Sub => '−',
        Op::Mul => 'x',
        Op::Div => '÷',
    }
}

impl CalculatorState {
    pub fn new() -> (r: CalculatorState)
        ensures
            r@ == init_state(),
    {
        let r = CalculatorState {
            current: zero_string(),
            history: String::new(),
            stored: Dec::zero(),
            op: None,
            last_operand: None,
            error: false,
            evaluated: false,
            last_op: None,
        };
        proof {
            assert(r@ =~= init_state());
        }
        r
    }

    /// Dispatches one input token: digits, the decimal point, the four
    /// operator glyphs, equals, the two clear commands, backspace and
    /// sign toggle; anything else is ignored. While the machine is locked
    /// after a division by zero, only the two clear commands act.
    pub fn handle_input(&mut self, input: &str)
        ensures
            final(self)@ == step(old(self)@, input@),
    {
        let n = input.unicode_len();
        let is_ca = n == 1 && input.get_char(0) == 'C';
        let is_ce = n == 2 && input.get_char(0) == 'C' && input.get_char(1) == 'E';
        if self.error && !is_ca && !is_ce {
            return;
        }
        if n == 1 {
            let c = input.get_char(0);
            let u = c as u32;
            if u >= 48 && u <= 57 {
                self.input_digit(c);
            } else if c == '.' {
                self.input_decimal();
            } else if c == '+' {
                self.set_operation(Op::Add);
            } else if c == '−' {
                self.set_operation(Op::Sub);
            } else if c == 'x' {
                self.set_operation(Op::Mul);
            } else if c == '÷' {
                self.set_operation(Op::Div);
            } else if c == '=' {
                self.calculate();
            } else if c == 'C' {
                self.clear_all();
            } else if c == '←' {
                self.backspace();
            } else if c == '±' {
                self.toggle_sign();
            }
        } else if is_ce {
            self.clear_entry();
        }
    }

    fn clear_all(&mut self)
        ensures
            final(self)@ == init_state(),
    {
        *self = CalculatorState::new();
    }

    fn clear_entry(&mut self)
        ensures
            final(self)@ == step_clear_entry(old(self)@),
    {
        self.current = zero_string();
        self.error = false;
        proof {
            assert(self@ =~= step_clear_entry(old(self)@));
        }
    }

    fn clear_if_evaluated(&mut self)
        ensures
            final(self)@ == fresh_start(old(self)@),
    {
        if self.evaluated {
            self.history = String::new();
            self.current = zero_string();
            self.evaluated = false;
        }
        proof {
            assert(self@ =~= fresh_start(old(self)@));
        }
    }

    fn input_digit(&mut self, digit: char)
        ensures
            final(self)@ == step_digit(old(self)@, digit),
    {
        self.clear_if_evaluated();
        if is_zero_string(&self.current) {
            let mut s = String::new();
            push_char(&mut s, digit);
            proof {
                assert(s@ =~= seq![digit]);
            }
            self.current = s;
        } else {
            let mut s = String::from_str(self.current.as_str());
            push_char(&mut s, digit);
            self.current = s;
        }
        proof {
            assert(self@ =~= step_digit(old(self)@, digit));
        }
    }

    fn input_decimal(&mut self)
        ensures
            final(self)@ == step_decimal(old(self)@),
    {
        self.clear_if_evaluated();
        if !contains_dot(&self.current) {
            let mut s = String::from_str(self.current.as_str());
            push_char(&mut s, '.');
            self.current = s;
        }
        proof {
            assert(self@ =~= step_decimal(old(self)@));
        }
    }

    fn backspace(&mut self)
        ensures
            final(self)@ == step_backspace(old(self)@),
    {
        self.clear_if_evaluated();
        let n = self.current.as_str().unicode_len();
        if n <= 1 {
            self.current = zero_string();
        } else {
            let cut = self.current.as_str().substring_char(0, n - 1);
            proof {
                assert(cut@ =~= self.current@.drop_last());
            }
            self.current = String::from_str(cut);
        }
        proof {
            assert(self@ =~= step_backspace(old(self)@));
        }
    }

    fn toggle_sign(&mut self)
        ensures
            final(self)@ == step_toggle_sign(old(self)@),
    {
        self.clear_if_evaluated();
        if is_zero_string(&self.current) {
            return;
        }
        let d = Dec::parse(self.current.as_str());
        let nd = d.neg();
        self.current = nd.render();
        proof {
            assert(self@ =~= step_toggle_sign(old(self)@));
        }
    }

    fn calculate_internal(&mut self, op_to_use: Op)
        ensures
            final(self)@ == eval_internal(old(self)@, op_to_use),
    {
        let b = Dec::parse(self.current.as_str());
        let div_by_zero = match op_to_use {
            Op::Div => b.mant == 0,
            _ => false,
        };
        if div_by_zero {
            self.error = true;
            self.current = error_string();
            self.history = String::new();
            proof {
                assert(self@ =~= eval_internal(old(self)@, op_to_use));
            }
            return;
        }
        let r = match op_to_use {
            Op::Add => self.stored.add(&b),
            Op::Sub => self.stored.sub(&b),
            Op::Mul => self.stored.mul(&b),
            Op::Div => self.stored.div(&b),
        };
        self.current = r.render();
        self.stored = r;
        proof {
            assert(self@ =~= eval_internal(old(self)@, op_to_use));
        }
    }

    fn set_operation(&mut self, op: Op)
        ensures
            final(self)@ == step_set_op(old(self)@, op),
    {
        match self.op {
            Some(pending) => {
                self.calculate_internal(pending);
                if self.error {
                    proof {
                        assert(self@ =~= step_set_op(old(self)@, op));
                    }
                    return;
                }
            },
            None => {},
        }
        self.evaluated = false;
        self.stored = Dec::parse(self.current.as_str());
        self.op = Some(op);
        self.last_op = Some(op);
        self.current = zero_string();
        self.last_operand = None;
        let mut h = self.stored.render();
        push_char(&mut h, ' ');
        let g = op_char_exec(op);
        push_char(&mut h, g);
        self.history = h;
        proof {
            assert(render(self.stored@) + seq![' '] + seq![op_char(op)] =~= render(
                self.stored@,
            ).push(' ').push(op_char(op)));
            assert(self@ =~= step_set_op(old(self)@, op));
        }
    }

    fn calculate(&mut self)
        ensures
            final(self)@ == step_equals(old(self)@),
    {
        match self.op {
            Some(op) => {
                let b = Dec::parse(self.current.as_str());
                self.last_operand = Some(b);
                self.last_op = Some(op);
                let rb = b.render();
                let mut h = String::from_str(self.history.as_str());
                push_char(&mut h, ' ');
                h.append(rb.as_str());
                push_char(&mut h, ' ');
                push_char(&mut h, '=');
                self.history = h;
                proof {
                    assert(old(self)@.history + seq![' '] + render(b@) + seq![' ', '='] =~= (old(
                        self,
                    )@.history.push(' ') + render(b@)).push(' ').push('='));
                }
                self.calculate_internal(op);
                self.op = None;
                self.evaluated = true;
                proof {
                    assert(self@ =~= step_equals(old(self)@));
                }
            },
            None => {
                match self.last_op {
                    Some(op) => {
                        self.stored = Dec::parse(self.current.as_str());
                        let b = match self.last_operand {
                            Some(x) => x,
                            None => Dec::zero(),
                        };
                        let rb = b.render();
                        let rs = self.stored.render();
                        let mut h = rs;
                        push_char(&mut h, ' ');
                        let g = op_char_exec(op);
                        push_char(&mut h, g);
                        push_char(&mut h, ' ');
                        h.append(rb.as_str());
                        push_char(&mut h, '=');
                        self.history = h;
                        self.current = rb;
                        proof {
                            assert(render(self.stored@) + seq![' '] + seq![op_char(op)] + seq![' ']
                                + render(b@) + seq!['='] =~= ((render(self.stored@).push(' ').push(
                                op_char(op),
                            ).push(' ') + render(b@)).push('=')));
                        }
                        self.calculate_internal(op);
                        self.op = None;
                        self.evaluated = true;
                        proof {
                            assert(self@ =~= step_equals(old(self)@));
                        }
                    },
                    None => {},
                }
            },
        }
    }
}

} // verus!
