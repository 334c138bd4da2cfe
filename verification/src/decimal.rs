//! Exact decimal numbers: a mantissa and a power-of-ten scale, kept in a
//! normal form (no trailing zero digits in the fraction, zero has scale 0).
//! Arithmetic that would not fit the mantissa falls back to zero, and every
//! operation says exactly when that happens.

use vstd::prelude::*;

verus! {

/// Ghost model of a decimal number: the value is `mant / 10^scale`.
pub struct DecG {
    pub mant: int,
    pub scale: nat,
}

/// Executable decimal number; its view is a `DecG`.
#[derive(Clone, Copy, Debug)]
pub struct Dec {
    pub mant: i128,
    pub scale: usize,
}

impl View for Dec {
    type V = DecG;

    open spec fn view(&self) -> DecG {
        DecG { mant: self.mant as int, scale: self.scale as nat }
    }
}

pub open spec fn pow10(n: nat) -> int
    decreases n,
{
    if n == 0 {
        1
    } else {
        10 * pow10((n - 1) as nat)
    }
}

pub open spec fn dec_zero() -> DecG {
    DecG { mant: 0, scale: 0 }
}

/// A decimal is in normal form when zero has scale 0 and a nonzero fraction
/// does not end in a zero digit.
pub open spec fn is_norm(d: DecG) -> bool {
    &&& (d.mant == 0 ==> d.scale == 0)
    &&& (d.scale > 0 ==> d.mant % 10 != 0)
}

/// Normal form of a decimal: strip trailing zero digits of the fraction.
pub open spec fn norm(d: DecG) -> DecG
    decreases d.scale,
{
    if d.mant == 0 {
        dec_zero()
    } else if d.scale > 0 && d.mant % 10 == 0 {
        norm(DecG { mant: d.mant / 10, scale: (d.scale - 1) as nat })
    } else {
        d
    }
}

pub proof fn lemma_pow10_pos(n: nat)
    ensures
        pow10(n) >= 1,
    decreases n,
{
    if n > 0 {
        lemma_pow10_pos((n - 1) as nat);
    }
}

pub proof fn lemma_pow10_mono(i: nat, j: nat)
    requires
        i <= j,
    ensures
        pow10(i) <= pow10(j),
    decreases j,
{
    if i < j {
        lemma_pow10_mono(i, (j - 1) as nat);
        lemma_pow10_pos((j - 1) as nat);
    }
}

pub proof fn lemma_norm_is_norm(d: DecG)
    ensures
        is_norm(norm(d)),
    decreases d.scale,
{
    if d.mant == 0 {
    } else if d.scale > 0 && d.mant % 10 == 0 {
        lemma_norm_is_norm(DecG { mant: d.mant / 10, scale: (d.scale - 1) as nat });
    }
}

pub proof fn lemma_norm_of_norm(d: DecG)
    requires
        is_norm(d),
    ensures
        norm(d) == d,
{
}

impl Dec {
    pub fn zero() -> (r: Dec)
        ensures
            r@ == dec_zero(),
    {
        Dec { mant: 0, scale: 0 }
    }
}

/// Builds the normal form of `(if neg { -mag } else { mag }) / 10^scale`.
fn norm_from_parts(neg: bool, mag: u128, scale: usize) -> (r: Dec)
    requires
        mag <= i128::MAX as u128,
    ensures
        r@ == norm(DecG { mant: signed_mag(neg, mag as nat), scale: scale as nat }),
        -(i128::MAX as int) <= r@.mant <= i128::MAX as int,
    decreases scale,
{
    proof {
        lemma_signed_mag_div10(neg, mag as nat);
    }
    if mag == 0 {
        Dec { mant: 0, scale: 0 }
    } else if scale > 0 && mag % 10 == 0 {
        norm_from_parts(neg, mag / 10, scale - 1)
    } else {
        let m: i128 = if neg {
            -(mag as i128)
        } else {
            mag as i128
        };
        Dec { mant: m, scale }
    }
}

/// The integer `mag` with the sign `neg` put on it.
pub open spec fn signed_mag(neg: bool, mag: nat) -> int {
    if neg {
        -(mag as int)
    } else {
        mag as int
    }
}

proof fn lemma_signed_mag_div10(neg: bool, mag: nat)
    ensures
        signed_mag(neg, mag) % 10 == 0 <==> mag % 10 == 0,
        mag % 10 == 0 ==> signed_mag(neg, mag) / 10 == signed_mag(neg, (mag / 10) as nat),
{
    let m = mag as int;
    assert(m == 10 * (m / 10) + m % 10) by (nonlinear_arith);
    if m % 10 == 0 {
        let k = m / 10;
        assert((10 * k) / 10 == k) by (nonlinear_arith);
        assert((10 * (-k)) / 10 == -k) by (nonlinear_arith);
        assert((10 * k) % 10 == 0) by (nonlinear_arith);
        assert((10 * (-k)) % 10 == 0) by (nonlinear_arith);
        assert(-m == 10 * (-k));
    } else {
        if neg {
            assert((-m) % 10 != 0) by (nonlinear_arith)
                requires
                    m % 10 != 0,
            ;
        }
    }
}

/// `10^n` when it fits an `i128`, `None` otherwise.
fn pow10_exec(n: usize) -> (r: Option<i128>)
    ensures
        match r {
            Some(p) => p == pow10(n as nat) && p >= 1,
            None => pow10(n as nat) > i128::MAX,
        },
{
    let mut acc: i128 = 1;
    let mut i: usize = 0;
    while i < n
        invariant
            i <= n,
            acc == pow10(i as nat),
            1 <= acc <= i128::MAX,
        decreases n - i,
    {
        match acc.checked_mul(10) {
            Some(next) => {
                acc = next;
                i = i + 1;
            },
            None => {
                proof {
                    lemma_pow10_mono((i + 1) as nat, n as nat);
                }
                return None;
            },
        }
    }
    Some(acc)
}

/// Number of fraction digits a quotient is truncated to.
pub const DIV_SCALE: usize = 20;

/// Builds the normal form of `m / 10^scale`.
fn norm_mant(m: i128, scale: usize) -> (r: Dec)
    requires
        m != i128::MIN,
    ensures
        r@ == norm(DecG { mant: m as int, scale: scale as nat }),
{
    let neg = m < 0;
    let mag: u128 = if m < 0 {
        (-m) as u128
    } else {
        m as u128
    };
    norm_from_parts(neg, mag, scale)
}

/// Exact sum of two decimals; zero when an intermediate value would not
/// fit the mantissa.
pub open spec fn e_add(a: DecG, b: DecG) -> DecG {
    let s: nat = if a.scale >= b.scale {
        a.scale
    } else {
        b.scale
    };
    let pa = pow10((s - a.scale) as nat);
    let pb = pow10((s - b.scale) as nat);
    if pa > i128::MAX || pb > i128::MAX {
        dec_zero()
    } else {
        let ma = a.mant * pa;
        let mb = b.mant * pb;
        if ma < i128::MIN || ma > i128::MAX || mb < i128::MIN || mb > i128::MAX {
            dec_zero()
        } else {
            let m = ma + mb;
            if m <= i128::MIN || m > i128::MAX {
                dec_zero()
            } else {
                norm(DecG { mant: m, scale: s })
            }
        }
    }
}

/// Exact difference of two decimals; zero on mantissa overflow.
pub open spec fn e_sub(a: DecG, b: DecG) -> DecG {
    let s: nat = if a.scale >= b.scale {
        a.scale
    } else {
        b.scale
    };
    let pa = pow10((s - a.scale) as nat);
    let pb = pow10((s - b.scale) as nat);
    if pa > i128::MAX || pb > i128::MAX {
        dec_zero()
    } else {
        let ma = a.mant * pa;
        let mb = b.mant * pb;
        if ma < i128::MIN || ma > i128::MAX || mb < i128::MIN || mb > i128::MAX {
            dec_zero()
        } else {
            let m = ma - mb;
            if m <= i128::MIN || m > i128::MAX {
                dec_zero()
            } else {
                norm(DecG { mant: m, scale: s })
            }
        }
    }
}

/// Exact product of two decimals; zero on mantissa or scale overflow.
pub open spec fn e_mul(a: DecG, b: DecG) -> DecG {
    if a.scale + b.scale > usize::MAX {
        dec_zero()
    } else {
        let m = a.mant * b.mant;
        if m <= i128::MIN || m > i128::MAX {
            dec_zero()
        } else {
            norm(DecG { mant: m, scale: a.scale + b.scale })
        }
    }
}

/// Integer division truncated toward zero.
pub open spec fn tdiv(x: int, d: int) -> int {
    if x == 0 {
        0
    } else if x > 0 && d > 0 {
        x / d
    } else if x < 0 && d < 0 {
        (x * -1) / (d * -1)
    } else if x < 0 {
        ((x * -1) / d) * -1
    } else {
        (x / (d * -1)) * -1
    }
}

/// Quotient of two decimals, truncated toward zero at `DIV_SCALE` fraction
/// digits; zero when the divisor is zero or an intermediate value would not
/// fit the mantissa.
pub open spec fn e_div(a: DecG, b: DecG) -> DecG {
    if b.mant == 0 {
        dec_zero()
    } else if b.scale + DIV_SCALE > usize::MAX {
        dec_zero()
    } else {
        let pn = pow10(b.scale + DIV_SCALE as nat);
        let pd = pow10(a.scale);
        if pn > i128::MAX || pd > i128::MAX {
            dec_zero()
        } else {
            let n = a.mant * pn;
            let d = b.mant * pd;
            if n < i128::MIN || n > i128::MAX || d < i128::MIN || d > i128::MAX {
                dec_zero()
            } else {
                let q = tdiv(n, d);
                if q <= i128::MIN || q > i128::MAX {
                    dec_zero()
                } else {
                    norm(DecG { mant: q, scale: DIV_SCALE as nat })
                }
            }
        }
    }
}

/// The decimal with the opposite sign.
pub open spec fn dec_neg(d: DecG) -> DecG {
    DecG { mant: -d.mant, scale: d.scale }
}

impl Dec {
    pub fn add(&self, other: &Dec) -> (r: Dec)
        ensures
            r@ == e_add(self@, other@),
    {
        let s: usize = if self.scale >= other.scale {
            self.scale
        } else {
            other.scale
        };
        let pa = match pow10_exec(s - self.scale) {
            Some(p) => p,
            None => return Dec::zero(),
        };
        let pb = match pow10_exec(s - other.scale) {
            Some(p) => p,
            None => return Dec::zero(),
        };
        let ma = match self.mant.checked_mul(pa) {
            Some(x) => x,
            None => return Dec::zero(),
        };
        let mb = match other.mant.checked_mul(pb) {
            Some(x) => x,
            None => return Dec::zero(),
        };
        let m = match ma.checked_add(mb) {
            Some(x) => x,
            None => return Dec::zero(),
        };
        if m == i128::MIN {
            return Dec::zero();
        }
        norm_mant(m, s)
    }

    pub fn sub(&self, other: &Dec) -> (r: Dec)
        ensures
            r@ == e_sub(self@, other@),
    {
        let s: usize = if self.scale >= other.scale {
            self.scale
        } else {
            other.scale
        };
        let pa = match pow10_exec(s - self.scale) {
            Some(p) => p,
            None => return Dec::zero(),
        };
        let pb = match pow10_exec(s - other.scale) {
            Some(p) => p,
            None => return Dec::zero(),
        };
        let ma = match self.mant.checked_mul(pa) {
            Some(x) => x,
            None => return Dec::zero(),
        };
        let mb = match other.mant.checked_mul(pb) {
            Some(x) => x,
            None => return Dec::zero(),
        };
        let m = match ma.checked_sub(mb) {
            Some(x) => x,
            None => return Dec::zero(),
        };
        if m == i128::MIN {
            return Dec::zero();
        }
        norm_mant(m, s)
    }

    pub fn mul(&self, other: &Dec) -> (r: Dec)
        ensures
            r@ == e_mul(self@, other@),
    {
        let s = match self.scale.checked_add(other.scale) {
            Some(x) => x,
            None => return Dec::zero(),
        };
        let m = match self.mant.checked_mul(other.mant) {
            Some(x) => x,
            None => return Dec::zero(),
        };
        if m == i128::MIN {
            return Dec::zero();
        }
        norm_mant(m, s)
    }

    pub fn div(&self, other: &Dec) -> (r: Dec)
        ensures
            r@ == e_div(self@, other@),
    {
        if other.mant == 0 {
            return Dec::zero();
        }
        let es = match other.scale.checked_add(DIV_SCALE) {
            Some(x) => x,
            None => return Dec::zero(),
        };
        let pn = match pow10_exec(es) {
            Some(p) => p,
            None => return Dec::zero(),
        };
        let pd = match pow10_exec(self.scale) {
            Some(p) => p,
            None => return Dec::zero(),
        };
        let n = match self.mant.checked_mul(pn) {
            Some(x) => x,
            None => return Dec::zero(),
        };
        let d = match other.mant.checked_mul(pd) {
            Some(x) => x,
            None => return Dec::zero(),
        };
        proof {
            assert(other.mant as int * pd as int != 0) by (nonlinear_arith)
                requires
                    other.mant as int != 0,
                    pd as int >= 1,
            ;
        }
        let q = match n.checked_div(d) {
            Some(x) => x,
            None => return Dec::zero(),
        };
        if q == i128::MIN {
            return Dec::zero();
        }
        norm_mant(q, DIV_SCALE)
    }

    pub fn neg(&self) -> (r: Dec)
        requires
            self@.mant != i128::MIN as int,
        ensures
            r@ == dec_neg(self@),
    {
        Dec { mant: -self.mant, scale: self.scale }
    }
}

pub open spec fn is_digit(c: char) -> bool {
    48 <= c as int <= 57
}

pub open spec fn digit_val(c: char) -> int {
    c as int - 48
}

pub open spec fn is_neg_str(s: Seq<char>) -> bool {
    s.len() > 0 && s[0] == '-'
}

/// The numeral without its sign.
pub open spec fn body_of(s: Seq<char>) -> Seq<char> {
    if is_neg_str(s) {
        s.subrange(1, s.len() as int)
    } else {
        s
    }
}

/// How many of the characters are decimal points.
pub open spec fn dot_count(b: Seq<char>) -> nat
    decreases b.len(),
{
    if b.len() == 0 {
        0
    } else {
        dot_count(b.drop_last()) + if b.last() == '.' {
            1nat
        } else {
            0nat
        }
    }
}

/// An unsigned numeral: digits with at most one decimal point and at least
/// one digit.
pub open spec fn valid_body(b: Seq<char>) -> bool {
    &&& forall|i: int| 0 <= i < b.len() ==> is_digit(b[i]) || b[i] == '.'
    &&& dot_count(b) <= 1
    &&& exists|i: int| 0 <= i < b.len() && is_digit(b[i])
}

/// The integer the digits spell, the decimal point ignored.
pub open spec fn mag_of(b: Seq<char>) -> int
    decreases b.len(),
{
    if b.len() == 0 {
        0
    } else if b.last() == '.' {
        mag_of(b.drop_last())
    } else {
        10 * mag_of(b.drop_last()) + digit_val(b.last())
    }
}

/// How many characters follow the first decimal point.
pub open spec fn frac_len(b: Seq<char>) -> nat
    decreases b.len(),
{
    if b.len() == 0 {
        0
    } else if b[0] == '.' {
        (b.len() - 1) as nat
    } else {
        frac_len(b.subrange(1, b.len() as int))
    }
}

/// The decimal a text names. Text that is not a plain signed numeral, or
/// whose digits do not fit the mantissa, counts as zero.
pub open spec fn parse_dec(s: Seq<char>) -> DecG {
    let b = body_of(s);
    if valid_body(b) && mag_of(b) <= i128::MAX {
        norm(DecG { mant: signed_mag(is_neg_str(s), mag_of(b) as nat), scale: frac_len(b) })
    } else {
        dec_zero()
    }
}

pub proof fn lemma_mag_push(p: Seq<char>, c: char)
    ensures
        mag_of(p.push(c)) == if c == '.' {
            mag_of(p)
        } else {
            10 * mag_of(p) + digit_val(c)
        },
        dot_count(p.push(c)) == dot_count(p) + if c == '.' {
            1nat
        } else {
            0nat
        },
{
    assert(p.push(c).drop_last() =~= p);
}

pub proof fn lemma_mag_nonneg(b: Seq<char>)
    requires
        forall|i: int| 0 <= i < b.len() ==> is_digit(b[i]) || b[i] == '.',
    ensures
        mag_of(b) >= 0,
    decreases b.len(),
{
    if b.len() > 0 {
        lemma_mag_nonneg(b.drop_last());
    }
}

/// A sequence without a dot has nothing after a dot.
proof fn lemma_no_dot_frac(b: Seq<char>)
    requires
        dot_count(b) == 0,
    ensures
        frac_len(b) == 0,
    decreases b.len(),
{
    if b.len() > 0 {
        let t = b.subrange(1, b.len() as int);
        assert(b[0] != '.') by {
            if b[0] == '.' {
                lemma_dot_count_has_dot(b, 0);
            }
        }
        lemma_dot_count_tail(b);
        lemma_no_dot_frac(t);
    }
}

proof fn lemma_frac_len_push(p: Seq<char>, c: char)
    ensures
        frac_len(p.push(c)) == if dot_count(p) > 0 {
            frac_len(p) + 1
        } else {
            0nat
        },
    decreases p.len(),
{
    let q = p.push(c);
    if p.len() == 0 {
        assert(q =~= seq![c]);
        assert(dot_count(p) == 0);
        if c == '.' {
            assert(frac_len(q) == 0);
        } else {
            assert(q[0] == c);
            assert(q.subrange(1, 1) =~= Seq::<char>::empty());
            assert(frac_len(q) == frac_len(q.subrange(1, 1)));
            assert(frac_len(q) == 0);
        }
    } else {
        let t = p.subrange(1, p.len() as int);
        assert(q[0] == p[0]);
        if p[0] == '.' {
            lemma_dot_count_has_dot(p, 0);
            assert(frac_len(q) == q.len() - 1);
            assert(frac_len(p) == p.len() - 1);
        } else {
            assert(q.subrange(1, q.len() as int) =~= t.push(c));
            lemma_frac_len_push(t, c);
            lemma_dot_count_tail(p);
            assert(frac_len(q) == frac_len(t.push(c)));
            if dot_count(p) > 0 {
                assert(frac_len(p) == frac_len(t));
            }
        }
    }
}

/// A character of `b` is a dot only when `dot_count(b)` sees one.
proof fn lemma_dot_count_has_dot(b: Seq<char>, i: int)
    requires
        0 <= i < b.len(),
        b[i] == '.',
    ensures
        dot_count(b) > 0,
    decreases b.len(),
{
    if i + 1 < b.len() {
        lemma_dot_count_has_dot(b.drop_last(), i);
    }
}

/// Dropping a first character that is not a dot keeps the dot count.
proof fn lemma_dot_count_tail(b: Seq<char>)
    requires
        b.len() > 0,
        b[0] != '.',
    ensures
        dot_count(b) == dot_count(b.subrange(1, b.len() as int)),
    decreases b.len(),
{
    let t = b.subrange(1, b.len() as int);
    if b.len() == 1 {
        assert(t =~= Seq::<char>::empty());
        assert(b.drop_last() =~= Seq::<char>::empty());
    } else {
        assert(b.drop_last()[0] == b[0]);
        lemma_dot_count_tail(b.drop_last());
        assert(b.drop_last().subrange(1, b.len() - 1 as int) =~= t.drop_last());
        assert(t.last() == b.last());
        assert(dot_count(t) == dot_count(t.drop_last()) + if t.last() == '.' {
            1nat
        } else {
            0nat
        });
    }
}

impl Dec {
    /// Reads a decimal from text; anything but a plain signed numeral, or
    /// a numeral too long for the mantissa, counts as zero.
    pub fn parse(s: &str) -> (r: Dec)
        ensures
            r@ == parse_dec(s@),
            -(i128::MAX as int) <= r@.mant <= i128::MAX as int,
    {
        let n = s.unicode_len();
        let neg = n > 0 && s.get_char(0) == '-';
        let start: usize = if neg {
            1
        } else {
            0
        };
        let ghost body = s@.subrange(start as int, n as int);
        let mut i = start;
        let mut acc: u128 = 0;
        let mut overflow = false;
        let mut saw_dot = false;
        let mut saw_digit = false;
        let mut frac: usize = 0;
        let mut bad = false;
        proof {
            assert(s@.subrange(start as int, start as int) =~= Seq::<char>::empty());
        }
        while i < n
            invariant
                start <= i <= n,
                n == s@.len(),
                frac <= i,
                body == s@.subrange(start as int, n as int),
                !bad <==> {
                    let p = s@.subrange(start as int, i as int);
                    (forall|j: int| 0 <= j < p.len() ==> is_digit(p[j]) || p[j] == '.')
                        && dot_count(p) <= 1
                },
                !bad ==> saw_dot == (dot_count(s@.subrange(start as int, i as int)) == 1),
                saw_digit == exists|j: int|
                    0 <= j < i - start && is_digit(
                        #[trigger] s@.subrange(start as int, i as int)[j],
                    ),
                !bad && !overflow ==> acc == mag_of(s@.subrange(start as int, i as int)),
                !bad && overflow ==> mag_of(s@.subrange(start as int, i as int)) > i128::MAX,
                !bad ==> frac == frac_len(s@.subrange(start as int, i as int)),
            decreases n - i,
        {
            let c = s.get_char(i);
            let ghost p = s@.subrange(start as int, i as int);
            let ghost p2 = s@.subrange(start as int, i + 1 as int);
            proof {
                assert(p2 =~= p.push(c));
                lemma_mag_push(p, c);
                lemma_frac_len_push(p, c);
                if !bad {
                    lemma_mag_nonneg(p);
                    if dot_count(p) == 0 {
                        lemma_no_dot_frac(p);
                    }
                }
            }
            let u = c as u32;
            if u >= 48 && u <= 57 {
                saw_digit = true;
                if saw_dot {
                    frac = frac + 1;
                }
                if !overflow {
                    let more = match acc.checked_mul(10) {
                        Some(t) => t.checked_add((u - 48) as u128),
                        None => None,
                    };
                    match more {
                        Some(t) => {
                            acc = t;
                        },
                        None => {
                            overflow = true;
                        },
                    }
                }
            } else if c == '.' {
                if saw_dot {
                    bad = true;
                } else {
                    saw_dot = true;
                }
            } else {
                bad = true;
            }
            i = i + 1;
        }
        proof {
            assert(s@.subrange(start as int, n as int) == body);
            assert(body_of(s@) == body) by {
                if is_neg_str(s@) {
                } else {
                    assert(s@.subrange(0, n as int) =~= s@);
                }
            }
        }
        if bad || !saw_digit {
            proof {
                assert(!valid_body(body));
            }
            return Dec::zero();
        }
        if overflow {
            return Dec::zero();
        }
        if acc > (i128::MAX as u128) {
            return Dec::zero();
        }
        proof {
            assert(valid_body(body));
            lemma_mag_nonneg(body);
            assert(signed_mag(is_neg_str(s@), mag_of(body) as nat) == signed_mag(neg, acc as nat));
        }
        norm_from_parts(neg, acc, frac)
    }
}

pub open spec fn dig_char(d: int) -> char {
    if d == 0 {
        '0'
    } else if d == 1 {
        '1'
    } else if d == 2 {
        '2'
    } else if d == 3 {
        '3'
    } else if d == 4 {
        '4'
    } else if d == 5 {
        '5'
    } else if d == 6 {
        '6'
    } else if d == 7 {
        '7'
    } else if d == 8 {
        '8'
    } else {
        '9'
    }
}

/// Decimal digits of a non-negative integer, most significant first.
pub open spec fn digits_of(n: int) -> Seq<char>
    decreases n,
{
    if n <= 9 {
        seq![dig_char(n)]
    } else {
        digits_of(n / 10).push(dig_char(n % 10))
    }
}

pub open spec fn zeros(n: nat) -> Seq<char>
    decreases n,
{
    if n == 0 {
        Seq::empty()
    } else {
        zeros((n - 1) as nat).push('0')
    }
}

/// Canonical text of a decimal: plain digits, a point only before a nonzero
/// fraction, a leading zero before a bare fraction, a minus sign in front of
/// a negative value.
pub open spec fn render(d: DecG) -> Seq<char> {
    if d.mant == 0 {
        seq!['0']
    } else {
        let mag = if d.mant < 0 {
            -d.mant
        } else {
            d.mant
        };
        let ds = digits_of(mag);
        let body = if d.scale == 0 {
            ds
        } else if ds.len() > d.scale {
            ds.subrange(0, ds.len() - d.scale) + seq!['.'] + ds.subrange(
                ds.len() - d.scale,
                ds.len() as int,
            )
        } else {
            seq!['0', '.'] + zeros((d.scale - ds.len()) as nat) + ds
        };
        if d.mant < 0 {
            seq!['-'] + body
        } else {
            body
        }
    }
}

fn dig_char_exec(d: u128) -> (r: char)
    ensures
        r == dig_char(d as int),
{
    if d == 0 {
        '0'
    } else if d == 1 {
        '1'
    } else if d == 2 {
        '2'
    } else if d == 3 {
        '3'
    } else if d == 4 {
        '4'
    } else if d == 5 {
        '5'
    } else if d == 6 {
        '6'
    } else if d == 7 {
        '7'
    } else if d == 8 {
        '8'
    } else {
        '9'
    }
}

fn push_digits(n: u128, out: &mut Vec<char>)
    ensures
        final(out)@ == old(out)@ + digits_of(n as int),
    decreases n,
{
    if n <= 9 {
        let c = dig_char_exec(n);
        out.push(c);
        proof {
            assert(final(out)@ =~= old(out)@ + digits_of(n as int));
        }
    } else {
        push_digits(n / 10, out);
        let c = dig_char_exec(n % 10);
        out.push(c);
        proof {
            assert(final(out)@ =~= old(out)@ + digits_of(n as int));
        }
    }
}

/// Relies on String::push: appends exactly the one character.
#[verifier::external_body]
pub(crate) fn push_char(s: &mut String, c: char)
    ensures
        final(s)@ == old(s)@.push(c),
{
    s.push(c);
}

/// Copies a character buffer into a fresh string.
fn chars_to_string(v: &Vec<char>) -> (s: String)
    ensures
        s@ == v@,
{
    let mut s = String::new();
    let mut i: usize = 0;
    while i < v.len()
        invariant
            i <= v.len(),
            s@ == v@.subrange(0, i as int),
        decreases v.len() - i,
    {
        push_char(&mut s, v[i]);
        proof {
            assert(v@.subrange(0, i as int).push(v@[i as int]) =~= v@.subrange(0, i + 1 as int));
        }
        i = i + 1;
    }
    proof {
        assert(v@.subrange(0, v@.len() as int) =~= v@);
    }
    s
}

impl Dec {
    /// Writes the canonical text of this decimal.
    pub fn render(&self) -> (s: String)
        ensures
            s@ == render(self@),
    {
        if self.mant == 0 {
            let mut v: Vec<char> = Vec::new();
            v.push('0');
            proof {
                assert(v@ =~= seq!['0']);
            }
            return chars_to_string(&v);
        }
        let neg = self.mant < 0;
        let mag: u128 = if self.mant < 0 {
            ((-(self.mant + 1)) as u128) + 1
        } else {
            self.mant as u128
        };
        let mut ds: Vec<char> = Vec::new();
        push_digits(mag, &mut ds);
        proof {
            assert(ds@ =~= digits_of(mag as int));
        }
        let mut v: Vec<char> = Vec::new();
        if neg {
            v.push('-');
        }
        let ghost head = v@;
        if self.scale == 0 {
            let mut j: usize = 0;
            while j < ds.len()
                invariant
                    j <= ds.len(),
                    v@ == head + ds@.subrange(0, j as int),
                decreases ds.len() - j,
            {
                v.push(ds[j]);
                proof {
                    assert(head + ds@.subrange(0, j + 1 as int) =~= (head + ds@.subrange(
                        0,
                        j as int,
                    )).push(ds@[j as int]));
                }
                j = j + 1;
            }
            proof {
                assert(ds@.subrange(0, ds@.len() as int) =~= ds@);
                assert(v@ =~= render(self@));
            }
        } else if ds.len() > self.scale {
            let cut = ds.len() - self.scale;
            let mut j: usize = 0;
            while j < ds.len()
                invariant
                    j <= ds.len(),
                    cut == ds@.len() - self@.scale,
                    0 < cut <= ds.len(),
                    v@ == if j <= cut {
                        head + ds@.subrange(0, j as int)
                    } else {
                        head + ds@.subrange(0, cut as int) + seq!['.'] + ds@.subrange(
                            cut as int,
                            j as int,
                        )
                    },
                decreases ds.len() - j,
            {
                if j == cut {
                    v.push('.');
                    proof {
                        assert(head + ds@.subrange(0, cut as int) + seq!['.'] + ds@.subrange(
                            cut as int,
                            cut as int,
                        ) =~= (head + ds@.subrange(0, cut as int)).push('.'));
                    }
                }
                v.push(ds[j]);
                proof {
                    if j < cut {
                        assert(head + ds@.subrange(0, j + 1 as int) =~= (head + ds@.subrange(
                            0,
                            j as int,
                        )).push(ds@[j as int]));
                    } else {
                        assert(head + ds@.subrange(0, cut as int) + seq!['.'] + ds@.subrange(
                            cut as int,
                            j + 1 as int,
                        ) =~= (head + ds@.subrange(0, cut as int) + seq!['.'] + ds@.subrange(
                            cut as int,
                            j as int,
                        )).push(ds@[j as int]));
                    }
                }
                j = j + 1;
            }
            proof {
                assert(ds@.subrange(cut as int, ds@.len() as int) =~= ds@.subrange(
                    cut as int,
                    ds@.len() as int,
                ));
                assert(v@ =~= render(self@));
            }
        } else {
            v.push('0');
            v.push('.');
            let pad = self.scale - ds.len();
            let ghost head2 = head + seq!['0', '.'];
            proof {
                assert(v@ =~= head2);
                assert(head2 + zeros(0) =~= head2);
            }
            let mut k: usize = 0;
            while k < pad
                invariant
                    k <= pad,
                    v@ == head2 + zeros(k as nat),
                decreases pad - k,
            {
                v.push('0');
                k = k + 1;
            }
            let mut j: usize = 0;
            let ghost head3 = head2 + zeros(pad as nat);
            while j < ds.len()
                invariant
                    j <= ds.len(),
                    v@ == head3 + ds@.subrange(0, j as int),
                decreases ds.len() - j,
            {
                v.push(ds[j]);
                proof {
                    assert(head3 + ds@.subrange(0, j + 1 as int) =~= (head3 + ds@.subrange(
                        0,
                        j as int,
                    )).push(ds@[j as int]));
                }
                j = j + 1;
            }
            proof {
                assert(ds@.subrange(0, ds@.len() as int) =~= ds@);
                assert(v@ =~= render(self@));
            }
        }
        chars_to_string(&v)
    }
}

/// Normalizing never grows the mantissa's magnitude.
pub proof fn lemma_norm_bound(d: DecG)
    requires
        -(i128::MAX as int) <= d.mant <= i128::MAX as int,
    ensures
        -(i128::MAX as int) <= norm(d).mant <= i128::MAX as int,
    decreases d.scale,
{
    if d.mant == 0 {
    } else if d.scale > 0 && d.mant % 10 == 0 {
        let m = d.mant;
        let k = m / 10;
        assert(m == 10 * (m / 10) + m % 10) by (nonlinear_arith);
        assert(-(i128::MAX as int) <= k <= i128::MAX as int) by (nonlinear_arith)
            requires
                m == 10 * k,
                -(i128::MAX as int) <= m <= i128::MAX as int,
        ;
        lemma_norm_bound(DecG { mant: k, scale: (d.scale - 1) as nat });
    }
}

/// A parsed decimal is in normal form and its mantissa fits.
pub proof fn lemma_parse_dec_norm(s: Seq<char>)
    ensures
        is_norm(parse_dec(s)),
        -(i128::MAX as int) <= parse_dec(s).mant <= i128::MAX as int,
{
    let b = body_of(s);
    if valid_body(b) && mag_of(b) <= i128::MAX {
        lemma_mag_nonneg(b);
        let d0 = DecG { mant: signed_mag(is_neg_str(s), mag_of(b) as nat), scale: frac_len(b) };
        lemma_norm_is_norm(d0);
        lemma_norm_bound(d0);
    }
}

proof fn lemma_single_char(c: char)
    ensures
        mag_of(seq![c]) == if c == '.' {
            0int
        } else {
            digit_val(c)
        },
        dot_count(seq![c]) == if c == '.' {
            1nat
        } else {
            0nat
        },
        frac_len(seq![c]) == 0,
{
    let s = seq![c];
    assert(s.drop_last() =~= Seq::<char>::empty());
    assert(mag_of(Seq::<char>::empty()) == 0);
    assert(dot_count(Seq::<char>::empty()) == 0);
    assert(mag_of(s) == if c == '.' {
        0int
    } else {
        10 * 0 + digit_val(c)
    });
    if c != '.' {
        assert(s.subrange(1, 1) =~= Seq::<char>::empty());
        assert(frac_len(Seq::<char>::empty()) == 0);
    }
}

/// Digits alone hold no dot.
proof fn lemma_digits_no_dot(b: Seq<char>)
    requires
        forall|i: int| 0 <= i < b.len() ==> is_digit(#[trigger] b[i]),
    ensures
        dot_count(b) == 0,
    decreases b.len(),
{
    if b.len() > 0 {
        let b0 = b.drop_last();
        assert(forall|i: int| 0 <= i < b0.len() ==> b0[i] == b[i]);
        lemma_digits_no_dot(b0);
        assert(is_digit(b.last()));
    }
}

proof fn lemma_dig_char(v: int)
    requires
        0 <= v <= 9,
    ensures
        is_digit(dig_char(v)),
        digit_val(dig_char(v)) == v,
        dig_char(v) != '.',
        v >= 1 ==> dig_char(v) != '0',
{
}

/// The digits of a non-negative integer: at least one of them, digits only,
/// no dot, no leading zero past a one-digit number, and they spell `n`.
pub proof fn lemma_digits_of_props(n: int)
    requires
        n >= 0,
    ensures
        digits_of(n).len() >= 1,
        forall|i: int| 0 <= i < digits_of(n).len() ==> is_digit(#[trigger] digits_of(n)[i]),
        dot_count(digits_of(n)) == 0,
        mag_of(digits_of(n)) == n,
        n >= 1 ==> digits_of(n)[0] != '0',
    decreases n,
{
    if n <= 9 {
        lemma_dig_char(n);
        lemma_single_char(dig_char(n));
    } else {
        let q = n / 10;
        let r = n % 10;
        vstd::arithmetic::div_mod::lemma_fundamental_div_mod(n, 10);
        vstd::arithmetic::div_mod::lemma_mod_bound(n, 10);
        assert(n == 10 * q + r && 0 <= r <= 9 && 1 <= q < n);
        lemma_digits_of_props(q);
        lemma_dig_char(r);
        let pre = digits_of(q);
        let ds = pre.push(dig_char(r));
        lemma_mag_push(pre, dig_char(r));
        assert(ds[0] == pre[0]);
        assert(forall|i: int| 0 <= i < ds.len() ==> is_digit(#[trigger] ds[i])) by {
            assert(forall|i: int| 0 <= i < pre.len() ==> ds[i] == pre[i]);
        }
    }
}

/// Appending digits multiplies the spelled value by the right power of ten.
pub proof fn lemma_mag_append(a: Seq<char>, b: Seq<char>)
    requires
        forall|i: int| 0 <= i < b.len() ==> is_digit(#[trigger] b[i]),
    ensures
        mag_of(a + b) == mag_of(a) * pow10(b.len()) + mag_of(b),
        dot_count(a + b) == dot_count(a) + dot_count(b),
    decreases b.len(),
{
    if b.len() == 0 {
        assert(a + b =~= a);
        assert(mag_of(a) * 1 == mag_of(a)) by (nonlinear_arith);
    } else {
        let b0 = b.drop_last();
        let c = b.last();
        assert(forall|i: int| 0 <= i < b0.len() ==> is_digit(#[trigger] b0[i])) by {
            assert(forall|i: int| 0 <= i < b0.len() ==> b0[i] == b[i]);
        }
        lemma_mag_append(a, b0);
        assert(a + b =~= (a + b0).push(c));
        lemma_mag_push(a + b0, c);
        assert(is_digit(b[b.len() - 1]));
        assert(c != '.');
        let p0 = pow10(b0.len());
        assert(10 * (mag_of(a) * p0 + mag_of(b0)) + digit_val(c) == mag_of(a) * (10 * p0) + (10
            * mag_of(b0) + digit_val(c))) by (nonlinear_arith);
        assert(pow10(b.len()) == 10 * p0);
        assert(mag_of(b) == 10 * mag_of(b0) + digit_val(c)) by {
            lemma_mag_push(b0, c);
            assert(b =~= b0.push(c));
        }
    }
}

/// What follows the only dot is exactly the fraction.
proof fn lemma_frac_len_split(x: Seq<char>, y: Seq<char>)
    requires
        dot_count(x) == 0,
    ensures
        frac_len(x + seq!['.'] + y) == y.len(),
    decreases x.len(),
{
    let w = x + seq!['.'] + y;
    if x.len() == 0 {
        assert(w[0] == '.');
        assert(w.len() == y.len() + 1);
    } else {
        assert(x[0] != '.') by {
            if x[0] == '.' {
                lemma_dot_count_has_dot(x, 0);
            }
        }
        assert(w[0] == x[0]);
        let xt = x.subrange(1, x.len() as int);
        lemma_dot_count_tail(x);
        lemma_frac_len_split(xt, y);
        assert(w.subrange(1, w.len() as int) =~= xt + seq!['.'] + y);
    }
}

proof fn lemma_zeros_props(k: nat)
    ensures
        zeros(k).len() == k,
        forall|i: int| 0 <= i < k ==> #[trigger] zeros(k)[i] == '0',
        dot_count(zeros(k)) == 0,
        mag_of(zeros(k)) == 0,
    decreases k,
{
    if k > 0 {
        lemma_zeros_props((k - 1) as nat);
        lemma_mag_push(zeros((k - 1) as nat), '0');
        assert(forall|i: int|
            0 <= i < k - 1 ==> #[trigger] zeros(k)[i] == zeros((k - 1) as nat)[i]);
    }
}

/// Two decimals name the same value when their mantissas agree after
/// cross-scaling.
pub open spec fn same_value(x: DecG, y: DecG) -> bool {
    x.mant * pow10(y.scale) == y.mant * pow10(x.scale)
}

/// Normalizing keeps the value: the normal form names the same number.
pub proof fn lemma_norm_same_value(d: DecG)
    ensures
        same_value(norm(d), d),
    decreases d.scale,
{
    if d.mant == 0 {
        assert(0 * pow10(d.scale) == 0) by (nonlinear_arith);
    } else if d.scale > 0 && d.mant % 10 == 0 {
        let m = d.mant;
        let q = m / 10;
        let d1 = DecG { mant: q, scale: (d.scale - 1) as nat };
        assert(m == 10 * q) by {
            vstd::arithmetic::div_mod::lemma_fundamental_div_mod(m, 10);
        }
        lemma_norm_same_value(d1);
        let n = norm(d);
        assert(norm(d1) == n);
        assert(pow10(d.scale) == 10 * pow10(d1.scale));
        assert(n.mant * pow10(d.scale) == m * pow10(n.scale)) by (nonlinear_arith)
            requires
                n.mant * pow10(d1.scale) == q * pow10(n.scale),
                pow10(d.scale) == 10 * pow10(d1.scale),
                m == 10 * q,
        ;
    }
}

/// Every sum is in normal form with a fitting mantissa.
pub proof fn lemma_e_add_norm(a: DecG, b: DecG)
    ensures
        is_norm(e_add(a, b)),
        -(i128::MAX as int) <= e_add(a, b).mant <= i128::MAX as int,
{
    let s: nat = if a.scale >= b.scale {
        a.scale
    } else {
        b.scale
    };
    let ma = a.mant * pow10((s - a.scale) as nat);
    let mb = b.mant * pow10((s - b.scale) as nat);
    let d0 = DecG { mant: ma + mb, scale: s };
    lemma_norm_is_norm(d0);
    if -(i128::MAX as int) <= d0.mant <= i128::MAX as int {
        lemma_norm_bound(d0);
    }
}

/// Every difference is in normal form with a fitting mantissa.
pub proof fn lemma_e_sub_norm(a: DecG, b: DecG)
    ensures
        is_norm(e_sub(a, b)),
        -(i128::MAX as int) <= e_sub(a, b).mant <= i128::MAX as int,
{
    let s: nat = if a.scale >= b.scale {
        a.scale
    } else {
        b.scale
    };
    let ma = a.mant * pow10((s - a.scale) as nat);
    let mb = b.mant * pow10((s - b.scale) as nat);
    let d0 = DecG { mant: ma - mb, scale: s };
    lemma_norm_is_norm(d0);
    if -(i128::MAX as int) <= d0.mant <= i128::MAX as int {
        lemma_norm_bound(d0);
    }
}

/// Every product is in normal form with a fitting mantissa.
pub proof fn lemma_e_mul_norm(a: DecG, b: DecG)
    ensures
        is_norm(e_mul(a, b)),
        -(i128::MAX as int) <= e_mul(a, b).mant <= i128::MAX as int,
{
    let d0 = DecG { mant: a.mant * b.mant, scale: a.scale + b.scale };
    lemma_norm_is_norm(d0);
    if -(i128::MAX as int) <= d0.mant <= i128::MAX as int {
        lemma_norm_bound(d0);
    }
}

/// Every quotient is in normal form with a fitting mantissa.
pub proof fn lemma_e_div_norm(a: DecG, b: DecG)
    ensures
        is_norm(e_div(a, b)),
        -(i128::MAX as int) <= e_div(a, b).mant <= i128::MAX as int,
{
    if b.mant != 0 && b.scale + DIV_SCALE <= usize::MAX {
        let n = a.mant * pow10(b.scale + DIV_SCALE as nat);
        let d = b.mant * pow10(a.scale);
        let d0 = DecG { mant: tdiv(n, d), scale: DIV_SCALE as nat };
        lemma_norm_is_norm(d0);
        if -(i128::MAX as int) <= d0.mant <= i128::MAX as int {
            lemma_norm_bound(d0);
        }
    }
}

/// The canonical text of a normal-form decimal reads back as that decimal.
pub proof fn lemma_parse_render(d: DecG)
    requires
        is_norm(d),
        -(i128::MAX as int) <= d.mant <= i128::MAX as int,
    ensures
        parse_dec(render(d)) == d,
{
    let w = render(d);
    if d.mant == 0 {
        assert(w =~= seq!['0']);
        assert(!is_neg_str(w));
        let b = body_of(w);
        assert(b == seq!['0']);
        lemma_single_char('0');
        assert(is_digit(b[0]) && digit_val(b[0]) == 0);
        assert(valid_body(b)) by {
            assert(forall|i: int| 0 <= i < b.len() ==> b[i] == '0');
        }
        assert(mag_of(b) == 0);
        assert(frac_len(b) == 0);
        assert(parse_dec(w) == norm(DecG { mant: 0, scale: 0 }));
        assert(d == dec_zero());
    } else {
        let mag = if d.mant < 0 {
            -d.mant
        } else {
            d.mant
        };
        let ds = digits_of(mag);
        lemma_digits_of_props(mag);
        let body = if d.scale == 0 {
            ds
        } else if ds.len() > d.scale {
            ds.subrange(0, ds.len() - d.scale) + seq!['.'] + ds.subrange(
                ds.len() - d.scale,
                ds.len() as int,
            )
        } else {
            seq!['0', '.'] + zeros((d.scale - ds.len()) as nat) + ds
        };
        assert(body.len() > 0 && body_of(w) == body && is_neg_str(w) == (d.mant < 0)) by {
            if d.mant < 0 {
                assert(w == seq!['-'] + body);
                assert(w[0] == '-');
                assert(w.subrange(1, w.len() as int) =~= body);
                assert(body[0] == if d.scale == 0 || ds.len() > d.scale {
                    ds[0]
                } else {
                    '0'
                });
            } else {
                assert(w == body);
                assert(body[0] == if d.scale == 0 || ds.len() > d.scale {
                    ds[0]
                } else {
                    '0'
                });
                assert(body[0] != '-');
            }
        }
        assert(valid_body(body) && mag_of(body) == mag && frac_len(body) == d.scale) by {
            lemma_render_body(d, mag, ds, body);
        }
        lemma_mag_nonneg(body);
        assert(signed_mag(is_neg_str(w), mag_of(body) as nat) == d.mant);
        assert(parse_dec(w) == norm(d));
        lemma_norm_of_norm(d);
    }
}

/// Shape of the rendered body: a valid numeral spelling the magnitude with
/// the fraction length of the scale.
proof fn lemma_render_body(d: DecG, mag: int, ds: Seq<char>, body: Seq<char>)
    requires
        is_norm(d),
        d.mant != 0,
        mag == if d.mant < 0 {
            -d.mant
        } else {
            d.mant
        },
        ds == digits_of(mag),
        body == if d.scale == 0 {
            ds
        } else if ds.len() > d.scale {
            ds.subrange(0, ds.len() - d.scale) + seq!['.'] + ds.subrange(
                ds.len() - d.scale,
                ds.len() as int,
            )
        } else {
            seq!['0', '.'] + zeros((d.scale - ds.len()) as nat) + ds
        },
    ensures
        valid_body(body),
        mag_of(body) == mag,
        frac_len(body) == d.scale,
{
    lemma_digits_of_props(mag);
    if d.scale == 0 {
        lemma_no_dot_frac(ds);
        assert(is_digit(body[0]));
    } else if ds.len() > d.scale {
        let cut = ds.len() - d.scale;
        let x = ds.subrange(0, cut as int);
        let y = ds.subrange(cut as int, ds.len() as int);
        assert(forall|i: int| 0 <= i < x.len() ==> is_digit(#[trigger] x[i])) by {
            assert(forall|i: int| 0 <= i < x.len() ==> x[i] == ds[i]);
        }
        assert(forall|i: int| 0 <= i < y.len() ==> is_digit(#[trigger] y[i])) by {
            assert(forall|i: int| 0 <= i < y.len() ==> y[i] == ds[i + cut]);
        }
        assert(dot_count(x) == 0 && mag_of(x) >= 0) by {
            lemma_digits_no_dot(x);
            lemma_mag_nonneg(x);
        }
        let xd = x + seq!['.'];
        assert(xd =~= x.push('.'));
        lemma_mag_push(x, '.');
        lemma_mag_append(xd, y);
        assert(body =~= xd + y);
        lemma_mag_append(x, y);
        assert(ds =~= x + y);
        assert(mag_of(body) == mag_of(x) * pow10(y.len()) + mag_of(y));
        assert(mag_of(ds) == mag_of(x) * pow10(y.len()) + mag_of(y));
        lemma_frac_len_split(x, y);
        assert(forall|i: int| 0 <= i < body.len() ==> is_digit(#[trigger] body[i]) || body[i] == '.')
            by {
            assert(forall|i: int| 0 <= i < cut ==> body[i] == x[i]);
            assert(body[cut as int] == '.');
            assert(forall|i: int| cut < i < body.len() ==> body[i] == y[i - cut - 1]);
        }
        assert(is_digit(body[0]));
        assert(dot_count(body) == 1);
    } else {
        let k = (d.scale - ds.len()) as nat;
        lemma_zeros_props(k);
        let zs = zeros(k);
        let x0 = seq!['0'];
        let x0d = seq!['0', '.'];
        lemma_single_char('0');
        assert(mag_of(x0) == 0 && dot_count(x0) == 0 && is_digit(x0[0]));
        assert(x0d =~= x0.push('.'));
        lemma_mag_push(x0, '.');
        assert(mag_of(x0d) == 0 && dot_count(x0d) == 1);
        lemma_mag_append(x0d, zs);
        assert(mag_of(x0d + zs) == 0 * pow10(k) + 0) by (nonlinear_arith)
            requires
                mag_of(x0d + zs) == mag_of(x0d) * pow10(k) + mag_of(zs),
                mag_of(x0d) == 0,
                mag_of(zs) == 0,
        ;
        lemma_mag_append(x0d + zs, ds);
        assert(body =~= (x0d + zs) + ds);
        assert(mag_of(body) == 0 * pow10(ds.len()) + mag_of(ds)) by (nonlinear_arith)
            requires
                mag_of(body) == mag_of(x0d + zs) * pow10(ds.len()) + mag_of(ds),
                mag_of(x0d + zs) == 0,
        ;
        assert(frac_len(body) == d.scale) by {
            lemma_frac_len_split(x0, zs + ds);
            assert(body =~= x0 + seq!['.'] + (zs + ds));
        }
        assert(forall|i: int| 0 <= i < body.len() ==> is_digit(#[trigger] body[i]) || body[i] == '.')
            by {
            assert(body[0] == '0' && body[1] == '.');
            assert(forall|i: int| 2 <= i < 2 + k ==> body[i] == zs[i - 2]);
            assert(forall|i: int| 2 + k <= i < body.len() ==> body[i] == ds[i - 2 - k]);
        }
        assert(is_digit(body[0]));
        assert(dot_count(body) == dot_count(x0d + zs) + dot_count(ds)) by {
            lemma_mag_append(x0d + zs, ds);
        }
        assert(dot_count(x0d + zs) == 1) by {
            lemma_mag_append(x0d, zs);
        }
    }
}

} // verus!
