use vstd::prelude::*;
use vstd::string::*;
use vstd::arithmetic::div_mod::{
    lemma_basic_div, lemma_div_by_multiple, lemma_div_denominator, lemma_div_is_ordered,
    lemma_div_multiples_vanish_fancy, lemma_div_pos_is_pos,
};

verus! {

/// A parsed command line. Numbers are fixed-point thousandths
/// (`50_000` stands for `50`, `2_000_100` for `2000.1`).
#[derive(Clone, Copy, Debug, PartialEq, Eq, Structural)]
pub enum Gcode {
    /// `G1 P<pan> T<tilt>`: turn each axis by the given degrees.
    G1Move(Option<i32>, Option<i32>),
    /// `G28`: home both axes.
    G28Home,
    /// `G90`: absolute coordinates.
    G90SetAbsolute,
    /// `G91`: relative coordinates.
    G91SetRelative,
    /// `M1 P<pan> T<tilt>`: set each axis velocity in degrees per second.
    M1SetVelocity(Option<i32>, Option<i32>),
}

/// One token of a line: an optional key letter and its value.
pub type Part = (Option<char>, i32);

// ---------------------------------------------------------------- whitespace

/// The characters with the Unicode `White_Space` property.
pub open spec fn is_space(c: char) -> bool {
    ||| ('\u{9}' <= c && c <= '\u{d}')
    ||| c == ' '
    ||| c == '\u{85}'
    ||| c == '\u{a0}'
    ||| c == '\u{1680}'
    ||| ('\u{2000}' <= c && c <= '\u{200a}')
    ||| c == '\u{2028}'
    ||| c == '\u{2029}'
    ||| c == '\u{202f}'
    ||| c == '\u{205f}'
    ||| c == '\u{3000}'
}

fn exec_is_space(c: char) -> (r: bool)
    ensures
        r == is_space(c),
{
    ('\u{9}' <= c && c <= '\u{d}') || c == ' ' || c == '\u{85}' || c == '\u{a0}' || c
        == '\u{1680}' || ('\u{2000}' <= c && c <= '\u{200a}') || c == '\u{2028}' || c
        == '\u{2029}' || c == '\u{202f}' || c == '\u{205f}' || c == '\u{3000}'
}

/// Splitting read left to right: the finished tokens and the token being read.
pub open spec fn split_state(s: Seq<char>) -> (Seq<Seq<char>>, Seq<char>)
    decreases s.len(),
{
    if s.len() == 0 {
        (Seq::empty(), Seq::empty())
    } else {
        let (ts, cur) = split_state(s.drop_last());
        if is_space(s.last()) {
            if cur.len() > 0 {
                (ts.push(cur), Seq::empty())
            } else {
                (ts, Seq::empty())
            }
        } else {
            (ts, cur.push(s.last()))
        }
    }
}

/// The maximal runs of non-whitespace characters of `s`, in order.
pub open spec fn split_ws(s: Seq<char>) -> Seq<Seq<char>> {
    let (ts, cur) = split_state(s);
    if cur.len() > 0 {
        ts.push(cur)
    } else {
        ts
    }
}

// ---------------------------------------------------------------- numbers

pub open spec fn is_digit(c: char) -> bool {
    '0' <= c && c <= '9'
}

pub open spec fn digit_value(c: char) -> int {
    c as int - '0' as int
}

/// The number that a run of decimal digits spells.
pub open spec fn digits_value(s: Seq<char>) -> int
    decreases s.len(),
{
    if s.len() == 0 {
        0
    } else {
        digits_value(s.drop_last()) * 10 + digit_value(s.last())
    }
}

/// End of the run of digits of `s` that starts at `i`.
pub open spec fn digits_end(s: Seq<char>, i: int) -> int
    decreases s.len() - i,
{
    if 0 <= i < s.len() && is_digit(s[i]) {
        digits_end(s, i + 1)
    } else {
        i
    }
}

/// 1 when a sign stands at `i`.
pub open spec fn sign_len(s: Seq<char>, i: int) -> int {
    if 0 <= i < s.len() && (s[i] == '-' || s[i] == '+') {
        1
    } else {
        0
    }
}

/// `m * 10^e`, rounded toward zero.
pub open spec fn scaled(m: nat, e: int) -> int {
    if e >= 0 {
        m as int * pow10(e as nat)
    } else {
        (m as int) / pow10((-e) as nat)
    }
}

/// A decimal `[+-] digits [. digits] [(e|E) [+-] digits]`, with at least one
/// digit before the exponent, in thousandths rounded toward zero, when its
/// magnitude fits an `i32`.
pub open spec fn decimal_milli(s: Seq<char>) -> Option<i32> {
    let i = sign_len(s, 0);
    let a = digits_end(s, i);
    let dot = a < s.len() && s[a] == '.';
    let b = if dot {
        digits_end(s, a + 1)
    } else {
        a
    };
    let frac_len = if dot {
        b - (a + 1)
    } else {
        0
    };
    let mant = if dot {
        s.subrange(i, a) + s.subrange(a + 1, b)
    } else {
        s.subrange(i, a)
    };
    let has_exp = b < s.len() && (s[b] == 'e' || s[b] == 'E');
    let c = b + 1 + sign_len(s, b + 1);
    let d = digits_end(s, c);
    let exp_mag = digits_value(s.subrange(c, d));
    let exp = if has_exp {
        if b + 1 < s.len() && s[b + 1] == '-' {
            -exp_mag
        } else {
            exp_mag
        }
    } else {
        0
    };
    let well_formed = mant.len() > 0 && if has_exp {
        d > c && d == s.len()
    } else {
        b == s.len()
    };
    let m = scaled(digits_value(mant) as nat, exp - frac_len + 3);
    if well_formed && m <= i32::MAX {
        Some(
            if i > 0 && s[0] == '-' {
                (-m) as i32
            } else {
                m as i32
            },
        )
    } else {
        None
    }
}

/// Digits kept exactly while reading a mantissa: up to 11.
const KEEP: u64 = 10_000_000_000;

/// Exponents beyond this are far out of range either way.
const EXP_CAP: u128 = 0x4_0000_0000_0000_0000;

pub open spec fn pow10(n: nat) -> int
    decreases n,
{
    if n == 0 {
        1
    } else {
        10 * pow10((n - 1) as nat)
    }
}

proof fn lemma_pow10_step(n: nat)
    ensures
        pow10(n + 1) == 10 * pow10(n),
        pow10(n) > 0,
{
    lemma_pow10_pos(n);
}

proof fn lemma_pow10_pos(n: nat)
    ensures
        pow10(n) >= 1,
    decreases n,
{
    if n > 0 {
        lemma_pow10_pos((n - 1) as nat);
    }
}

proof fn lemma_pow10_mono(a: nat, b: nat)
    requires
        a <= b,
    ensures
        pow10(a) <= pow10(b),
    decreases b,
{
    if a < b {
        lemma_pow10_mono(a, (b - 1) as nat);
        lemma_pow10_pos((b - 1) as nat);
        assert(pow10(b) == 10 * pow10((b - 1) as nat));
    }
}

proof fn lemma_pow10_adds(a: nat, b: nat)
    ensures
        pow10(a + b) == pow10(a) * pow10(b),
    decreases a,
{
    if a > 0 {
        lemma_pow10_adds((a - 1) as nat, b);
        assert(pow10(a + b) == 10 * pow10((a - 1 + b) as nat));
        assert(10 * (pow10((a - 1) as nat) * pow10(b)) == (10 * pow10((a - 1) as nat)) * pow10(b))
            by (nonlinear_arith);
    }
}

proof fn lemma_pow10_11()
    ensures
        pow10(11) == 100_000_000_000,
        pow10(10) == 10_000_000_000,
{
    reveal_with_fuel(pow10, 12);
}

/// Reading one more digit `dg` of a mantissa whose value so far is
/// `acc * 10^dropped + rest`.
proof fn lemma_push_digit(acc: nat, dropped: nat, rest: nat, m: int, dg: nat)
    requires
        m == acc * pow10(dropped) + rest,
        rest < pow10(dropped),
        dropped > 0 ==> acc >= KEEP,
        dg < 10,
    ensures
        acc < KEEP ==> dropped == 0 && m * 10 + dg == (acc * 10 + dg) * pow10(dropped) + rest,
        acc >= KEEP ==> m * 10 + dg == acc * pow10(dropped + 1) + (rest * 10 + dg) && rest * 10
            + dg < pow10(dropped + 1),
{
    lemma_pow10_step(dropped);
    let p = pow10(dropped);
    if acc < KEEP {
        assert(p == 1);
    } else {
        assert(m * 10 + dg == acc * (10 * p) + (rest * 10 + dg)) by (nonlinear_arith)
            requires
                m == acc * p + rest,
        ;
        assert(rest * 10 + dg < 10 * p) by (nonlinear_arith)
            requires
                rest < p,
                dg < 10,
        ;
    }
}

proof fn lemma_scaled_nonneg(m: nat, e: int)
    ensures
        scaled(m, e) >= 0,
{
    if e >= 0 {
        lemma_pow10_pos(e as nat);
        let p = pow10(e as nat);
        assert(m * p >= 0) by (nonlinear_arith)
            requires
                p >= 1,
        ;
    } else {
        lemma_pow10_pos((-e) as nat);
        lemma_div_pos_is_pos(m as int, pow10((-e) as nat));
    }
}

/// `m * 10^e` rounded toward zero, when it fits an `i32`, for
/// `m == acc * 10^dropped + rest`. `e` stands for `e_real`: equal, or both far
/// beyond the range on the same side.
fn scale(
    acc: u64,
    dropped: u64,
    e: i128,
    Ghost(m): Ghost<nat>,
    Ghost(rest): Ghost<nat>,
    Ghost(e_real): Ghost<int>,
) -> (r: Option<u32>)
    requires
        m == acc * pow10(dropped as nat) + rest,
        rest < pow10(dropped as nat),
        acc < 10 * KEEP,
        dropped > 0 ==> acc >= KEEP,
        dropped < 0x1_0000_0000_0000_0000,
        -0x100_0000_0000_0000_0000 < e < 0x100_0000_0000_0000_0000,
        e == e_real || (e > 20 && e_real > 20) || (e < -0x2_0000_0000_0000_0000 && e_real
            < -0x2_0000_0000_0000_0000),
    ensures
        r == (if scaled(m, e_real) <= i32::MAX {
            Some(scaled(m, e_real) as u32)
        } else {
            None::<u32>
        }),
        scaled(m, e_real) >= 0,
        r is Some ==> r->Some_0 <= i32::MAX,
{
    proof {
        lemma_scaled_nonneg(m, e_real);
    }
    proof {
        lemma_pow10_pos(dropped as nat);
        lemma_pow10_11();
    }
    if acc == 0 {
        assert(m == 0);
        assert(scaled(m, e_real) == 0) by {
            if e_real < 0 {
                let p = pow10((-e_real) as nat);
                lemma_pow10_pos((-e_real) as nat);
                lemma_basic_div(m as int, p);
                assert(scaled(m, e_real) == (m as int) / p);
            } else {
                let p = pow10(e_real as nat);
                assert(m as int * p == 0) by (nonlinear_arith)
                    requires
                        m == 0,
                ;
            }
        }
        return Some(0);
    }
    if e >= 0 {
        let ghost pe = pow10(e_real as nat);
        proof {
            lemma_pow10_pos(e_real as nat);
            assert(scaled(m, e_real) == m * pe);
            assert(m * pe >= m) by (nonlinear_arith)
                requires
                    pe >= 1,
            ;
        }
        if dropped > 0 {
            proof {
                lemma_pow10_mono(1, dropped as nat);
                reveal_with_fuel(pow10, 2);
                assert(acc * pow10(dropped as nat) >= acc * 10) by (nonlinear_arith)
                    requires
                        pow10(dropped as nat) >= 10,
                ;
            }
            return None;
        }
        assert(dropped == 0);
        assert(pow10(dropped as nat) == 1);
        assert(rest == 0);
        assert(m == acc * 1 + 0);
        if e > 10 {
            proof {
                lemma_pow10_mono(11, e_real as nat);
                assert(m * pe >= pe) by (nonlinear_arith)
                    requires
                        m >= 1,
                        pe >= 1,
                ;
            }
            return None;
        }
        assert(e == e_real);
        let mut v: u128 = acc as u128;
        let mut i: i128 = 0;
        proof {
            lemma_pow10_pos(0);
        }
        while i < e
            invariant
                0 <= i <= e <= 10,
                v == acc * pow10(i as nat),
                acc < 10 * KEEP,
            decreases e - i,
        {
            proof {
                lemma_pow10_step(i as nat);
                lemma_pow10_mono((i + 1) as nat, 10);
                lemma_pow10_pos((i + 1) as nat);
                lemma_pow10_11();
                let pi = pow10(i as nat);
                assert(acc * pow10((i + 1) as nat) == (acc * pi) * 10) by (nonlinear_arith)
                    requires
                        pow10((i + 1) as nat) == 10 * pi,
                ;
                assert(acc * pow10((i + 1) as nat) <= 10 * KEEP * pow10(10)) by (nonlinear_arith)
                    requires
                        acc < 10 * KEEP,
                        1 <= pow10((i + 1) as nat) <= pow10(10),
                ;
            }
            v = v * 10;
            i = i + 1;
        }
        if v > 2_147_483_647 {
            return None;
        }
        return Some(v as u32);
    }
    // e < 0: divide by 10^q
    let ghost q: nat = (-e_real) as nat;
    if (-e) as u128 >= dropped as u128 {
        let p: u128 = (-e) as u128 - dropped as u128;
        let ghost pr: nat = (q - dropped) as nat;
        proof {
            lemma_pow10_adds(dropped as nat, pr);
            lemma_pow10_pos(pr);
            let pd = pow10(dropped as nat);
            let pp = pow10(pr);
            assert(pow10(q) == pd * pp);
            lemma_div_multiples_vanish_fancy(acc as int, rest as int, pd);
            assert(pd * acc + rest == m) by (nonlinear_arith)
                requires
                    m == acc * pd + rest,
            ;
            lemma_div_denominator(m as int, pd, pp);
            assert(scaled(m, e_real) == (acc as int) / pp);
        }
        if p > 11 {
            proof {
                lemma_pow10_mono(11, pr);
                lemma_basic_div(acc as int, pow10(pr));
            }
            return Some(0);
        }
        assert(p == pr);
        let mut v: u64 = acc;
        let mut i: u128 = 0;
        assert(pow10(0) == 1);
        assert(acc as int / 1 == acc);
        while i < p
            invariant
                0 <= i <= p <= 11,
                v == (acc as int) / pow10(i as nat),
            decreases p - i,
        {
            proof {
                lemma_pow10_step(i as nat);
                lemma_div_denominator(acc as int, pow10(i as nat), 10);
            }
            v = v / 10;
            i = i + 1;
        }
        if v > 2_147_483_647 {
            return None;
        }
        return Some(v as u32);
    }
    // fewer places to drop than digits dropped: at least acc * 10
    proof {
        let k: nat = (dropped - q) as nat;
        lemma_pow10_adds(k, q);
        lemma_pow10_pos(q);
        lemma_pow10_mono(1, k);
        reveal_with_fuel(pow10, 2);
        let pk = pow10(k);
        let pq = pow10(q);
        assert(m >= (acc * pk) * pq) by (nonlinear_arith)
            requires
                m == acc * pow10(dropped as nat) + rest,
                pow10(dropped as nat) == pk * pq,
        ;
        lemma_div_is_ordered((acc * pk * pq) as int, m as int, pq);
        lemma_div_by_multiple((acc * pk) as int, pq);
        assert(acc * pk >= acc * 10) by (nonlinear_arith)
            requires
                pk >= 10,
        ;
    }
    None
}

/// The value of `u` as a decimal in thousandths.
#[verifier::rlimit(90)]
fn parse_number(u: &Vec<char>) -> (r: Option<i32>)
    ensures
        r == decimal_milli(u@),
{
    let ghost s = u@;
    let n = u.len();
    let mut i: usize = 0;
    let mut neg = false;
    if n > 0 && (u[0] == '-' || u[0] == '+') {
        neg = u[0] == '-';
        i = 1;
    }
    assert(i == sign_len(s, 0));
    // mantissa: acc * 10^dropped + rest
    let mut acc: u64 = 0;
    let mut dropped: u64 = 0;
    let ghost mut rest: nat = 0;
    let mut j = i;
    proof {
        reveal_with_fuel(pow10, 1);
        assert(s.subrange(i as int, j as int) =~= Seq::<char>::empty());
    }
    while j < n && '0' <= u[j] && u[j] <= '9'
        invariant
            i <= j <= n,
            n == u.len(),
            s == u@,
            digits_end(s, i as int) == digits_end(s, j as int),
            digits_value(s.subrange(i as int, j as int)) == acc * pow10(dropped as nat) + rest,
            rest < pow10(dropped as nat),
            dropped > 0 ==> acc >= KEEP,
            acc < 10 * KEEP,
            dropped <= j - i,
        decreases n - j,
    {
        let dg = u[j] as u64 - '0' as u64;
        proof {
            assert(s.subrange(i as int, j + 1).drop_last() =~= s.subrange(i as int, j as int));
            lemma_push_digit(
                acc as nat,
                dropped as nat,
                rest,
                digits_value(s.subrange(i as int, j as int)),
                dg as nat,
            );
        }
        if acc < KEEP {
            acc = acc * 10 + dg;
        } else {
            dropped = dropped + 1;
            proof {
                rest = rest * 10 + dg as nat;
            }
        }
        j = j + 1;
    }
    let a = j;
    assert(digits_end(s, i as int) == a);
    let ghost whole = s.subrange(i as int, a as int);
    let dot = a < n && u[a] == '.';
    let mut frac_len: usize = 0;
    if dot {
        j = a + 1;
        assert(s.subrange(a + 1, j as int) =~= Seq::<char>::empty());
        assert(whole + s.subrange(a + 1, j as int) =~= whole);
        while j < n && '0' <= u[j] && u[j] <= '9'
            invariant
                a + 1 <= j <= n,
                i <= a < n,
                n == u.len(),
                s == u@,
                whole == s.subrange(i as int, a as int),
                digits_end(s, a + 1) == digits_end(s, j as int),
                digits_value(whole + s.subrange(a + 1, j as int)) == acc * pow10(dropped as nat)
                    + rest,
                rest < pow10(dropped as nat),
                dropped > 0 ==> acc >= KEEP,
                acc < 10 * KEEP,
                dropped <= j - i,
            decreases n - j,
        {
            let dg = u[j] as u64 - '0' as u64;
            proof {
                assert((whole + s.subrange(a + 1, j + 1)).drop_last() =~= whole + s.subrange(
                    a + 1,
                    j as int,
                ));
                lemma_push_digit(
                    acc as nat,
                    dropped as nat,
                    rest,
                    digits_value(whole + s.subrange(a + 1, j as int)),
                    dg as nat,
                );
            }
            if acc < KEEP {
                acc = acc * 10 + dg;
            } else {
                dropped = dropped + 1;
                proof {
                    rest = rest * 10 + dg as nat;
                }
            }
            j = j + 1;
        }
        frac_len = j - (a + 1);
    }
    let b = j;
    let ghost mant = if dot {
        whole + s.subrange(a + 1, b as int)
    } else {
        whole
    };
    assert(digits_value(mant) == acc * pow10(dropped as nat) + rest);
    if b - i - (if dot { 1 } else { 0 }) == 0 {
        assert(mant.len() == 0);
        return None;
    }
    // exponent
    let has_exp = b < n && (u[b] == 'e' || u[b] == 'E');
    let mut exp_neg = false;
    let mut ev: u128 = 0;
    let mut c = b;
    if has_exp {
        c = b + 1;
        if c < n && (u[c] == '-' || u[c] == '+') {
            exp_neg = u[c] == '-';
            c = c + 1;
        }
        assert(c == b + 1 + sign_len(s, b + 1));
        let mut k = c;
        assert(s.subrange(c as int, k as int) =~= Seq::<char>::empty());
        while k < n && '0' <= u[k] && u[k] <= '9'
            invariant
                c <= k <= n,
                n == u.len(),
                s == u@,
                digits_end(s, c as int) == digits_end(s, k as int),
                ev <= EXP_CAP ==> ev == digits_value(s.subrange(c as int, k as int)),
                ev > EXP_CAP ==> digits_value(s.subrange(c as int, k as int)) > EXP_CAP,
                ev <= 10 * EXP_CAP + 9,
            decreases n - k,
        {
            let dg = u[k] as u128 - '0' as u128;
            assert(s.subrange(c as int, k + 1).drop_last() =~= s.subrange(c as int, k as int));
            if ev <= EXP_CAP {
                ev = ev * 10 + dg;
            }
            k = k + 1;
        }
        if k == c || k != n {
            return None;
        }
    } else if b != n {
        return None;
    }
    proof {
        if has_exp {
            assert(exp_neg == (b + 1 < s.len() && s[b + 1] == '-'));
        }
    }
    let ghost exp_mag = if has_exp {
        digits_value(s.subrange(c as int, n as int))
    } else {
        0
    };
    let ghost e_real = (if exp_neg {
        -exp_mag
    } else {
        exp_mag
    }) - frac_len + 3;
    let ev_cap: i128 = if ev > EXP_CAP {
        (EXP_CAP + 1) as i128
    } else {
        ev as i128
    };
    let e: i128 = (if exp_neg {
        -ev_cap
    } else {
        ev_cap
    }) - frac_len as i128 + 3;
    let r = scale(acc, dropped, e, Ghost(digits_value(mant) as nat), Ghost(rest), Ghost(e_real));
    match r {
        None => None,
        Some(v) => Some(
            if neg {
                -(v as i32)
            } else {
                v as i32
            },
        ),
    }
}

/// The value of `t[start..]` as a signed decimal in thousandths.
fn parse_decimal(t: &Vec<char>, start: usize) -> (r: Option<i32>)
    requires
        start <= t.len(),
    ensures
        r == decimal_milli(t@.skip(start as int)),
{
    let mut u: Vec<char> = Vec::new();
    let mut i = start;
    while i < t.len()
        invariant
            start <= i <= t.len(),
            u@ == t@.subrange(start as int, i as int),
        decreases t.len() - i,
    {
        u.push(t[i]);
        assert(u@ =~= t@.subrange(start as int, i + 1));
        i = i + 1;
    }
    assert(u@ =~= t@.skip(start as int));
    parse_number(&u)
}

// ---------------------------------------------------------------- tokens

pub open spec fn is_key(c: char) -> bool {
    c == 'G' || c == 'M' || c == 'T' || c == 'P'
}

/// A token is a key letter followed by a decimal, or a bare decimal.
pub open spec fn token_part(t: Seq<char>) -> Option<Part> {
    if t.len() > 0 && is_key(t[0]) && decimal_milli(t.drop_first()) is Some {
        match decimal_milli(t.drop_first()) {
            Some(v) => Some((Some(t[0]), v)),
            None => None,
        }
    } else {
        match decimal_milli(t) {
            Some(v) => Some((None, v)),
            None => None,
        }
    }
}

pub open spec fn part_of(t: Seq<char>) -> Part {
    match token_part(t) {
        Some(p) => p,
        None => (None, 0),
    }
}

pub open spec fn parts_of(ts: Seq<Seq<char>>) -> Seq<Part> {
    ts.map_values(|t: Seq<char>| part_of(t))
}

pub open spec fn all_tokens_valid(ts: Seq<Seq<char>>) -> bool {
    forall|k: int| 0 <= k < ts.len() ==> (#[trigger] token_part(ts[k])) is Some
}

/// The value of the last part keyed by `key`.
pub open spec fn last_value(ps: Seq<Part>, key: char) -> Option<i32>
    decreases ps.len(),
{
    if ps.len() == 0 {
        None
    } else if ps.last().0 == Some(key) {
        Some(ps.last().1)
    } else {
        last_value(ps.drop_last(), key)
    }
}

/// The command number of a value: its whole part, and 0 below zero.
pub open spec fn command_number(v: int) -> int {
    if v < 0 {
        0
    } else {
        v / 1000
    }
}

/// The command that a non-empty list of parts stands for.
pub open spec fn gcode_of(ps: Seq<Part>) -> Option<Gcode> {
    let (key, v) = ps[0];
    let rest = ps.drop_first();
    let n = command_number(v as int);
    if key == Some('G') {
        if n == 1 {
            Some(Gcode::G1Move(last_value(rest, 'P'), last_value(rest, 'T')))
        } else if n == 28 {
            Some(Gcode::G28Home)
        } else if n == 90 {
            Some(Gcode::G90SetAbsolute)
        } else if n == 91 {
            Some(Gcode::G91SetRelative)
        } else {
            None
        }
    } else if key == Some('M') && n == 1 {
        Some(Gcode::M1SetVelocity(last_value(rest, 'P'), last_value(rest, 'T')))
    } else {
        None
    }
}

/// The command that a line stands for, if it is valid.
pub open spec fn parse(s: Seq<char>) -> Option<Gcode> {
    let ts = split_ws(s);
    if ts.len() > 0 && all_tokens_valid(ts) {
        gcode_of(parts_of(ts))
    } else {
        None
    }
}

pub open spec fn invalid_message(s: Seq<char>) -> Seq<char> {
    "invalid gcode: "@ + s
}

/// The message for a line that is not a valid command.
pub fn invalid_gcode(str: &str) -> (r: String)
    ensures
        r@ == invalid_message(str@),
{
    let mut r = String::from_str("invalid gcode: ");
    r.append(str);
    r
}

/// Tokens finished in a prefix stay tokens of the whole line.
proof fn lemma_split_prefix(s: Seq<char>, i: int)
    requires
        0 <= i <= s.len(),
    ensures
        split_state(s.take(i)).0.len() <= split_ws(s).len(),
        forall|k: int|
            0 <= k < split_state(s.take(i)).0.len() ==> split_ws(s)[k] == #[trigger] split_state(
                s.take(i),
            ).0[k],
    decreases s.len() - i,
{
    if i == s.len() {
        assert(s.take(i) =~= s);
    } else {
        lemma_split_prefix(s, i + 1);
        assert(s.take(i + 1).drop_last() =~= s.take(i));
        let a = split_state(s.take(i)).0;
        let b = split_state(s.take(i + 1)).0;
        assert forall|k: int| 0 <= k < a.len() implies split_ws(s)[k] == #[trigger] a[k] by {
            assert(b[k] == a[k]);
        }
    }
}

fn parse_token(t: &Vec<char>) -> (r: Option<Part>)
    ensures
        r == token_part(t@),
{
    if t.len() > 0 && (t[0] == 'G' || t[0] == 'M' || t[0] == 'T' || t[0] == 'P') {
        assert(t@.skip(1) =~= t@.drop_first());
        match parse_decimal(t, 1) {
            Some(v) => {
                return Some((Some(t[0]), v));
            },
            None => {},
        }
    }
    assert(t@.skip(0) =~= t@);
    match parse_decimal(t, 0) {
        Some(v) => Some((None, v)),
        None => None,
    }
}

/// The pan (`P`) and tilt (`T`) values among the parts after the first;
/// where a key repeats, the last one counts.
fn get_pan_tilt(parts: &Vec<Part>) -> (r: (Option<i32>, Option<i32>))
    requires
        parts.len() >= 1,
    ensures
        r == (last_value(parts@.drop_first(), 'P'), last_value(parts@.drop_first(), 'T')),
{
    let mut pan: Option<i32> = None;
    let mut tilt: Option<i32> = None;
    let mut j: usize = 1;
    while j < parts.len()
        invariant
            1 <= j <= parts.len(),
            pan == last_value(parts@.subrange(1, j as int), 'P'),
            tilt == last_value(parts@.subrange(1, j as int), 'T'),
        decreases parts.len() - j,
    {
        let (key, v) = parts[j];
        assert(parts@.subrange(1, j + 1).drop_last() =~= parts@.subrange(1, j as int));
        match key {
            Some(c) => {
                if c == 'P' {
                    pan = Some(v);
                } else if c == 'T' {
                    tilt = Some(v);
                }
            },
            None => {},
        }
        j = j + 1;
    }
    assert(parts@.subrange(1, parts.len() as int) =~= parts@.drop_first());
    (pan, tilt)
}

/// Reads one command line.
pub struct GcodeParser;

impl GcodeParser {
    /// Parses `str`: whitespace-separated tokens, each a key letter
    /// (`G`, `M`, `T`, `P`) followed by a decimal, or a bare decimal
    /// (`[+-] digits [. digits] [(e|E) [+-] digits]`, read in thousandths
    /// rounded toward zero, within the range of an `i32`). The first
    /// must be keyed `G` or `M`; its whole part picks the command (`G1`, `G28`,
    /// `G90`, `G91`, `M1`). `G1` and `M1` take their pan and tilt from the `P`
    /// and `T` tokens that follow, in any order. Anything else fails with
    /// `invalid gcode: <str>`.
    pub fn of_str(str: &str) -> (r: Result<Gcode, String>)
        ensures
            match parse(str@) {
                Some(g) => r == Ok::<Gcode, String>(g),
                None => r is Err && r->Err_0@ == invalid_message(str@),
            },
    {
        let n = str.unicode_len();
        let mut parts: Vec<Part> = Vec::new();
        let mut cur: Vec<char> = Vec::new();
        let mut i: usize = 0;
        while i < n
            invariant
                n == str@.len(),
                0 <= i <= n,
                cur@ == split_state(str@.take(i as int)).1,
                all_tokens_valid(split_state(str@.take(i as int)).0),
                parts@ == parts_of(split_state(str@.take(i as int)).0),
            decreases n - i,
        {
            let c = str.get_char(i);
            let ghost before = split_state(str@.take(i as int));
            assert(str@.take(i + 1).drop_last() =~= str@.take(i as int));
            assert(str@.take(i + 1).last() == c);
            if exec_is_space(c) {
                if cur.len() > 0 {
                    proof {
                        lemma_split_prefix(str@, i + 1);
                        assert(split_state(str@.take(i + 1)).0 == before.0.push(cur@));
                        assert(split_state(str@.take(i + 1)).0[before.0.len() as int] == cur@);
                    }
                    match parse_token(&cur) {
                        Some(p) => {
                            parts.push(p);
                            assert(parts_of(before.0.push(cur@)) =~= parts_of(before.0).push(
                                part_of(cur@),
                            ));
                        },
                        None => {
                            return Err(invalid_gcode(str));
                        },
                    }
                    cur = Vec::new();
                }
            } else {
                cur.push(c);
            }
            i = i + 1;
        }
        assert(str@.take(n as int) =~= str@);
        let ghost fin = split_state(str@);
        if cur.len() > 0 {
            assert(split_ws(str@) == fin.0.push(cur@));
            assert(split_ws(str@)[fin.0.len() as int] == cur@);
            match parse_token(&cur) {
                Some(p) => {
                    parts.push(p);
                    assert(parts_of(fin.0.push(cur@)) =~= parts_of(fin.0).push(part_of(cur@)));
                },
                None => {
                    return Err(invalid_gcode(str));
                },
            }
        }
        assert(parts@ == parts_of(split_ws(str@)));
        assert(all_tokens_valid(split_ws(str@)));
        if parts.len() == 0 {
            return Err(invalid_gcode(str));
        }
        let (key, v) = parts[0];
        let number: i32 = if v < 0 {
            0
        } else {
            v / 1000
        };
        match key {
            Some(c) => {
                if c == 'G' {
                    if number == 1 {
                        let (pan, tilt) = get_pan_tilt(&parts);
                        return Ok(Gcode::G1Move(pan, tilt));
                    } else if number == 28 {
                        return Ok(Gcode::G28Home);
                    } else if number == 90 {
                        return Ok(Gcode::G90SetAbsolute);
                    } else if number == 91 {
                        return Ok(Gcode::G91SetRelative);
                    }
                } else if c == 'M' && number == 1 {
                    let (pan, tilt) = get_pan_tilt(&parts);
                    return Ok(Gcode::M1SetVelocity(pan, tilt));
                }
            },
            None => {},
        }
        Err(invalid_gcode(str))
    }
}

} // verus!
