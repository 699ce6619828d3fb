use crate::constant::{lemma_pow10_bound, pow10, pow10_of, Constant, Decimal};
use crate::dice;
use crate::parser::Op;
use crate::roll::history::History;
use crate::text::{decimal, digit_char, push_decimal, push_signed, signed_decimal};
use vstd::prelude::*;

verus! {

/// How an operator is written between two operands.
pub open spec fn op_text(op: Op) -> Seq<char> {
    match op {
        Op::Add => seq![' ', '+', ' '],
        Op::Sub => seq![' ', '-', ' '],
        Op::Mul => seq![' ', '*', ' '],
        Op::Div => seq![' ', '/', ' '],
    }
}

/// The texts separated by `, `.
pub open spec fn join(items: Seq<Seq<char>>) -> Seq<char>
    decreases items.len(),
{
    if items.len() == 0 {
        Seq::empty()
    } else if items.len() == 1 {
        items[0]
    } else {
        join(items.drop_last()) + seq![',', ' '] + items.last()
    }
}

/// The symbol of a fudge die: `-` for 1 and 2, a blank for 3 and 4, `+` above.
pub open spec fn fudge_symbol(x: u64) -> char {
    if x <= 2 {
        '-'
    } else if x <= 4 {
        '\u{25A2}'
    } else {
        '+'
    }
}

/// A decimal without the zeros at the end of its fraction.
pub open spec fn normalized(m: int, s: nat) -> (int, nat)
    decreases s,
{
    if s > 0 && m % 10 == 0 {
        normalized(m / 10, (s - 1) as nat)
    } else {
        (m, s)
    }
}

/// The last `s` digits of `n`, with leading zeros.
pub open spec fn fraction_digits(n: nat, s: nat) -> Seq<char>
    decreases s,
{
    if s == 0 {
        Seq::empty()
    } else {
        fraction_digits(n / 10, (s - 1) as nat).push(digit_char(n % 10))
    }
}

/// The absolute value.
pub open spec fn abs(m: int) -> nat {
    if m < 0 {
        (-m) as nat
    } else {
        m as nat
    }
}

/// A decimal as it is shown: `-1.5`, `0.25`, or `2` for `2.0`.
pub open spec fn decimal_text(d: Decimal) -> Seq<char> {
    let (m, s) = normalized(d.mantissa as int, d.scale as nat);
    if s == 0 {
        signed_decimal(m)
    } else {
        (if m < 0 {
            seq!['-']
        } else {
            Seq::empty()
        }) + decimal(abs(m) / pow10(s) as nat) + seq!['.'] + fraction_digits(abs(m) % pow10(s) as nat, s)
    }
}

pub open spec fn constant_text(c: Constant) -> Seq<char> {
    match c {
        Constant::Integer(n) => signed_decimal(n as int),
        Constant::Float(d) => decimal_text(d),
    }
}

/// How one step of a history is shown.
pub open spec fn entry_text(h: History) -> Seq<char> {
    match h {
        History::OpenParen => seq!['('],
        History::CloseParen => seq![')'],
        History::Operator(op) => op_text(op),
        History::Roll(v) => seq!['['] + join(v@.map_values(|d: dice::Result| decimal(d.value as nat))) + seq![']'],
        History::Fudge(v) => seq!['['] + join(v@.map_values(|x: u64| seq![fudge_symbol(x)])) + seq![']'],
        History::Constant(c) => constant_text(c),
    }
}

/// How a history is shown: its steps one after the other.
pub open spec fn history_text(h: Seq<History>) -> Seq<char>
    decreases h.len(),
{
    if h.len() == 0 {
        Seq::empty()
    } else {
        history_text(h.drop_last()) + entry_text(h.last())
    }
}

fn push_fraction(out: &mut Vec<char>, n: u128, s: u32)
    ensures
        final(out)@ == old(out)@ + fraction_digits(n as nat, s as nat),
    decreases s,
{
    if s > 0 {
        push_fraction(out, n / 10, s - 1);
        out.push((48u8 + (n % 10) as u8) as char);
    }
}

/// Appends the text of a decimal.
pub fn push_decimal_text(out: &mut Vec<char>, d: Decimal)
    requires
        d.wf(),
    ensures
        final(out)@ == old(out)@ + decimal_text(d),
{
    let mut m = d.mantissa;
    let mut s = d.scale;
    while s > 0 && m % 10 == 0
        invariant
            s <= d.scale,
            normalized(m as int, s as nat) == normalized(d.mantissa as int, d.scale as nat),
        decreases s,
    {
        m = m / 10;
        s = s - 1;
    }
    if s == 0 {
        push_signed(out, m as i128);
        return;
    }
    let ghost start = out@;
    if m < 0 {
        out.push('-');
    }
    let a: u128 = if m < 0 { (-(m as i128)) as u128 } else { m as u128 };
    proof {
        lemma_pow10_bound(s as nat);
    }
    let p = pow10_of(s) as u128;
    push_decimal(out, a / p);
    out.push('.');
    push_fraction(out, a % p, s);
    proof {
        let sign = if m < 0 { seq!['-'] } else { Seq::<char>::empty() };
        assert(out@ == start + (sign + decimal((a / p) as nat) + seq!['.'] + fraction_digits((a % p) as nat, s as nat)));
    }
}

/// Appends the text of one step of a history.
pub fn push_entry(out: &mut Vec<char>, h: &History)
    requires
        h.wf(),
    ensures
        final(out)@ == old(out)@ + entry_text(*h),
{
    let ghost start = out@;
    match h {
        History::OpenParen => {
            out.push('(');
            proof {
                assert(out@ == start + seq!['(']);
            }
        },
        History::CloseParen => {
            out.push(')');
            proof {
                assert(out@ == start + seq![')']);
            }
        },
        History::Operator(op) => {
            out.push(' ');
            let c = match op {
                Op::Add => '+',
                Op::Sub => '-',
                Op::Mul => '*',
                Op::Div => '/',
            };
            out.push(c);
            out.push(' ');
            proof {
                assert(out@ == start + op_text(*op));
            }
        },
        History::Roll(v) => {
            out.push('[');
            let ghost items = v@.map_values(|d: dice::Result| decimal(d.value as nat));
            let mut i: usize = 0;
            while i < v.len()
                invariant
                    i <= v@.len(),
                    items == v@.map_values(|d: dice::Result| decimal(d.value as nat)),
                    out@ == start + seq!['['] + join(items.subrange(0, i as int)),
                decreases v@.len() - i,
            {
                if i > 0 {
                    out.push(',');
                    out.push(' ');
                }
                push_decimal(out, v[i].value as u128);
                i = i + 1;
                proof {
                    let now = items.subrange(0, i as int);
                    assert(now.drop_last() == items.subrange(0, i - 1));
                    assert(now.last() == decimal(v@[i - 1].value as nat));
                    if i == 1 {
                        assert(items.subrange(0, 0) == Seq::<Seq<char>>::empty());
                    }
                }
            }
            out.push(']');
            proof {
                assert(items.subrange(0, v@.len() as int) == items);
            }
        },
        History::Fudge(v) => {
            out.push('[');
            let ghost items = v@.map_values(|x: u64| seq![fudge_symbol(x)]);
            let mut i: usize = 0;
            while i < v.len()
                invariant
                    i <= v@.len(),
                    items == v@.map_values(|x: u64| seq![fudge_symbol(x)]),
                    out@ == start + seq!['['] + join(items.subrange(0, i as int)),
                decreases v@.len() - i,
            {
                if i > 0 {
                    out.push(',');
                    out.push(' ');
                }
                let x = v[i];
                let c = if x <= 2 {
                    '-'
                } else if x <= 4 {
                    '\u{25A2}'
                } else {
                    '+'
                };
                out.push(c);
                i = i + 1;
                proof {
                    let now = items.subrange(0, i as int);
                    assert(now.drop_last() == items.subrange(0, i - 1));
                    assert(now.last() == seq![fudge_symbol(v@[i - 1])]);
                    if i == 1 {
                        assert(items.subrange(0, 0) == Seq::<Seq<char>>::empty());
                    }
                }
            }
            out.push(']');
            proof {
                assert(items.subrange(0, v@.len() as int) == items);
            }
        },
        History::Constant(c) => {
            match c {
                Constant::Integer(n) => push_signed(out, *n as i128),
                Constant::Float(d) => push_decimal_text(out, *d),
            }
        },
    }
}

/// Appends the text of a history.
pub fn push_history(out: &mut Vec<char>, h: &Vec<History>)
    requires
        forall|i: int| 0 <= i < h@.len() ==> (#[trigger] h@[i]).wf(),
    ensures
        final(out)@ == old(out)@ + history_text(h@),
{
    let ghost start = out@;
    let mut i: usize = 0;
    while i < h.len()
        invariant
            i <= h@.len(),
            forall|k: int| 0 <= k < h@.len() ==> (#[trigger] h@[k]).wf(),
            out@ == start + history_text(h@.subrange(0, i as int)),
        decreases h@.len() - i,
    {
        push_entry(out, &h[i]);
        i = i + 1;
        proof {
            assert(h@.subrange(0, i as int).drop_last() == h@.subrange(0, i - 1));
        }
    }
    proof {
        assert(h@.subrange(0, h@.len() as int) == h@);
    }
}

} // verus!
