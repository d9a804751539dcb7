//! A listing of a program as text: a heading, then one line for each instruction with its
//! operator symbol and the number it carries.

use crate::op::Op;
use crate::program::Ops;
use vstd::prelude::*;

verus! {

/// The character for the decimal digit `d`.
pub open spec fn digit(d: int) -> char {
    if d == 0 {
        '0'
    } else if d == 1 {
        '1'
    } else if d == 2 {
        '2'
    } else if d == 3 {
        '3'
    } else if d == 4 {
        '4'
    } else if d == 5 {
        '5'
    } else if d == 6 {
        '6'
    } else if d == 7 {
        '7'
    } else if d == 8 {
        '8'
    } else {
        '9'
    }
}

/// `n` written in decimal, without leading zeros.
pub open spec fn decimal(n: nat) -> Seq<char>
    decreases n,
{
    if n < 10 {
        seq![digit(n as int)]
    } else {
        decimal(n / 10).push(digit((n % 10) as int))
    }
}

/// The heading of a listing.
pub open spec fn heading() -> Seq<char> {
    seq!['O', 'p', 's', ' ', '\n']
}

/// The line of a listing for `op`: its symbol, an arrow, and the number it carries.
pub open spec fn line(op: Op) -> Seq<char> {
    seq![op.kind_of().symbol(), ' ', '-', '>', ' '] + decimal(op.value_of() as nat) + seq!['\n']
}

/// The listing of `ops`: the heading, then the lines of the instructions in order.
pub open spec fn listing(ops: Seq<Op>) -> Seq<char>
    decreases ops.len(),
{
    if ops.len() == 0 {
        heading()
    } else {
        listing(ops.drop_last()) + line(ops.last())
    }
}

fn digit_char(d: usize) -> (c: char)
    requires
        d < 10,
    ensures
        c == digit(d as int),
{
    match d {
        0 => '0',
        1 => '1',
        2 => '2',
        3 => '3',
        4 => '4',
        5 => '5',
        6 => '6',
        7 => '7',
        8 => '8',
        _ => '9',
    }
}

/// Appends `n` in decimal to `out`.
fn push_decimal(out: &mut Vec<char>, n: usize)
    ensures
        final(out)@ == old(out)@ + decimal(n as nat),
    decreases n,
{
    if n >= 10 {
        push_decimal(out, n / 10);
    }
    out.push(digit_char(n % 10));
    proof {
        assert(final(out)@ =~= old(out)@ + decimal(n as nat));
    }
}

/// Appends the line for `op` to `out`.
fn push_line(out: &mut Vec<char>, op: Op)
    ensures
        final(out)@ == old(out)@ + line(op),
{
    out.push(op.kind().as_char());
    out.push(' ');
    out.push('-');
    out.push('>');
    out.push(' ');
    push_decimal(out, op.value());
    out.push('\n');
    proof {
        assert(final(out)@ =~= old(out)@ + line(op));
    }
}

impl Ops {
    /// The listing of this program.
    pub fn render(&self) -> (text: Vec<char>)
        ensures
            text@ == listing(self@),
    {
        let ops = self.as_slice();
        let mut text: Vec<char> = Vec::new();
        text.push('O');
        text.push('p');
        text.push('s');
        text.push(' ');
        text.push('\n');
        let mut i: usize = 0;
        proof {
            assert(text@ =~= heading());
            assert(ops@.take(0).len() == 0);
        }
        while i < ops.len()
            invariant
                ops@ == self@,
                i <= ops@.len(),
                text@ == listing(ops@.take(i as int)),
            decreases ops@.len() - i,
        {
            push_line(&mut text, ops[i]);
            proof {
                let upto = ops@.take(i + 1);
                assert(upto.drop_last() =~= ops@.take(i as int));
                assert(upto.last() == ops@[i as int]);
            }
            i += 1;
        }
        proof {
            assert(ops@.take(i as int) =~= self@);
        }
        text
    }
}

} // verus!
