//! The instruction set: the eight operators and the instructions built from them.

use vstd::prelude::*;

verus! {

/// The eight operators of the source language.
#[derive(Clone, Copy, Debug, PartialEq, Eq, Structural)]
pub enum OpKind {
    Add,
    Sub,
    Left,
    Right,
    Input,
    Output,
    JmpZero,
    JmpNonZero,
}

impl OpKind {
    /// The source symbol that stands for this operator.
    pub open spec fn symbol(self) -> char {
        match self {
            OpKind::Add => '+',
            OpKind::Sub => '-',
            OpKind::Left => '<',
            OpKind::Right => '>',
            OpKind::Input => ',',
            OpKind::Output => '.',
            OpKind::JmpZero => '[',
            OpKind::JmpNonZero => ']',
        }
    }

    /// Whether `ch` is one of the eight operator symbols. Every other character is a comment.
    pub open spec fn is_op_spec(ch: char) -> bool {
        ch == '+' || ch == '-' || ch == '<' || ch == '>' || ch == ',' || ch == '.' || ch == '['
            || ch == ']'
    }

    /// The operator written as `ch`. Meaningful only where `ch` is an operator symbol.
    pub open spec fn of_symbol(ch: char) -> OpKind
        recommends
            Self::is_op_spec(ch),
    {
        if ch == '+' {
            OpKind::Add
        } else if ch == '-' {
            OpKind::Sub
        } else if ch == '<' {
            OpKind::Left
        } else if ch == '>' {
            OpKind::Right
        } else if ch == ',' {
            OpKind::Input
        } else if ch == '.' {
            OpKind::Output
        } else if ch == '[' {
            OpKind::JmpZero
        } else {
            OpKind::JmpNonZero
        }
    }

    /// Whether this operator opens or closes a loop. The other six fold into counted runs.
    pub open spec fn is_bracket(self) -> bool {
        self == OpKind::JmpZero || self == OpKind::JmpNonZero
    }

    pub fn as_char(&self) -> (c: char)
        ensures
            c == self.symbol(),
    {
        match self {
            OpKind::Add => '+',
            OpKind::Sub => '-',
            OpKind::Left => '<',
            OpKind::Right => '>',
            OpKind::Input => ',',
            OpKind::Output => '.',
            OpKind::JmpZero => '[',
            OpKind::JmpNonZero => ']',
        }
    }

    /// The operator written as `ch`, which must be an operator symbol.
    pub fn from(ch: char) -> (kind: Self)
        requires
            Self::is_op_spec(ch),
        ensures
            kind == Self::of_symbol(ch),
            kind.symbol() == ch,
    {
        match ch {
            '+' => OpKind::Add,
            '-' => OpKind::Sub,
            '<' => OpKind::Left,
            '>' => OpKind::Right,
            ',' => OpKind::Input,
            '.' => OpKind::Output,
            '[' => OpKind::JmpZero,
            _ => OpKind::JmpNonZero,
        }
    }

    #[verifier::when_used_as_spec(is_op_spec)]
    pub fn is_op(ch: char) -> (b: bool)
        ensures
            b == Self::is_op_spec(ch),
    {
        match ch {
            '+' | '-' | '<' | '>' | ',' | '.' | '[' | ']' => true,
            _ => false,
        }
    }

    /// Reading an operator's symbol back gives the operator, and the symbol of the operator
    /// read from an operator symbol is that symbol: `symbol` and `of_symbol` are inverse to
    /// each other between the eight operators and the eight symbols.
    pub proof fn lemma_symbol_round_trip(kind: OpKind, ch: char)
        ensures
            Self::is_op_spec(kind.symbol()),
            Self::of_symbol(kind.symbol()) == kind,
            Self::is_op_spec(ch) ==> Self::of_symbol(ch).symbol() == ch,
    {
    }
}

/// One instruction of a program.
///
/// The six counted instructions carry the length of the run of equal operators they were
/// folded from. The two jumps carry an index into the program: the place where execution
/// goes on when the jump is taken.
#[derive(Clone, Copy, Debug, PartialEq, Eq, Structural)]
pub enum Op {
    Add(usize),
    Sub(usize),
    MoveLeft(usize),
    MoveRight(usize),
    Input(usize),
    Output(usize),
    JumpIfZero(usize),
    JumpIfNonZero(usize),
}

impl Op {
    /// The instruction of the given operator that carries `value`.
    pub open spec fn with(kind: OpKind, value: usize) -> Op {
        match kind {
            OpKind::Add => Op::Add(value),
            OpKind::Sub => Op::Sub(value),
            OpKind::Left => Op::MoveLeft(value),
            OpKind::Right => Op::MoveRight(value),
            OpKind::Input => Op::Input(value),
            OpKind::Output => Op::Output(value),
            OpKind::JmpZero => Op::JumpIfZero(value),
            OpKind::JmpNonZero => Op::JumpIfNonZero(value),
        }
    }

    /// The operator this instruction was made from.
    pub open spec fn kind_of(&self) -> OpKind {
        match *self {
            Op::Add(_) => OpKind::Add,
            Op::Sub(_) => OpKind::Sub,
            Op::MoveLeft(_) => OpKind::Left,
            Op::MoveRight(_) => OpKind::Right,
            Op::Input(_) => OpKind::Input,
            Op::Output(_) => OpKind::Output,
            Op::JumpIfZero(_) => OpKind::JmpZero,
            Op::JumpIfNonZero(_) => OpKind::JmpNonZero,
        }
    }

    /// The number this instruction carries: a repeat count, or a jump target.
    pub open spec fn value_of(&self) -> usize {
        match *self {
            Op::Add(n) => n,
            Op::Sub(n) => n,
            Op::MoveLeft(n) => n,
            Op::MoveRight(n) => n,
            Op::Input(n) => n,
            Op::Output(n) => n,
            Op::JumpIfZero(t) => t,
            Op::JumpIfNonZero(t) => t,
        }
    }

    /// Whether this instruction opens a loop.
    pub open spec fn opens(self) -> bool {
        self is JumpIfZero
    }

    /// Whether this instruction closes a loop.
    pub open spec fn closes(self) -> bool {
        self is JumpIfNonZero
    }

    /// The instruction of the operator written as `ch`, carrying `value`.
    pub fn from_char(ch: char, value: usize) -> (op: Self)
        requires
            OpKind::is_op_spec(ch),
        ensures
            op == Op::with(OpKind::of_symbol(ch), value),
    {
        let kind = OpKind::from(ch);
        Op::new(kind, value)
    }

    pub fn new(kind: OpKind, value: usize) -> (op: Self)
        ensures
            op == Op::with(kind, value),
    {
        match kind {
            OpKind::Add => Op::Add(value),
            OpKind::Sub => Op::Sub(value),
            OpKind::Left => Op::MoveLeft(value),
            OpKind::Right => Op::MoveRight(value),
            OpKind::Input => Op::Input(value),
            OpKind::Output => Op::Output(value),
            OpKind::JmpZero => Op::JumpIfZero(value),
            OpKind::JmpNonZero => Op::JumpIfNonZero(value),
        }
    }

    #[verifier::when_used_as_spec(kind_of)]
    pub fn kind(&self) -> (kind: OpKind)
        ensures
            kind == self.kind_of(),
    {
        match self {
            Op::Add(_) => OpKind::Add,
            Op::Sub(_) => OpKind::Sub,
            Op::MoveLeft(_) => OpKind::Left,
            Op::MoveRight(_) => OpKind::Right,
            Op::Input(_) => OpKind::Input,
            Op::Output(_) => OpKind::Output,
            Op::JumpIfZero(_) => OpKind::JmpZero,
            Op::JumpIfNonZero(_) => OpKind::JmpNonZero,
        }
    }

    #[verifier::when_used_as_spec(value_of)]
    pub fn value(&self) -> (value: usize)
        ensures
            value == self.value_of(),
    {
        match self {
            Op::Add(n) => *n,
            Op::Sub(n) => *n,
            Op::MoveLeft(n) => *n,
            Op::MoveRight(n) => *n,
            Op::Input(n) => *n,
            Op::Output(n) => *n,
            Op::JumpIfZero(t) => *t,
            Op::JumpIfNonZero(t) => *t,
        }
    }

    /// An instruction is exactly its operator together with the number it carries.
    pub proof fn lemma_kind_and_value(op: Op, kind: OpKind, value: usize)
        ensures
            Op::with(op.kind_of(), op.value_of()) == op,
            Op::with(kind, value).kind_of() == kind,
            Op::with(kind, value).value_of() == value,
    {
    }
}

} // verus!
