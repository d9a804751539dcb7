//! The lexer: from source characters to instructions whose jumps are not yet resolved.
//!
//! Every character that is not one of the eight operator symbols is a comment and is skipped.
//! A maximal run of one of the six counted operators becomes one instruction that carries the
//! length of the run. Each bracket becomes one instruction of its own, with the target
//! [`PLACEHOLDER`].

use crate::op::{Op, OpKind};
use vstd::prelude::*;

verus! {

/// The target that the lexer gives to a bracket: the place of its partner is not known yet.
pub const PLACEHOLDER: usize = 0;

/// The index of the first operator symbol of `src` at or after `pos`, and `src.len()` where
/// no operator symbol follows.
pub open spec fn next_op(src: Seq<char>, pos: int) -> int
    decreases src.len() - pos,
{
    if pos >= src.len() {
        src.len() as int
    } else if OpKind::is_op_spec(src[pos]) {
        pos
    } else {
        next_op(src, pos + 1)
    }
}

/// The index of the first character of `src` at or after `pos` that differs from `ch`, and
/// `pos` or `src.len()`, whichever is greater, where all that follow are `ch`.
pub open spec fn run_end(src: Seq<char>, ch: char, pos: int) -> int
    decreases src.len() - pos,
{
    if pos < src.len() && src[pos] == ch {
        run_end(src, ch, pos + 1)
    } else {
        pos
    }
}

/// Where the token that starts at `start` ends: a bracket is one character long, a counted
/// operator reaches as far as the same symbol repeats.
pub open spec fn token_end(src: Seq<char>, start: int) -> int {
    if OpKind::of_symbol(src[start]).is_bracket() {
        start + 1
    } else {
        run_end(src, src[start], start + 1)
    }
}

/// The instruction for the token that starts at `start`.
pub open spec fn token_at(src: Seq<char>, start: int) -> Op {
    let kind = OpKind::of_symbol(src[start]);
    if kind.is_bracket() {
        Op::with(kind, PLACEHOLDER)
    } else {
        Op::with(kind, (token_end(src, start) - start) as usize)
    }
}

/// `next_op` finds the nearest operator: it skips comments only, and stops at an operator
/// symbol or at the end of the source.
pub proof fn lemma_next_op(src: Seq<char>, pos: int)
    requires
        0 <= pos <= src.len(),
    ensures
        pos <= next_op(src, pos) <= src.len(),
        forall|k: int| pos <= k < next_op(src, pos) ==> !OpKind::is_op_spec(#[trigger] src[k]),
        next_op(src, pos) < src.len() ==> OpKind::is_op_spec(src[next_op(src, pos)]),
    decreases src.len() - pos,
{
    if pos < src.len() && !OpKind::is_op_spec(src[pos]) {
        lemma_next_op(src, pos + 1);
    }
}

/// `run_end` finds the end of a maximal run: everything from `pos` up to it is `ch`, and what
/// stands there, if anything, is not.
pub proof fn lemma_run_end(src: Seq<char>, ch: char, pos: int)
    requires
        0 <= pos <= src.len(),
    ensures
        pos <= run_end(src, ch, pos) <= src.len(),
        forall|k: int| pos <= k < run_end(src, ch, pos) ==> #[trigger] src[k] == ch,
        run_end(src, ch, pos) < src.len() ==> src[run_end(src, ch, pos)] != ch,
    decreases src.len() - pos,
{
    if pos < src.len() && src[pos] == ch {
        lemma_run_end(src, ch, pos + 1);
    }
}

/// A token is never empty and never reaches past the end of the source.
pub proof fn lemma_token_end(src: Seq<char>, start: int)
    requires
        0 <= start < src.len(),
    ensures
        start < token_end(src, start) <= src.len(),
{
    lemma_run_end(src, src[start], start + 1);
}

/// The instructions that lexing `src` from `pos` on gives, in order.
pub open spec fn lex(src: Seq<char>, pos: int) -> Seq<Op>
    decreases src.len() - pos,
    via lex_decreases
{
    let start = next_op(src, pos);
    if 0 <= pos && start < src.len() {
        seq![token_at(src, start)] + lex(src, token_end(src, start))
    } else {
        Seq::empty()
    }
}

#[via_fn]
proof fn lex_decreases(src: Seq<char>, pos: int) {
    if 0 <= pos && pos <= src.len() {
        lemma_next_op(src, pos);
        let start = next_op(src, pos);
        if start < src.len() {
            lemma_token_end(src, start);
        }
    }
}

/// For each instruction of `lex(src, pos)`, the offset in `src` just behind its token.
pub open spec fn lex_ends(src: Seq<char>, pos: int) -> Seq<int>
    decreases src.len() - pos,
    via lex_ends_decreases
{
    let start = next_op(src, pos);
    if 0 <= pos && start < src.len() {
        seq![token_end(src, start)] + lex_ends(src, token_end(src, start))
    } else {
        Seq::empty()
    }
}

#[via_fn]
proof fn lex_ends_decreases(src: Seq<char>, pos: int) {
    if 0 <= pos && pos <= src.len() {
        lemma_next_op(src, pos);
        let start = next_op(src, pos);
        if start < src.len() {
            lemma_token_end(src, start);
        }
    }
}

/// A scanner over a source text. It hands out one instruction per call of [`Lexer::next`].
pub struct Lexer<'a> {
    source: &'a [char],
    pos: usize,
}

impl<'a> Lexer<'a> {
    #[verifier::type_invariant]
    spec fn in_bounds(self) -> bool {
        self.pos <= self.source@.len()
    }

    /// The whole source text, read and unread.
    pub closed spec fn source(&self) -> Seq<char> {
        self.source@
    }

    /// The scanning position: the number of characters read so far.
    pub closed spec fn position(&self) -> int {
        self.pos as int
    }

    pub fn new(content: &'a [char]) -> (lexer: Self)
        ensures
            lexer.source() == content@,
            lexer.position() == 0,
    {
        Self { source: content, pos: 0 }
    }

    /// The scanning position, as an offset in characters from the start of the source.
    pub fn pos(&self) -> (pos: usize)
        ensures
            pos == self.position(),
            pos <= self.source().len(),
    {
        proof {
            use_type_invariant(self);
        }
        self.pos
    }

    fn has_more_chars(&self) -> (more: bool)
        ensures
            more == (self.position() < self.source().len()),
    {
        proof {
            use_type_invariant(self);
        }
        self.pos < self.source.len()
    }

    fn advance(&mut self)
        requires
            old(self).position() < old(self).source().len(),
        ensures
            final(self).source() == old(self).source(),
            final(self).position() == old(self).position() + 1,
    {
        proof {
            assert(self.pos < self.source.len());
        }
        self.pos += 1;
    }

    fn trim_whitespace(&mut self)
        ensures
            final(self).source() == old(self).source(),
            final(self).position() == next_op(old(self).source(), old(self).position()),
    {
        proof {
            use_type_invariant(&*self);
        }
        while self.has_more_chars() && !OpKind::is_op(self.source[self.pos])
            invariant
                self.source() == old(self).source(),
                old(self).position() <= self.position() <= self.source().len(),
                next_op(self.source(), self.position()) == next_op(
                    old(self).source(),
                    old(self).position(),
                ),
            decreases self.source().len() - self.position(),
        {
            self.advance();
        }
    }

    fn chop(&mut self, n: usize)
        requires
            old(self).position() + n <= old(self).source().len(),
        ensures
            final(self).source() == old(self).source(),
            final(self).position() == old(self).position() + n,
    {
        proof {
            assert(self.pos + n <= self.source.len());
        }
        self.pos += n;
    }

    /// Reads on for as long as `pred` accepts the next character, and returns how many
    /// characters that were.
    fn chop_while<P>(&mut self, pred: P) -> (n: usize) where P: Fn(&char) -> bool
        requires
            forall|c: &char| call_requires(pred, (c,)),
        ensures
            final(self).source() == old(self).source(),
            final(self).position() == old(self).position() + n,
            final(self).position() <= final(self).source().len(),
            forall|k: int|
                old(self).position() <= k < final(self).position() ==> call_ensures(
                    pred,
                    (&#[trigger] old(self).source()[k],),
                    true,
                ),
            final(self).position() < final(self).source().len() ==> call_ensures(
                pred,
                (&old(self).source()[final(self).position()],),
                false,
            ),
    {
        proof {
            use_type_invariant(&*self);
        }
        let rest: usize = self.source.len() - self.pos;
        let mut n: usize = 0;
        while n < rest && pred(&self.source[self.pos + n])
            invariant
                self.source() == old(self).source(),
                self.position() == old(self).position(),
                rest == self.source().len() - self.position(),
                self.source().len() <= usize::MAX,
                n <= rest,
                forall|c: &char| call_requires(pred, (c,)),
                forall|k: int|
                    self.position() <= k < self.position() + n ==> call_ensures(
                        pred,
                        (&#[trigger] self.source()[k],),
                        true,
                    ),
            decreases rest - n,
        {
            n += 1;
        }
        self.chop(n);
        n
    }

    /// The next instruction of the source, or `None` when only comments are left.
    ///
    /// Comments before the token are skipped. A counted operator takes its whole run and
    /// carries the run's length; a bracket takes one character and carries [`PLACEHOLDER`].
    /// The scanning position moves to just behind the token, or to the end of the source.
    pub fn next(&mut self) -> (token: Option<Op>)
        ensures
            final(self).source() == old(self).source(),
            old(self).position() <= final(self).position() <= old(self).source().len(),
            ({
                let src = old(self).source();
                let start = next_op(src, old(self).position());
                if start < src.len() {
                    &&& token == Some(token_at(src, start))
                    &&& final(self).position() == token_end(src, start)
                } else {
                    &&& token is None
                    &&& final(self).position() == src.len()
                }
            }),
    {
        proof {
            use_type_invariant(&*self);
            lemma_next_op(self.source(), self.position());
        }
        self.trim_whitespace();
        if self.has_more_chars() {
            let i: char = self.source[self.pos];
            let ghost start = self.position();
            proof {
                lemma_token_end(self.source(), start);
            }
            let n: usize = match i {
                '+' | '-' | '<' | '>' | ',' | '.' => {
                    let repeats = |x: &char| -> (same: bool)
                        ensures
                            same == (*x == i),
                    {
                        let same: bool = *x == i;
                        same
                    };
                    let n: usize = self.chop_while(repeats);
                    proof {
                        Self::lemma_run(self.source(), i, start, self.position());
                    }
                    n
                },
                _ => {
                    self.advance();
                    PLACEHOLDER
                },
            };
            Some(Op::from_char(i, n))
        } else {
            None
        }
    }

    /// A stretch of `ch` that starts at `start` and cannot be made longer ends at
    /// `run_end(src, ch, start + 1)`.
    proof fn lemma_run(src: Seq<char>, ch: char, start: int, end: int)
        requires
            0 <= start < src.len(),
            start <= end <= src.len(),
            forall|k: int| start <= k < end ==> #[trigger] src[k] == ch,
            end < src.len() ==> src[end] != ch,
            src[start] == ch,
        ensures
            end == run_end(src, ch, start + 1),
        decreases end - start,
    {
        if start + 1 < end {
            Self::lemma_run(src, ch, start + 1, end);
        } else if start + 1 == end {
        } else {
            assert(end == start);
            assert(src[end] == ch);
        }
    }
}

/// Lexing goes token by token: where an operator is left, the instructions from `pos` on are
/// that operator's instruction and then those from the end of its token on. Where none is
/// left, there are no instructions.
pub proof fn lemma_lex_unfold(src: Seq<char>, pos: int)
    requires
        0 <= pos <= src.len(),
    ensures
        ({
            let start = next_op(src, pos);
            if start < src.len() {
                &&& lex(src, pos) == seq![token_at(src, start)] + lex(src, token_end(src, start))
                &&& lex_ends(src, pos) == seq![token_end(src, start)] + lex_ends(
                    src,
                    token_end(src, start),
                )
            } else {
                &&& lex(src, pos) == Seq::<Op>::empty()
                &&& lex_ends(src, pos) == Seq::<int>::empty()
            }
        }),
{
}

/// Run-length folding: a source that is one counted operator written over and over gives
/// one instruction, and that instruction carries the length of the source.
pub proof fn lemma_run_folds(src: Seq<char>, ch: char)
    requires
        0 < src.len() <= usize::MAX,
        OpKind::is_op_spec(ch),
        !OpKind::of_symbol(ch).is_bracket(),
        forall|i: int| 0 <= i < src.len() ==> src[i] == ch,
    ensures
        lex(src, 0) == seq![Op::with(OpKind::of_symbol(ch), src.len() as usize)],
{
    lemma_run_end(src, ch, 1);
    lemma_lex_unfold(src, 0);
    lemma_lex_unfold(src, src.len() as int);
    assert(token_end(src, 0) == src.len());
    assert(lex(src, 0) =~= seq![Op::with(OpKind::of_symbol(ch), src.len() as usize)]);
}

/// Every instruction that the lexer gives carries what it should: a bracket carries
/// [`PLACEHOLDER`], and a counted instruction carries a count of at least one and of no
/// more than the length of the source.
pub proof fn lemma_counts(src: Seq<char>, pos: int, i: int)
    requires
        src.len() <= usize::MAX,
        0 <= pos <= src.len(),
        0 <= i < lex(src, pos).len(),
    ensures
        lex(src, pos)[i].opens() || lex(src, pos)[i].closes() ==> lex(src, pos)[i].value_of()
            == PLACEHOLDER,
        !lex(src, pos)[i].opens() && !lex(src, pos)[i].closes() ==> 1 <= lex(src, pos)[i].value_of()
            <= src.len(),
    decreases src.len() - pos,
{
    lemma_next_op(src, pos);
    lemma_lex_unfold(src, pos);
    let start = next_op(src, pos);
    lemma_token_end(src, start);
    if i > 0 {
        lemma_counts(src, token_end(src, start), i - 1);
    }
}

/// `lex` and `lex_ends` run in step: there is one end offset for each instruction.
pub proof fn lemma_lex_ends_len(src: Seq<char>, pos: int)
    requires
        0 <= pos <= src.len(),
    ensures
        lex(src, pos).len() == lex_ends(src, pos).len(),
    decreases src.len() - pos,
{
    lemma_next_op(src, pos);
    let start = next_op(src, pos);
    if start < src.len() {
        lemma_token_end(src, start);
        lemma_lex_ends_len(src, token_end(src, start));
    }
}

} // verus!
