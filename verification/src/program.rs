//! Programs: instruction sequences whose jumps are resolved, and the compile step that
//! builds them from source text.
//!
//! The compile step runs the lexer over the source once. It keeps a stack of the addresses
//! of the loops that are open. An opening bracket is pushed with its address. A closing
//! bracket pops the innermost open loop, jumps back to just behind its opening bracket,
//! and makes that opening bracket jump to just behind the closing one.

use crate::lexer::{
    lemma_lex_ends_len, lemma_lex_unfold, lemma_next_op, lemma_token_end, lex, lex_ends, next_op,
    Lexer,
};
use crate::nesting::{
    balanced, closer, depth, lemma_balanced_all_matched, lemma_partners,
    lemma_stray_close_unique, matched, nests, opener, still_open, stray_close,
};
use crate::op::Op;
use vstd::prelude::*;

verus! {

/// Why a source text is not a program.
#[derive(Clone, Copy, Debug, PartialEq, Eq, Structural)]
pub enum CompileError {
    /// A closing bracket has no opening bracket before it, or a loop is still open where
    /// the source ends. `position` is the offset in the source, in characters, that the
    /// scan had reached: just behind the stray closing bracket, or the end of the source.
    UnbalancedLoop { position: usize },
}

/// A stack of program addresses: the loops that are open, the innermost on top.
pub struct Addrs(Vec<usize>);

impl View for Addrs {
    type V = Seq<usize>;

    /// The addresses from the bottom of the stack to its top.
    closed spec fn view(&self) -> Seq<usize> {
        self.0@
    }
}

impl Addrs {
    pub fn new() -> (stack: Self)
        ensures
            stack@ == Seq::<usize>::empty(),
    {
        Self(Vec::new())
    }

    pub fn len(&self) -> (n: usize)
        ensures
            n == self@.len(),
    {
        self.0.len()
    }

    pub fn push(&mut self, addr: usize)
        ensures
            final(self)@ == old(self)@.push(addr),
    {
        self.0.push(addr);
    }

    /// Takes the top address off the stack, or returns `None` where the stack is empty.
    pub fn pop(&mut self) -> (top: Option<usize>)
        ensures
            match top {
                Some(addr) => {
                    &&& old(self)@.len() > 0
                    &&& addr == old(self)@.last()
                    &&& final(self)@ == old(self)@.drop_last()
                },
                None => old(self)@.len() == 0 && final(self)@ == old(self)@,
            },
    {
        self.0.pop()
    }
}

/// The instruction that stands at place `i` once the brackets of `toks` are resolved, in a
/// program in which `toks` begins at address `base`. A bracket jumps to the address just
/// behind its partner. Any other instruction stays as it is.
pub open spec fn resolve_at(toks: Seq<Op>, base: int, i: int) -> Op {
    match toks[i] {
        Op::JumpIfZero(_) => Op::JumpIfZero((base + closer(toks, i) + 1) as usize),
        Op::JumpIfNonZero(_) => Op::JumpIfNonZero((base + opener(toks, i) + 1) as usize),
        op => op,
    }
}

/// The instructions `toks` with every bracket resolved, for a program in which they
/// begin at address `base`.
pub open spec fn resolved(toks: Seq<Op>, base: int) -> Seq<Op> {
    Seq::new(toks.len(), |i: int| resolve_at(toks, base, i))
}

/// The position that the error for an unbalanced source names: the offset just behind the
/// first closing bracket that has no opening bracket before it, and the length of the
/// source where there is no such bracket.
pub open spec fn unbalanced_at(src: Seq<char>) -> int {
    let toks = lex(src, 0);
    if exists|k: int| stray_close(toks, k) {
        lex_ends(src, 0)[choose|k: int| stray_close(toks, k)]
    } else {
        src.len() as int
    }
}

/// The position that an error names is well defined: where a closing bracket is stray,
/// it is the offset just behind that bracket, and where none is, so that a loop is left
/// open, it is the length of the source.
pub proof fn lemma_unbalanced_at(src: Seq<char>, k: int)
    ensures
        stray_close(lex(src, 0), k) ==> unbalanced_at(src) == lex_ends(src, 0)[k],
        nests(lex(src, 0), lex(src, 0).len() as int) ==> unbalanced_at(src) == src.len(),
{
    let toks = lex(src, 0);
    if stray_close(toks, k) {
        let chosen = choose|k2: int| stray_close(toks, k2);
        lemma_stray_close_unique(toks, k, chosen);
    }
    if nests(toks, toks.len() as int) {
        assert forall|k2: int| !stray_close(toks, k2) by {
            if stray_close(toks, k2) {
                assert(depth(toks, k2 + 1) >= 0);
            }
        }
    }
}

/// What the compile step has written at place `i` after the first `k` instructions: the
/// opening bracket of a loop that is still open stands as the lexer gave it, everything
/// else is resolved.
spec fn partial_at(toks: Seq<Op>, base: int, k: int, i: int) -> Op {
    if toks[i].opens() && still_open(toks, i, k) {
        toks[i]
    } else {
        resolve_at(toks, base, i)
    }
}

/// The entry `addr` at height `s` of the stack is the opening bracket of a loop at depth
/// `s` that the first `k` instructions leave open.
spec fn pending(toks: Seq<Op>, base: int, k: int, s: int, addr: usize) -> bool {
    let i = addr - base;
    &&& 0 <= i < k
    &&& toks[i].opens()
    &&& depth(toks, i) == s
    &&& still_open(toks, i, k)
}

/// The state of the compile step after the first `k` instructions of `toks`, appended to
/// the program `prior`.
spec fn resolving(toks: Seq<Op>, prior: Seq<Op>, k: int, stack: Seq<usize>, code: Seq<Op>) -> bool {
    let base = prior.len() as int;
    &&& 0 <= k <= toks.len()
    &&& code.len() == base + k
    &&& forall|a: int| 0 <= a < base ==> #[trigger] code[a] == prior[a]
    &&& nests(toks, k)
    &&& stack.len() == depth(toks, k)
    &&& forall|s: int| 0 <= s < stack.len() ==> pending(toks, base, k, s, #[trigger] stack[s])
    &&& forall|a: int|
        base <= a < base + k ==> #[trigger] code[a] == partial_at(toks, base, k, a - base)
}

/// An instruction that is no bracket is appended as it is.
proof fn lemma_step_plain(toks: Seq<Op>, prior: Seq<Op>, k: int, stack: Seq<usize>, code: Seq<Op>)
    requires
        resolving(toks, prior, k, stack, code),
        k < toks.len(),
        !toks[k].opens(),
        !toks[k].closes(),
    ensures
        resolving(toks, prior, k + 1, stack, code.push(toks[k])),
{
    let base = prior.len() as int;
    let code2 = code.push(toks[k]);
    assert(depth(toks, k + 1) == depth(toks, k));
    assert forall|i: int| 0 <= i < k && toks[i].opens() implies still_open(toks, i, k)
        == still_open(toks, i, k + 1) by {
        if still_open(toks, i, k) {
            assert(depth(toks, k) > depth(toks, i));
        }
    }
    assert forall|s: int| 0 <= s < stack.len() implies pending(
        toks,
        base,
        k + 1,
        s,
        #[trigger] stack[s],
    ) by {
        assert(pending(toks, base, k, s, stack[s]));
    }
    assert forall|a: int| base <= a < base + k + 1 implies #[trigger] code2[a] == partial_at(
        toks,
        base,
        k + 1,
        a - base,
    ) by {
        if a < base + k {
            assert(code[a] == partial_at(toks, base, k, a - base));
        }
    }
}

/// An opening bracket is appended as it is, and its address goes onto the stack.
proof fn lemma_step_open(toks: Seq<Op>, prior: Seq<Op>, k: int, stack: Seq<usize>, code: Seq<Op>)
    requires
        resolving(toks, prior, k, stack, code),
        k < toks.len(),
        toks[k].opens(),
        prior.len() + k <= usize::MAX,
    ensures
        resolving(
            toks,
            prior,
            k + 1,
            stack.push((prior.len() + k) as usize),
            code.push(toks[k]),
        ),
{
    let base = prior.len() as int;
    let addr = (base + k) as usize;
    let stack2 = stack.push(addr);
    let code2 = code.push(toks[k]);
    assert(depth(toks, k + 1) == depth(toks, k) + 1);
    assert forall|i: int| 0 <= i < k && toks[i].opens() implies still_open(toks, i, k)
        == still_open(toks, i, k + 1) by {
        if still_open(toks, i, k) {
            assert(depth(toks, k) > depth(toks, i));
        }
    }
    assert(still_open(toks, k, k + 1));
    assert forall|s: int| 0 <= s < stack2.len() implies pending(
        toks,
        base,
        k + 1,
        s,
        #[trigger] stack2[s],
    ) by {
        if s < stack.len() {
            assert(pending(toks, base, k, s, stack[s]));
        }
    }
    assert forall|a: int| base <= a < base + k + 1 implies #[trigger] code2[a] == partial_at(
        toks,
        base,
        k + 1,
        a - base,
    ) by {
        if a < base + k {
            assert(code[a] == partial_at(toks, base, k, a - base));
        }
    }
}

/// A closing bracket closes the loop on top of the stack: the two brackets are partners,
/// and each is made to jump to just behind the other.
proof fn lemma_step_close(toks: Seq<Op>, prior: Seq<Op>, k: int, stack: Seq<usize>, code: Seq<Op>)
    requires
        resolving(toks, prior, k, stack, code),
        k < toks.len(),
        toks[k].closes(),
        stack.len() > 0,
        prior.len() + k + 1 <= usize::MAX,
    ensures
        prior.len() <= stack.last() < prior.len() + k,
        matched(toks, stack.last() - prior.len(), k),
        resolving(
            toks,
            prior,
            k + 1,
            stack.drop_last(),
            code.push(Op::JumpIfNonZero((stack.last() + 1) as usize)).update(
                stack.last() as int,
                Op::JumpIfZero((prior.len() + k + 1) as usize),
            ),
        ),
{
    let base = prior.len() as int;
    let top = stack.len() - 1;
    let addr = stack[top];
    let i0 = addr - base;
    let stack2 = stack.drop_last();
    let code2 = code.push(Op::JumpIfNonZero((addr + 1) as usize)).update(
        addr as int,
        Op::JumpIfZero((base + k + 1) as usize),
    );
    assert(pending(toks, base, k, top, stack[top]));
    assert(depth(toks, k + 1) == depth(toks, k) - 1);
    assert(matched(toks, i0, k));
    lemma_partners(toks, i0, k);
    assert(!still_open(toks, i0, k + 1));
    assert forall|i: int| 0 <= i < k && i != i0 && toks[i].opens() implies still_open(toks, i, k)
        == still_open(toks, i, k + 1) by {
        if still_open(toks, i, k) {
            assert(depth(toks, k) > depth(toks, i));
            if i < i0 {
                assert(depth(toks, i0) > depth(toks, i));
            } else {
                assert(depth(toks, i) > depth(toks, i0));
            }
        }
    }
    assert forall|j: int| 0 <= j <= k + 1 implies depth(toks, j) >= 0 by {
        if j <= k {
            assert(nests(toks, k));
        }
    }
    assert forall|s: int| 0 <= s < stack2.len() implies pending(
        toks,
        base,
        k + 1,
        s,
        #[trigger] stack2[s],
    ) by {
        assert(pending(toks, base, k, s, stack[s]));
        assert(stack[s] - base != i0);
    }
    assert forall|a: int| base <= a < base + k + 1 implies #[trigger] code2[a] == partial_at(
        toks,
        base,
        k + 1,
        a - base,
    ) by {
        if a < base + k && a != addr {
            assert(code[a] == partial_at(toks, base, k, a - base));
        }
    }
    assert forall|a: int| 0 <= a < base implies #[trigger] code2[a] == prior[a] by {
        assert(code[a] == prior[a]);
    }
}

/// A closing bracket that finds the stack empty is stray, and the source is unbalanced.
proof fn lemma_step_stray(toks: Seq<Op>, prior: Seq<Op>, k: int, stack: Seq<usize>, code: Seq<Op>)
    requires
        resolving(toks, prior, k, stack, code),
        k < toks.len(),
        toks[k].closes(),
        stack.len() == 0,
    ensures
        stray_close(toks, k),
        !balanced(toks),
        forall|k2: int| stray_close(toks, k2) ==> k2 == k,
{
    assert(depth(toks, k + 1) == depth(toks, k) - 1);
    assert forall|k2: int| stray_close(toks, k2) implies k2 == k by {
        lemma_stray_close_unique(toks, k, k2);
    }
}

/// Where all instructions are read, the stack is empty exactly when the brackets are
/// balanced, and then the program is complete. No closing bracket was stray.
proof fn lemma_done(toks: Seq<Op>, prior: Seq<Op>, stack: Seq<usize>, code: Seq<Op>)
    requires
        resolving(toks, prior, toks.len() as int, stack, code),
    ensures
        (stack.len() == 0) == balanced(toks),
        forall|k: int| !stray_close(toks, k),
        balanced(toks) ==> code == prior + resolved(toks, prior.len() as int),
{
    let base = prior.len() as int;
    let len = toks.len() as int;
    assert forall|k: int| !stray_close(toks, k) by {
        if stray_close(toks, k) {
            assert(depth(toks, k + 1) >= 0);
        }
    }
    if balanced(toks) {
        let full = prior + resolved(toks, base);
        assert forall|a: int| 0 <= a < code.len() implies code[a] == full[a] by {
            if a >= base {
                let i = a - base;
                assert(code[a] == partial_at(toks, base, len, i));
                if toks[i].opens() && still_open(toks, i, len) {
                    assert(depth(toks, i) >= 0);
                    assert(depth(toks, len) > depth(toks, i));
                }
            } else {
                assert(code[a] == prior[a]);
            }
        }
        assert(code =~= full);
    }
}

/// A program: a sequence of instructions. Execution begins at its first instruction.
pub struct Ops(Vec<Op>);

impl View for Ops {
    type V = Seq<Op>;

    /// The instructions in order.
    closed spec fn view(&self) -> Seq<Op> {
        self.0@
    }
}

impl Ops {
    /// The empty program.
    pub fn new() -> (ops: Self)
        ensures
            ops@ == Seq::<Op>::empty(),
    {
        Self(Vec::new())
    }

    pub fn len(&self) -> (n: usize)
        ensures
            n == self@.len(),
    {
        self.0.len()
    }

    /// The instruction at address `addr`, or `None` where the program ends before it.
    pub fn get(&self, addr: usize) -> (op: Option<Op>)
        ensures
            op == (if addr < self@.len() {
                Some(self@[addr as int])
            } else {
                None
            }),
    {
        if addr < self.0.len() {
            Some(self.0[addr])
        } else {
            None
        }
    }

    /// Appends `op` as it is. A jump is taken at its word: its target is not checked.
    pub fn push(&mut self, op: Op)
        ensures
            final(self)@ == old(self)@.push(op),
    {
        self.0.push(op);
    }

    pub fn as_slice(&self) -> (ops: &[Op])
        ensures
            ops@ == self@,
    {
        self.0.as_slice()
    }

    /// Compiles `source` and appends the instructions to this program.
    ///
    /// The source is compiled where its brackets are balanced, and only there. The
    /// instructions appended are those that the lexer gives, with each bracket jumping to
    /// the address just behind its partner. Where the brackets are not balanced, the program
    /// is left as it was, and the error names the position that the scan had reached.
    pub fn gen_from_chars(&mut self, source: &[char]) -> (r: Result<(), CompileError>)
        ensures
            match r {
                Ok(_) => {
                    &&& balanced(lex(source@, 0))
                    &&& final(self)@ == old(self)@ + resolved(
                        lex(source@, 0),
                        old(self)@.len() as int,
                    )
                },
                Err(CompileError::UnbalancedLoop { position }) => {
                    &&& !balanced(lex(source@, 0))
                    &&& final(self)@ == old(self)@
                    &&& position == unbalanced_at(source@)
                },
            },
    {
        let base: usize = self.0.len();
        let mut stack = Addrs::new();
        let mut lexer = Lexer::new(source);
        let ghost toks = lex(source@, 0);
        let ghost ends = lex_ends(source@, 0);
        let ghost prior = self@;
        let ghost mut k: int = 0;
        proof {
            lemma_lex_ends_len(source@, 0);
            assert(toks.skip(0) =~= toks);
            assert(ends.skip(0) =~= ends);
        }
        loop
            invariant
                lexer.source() == source@,
                0 <= lexer.position() <= source@.len(),
                toks == lex(source@, 0),
                ends == lex_ends(source@, 0),
                ends.len() == toks.len(),
                prior == old(self)@,
                base == prior.len(),
                0 <= k <= toks.len(),
                toks.skip(k) == lex(source@, lexer.position()),
                ends.skip(k) == lex_ends(source@, lexer.position()),
                resolving(toks, prior, k, stack@, self@),
            ensures
                k == toks.len(),
                lexer.position() == source@.len(),
            decreases source@.len() - lexer.position(),
        {
            let ghost before = lexer.position();
            proof {
                lemma_lex_unfold(source@, before);
                lemma_next_op(source@, before);
            }
            let token = lexer.next();
            let op = match token {
                None => {
                    proof {
                        lemma_lex_unfold(source@, lexer.position());
                        lemma_next_op(source@, lexer.position());
                    }
                    break ;
                },
                Some(op) => op,
            };
            proof {
                lemma_token_end(source@, next_op(source@, before));
                assert(toks.skip(k).len() >= 1 && ends.skip(k).len() >= 1);
                assert(toks.skip(k)[0] == op);
                assert(toks[k] == op);
                assert(ends.skip(k)[0] == lexer.position());
                assert(ends[k] == lexer.position());
                assert(toks.skip(k + 1) =~= toks.skip(k).skip(1));
                assert(ends.skip(k + 1) =~= ends.skip(k).skip(1));
                assert(toks.skip(k).skip(1) =~= lex(source@, lexer.position()));
                assert(ends.skip(k).skip(1) =~= lex_ends(source@, lexer.position()));
            }
            match op {
                Op::JumpIfZero(_) => {
                    let addr: usize = self.0.len();
                    proof {
                        lemma_step_open(toks, prior, k, stack@, self@);
                    }
                    self.0.push(op);
                    stack.push(addr);
                },
                Op::JumpIfNonZero(_) => {
                    let ghost open_loops = stack@;
                    let addr: usize = match stack.pop() {
                        Some(addr) => addr,
                        None => {
                            proof {
                                lemma_step_stray(toks, prior, k, stack@, self@);
                                assert(self@.subrange(0, base as int) =~= prior);
                            }
                            self.0.truncate(base);
                            return Err(CompileError::UnbalancedLoop { position: lexer.pos() });
                        },
                    };
                    let ghost code = self@;
                    proof {
                        assert(pending(toks, base as int, k, open_loops.len() - 1, open_loops.last()));
                        assert(addr < self.0.len());
                    }
                    self.0.push(Op::JumpIfNonZero(addr + 1));
                    let end: usize = self.0.len();
                    proof {
                        lemma_step_close(toks, prior, k, open_loops, code);
                    }
                    self.0[addr] = Op::JumpIfZero(end);
                },
                _ => {
                    proof {
                        lemma_step_plain(toks, prior, k, stack@, self@);
                    }
                    self.0.push(op);
                },
            }
            proof {
                k = k + 1;
            }
        }
        proof {
            lemma_done(toks, prior, stack@, self@);
        }
        if stack.len() > 0 {
            proof {
                assert(self@.subrange(0, base as int) =~= prior);
            }
            self.0.truncate(base);
            return Err(CompileError::UnbalancedLoop { position: lexer.pos() });
        }
        Ok(())
    }
}

/// In the program compiled from a balanced source, the two brackets of each loop point at
/// each other: the opening bracket jumps to the address just behind its closing bracket,
/// and the closing bracket jumps to the address just behind its opening bracket. Every
/// bracket of the program belongs to exactly one such pair.
pub proof fn lemma_jumps_pair_up(toks: Seq<Op>, base: int)
    requires
        balanced(toks),
    ensures
        forall|i: int, j: int| #[trigger]
            matched(toks, i, j) ==> resolved(toks, base)[i] == Op::JumpIfZero(
                (base + j + 1) as usize,
            ) && resolved(toks, base)[j] == Op::JumpIfNonZero((base + i + 1) as usize),
        forall|i: int|
            0 <= i < toks.len() && (#[trigger] toks[i]).opens() ==> matched(
                toks,
                i,
                closer(toks, i),
            ) && opener(toks, closer(toks, i)) == i,
        forall|j: int|
            0 <= j < toks.len() && (#[trigger] toks[j]).closes() ==> matched(
                toks,
                opener(toks, j),
                j,
            ) && closer(toks, opener(toks, j)) == j,
{
    lemma_balanced_all_matched(toks);
    assert forall|i: int, j: int| #[trigger] matched(toks, i, j) implies resolved(toks, base)[i]
        == Op::JumpIfZero((base + j + 1) as usize) && resolved(toks, base)[j]
        == Op::JumpIfNonZero((base + i + 1) as usize) by {
        lemma_partners(toks, i, j);
    }
    assert forall|i: int| 0 <= i < toks.len() && (#[trigger] toks[i]).opens() implies matched(
        toks,
        i,
        closer(toks, i),
    ) && opener(toks, closer(toks, i)) == i by {
        let j = choose|j: int| matched(toks, i, j);
        lemma_partners(toks, i, j);
    }
    assert forall|j: int| 0 <= j < toks.len() && (#[trigger] toks[j]).closes() implies matched(
        toks,
        opener(toks, j),
        j,
    ) && closer(toks, opener(toks, j)) == j by {
        let i = choose|i: int| matched(toks, i, j);
        lemma_partners(toks, i, j);
    }
}

} // verus!
