use tapevm::lexer::PLACEHOLDER;
use tapevm::{Lexer, Op, OpKind};

fn chars_of(text: &str) -> Vec<char> {
    text.chars().collect()
}

fn lex_all(text: &str) -> Vec<Op> {
    let source = chars_of(text);
    let mut lexer = Lexer::new(&source);
    let mut ops = Vec::new();
    while let Some(op) = lexer.next() {
        ops.push(op);
    }
    ops
}

#[test]
fn as_char_gives_each_symbol() {
    assert_eq!(OpKind::Add.as_char(), '+');
    assert_eq!(OpKind::Sub.as_char(), '-');
    assert_eq!(OpKind::Left.as_char(), '<');
    assert_eq!(OpKind::Right.as_char(), '>');
    assert_eq!(OpKind::Input.as_char(), ',');
    assert_eq!(OpKind::Output.as_char(), '.');
    assert_eq!(OpKind::JmpZero.as_char(), '[');
    assert_eq!(OpKind::JmpNonZero.as_char(), ']');
}

#[test]
fn from_reads_each_symbol() {
    assert_eq!(OpKind::from('+'), OpKind::Add);
    assert_eq!(OpKind::from('-'), OpKind::Sub);
    assert_eq!(OpKind::from('<'), OpKind::Left);
    assert_eq!(OpKind::from('>'), OpKind::Right);
    assert_eq!(OpKind::from(','), OpKind::Input);
    assert_eq!(OpKind::from('.'), OpKind::Output);
    assert_eq!(OpKind::from('['), OpKind::JmpZero);
    assert_eq!(OpKind::from(']'), OpKind::JmpNonZero);
}

#[test]
fn symbol_round_trip() {
    for ch in ['+', '-', '<', '>', ',', '.', '[', ']'] {
        assert!(OpKind::is_op(ch));
        assert_eq!(OpKind::from(ch).as_char(), ch);
    }
}

#[test]
fn is_op_accepts_the_eight_symbols_only() {
    for ch in ['+', '-', '<', '>', ',', '.', '[', ']'] {
        assert!(OpKind::is_op(ch));
    }
    for ch in ['a', ' ', '\n', '0', '(', ')', '{', '}', '*', '/', '\u{e9}', '\0'] {
        assert!(!OpKind::is_op(ch));
    }
}

#[test]
fn from_char_builds_the_instruction() {
    assert_eq!(Op::from_char('+', 3), Op::Add(3));
    assert_eq!(Op::from_char('-', 1), Op::Sub(1));
    assert_eq!(Op::from_char('<', 7), Op::MoveLeft(7));
    assert_eq!(Op::from_char('>', 2), Op::MoveRight(2));
    assert_eq!(Op::from_char(',', 4), Op::Input(4));
    assert_eq!(Op::from_char('.', 5), Op::Output(5));
    assert_eq!(Op::from_char('[', 0), Op::JumpIfZero(0));
    assert_eq!(Op::from_char(']', 9), Op::JumpIfNonZero(9));
}

#[test]
fn kind_and_value_take_an_instruction_apart() {
    let op = Op::MoveRight(12);
    assert_eq!(op.kind(), OpKind::Right);
    assert_eq!(op.value(), 12);
    assert_eq!(Op::new(op.kind(), op.value()), op);
    assert_eq!(Op::JumpIfNonZero(4).kind(), OpKind::JmpNonZero);
    assert_eq!(Op::JumpIfNonZero(4).value(), 4);
}

#[test]
fn empty_source_has_no_instructions() {
    let source: Vec<char> = Vec::new();
    let mut lexer = Lexer::new(&source);
    assert_eq!(lexer.pos(), 0);
    assert_eq!(lexer.next(), None);
    assert_eq!(lexer.pos(), 0);
    assert_eq!(lexer.next(), None);
}

#[test]
fn comments_alone_have_no_instructions() {
    let source = chars_of("hello world\n");
    let mut lexer = Lexer::new(&source);
    assert_eq!(lexer.next(), None);
    assert_eq!(lexer.pos(), 12);
}

#[test]
fn a_run_folds_into_one_instruction() {
    assert_eq!(lex_all("+++"), vec![Op::Add(3)]);
    assert_eq!(lex_all("-----"), vec![Op::Sub(5)]);
    assert_eq!(lex_all("<<"), vec![Op::MoveLeft(2)]);
    assert_eq!(lex_all(">>>>"), vec![Op::MoveRight(4)]);
    assert_eq!(lex_all(",,"), vec![Op::Input(2)]);
    assert_eq!(lex_all("......"), vec![Op::Output(6)]);
}

#[test]
fn a_run_of_one_counts_one() {
    assert_eq!(lex_all("+"), vec![Op::Add(1)]);
    assert_eq!(lex_all("."), vec![Op::Output(1)]);
}

#[test]
fn another_operator_breaks_the_run() {
    assert_eq!(lex_all("+-+"), vec![Op::Add(1), Op::Sub(1), Op::Add(1)]);
    assert_eq!(lex_all("++--"), vec![Op::Add(2), Op::Sub(2)]);
    assert_eq!(lex_all("><"), vec![Op::MoveRight(1), Op::MoveLeft(1)]);
}

#[test]
fn a_comment_breaks_the_run() {
    assert_eq!(lex_all("++ +"), vec![Op::Add(2), Op::Add(1)]);
    assert_eq!(lex_all("a+b+c"), vec![Op::Add(1), Op::Add(1)]);
}

#[test]
fn brackets_are_never_folded() {
    assert_eq!(PLACEHOLDER, 0);
    assert_eq!(lex_all("[["), vec![Op::JumpIfZero(0), Op::JumpIfZero(0)]);
    assert_eq!(lex_all("]]]"), vec![Op::JumpIfNonZero(0); 3]);
    assert_eq!(
        lex_all("[-]"),
        vec![Op::JumpIfZero(0), Op::Sub(1), Op::JumpIfNonZero(0)]
    );
}

#[test]
fn position_follows_the_tokens() {
    let source = chars_of("  ++x[ .. ]yz");
    let mut lexer = Lexer::new(&source);
    assert_eq!(lexer.pos(), 0);
    assert_eq!(lexer.next(), Some(Op::Add(2)));
    assert_eq!(lexer.pos(), 4);
    assert_eq!(lexer.next(), Some(Op::JumpIfZero(0)));
    assert_eq!(lexer.pos(), 6);
    assert_eq!(lexer.next(), Some(Op::Output(2)));
    assert_eq!(lexer.pos(), 9);
    assert_eq!(lexer.next(), Some(Op::JumpIfNonZero(0)));
    assert_eq!(lexer.pos(), 11);
    assert_eq!(lexer.next(), None);
    assert_eq!(lexer.pos(), 13);
    assert_eq!(lexer.next(), None);
    assert_eq!(lexer.pos(), 13);
}

#[test]
fn lexing_starts_over_with_a_new_lexer() {
    let source = chars_of("+>+");
    let first = {
        let mut lexer = Lexer::new(&source);
        lexer.next()
    };
    let mut again = Lexer::new(&source);
    assert_eq!(again.next(), first);
    assert_eq!(again.next(), Some(Op::MoveRight(1)));
}

#[test]
fn a_long_run_carries_its_length() {
    let text = "+".repeat(100_000);
    assert_eq!(lex_all(&text), vec![Op::Add(100_000)]);
}
