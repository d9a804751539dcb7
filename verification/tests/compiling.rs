use tapevm::{Addrs, CompileError, Op, Ops};

fn source_of(text: &str) -> Vec<char> {
    text.chars().collect()
}

fn compile(text: &str) -> Result<Ops, CompileError> {
    let mut ops = Ops::new();
    ops.gen_from_chars(&source_of(text))?;
    Ok(ops)
}

fn compiled(text: &str) -> Vec<Op> {
    match compile(text) {
        Ok(ops) => ops.as_slice().to_vec(),
        Err(error) => panic!("{:?} does not compile: {:?}", text, error),
    }
}

fn position_of_error(text: &str) -> usize {
    match compile(text) {
        Ok(_) => panic!("{:?} compiles", text),
        Err(CompileError::UnbalancedLoop { position }) => position,
    }
}

#[test]
fn new_stack_is_empty() {
    let mut stack = Addrs::new();
    assert_eq!(stack.len(), 0);
    assert_eq!(stack.pop(), None);
    assert_eq!(stack.len(), 0);
}

#[test]
fn stack_gives_back_last_in_first() {
    let mut stack = Addrs::new();
    stack.push(4);
    stack.push(9);
    stack.push(2);
    assert_eq!(stack.len(), 3);
    assert_eq!(stack.pop(), Some(2));
    assert_eq!(stack.pop(), Some(9));
    stack.push(7);
    assert_eq!(stack.pop(), Some(7));
    assert_eq!(stack.pop(), Some(4));
    assert_eq!(stack.pop(), None);
}

#[test]
fn new_program_is_empty() {
    let ops = Ops::new();
    assert_eq!(ops.len(), 0);
    assert_eq!(ops.get(0), None);
    assert!(ops.as_slice().is_empty());
}

#[test]
fn get_reads_inside_the_program_only() {
    let ops = compile("+>").unwrap();
    assert_eq!(ops.len(), 2);
    assert_eq!(ops.get(0), Some(Op::Add(1)));
    assert_eq!(ops.get(1), Some(Op::MoveRight(1)));
    assert_eq!(ops.get(2), None);
    assert_eq!(ops.get(usize::MAX), None);
}

#[test]
fn push_appends_as_is() {
    let mut ops = Ops::new();
    ops.push(Op::JumpIfZero(40));
    ops.push(Op::Add(2));
    assert_eq!(ops.as_slice(), &[Op::JumpIfZero(40), Op::Add(2)]);
}

#[test]
fn empty_source_compiles_to_empty_program() {
    assert_eq!(compiled(""), vec![]);
    assert_eq!(compiled("no operators here"), vec![]);
}

#[test]
fn three_plus_compile_to_one_add() {
    assert_eq!(compiled("+++"), vec![Op::Add(3)]);
}

#[test]
fn plus_minus_plus_compile_to_three() {
    assert_eq!(compiled("+-+"), vec![Op::Add(1), Op::Sub(1), Op::Add(1)]);
}

#[test]
fn a_loop_is_resolved() {
    assert_eq!(
        compiled("[-]"),
        vec![Op::JumpIfZero(3), Op::Sub(1), Op::JumpIfNonZero(1)]
    );
}

#[test]
fn an_empty_loop_is_resolved() {
    assert_eq!(compiled("[]"), vec![Op::JumpIfZero(2), Op::JumpIfNonZero(1)]);
}

#[test]
fn nested_loops_are_resolved() {
    assert_eq!(
        compiled("[[]]"),
        vec![
            Op::JumpIfZero(4),
            Op::JumpIfZero(3),
            Op::JumpIfNonZero(2),
            Op::JumpIfNonZero(1),
        ]
    );
}

#[test]
fn loops_side_by_side_are_resolved() {
    assert_eq!(
        compiled("[][+]"),
        vec![
            Op::JumpIfZero(2),
            Op::JumpIfNonZero(1),
            Op::JumpIfZero(5),
            Op::Add(1),
            Op::JumpIfNonZero(3),
        ]
    );
}

#[test]
fn the_multiplication_program_is_resolved() {
    assert_eq!(
        compiled("++++++++[>++++++++<-]>."),
        vec![
            Op::Add(8),
            Op::JumpIfZero(7),
            Op::MoveRight(1),
            Op::Add(8),
            Op::MoveLeft(1),
            Op::Sub(1),
            Op::JumpIfNonZero(2),
            Op::MoveRight(1),
            Op::Output(1),
        ]
    );
}

#[test]
fn comments_do_not_move_the_targets() {
    assert_eq!(
        compiled("set to zero: [ - ] done"),
        vec![Op::JumpIfZero(3), Op::Sub(1), Op::JumpIfNonZero(1)]
    );
}

#[test]
fn brackets_point_at_each_other() {
    let ops = compiled("+[>[-]<[[+>]<]-]>[.,]++[[[]]]");
    let mut pairs = 0;
    for (i, op) in ops.iter().enumerate() {
        match *op {
            Op::JumpIfZero(target) => {
                assert!(target >= 1 && target <= ops.len());
                assert!(target - 1 > i);
                assert_eq!(ops[target - 1], Op::JumpIfNonZero(i + 1));
                pairs += 1;
            }
            Op::JumpIfNonZero(target) => {
                assert!(target >= 1 && target <= i);
                assert_eq!(ops[target - 1], Op::JumpIfZero(i + 1));
            }
            _ => {}
        }
    }
    assert_eq!(pairs, 8);
}

#[test]
fn a_stray_close_is_refused() {
    assert_eq!(
        compile("]").err(),
        Some(CompileError::UnbalancedLoop { position: 1 })
    );
}

#[test]
fn a_stray_close_names_the_place_behind_it() {
    assert_eq!(position_of_error("+]"), 2);
    assert_eq!(position_of_error("ab]cd"), 3);
    assert_eq!(position_of_error("[]]"), 3);
    assert_eq!(position_of_error("[]] ]"), 3);
    assert_eq!(position_of_error("+++ [-] ] ["), 9);
    assert_eq!(position_of_error("]["), 1);
}

#[test]
fn an_open_loop_is_refused() {
    assert_eq!(
        compile("[").err(),
        Some(CompileError::UnbalancedLoop { position: 1 })
    );
}

#[test]
fn an_open_loop_names_the_end_of_the_source() {
    assert_eq!(position_of_error("[[]"), 3);
    assert_eq!(position_of_error("[+"), 2);
    assert_eq!(position_of_error("[+ tail"), 7);
    assert_eq!(position_of_error("[][[][]"), 7);
}

#[test]
fn balanced_sources_compile() {
    for text in ["", "[]", "[[]]", "[][]", "+[-[>]<]", "[[[[[[[[]]]]]]]]", "a[b]c"] {
        assert!(compile(text).is_ok(), "{:?}", text);
    }
}

#[test]
fn unbalanced_sources_do_not_compile() {
    for text in ["[", "]", "][", "[]]", "[[]", "+[-[>]<", "]]]]", "[[[[", "[]][[]"] {
        assert!(compile(text).is_err(), "{:?}", text);
    }
}

#[test]
fn an_error_leaves_the_program_as_it_was() {
    let mut ops = Ops::new();
    ops.gen_from_chars(&source_of("+>")).unwrap();
    let before = ops.as_slice().to_vec();
    assert!(ops.gen_from_chars(&source_of("-[[.]")).is_err());
    assert_eq!(ops.as_slice(), &before[..]);
    assert!(ops.gen_from_chars(&source_of("-[.]]")).is_err());
    assert_eq!(ops.as_slice(), &before[..]);
}

#[test]
fn a_second_source_is_appended_with_absolute_targets() {
    let mut ops = Ops::new();
    ops.gen_from_chars(&source_of("+")).unwrap();
    ops.gen_from_chars(&source_of("[-]")).unwrap();
    assert_eq!(
        ops.as_slice(),
        &[
            Op::Add(1),
            Op::JumpIfZero(4),
            Op::Sub(1),
            Op::JumpIfNonZero(2),
        ]
    );
}

#[test]
fn deep_nesting_is_resolved() {
    let depth = 2000;
    let text = "[".repeat(depth) + &"]".repeat(depth);
    let ops = compiled(&text);
    assert_eq!(ops.len(), 2 * depth);
    for i in 0..depth {
        assert_eq!(ops[i], Op::JumpIfZero(2 * depth - i));
        assert_eq!(ops[2 * depth - 1 - i], Op::JumpIfNonZero(i + 1));
    }
}
