use tapevm::{CellSize, CompileError, Fault, Machine, Op, Ops, Status};

fn ops_from(text: &str) -> Result<Ops, CompileError> {
    let source: Vec<char> = text.chars().collect();
    let mut ops = Ops::new();
    ops.gen_from_chars(&source)?;
    Ok(ops)
}

fn as_text(chars: Vec<char>) -> String {
    chars.into_iter().collect()
}

#[test]
fn eight_times_eight_puts_out_an_at_sign() {
    let ops = ops_from("++++++++[>++++++++<-]>.").unwrap();
    let (machine, _) = ops.interpret(CellSize::U8, &[], 100_000);
    assert_eq!(machine.status(&ops), Status::Halted);
    assert_eq!(machine.output(), &[64]);
    assert_eq!(machine.output(), b"@");
    assert_eq!(machine.tape(), &[0, 64]);
}

#[test]
fn the_empty_source_halts_at_once() {
    let ops = ops_from("").unwrap();
    assert_eq!(ops.len(), 0);
    let (machine, steps) = ops.interpret(CellSize::U8, &[], 100);
    assert_eq!(steps, 0);
    assert_eq!(machine.status(&ops), Status::Halted);
    assert!(machine.output().is_empty());
    assert_eq!(machine.tape(), &[0]);
}

#[test]
fn a_byte_read_is_put_out_unchanged() {
    let ops = ops_from(",.").unwrap();
    let (machine, steps) = ops.interpret(CellSize::U8, &[65], 100);
    assert_eq!(steps, 2);
    assert_eq!(machine.status(&ops), Status::Halted);
    assert_eq!(machine.output(), &[65]);
    assert_eq!(machine.consumed(), 1);
}

#[test]
fn reading_without_input_faults_before_any_output() {
    let ops = ops_from(",.").unwrap();
    let (machine, steps) = ops.interpret(CellSize::U8, &[], 100);
    assert_eq!(steps, 1);
    assert_eq!(machine.status(&ops), Status::Faulted(Fault::InputExhausted));
    assert!(machine.output().is_empty());
}

#[test]
fn hello_world_runs() {
    let text = "++++++++[>++++[>++>+++>+++>+<<<<-]>+>+>->>+[<]<-]>>.>---.+++++++..+++.\
                >>.<-.<.+++.------.--------.>>+.>++.";
    let ops = ops_from(text).unwrap();
    let (machine, _) = ops.interpret(CellSize::U8, &[], 1_000_000);
    assert_eq!(machine.status(&ops), Status::Halted);
    assert_eq!(machine.output(), b"Hello World!\n");
}

#[test]
fn input_is_echoed_until_a_zero_byte() {
    let ops = ops_from(",[.,]").unwrap();
    let (machine, _) = ops.interpret(CellSize::U8, b"tape\0rest", 1000);
    assert_eq!(machine.status(&ops), Status::Halted);
    assert_eq!(machine.output(), b"tape");
    assert_eq!(machine.consumed(), 5);
}

#[test]
fn the_width_decides_when_a_countdown_ends() {
    let ops = ops_from("-[-]").unwrap();
    let (narrow, narrow_steps) = ops.interpret(CellSize::U8, &[], 10_000_000);
    let (wide, wide_steps) = ops.interpret(CellSize::U16, &[], 10_000_000);
    assert_eq!(narrow.status(&ops), Status::Halted);
    assert_eq!(wide.status(&ops), Status::Halted);
    assert_eq!(narrow_steps, 2 + 2 * 255);
    assert_eq!(wide_steps, 2 + 2 * 65535);
}

#[test]
fn stepping_by_hand_follows_the_program() {
    let ops = ops_from("+[-]").unwrap();
    let mut machine = Machine::new(CellSize::U8);
    let mut trace = vec![machine.pc()];
    while machine.status(&ops) == Status::Running {
        assert!(machine.step(&ops, &[]));
        trace.push(machine.pc());
    }
    assert_eq!(trace, vec![0, 1, 2, 3, 4]);
}

#[test]
fn a_listing_shows_symbols_and_numbers() {
    let ops = ops_from("+++[-]").unwrap();
    assert_eq!(
        as_text(ops.render()),
        "Ops \n+ -> 3\n[ -> 4\n- -> 1\n] -> 2\n"
    );
}

#[test]
fn a_listing_of_nothing_is_the_heading() {
    assert_eq!(as_text(Ops::new().render()), "Ops \n");
}

#[test]
fn a_listing_writes_numbers_in_decimal() {
    let mut ops = Ops::new();
    for value in [0, 9, 10, 99, 100, 12345, 1_000_000, usize::MAX] {
        ops.push(Op::Output(value));
    }
    let mut expected = String::from("Ops \n");
    for value in [0, 9, 10, 99, 100, 12345, 1_000_000, usize::MAX] {
        expected.push_str(&format!(". -> {}\n", value));
    }
    assert_eq!(as_text(ops.render()), expected);
}

#[test]
fn a_listing_names_every_operator() {
    let ops = ops_from("+-<>,.[]").unwrap();
    assert_eq!(
        as_text(ops.render()),
        "Ops \n+ -> 1\n- -> 1\n< -> 1\n> -> 1\n, -> 1\n. -> 1\n[ -> 8\n] -> 7\n"
    );
}
