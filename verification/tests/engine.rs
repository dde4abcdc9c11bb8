use tim::bf::{Interpreter, InterpreterError};

fn compile(src: &str) -> Interpreter {
    match Interpreter::try_from(src.to_string()) {
        Ok(vm) => vm,
        Err(e) => panic!("{:?}", e),
    }
}

#[test]
fn pointer_wraps_to_the_left() {
    let mut vm = compile("<");
    assert_eq!(vm.pointer(), 0);
    vm.tick();
    assert_eq!(vm.pointer(), 255);
    assert!(vm.halted());
}

#[test]
fn pointer_returns_after_a_full_circle() {
    let src = ">".repeat(256);
    let mut vm = compile(&src);
    for moved in 1..256usize {
        vm.tick();
        assert_eq!(vm.pointer() as usize, moved);
    }
    vm.tick();
    assert_eq!(vm.pointer(), 0);
    assert_eq!(vm.counter(), 256);
    assert_eq!(vm.memory(), &[0u8; 256]);
}

#[test]
fn pointer_wraps_to_the_right() {
    let mut vm = compile("<>");
    vm.tick();
    assert_eq!(vm.pointer(), 255);
    vm.tick();
    assert_eq!(vm.pointer(), 0);
}

#[test]
fn cell_wraps_upwards() {
    let src = "+".repeat(256);
    let mut vm = compile(&src);
    for _ in 0..255 {
        vm.tick();
    }
    assert_eq!(vm.memory()[0], 255);
    vm.tick();
    assert_eq!(vm.memory()[0], 0);
}

#[test]
fn cell_wraps_downwards() {
    let mut vm = compile("-+");
    vm.tick();
    assert_eq!(vm.memory()[0], 255);
    vm.tick();
    assert_eq!(vm.memory()[0], 0);
}

#[test]
fn cells_change_under_the_pointer_only() {
    let mut vm = compile(">>+++<-");
    assert_eq!(vm.run(100), Ok(String::new()));
    let mut expected = [0u8; 256];
    expected[2] = 3;
    expected[1] = 255;
    assert_eq!(vm.memory(), &expected);
    assert_eq!(vm.pointer(), 1);
}

#[test]
fn transfer_loop_writes_one_hundred() {
    let mut vm = compile("+++++ +++++ [> +++++ +++++ <-] >.");
    let out = vm.run(1_000_000).unwrap();
    let codes: Vec<u32> = out.chars().map(|c| c as u32).collect();
    assert_eq!(codes, vec![100]);
    assert_eq!(out, "d");
    assert!(vm.halted());
    assert_eq!(vm.memory()[0], 0);
    assert_eq!(vm.memory()[1], 100);
    assert_eq!(vm.pointer(), 1);
}

#[test]
fn endless_loop_reaches_the_tick_limit() {
    let mut vm = compile("+[]");
    assert_eq!(vm.run(100), Err(InterpreterError::TickLimitReached));
    assert!(!vm.halted());
    let mut vm = compile("+[]");
    assert_eq!(vm.run(1), Err(InterpreterError::TickLimitReached));
    assert_eq!(vm.counter(), 1);
}

#[test]
fn input_zeroes_the_cell() {
    let mut vm = compile(",.");
    let out = vm.run(10).unwrap();
    assert_eq!(out, "\0");
    let mut vm = compile("+++,.");
    assert_eq!(vm.run(10).unwrap(), "\0");
    assert_eq!(vm.memory()[0], 0);
}

#[test]
fn output_is_the_code_point_of_the_cell() {
    let mut vm = compile("-.");
    let out = vm.run(10).unwrap();
    assert_eq!(out, "\u{ff}");
    assert_eq!(out.chars().count(), 1);
    let mut vm = compile("--------.");
    assert_eq!(vm.run(100).unwrap(), "\u{f8}");
}

#[test]
fn output_keeps_the_order_of_writing() {
    let src = format!("{}.+.+.>.", "+".repeat(65));
    let mut vm = compile(&src);
    assert_eq!(vm.run(1000).unwrap(), "ABC\0");
    assert_eq!(vm.output(), "ABC\0");
}

#[test]
fn output_is_kept_when_the_limit_is_reached() {
    let src = format!("{}.[]", "+".repeat(72));
    let mut vm = compile(&src);
    assert_eq!(vm.run(500), Err(InterpreterError::TickLimitReached));
    assert_eq!(vm.output(), "H");
}

#[test]
fn tick_executes_one_instruction() {
    let mut vm = compile("+>-");
    vm.tick();
    assert_eq!((vm.counter(), vm.pointer(), vm.memory()[0]), (1, 0, 1));
    vm.tick();
    assert_eq!((vm.counter(), vm.pointer(), vm.memory()[1]), (2, 1, 0));
    vm.tick();
    assert_eq!((vm.counter(), vm.pointer(), vm.memory()[1]), (3, 1, 255));
    assert!(vm.halted());
}

#[test]
fn tick_on_a_halted_machine_changes_nothing() {
    let mut vm = compile("+.");
    assert_eq!(vm.run(10).unwrap(), "\u{1}");
    let (counter, pointer, memory, output) =
        (vm.counter(), vm.pointer(), *vm.memory(), vm.output());
    vm.tick();
    vm.tick();
    assert_eq!(vm.counter(), counter);
    assert_eq!(vm.pointer(), pointer);
    assert_eq!(vm.memory(), &memory);
    assert_eq!(vm.output(), output);
    assert_eq!(vm.run(5), Ok(output));
}

#[test]
fn branch_if_zero_jumps_behind_the_loop() {
    let mut vm = compile("[+++]>");
    vm.tick();
    assert_eq!(vm.counter(), 5);
    assert_eq!(vm.memory()[0], 0);
    vm.tick();
    assert_eq!(vm.pointer(), 1);
    assert!(vm.halted());
}

#[test]
fn branch_if_zero_falls_through_on_nonzero() {
    let mut vm = compile("+[-]");
    vm.tick();
    vm.tick();
    assert_eq!(vm.counter(), 2);
}

#[test]
fn branch_if_nonzero_jumps_back_into_the_loop() {
    let mut vm = compile("++[-]");
    for _ in 0..5 {
        vm.tick();
    }
    assert_eq!(vm.counter(), 3);
    assert_eq!(vm.memory()[0], 1);
    for _ in 0..2 {
        vm.tick();
    }
    assert_eq!(vm.counter(), 5);
    assert_eq!(vm.memory()[0], 0);
    assert!(vm.halted());
}

#[test]
fn run_stops_when_the_machine_halts() {
    let mut vm = compile("+++");
    assert_eq!(vm.run(usize::MAX), Ok(String::new()));
    assert_eq!(vm.counter(), 3);
    assert_eq!(vm.memory()[0], 3);
}

#[test]
fn run_with_the_exact_number_of_steps_returns_the_output() {
    let mut vm = compile("+.");
    assert_eq!(vm.run(2), Ok("\u{1}".to_string()));
    let mut vm = compile("+.");
    assert_eq!(vm.run(1), Err(InterpreterError::TickLimitReached));
    assert_eq!(vm.run(1), Ok("\u{1}".to_string()));
}

#[test]
fn run_without_steps() {
    let mut vm = compile("");
    assert_eq!(vm.run(0), Ok(String::new()));
    let mut vm = compile("+");
    assert_eq!(vm.run(0), Err(InterpreterError::TickLimitReached));
    assert_eq!(vm.counter(), 0);
    assert_eq!(vm.memory()[0], 0);
}

#[test]
fn run_continues_where_it_stopped() {
    let src = "+++++ +++++ [> +++++ +++++ <-] >.";
    let mut whole = compile(src);
    let expected = whole.run(10_000).unwrap();
    let mut parts = compile(src);
    let mut rounds = 0;
    let out = loop {
        rounds += 1;
        match parts.run(7) {
            Ok(out) => break out,
            Err(e) => assert_eq!(e, InterpreterError::TickLimitReached),
        }
    };
    assert_eq!(out, expected);
    assert!(rounds > 1);
    assert_eq!(parts.memory(), whole.memory());
    assert_eq!(parts.counter(), whole.counter());
}

#[test]
fn hello_world() {
    let src = "++++++++[>++++[>++>+++>+++>+<<<<-]>+>+>->>+[<]<-]>>.>---.+++++++..+++.\
               >>.<-.<.+++.------.--------.>>+.>++.";
    let mut vm = compile(src);
    assert_eq!(vm.run(8192).unwrap(), "Hello World!\n");
}
