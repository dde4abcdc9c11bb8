use tim::bf::{Interpreter, InterpreterError, Symbol};

fn compile(src: &str) -> Interpreter {
    match Interpreter::try_from(src.to_string()) {
        Ok(vm) => vm,
        Err(e) => panic!("{:?}", e),
    }
}

fn error_of(src: &str) -> InterpreterError {
    match Interpreter::try_from(src.to_string()) {
        Ok(_) => panic!("compiled"),
        Err(e) => e,
    }
}

#[test]
fn closing_bracket_alone_is_unbalanced() {
    assert_eq!(error_of("]"), InterpreterError::UnbalancedBrackets);
}

#[test]
fn opening_bracket_alone_is_unbalanced() {
    assert_eq!(error_of("["), InterpreterError::UnbalancedBrackets);
}

#[test]
fn empty_loop_compiles() {
    let vm = compile("[]");
    assert_eq!(vm.code(), &vec![Symbol::BranchZero(1), Symbol::BranchNonzero(0)]);
}

#[test]
fn closing_before_opening_is_unbalanced() {
    assert_eq!(error_of("]["), InterpreterError::UnbalancedBrackets);
    assert_eq!(error_of("+]+[+"), InterpreterError::UnbalancedBrackets);
}

#[test]
fn one_bracket_too_many_is_unbalanced() {
    assert_eq!(error_of("[[]"), InterpreterError::UnbalancedBrackets);
    assert_eq!(error_of("[]]"), InterpreterError::UnbalancedBrackets);
    assert_eq!(error_of("[][][]["), InterpreterError::UnbalancedBrackets);
}

#[test]
fn equal_counts_badly_nested_are_unbalanced() {
    assert_eq!(error_of("[]]["), InterpreterError::UnbalancedBrackets);
}

#[test]
fn empty_source_compiles_to_nothing() {
    let vm = compile("");
    assert!(vm.code().is_empty());
    assert!(vm.halted());
}

#[test]
fn each_command_has_its_symbol() {
    let vm = compile("><+-.,");
    assert_eq!(
        vm.code(),
        &vec![
            Symbol::Right,
            Symbol::Left,
            Symbol::Increment,
            Symbol::Decrement,
            Symbol::Output,
            Symbol::Input,
        ]
    );
}

#[test]
fn comments_are_dropped() {
    let vm = compile("move > right, then [ loop\n\t- ] done! \u{e9}\u{4e16}");
    assert_eq!(
        vm.code(),
        &vec![
            Symbol::Right,
            Symbol::Input,
            Symbol::BranchZero(4),
            Symbol::Decrement,
            Symbol::BranchNonzero(2),
        ]
    );
    assert!(compile("no commands here").code().is_empty());
}

#[test]
fn nested_brackets_pair_innermost_first() {
    let vm = compile("[[][[]]]+[-]");
    assert_eq!(
        vm.code(),
        &vec![
            Symbol::BranchZero(7),
            Symbol::BranchZero(2),
            Symbol::BranchNonzero(1),
            Symbol::BranchZero(6),
            Symbol::BranchZero(5),
            Symbol::BranchNonzero(4),
            Symbol::BranchNonzero(3),
            Symbol::BranchNonzero(0),
            Symbol::Increment,
            Symbol::BranchZero(11),
            Symbol::Decrement,
            Symbol::BranchNonzero(9),
        ]
    );
}

#[test]
fn branch_targets_point_at_each_other() {
    let sources = [
        "[]",
        "[[]]",
        "[][]",
        "+[>+[>+<-]<-]",
        "a[b[c]d[e[f]g]h]i",
        "+++++ +++++ [> +++++ +++++ <-] >.",
    ];
    for src in sources {
        let vm = compile(src);
        let code = vm.code();
        for (i, symbol) in code.iter().enumerate() {
            match *symbol {
                Symbol::BranchZero(target) => {
                    assert!(i < target && target < code.len());
                    assert_eq!(code[target], Symbol::BranchNonzero(i));
                }
                Symbol::BranchNonzero(target) => {
                    assert!(target < i);
                    assert_eq!(code[target], Symbol::BranchZero(i));
                }
                _ => {}
            }
        }
    }
}

#[test]
fn compiling_twice_gives_the_same_program() {
    let sources = ["", "+-", "[]", "+[>+[>+<-]<-] text", "[[[[]]]]", ">>>,.<<<"];
    for src in sources {
        let first = compile(src);
        let second = compile(src);
        assert_eq!(first.code(), second.code());
        assert_eq!(first.counter(), second.counter());
        assert_eq!(first.pointer(), second.pointer());
        assert_eq!(first.memory(), second.memory());
        assert_eq!(first.output(), second.output());
    }
    assert_eq!(error_of("[[]"), error_of("[[]"));
}

#[test]
fn a_fresh_machine_is_zeroed() {
    let vm = compile("+[>+<-]");
    assert_eq!(vm.counter(), 0);
    assert_eq!(vm.pointer(), 0);
    assert_eq!(vm.memory(), &[0u8; 256]);
    assert_eq!(vm.output(), "");
    assert!(!vm.halted());
}

#[test]
fn errors_have_names() {
    assert_eq!(InterpreterError::UnbalancedBrackets.name(), "UnbalancedBrackets");
    assert_eq!(InterpreterError::TickLimitReached.name(), "TickLimitReached");
    assert_eq!(
        format!("{:?}", InterpreterError::UnbalancedBrackets),
        InterpreterError::UnbalancedBrackets.name()
    );
    assert_eq!(
        format!("{:?}", InterpreterError::TickLimitReached),
        InterpreterError::TickLimitReached.name()
    );
}
