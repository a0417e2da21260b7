use brainfuck::compile;
use brainfuck::BrainfuckError;
use brainfuck::BrainfuckInterpreter;
use brainfuck::BrainfuckOperation;
use brainfuck::BrainfuckOperation::{
    DecrementData, IncrementData, LoopEnd, LoopStart, MovePointerLeft, MovePointerRight, Print,
    Read,
};

#[test]
fn empty_source_compiles_to_no_operations() {
    assert_eq!(compile(""), Ok(vec![]));
}

#[test]
fn each_command_becomes_its_operation_in_order() {
    assert_eq!(
        compile("><+-.,"),
        Ok(vec![
            MovePointerRight,
            MovePointerLeft,
            IncrementData,
            DecrementData,
            Print,
            Read
        ])
    );
}

#[test]
fn other_characters_are_skipped() {
    assert_eq!(compile("hello world!\n\t 0123 {}()"), Ok(vec![]));
    assert_eq!(
        compile("add one: + then print it: . done"),
        Ok(vec![IncrementData, Print])
    );
}

#[test]
fn characters_beyond_ascii_are_skipped() {
    assert_eq!(
        compile("\u{e9}+\u{20ac}-\u{1f600}"),
        Ok(vec![IncrementData, DecrementData])
    );
}

#[test]
fn a_loop_links_both_brackets() {
    assert_eq!(
        compile("+[-]"),
        Ok(vec![
            IncrementData,
            LoopStart(Some(3)),
            DecrementData,
            LoopEnd(Some(1))
        ])
    );
}

#[test]
fn an_empty_loop_links_both_brackets() {
    assert_eq!(compile("[]"), Ok(vec![LoopStart(Some(1)), LoopEnd(Some(0))]));
}

#[test]
fn nested_loops_close_innermost_first() {
    assert_eq!(
        compile("[[]]"),
        Ok(vec![
            LoopStart(Some(3)),
            LoopStart(Some(2)),
            LoopEnd(Some(1)),
            LoopEnd(Some(0))
        ])
    );
    assert_eq!(
        compile("[>[+]<[-]]"),
        Ok(vec![
            LoopStart(Some(9)),
            MovePointerRight,
            LoopStart(Some(4)),
            IncrementData,
            LoopEnd(Some(2)),
            MovePointerLeft,
            LoopStart(Some(8)),
            DecrementData,
            LoopEnd(Some(6)),
            LoopEnd(Some(0))
        ])
    );
}

#[test]
fn loops_side_by_side_are_linked_separately() {
    assert_eq!(
        compile("[][]"),
        Ok(vec![
            LoopStart(Some(1)),
            LoopEnd(Some(0)),
            LoopStart(Some(3)),
            LoopEnd(Some(2))
        ])
    );
}

#[test]
fn links_count_operations_not_source_characters() {
    assert_eq!(
        compile("first [ then - and ] last"),
        Ok(vec![LoopStart(Some(2)), DecrementData, LoopEnd(Some(0))])
    );
    assert_eq!(
        compile("x+y[z-w]"),
        Ok(vec![
            IncrementData,
            LoopStart(Some(3)),
            DecrementData,
            LoopEnd(Some(1))
        ])
    );
}

#[test]
fn every_bracket_points_at_a_bracket_that_points_back() {
    let source = "++++++++[>++++[>++>+++>+++>+<<<<-]>+>+>->>+[<]<-]>>.>---.+++++++..+++.>>.<-.<.+++.------.--------.>>+.>++.";
    let ops = compile(source).unwrap();
    assert_eq!(ops.len(), source.len());
    let mut loops = 0;
    for (k, op) in ops.iter().enumerate() {
        match op {
            LoopStart(Some(close)) => {
                assert!(*close > k);
                assert_eq!(ops[*close], LoopEnd(Some(k)));
                loops += 1;
            }
            LoopEnd(Some(open)) => {
                assert!(*open < k);
                assert_eq!(ops[*open], LoopStart(Some(k)));
            }
            LoopStart(None) | LoopEnd(None) => panic!("bracket {} is not linked", k),
            _ => {}
        }
    }
    assert_eq!(loops, 3);
    assert_eq!(ops[8], LoopStart(Some(48)));
    assert_eq!(ops[14], LoopStart(Some(33)));
    assert_eq!(ops[43], LoopStart(Some(45)));
}

#[test]
fn a_closing_bracket_without_an_opening_one_is_refused() {
    assert_eq!(compile("]"), Err(BrainfuckError::MismatchedBracket));
    assert_eq!(compile("+]"), Err(BrainfuckError::MismatchedBracket));
    assert_eq!(compile("[]]"), Err(BrainfuckError::MismatchedBracket));
    assert_eq!(compile("]["), Err(BrainfuckError::MismatchedBracket));
    assert_eq!(compile("[-]+]+[-]"), Err(BrainfuckError::MismatchedBracket));
}

#[test]
fn an_opening_bracket_left_open_is_refused() {
    assert_eq!(compile("["), Err(BrainfuckError::MismatchedBracket));
    assert_eq!(compile("+[-"), Err(BrainfuckError::MismatchedBracket));
    assert_eq!(compile("[[]"), Err(BrainfuckError::MismatchedBracket));
    assert_eq!(compile("[][[]"), Err(BrainfuckError::MismatchedBracket));
    assert_eq!(compile("[ comment"), Err(BrainfuckError::MismatchedBracket));
}

#[test]
fn a_new_interpreter_holds_the_compiled_program() {
    let interpreter = BrainfuckInterpreter::new("+[-]").unwrap();
    assert_eq!(interpreter.operations(), &compile("+[-]").unwrap());
    assert_eq!(interpreter.instruction_pointer(), 0);
    assert_eq!(interpreter.data_pointer(), 0);
}

#[test]
fn a_new_interpreter_starts_on_a_tape_of_zeros() {
    let interpreter = BrainfuckInterpreter::new("").unwrap();
    assert!(interpreter.operations().is_empty());
    for index in 0..30000 {
        assert_eq!(interpreter.cell(index), Some(0));
    }
    assert_eq!(interpreter.cell(30000), None);
    assert_eq!(brainfuck::TAPE_LENGTH, 30000);
}

#[test]
fn a_new_interpreter_refuses_mismatched_brackets() {
    assert_eq!(
        BrainfuckInterpreter::new("+]").err(),
        Some(BrainfuckError::MismatchedBracket)
    );
    assert_eq!(
        BrainfuckInterpreter::new("[+").err(),
        Some(BrainfuckError::MismatchedBracket)
    );
    assert!(BrainfuckInterpreter::new("[+]").is_ok());
}

#[test]
fn operations_compare_by_kind_and_link() {
    assert_eq!(LoopStart(Some(1)), LoopStart(Some(1)));
    assert_ne!(LoopStart(Some(1)), LoopStart(Some(2)));
    assert_ne!(LoopStart(Some(1)), LoopEnd(Some(1)));
    assert_ne!(LoopStart(None), LoopStart(Some(0)));
    let op: BrainfuckOperation = Print;
    assert_eq!(op.clone(), Print);
}
