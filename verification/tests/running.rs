use brainfuck::input_byte;
use brainfuck::Action;
use brainfuck::BrainfuckError;
use brainfuck::BrainfuckInterpreter;
use brainfuck::BrainfuckOperation;
use brainfuck::RunStatus;

const HELLO_WORLD: &str = "++++++++[>++++[>++>+++>+++>+<<<<-]>+>+>->>+[<]<-]>>.>---.+++++++..+++.>>.<-.<.+++.------.--------.>>+.>++.";

fn machine(code: &str) -> BrainfuckInterpreter {
    BrainfuckInterpreter::new(code).unwrap()
}

#[test]
fn two_increments_and_a_print() {
    let mut m = machine("++.");
    let report = m.run(&[], 100);
    assert_eq!(report.status, RunStatus::Finished);
    assert_eq!(report.output, vec![2]);
    assert_eq!(report.consumed, 0);
    assert_eq!(m.cell(0), Some(2));
    assert_eq!(m.instruction_pointer(), 3);
}

#[test]
fn a_loop_that_clears_the_cell() {
    let mut m = machine("+[-]");
    let report = m.run(&[], 100);
    assert_eq!(report.status, RunStatus::Finished);
    assert_eq!(report.output, Vec::<u8>::new());
    assert_eq!(m.cell(0), Some(0));
    assert_eq!(m.instruction_pointer(), 4);
}

#[test]
fn a_loop_that_clears_the_cell_runs_its_body_once() {
    let mut m = machine("+[-]");
    let mut visited = vec![];
    loop {
        visited.push(m.instruction_pointer());
        match m.step() {
            Ok(Action::Halt) => break,
            Ok(Action::Continue) => {}
            other => panic!("unexpected {:?}", other),
        }
    }
    assert_eq!(visited, vec![0, 1, 2, 3, 4]);
    assert_eq!(m.cell(0), Some(0));
}

#[test]
fn hello_world() {
    let mut m = machine(HELLO_WORLD);
    let report = m.run(&[], 100_000);
    assert_eq!(report.status, RunStatus::Finished);
    assert_eq!(report.output, b"Hello World!\n".to_vec());
    assert_eq!(report.consumed, 0);
}

#[test]
fn hello_world_step_by_step() {
    let mut m = machine(HELLO_WORLD);
    let mut printed = String::new();
    loop {
        match m.step() {
            Ok(Action::Continue) => {}
            Ok(Action::Print(byte)) => printed.push(byte as char),
            Ok(Action::Halt) => break,
            other => panic!("unexpected {:?}", other),
        }
    }
    assert_eq!(printed, "Hello World!\n");
}

#[test]
fn the_empty_program_does_nothing() {
    let mut m = machine("");
    let report = m.run(&[7, 8, 9], 100);
    assert_eq!(report.status, RunStatus::Finished);
    assert_eq!(report.output, Vec::<u8>::new());
    assert_eq!(report.consumed, 0);
    assert_eq!(m.instruction_pointer(), 0);
    assert_eq!(m.data_pointer(), 0);
    for index in 0..30000 {
        assert_eq!(m.cell(index), Some(0));
    }
    assert_eq!(m.step(), Ok(Action::Halt));
}

#[test]
fn the_empty_program_finishes_without_any_step() {
    let mut m = machine("");
    assert_eq!(m.run(&[], 0).status, RunStatus::Finished);
}

#[test]
fn increment_wraps_from_255_to_0() {
    let mut m = machine(",+");
    m.run(&[255], 10);
    assert_eq!(m.cell(0), Some(0));
    let mut m = machine(",+");
    m.run(&[254], 10);
    assert_eq!(m.cell(0), Some(255));
}

#[test]
fn decrement_wraps_from_0_to_255() {
    let mut m = machine("-");
    m.run(&[], 10);
    assert_eq!(m.cell(0), Some(255));
    let mut m = machine(",-");
    m.run(&[1], 10);
    assert_eq!(m.cell(0), Some(0));
}

#[test]
fn increment_and_decrement_undo_each_other_for_every_value() {
    for value in 0..=255u8 {
        let mut m = machine(",+.-");
        let report = m.run(&[value], 10);
        assert_eq!(report.status, RunStatus::Finished);
        assert_eq!(report.output, vec![value.wrapping_add(1)]);
        assert_eq!(m.cell(0), Some(value));

        let mut m = machine(",-.+");
        let report = m.run(&[value], 10);
        assert_eq!(report.status, RunStatus::Finished);
        assert_eq!(report.output, vec![value.wrapping_sub(1)]);
        assert_eq!(m.cell(0), Some(value));
    }
}

#[test]
fn moving_left_from_the_first_cell_fails() {
    let mut m = machine("<+");
    let report = m.run(&[], 10);
    assert_eq!(report.status, RunStatus::Failed(BrainfuckError::TapeBoundsError));
    assert_eq!(m.data_pointer(), 0);
    assert_eq!(m.instruction_pointer(), 0);
    assert_eq!(m.cell(0), Some(0));
    assert_eq!(m.step(), Err(BrainfuckError::TapeBoundsError));
}

#[test]
fn moving_right_from_the_last_cell_fails() {
    let code = ">".repeat(29999);
    let mut m = machine(&code);
    assert_eq!(m.run(&[], 30000).status, RunStatus::Finished);
    assert_eq!(m.data_pointer(), 29999);

    let code = ">".repeat(29999) + "+.>-";
    let mut m = machine(&code);
    let report = m.run(&[], 40000);
    assert_eq!(report.status, RunStatus::Failed(BrainfuckError::TapeBoundsError));
    assert_eq!(report.output, vec![1]);
    assert_eq!(m.data_pointer(), 29999);
    assert_eq!(m.instruction_pointer(), 30001);
    assert_eq!(m.cell(29999), Some(1));
}

#[test]
fn moves_change_the_data_pointer_by_one() {
    let mut m = machine(">>><");
    assert_eq!(m.step(), Ok(Action::Continue));
    assert_eq!(m.data_pointer(), 1);
    assert_eq!(m.step(), Ok(Action::Continue));
    assert_eq!(m.data_pointer(), 2);
    assert_eq!(m.step(), Ok(Action::Continue));
    assert_eq!(m.data_pointer(), 3);
    assert_eq!(m.step(), Ok(Action::Continue));
    assert_eq!(m.data_pointer(), 2);
    assert_eq!(m.step(), Ok(Action::Halt));
    assert_eq!(m.instruction_pointer(), 4);
}

#[test]
fn moving_back_and_forth_at_the_last_cell() {
    let code = ">".repeat(29999) + "<>";
    let mut m = machine(&code);
    assert_eq!(m.run(&[], 40000).status, RunStatus::Finished);
    assert_eq!(m.data_pointer(), 29999);
}

#[test]
fn an_opening_bracket_on_zero_goes_to_its_partner_and_then_past_it() {
    let mut m = machine("[+>+<]-");
    assert_eq!(m.step(), Ok(Action::Continue));
    assert_eq!(m.instruction_pointer(), 5);
    assert_eq!(m.step(), Ok(Action::Continue));
    assert_eq!(m.instruction_pointer(), 6);
    assert_eq!(m.cell(0), Some(0));
    assert_eq!(m.cell(1), Some(0));
    assert_eq!(m.data_pointer(), 0);
    assert_eq!(m.step(), Ok(Action::Continue));
    assert_eq!(m.cell(0), Some(255));
    assert_eq!(m.step(), Ok(Action::Halt));
}

#[test]
fn an_opening_bracket_on_nonzero_enters_the_loop() {
    let mut m = machine("+[-]");
    assert_eq!(m.step(), Ok(Action::Continue));
    assert_eq!(m.step(), Ok(Action::Continue));
    assert_eq!(m.instruction_pointer(), 2);
}

#[test]
fn a_closing_bracket_on_nonzero_goes_back_to_its_partner() {
    let mut m = machine("++[-]");
    for _ in 0..4 {
        assert_eq!(m.step(), Ok(Action::Continue));
    }
    assert_eq!(m.instruction_pointer(), 4);
    assert_eq!(m.cell(0), Some(1));
    assert_eq!(m.step(), Ok(Action::Continue));
    assert_eq!(m.instruction_pointer(), 2);
    assert_eq!(m.get_current_operation(), Some(&BrainfuckOperation::LoopStart(Some(4))));
    assert_eq!(m.cell(0), Some(1));
}

#[test]
fn a_closing_bracket_on_zero_leaves_the_loop() {
    let mut m = machine("+[-]+");
    for _ in 0..3 {
        assert_eq!(m.step(), Ok(Action::Continue));
    }
    assert_eq!(m.instruction_pointer(), 3);
    assert_eq!(m.cell(0), Some(0));
    assert_eq!(m.step(), Ok(Action::Continue));
    assert_eq!(m.instruction_pointer(), 4);
}

#[test]
fn a_skipped_nested_loop_is_skipped_whole() {
    let mut m = machine("[[+]>[-]]+.");
    let report = m.run(&[], 100);
    assert_eq!(report.status, RunStatus::Finished);
    assert_eq!(report.output, vec![1]);
    assert_eq!(m.data_pointer(), 0);
}

#[test]
fn a_loop_multiplies() {
    let mut m = machine("+++[>++++<-]>.");
    let report = m.run(&[], 1000);
    assert_eq!(report.status, RunStatus::Finished);
    assert_eq!(report.output, vec![12]);
    assert_eq!(m.cell(0), Some(0));
    assert_eq!(m.cell(1), Some(12));
}

#[test]
fn read_stores_the_next_input_byte() {
    let mut m = machine(",.>,.");
    let report = m.run(&[65, 200, 3], 100);
    assert_eq!(report.status, RunStatus::Finished);
    assert_eq!(report.output, vec![65, 200]);
    assert_eq!(report.consumed, 2);
    assert_eq!(m.cell(0), Some(65));
    assert_eq!(m.cell(1), Some(200));
}

#[test]
fn read_at_the_end_of_the_input_fails() {
    let mut m = machine("+,+");
    let report = m.run(&[], 100);
    assert_eq!(report.status, RunStatus::Failed(BrainfuckError::EndOfInput));
    assert_eq!(report.consumed, 0);
    assert_eq!(m.cell(0), Some(1));
    assert_eq!(m.instruction_pointer(), 1);

    let mut m = machine(",.,.");
    let report = m.run(&[9], 100);
    assert_eq!(report.status, RunStatus::Failed(BrainfuckError::EndOfInput));
    assert_eq!(report.output, vec![9]);
    assert_eq!(report.consumed, 1);
    assert_eq!(m.instruction_pointer(), 2);
}

#[test]
fn a_run_stops_when_its_steps_are_used_up() {
    let mut m = machine("+[]");
    let report = m.run(&[], 1000);
    assert_eq!(report.status, RunStatus::OutOfSteps);
    assert_eq!(m.cell(0), Some(1));

    let mut m = machine("+++");
    let report = m.run(&[], 2);
    assert_eq!(report.status, RunStatus::OutOfSteps);
    assert_eq!(m.cell(0), Some(2));
    assert_eq!(m.instruction_pointer(), 2);

    let mut m = machine("+++");
    let report = m.run(&[], 3);
    assert_eq!(report.status, RunStatus::Finished);
    assert_eq!(m.cell(0), Some(3));
}

#[test]
fn a_run_starts_at_the_first_operation_and_keeps_the_tape() {
    let mut m = machine(">+.");
    assert_eq!(m.run(&[], 100).output, vec![1]);
    assert_eq!(m.data_pointer(), 1);
    assert_eq!(m.run(&[], 100).output, vec![1]);
    assert_eq!(m.data_pointer(), 2);
    assert_eq!(m.cell(1), Some(1));
    assert_eq!(m.cell(2), Some(1));
}

#[test]
fn step_hands_out_what_is_printed() {
    let mut m = machine("+++.");
    for _ in 0..3 {
        assert_eq!(m.step(), Ok(Action::Continue));
    }
    assert_eq!(m.step(), Ok(Action::Print(3)));
    assert_eq!(m.instruction_pointer(), 4);
    assert_eq!(m.step(), Ok(Action::Halt));
    assert_eq!(m.step(), Ok(Action::Halt));
    assert_eq!(m.instruction_pointer(), 4);
}

#[test]
fn step_waits_on_a_read_until_input_is_supplied() {
    let mut m = machine(",.");
    assert_eq!(m.step(), Ok(Action::Read));
    assert_eq!(m.step(), Ok(Action::Read));
    assert_eq!(m.instruction_pointer(), 0);
    assert_eq!(m.supply_input(Some(77)), Ok(true));
    assert_eq!(m.instruction_pointer(), 1);
    assert_eq!(m.cell(0), Some(77));
    assert_eq!(m.step(), Ok(Action::Print(77)));
}

#[test]
fn supplied_input_is_ignored_where_no_read_waits() {
    let mut m = machine("+,");
    assert_eq!(m.supply_input(Some(5)), Ok(false));
    assert_eq!(m.supply_input(None), Ok(false));
    assert_eq!(m.instruction_pointer(), 0);
    assert_eq!(m.cell(0), Some(0));
    assert_eq!(m.step(), Ok(Action::Continue));
    assert_eq!(m.supply_input(Some(5)), Ok(true));
    assert_eq!(m.cell(0), Some(5));
    assert_eq!(m.supply_input(Some(6)), Ok(false));
    assert_eq!(m.cell(0), Some(5));
}

#[test]
fn the_end_of_the_input_is_a_failure_that_changes_nothing() {
    let mut m = machine("+,");
    assert_eq!(m.step(), Ok(Action::Continue));
    assert_eq!(m.supply_input(None), Err(BrainfuckError::EndOfInput));
    assert_eq!(m.instruction_pointer(), 1);
    assert_eq!(m.cell(0), Some(1));
    assert_eq!(m.step(), Ok(Action::Read));
}

#[test]
fn the_current_operation_follows_the_instruction_pointer() {
    let mut m = machine("+.");
    assert_eq!(m.get_current_operation(), Some(&BrainfuckOperation::IncrementData));
    m.move_to_next_operation();
    assert_eq!(m.get_current_operation(), Some(&BrainfuckOperation::Print));
    m.move_to_next_operation();
    assert_eq!(m.get_current_operation(), None);
    assert_eq!(m.instruction_pointer(), 2);
    m.move_to_next_operation();
    assert_eq!(m.instruction_pointer(), 2);
}

#[test]
fn jumping_sets_the_instruction_pointer() {
    let mut m = machine("+++.");
    m.jump_to_operation(3);
    assert_eq!(m.instruction_pointer(), 3);
    assert_eq!(m.step(), Ok(Action::Print(0)));
    m.jump_to_operation(1);
    assert_eq!(m.get_current_operation(), Some(&BrainfuckOperation::IncrementData));
    m.jump_to_operation(4);
    assert_eq!(m.get_current_operation(), None);
    assert_eq!(m.step(), Ok(Action::Halt));
    m.move_to_next_operation();
    assert_eq!(m.instruction_pointer(), 4);
    m.jump_to_operation(0);
    assert_eq!(m.run(&[], 100).output, vec![3]);
}

#[test]
fn a_clone_is_a_machine_of_its_own() {
    let mut m = machine("+>+.");
    assert_eq!(m.step(), Ok(Action::Continue));
    let mut copy = m.clone();
    assert_eq!(copy.operations(), m.operations());
    assert_eq!(copy.instruction_pointer(), 1);
    assert_eq!(copy.cell(0), Some(1));
    assert_eq!(copy.step(), Ok(Action::Continue));
    assert_eq!(copy.data_pointer(), 1);
    assert_eq!(m.data_pointer(), 0);
    assert_eq!(m.instruction_pointer(), 1);
}

#[test]
fn a_line_gives_the_code_of_its_first_character() {
    assert_eq!(input_byte("A\n"), Some(65));
    assert_eq!(input_byte("hello\n"), Some(104));
    assert_eq!(input_byte("\n"), Some(10));
    assert_eq!(input_byte("0"), Some(48));
}

#[test]
fn a_line_without_characters_gives_nothing() {
    assert_eq!(input_byte(""), None);
}

#[test]
fn a_character_code_is_reduced_modulo_256() {
    assert_eq!(input_byte("\u{e9}t\u{e9}"), Some(233));
    assert_eq!(input_byte("\u{100}"), Some(0));
    assert_eq!(input_byte("\u{20ac}"), Some(0xac));
    assert_eq!(input_byte("\u{1f600}"), Some(0));
}

#[test]
fn a_line_feeds_a_read() {
    let mut m = machine(",.");
    assert_eq!(m.step(), Ok(Action::Read));
    assert_eq!(m.supply_input(input_byte("Zebra\n")), Ok(true));
    assert_eq!(m.step(), Ok(Action::Print(90)));
    let mut m = machine(",");
    assert_eq!(m.supply_input(input_byte("")), Err(BrainfuckError::EndOfInput));
}
