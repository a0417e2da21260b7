//! The interpreter: a compiled program together with the machine it runs on.

use vstd::prelude::*;
use crate::brackets::{all_brackets_paired, balanced, commands};
use crate::compiler::{compile, is_compilation_of};
use crate::machine::{
    effect_of, initial_state, lemma_compilation_is_well_linked, lemma_effect_stays_in_range,
    run_of, well_linked, MachineState, RunStatus, TAPE_LENGTH,
};
use crate::operation::BrainfuckError;
use crate::operation::BrainfuckOperation;

verus! {

/// What the caller of [`BrainfuckInterpreter::step`] has to do next.
#[derive(Debug, PartialEq, Eq, Clone, Copy, Structural)]
pub enum Action {
    /// Nothing; an operation was executed.
    Continue,
    /// Write this byte to the output; a `Print` was executed.
    Print(u8),
    /// Hand the next byte of the input to
    /// [`BrainfuckInterpreter::supply_input`]; the machine stands on a
    /// `Read` and has not executed it.
    Read,
    /// Stop; the program has ended.
    Halt,
}

/// What a bounded run in memory did.
#[derive(Debug, PartialEq, Eq, Clone)]
pub struct RunReport {
    /// How the run ended.
    pub status: RunStatus,
    /// The bytes written by `Print`, in order.
    pub output: Vec<u8>,
    /// How many bytes of the input were read.
    pub consumed: usize,
}

/// A compiled program, an instruction pointer, a data pointer and a tape of
/// 30,000 cells.
#[derive(Debug)]
pub struct BrainfuckInterpreter {
    operations: Vec<BrainfuckOperation>,
    instruction_pointer: usize,
    data_pointer: usize,
    data: [u8; TAPE_LENGTH],
}

impl View for BrainfuckInterpreter {
    type V = MachineState;

    closed spec fn view(&self) -> MachineState {
        MachineState {
            instruction_pointer: self.instruction_pointer as int,
            data_pointer: self.data_pointer as int,
            tape: self.data@,
        }
    }
}

/// What `step` answers on the machine `m` of the program `ops`.
pub open spec fn action_of(ops: Seq<BrainfuckOperation>, m: MachineState) -> Result<
    Action,
    BrainfuckError,
> {
    if !m.running(ops.len()) {
        Ok(Action::Halt)
    } else {
        let op = ops[m.instruction_pointer];
        if op == BrainfuckOperation::Read {
            Ok(Action::Read)
        } else {
            match effect_of(op, m, None) {
                Err(e) => Err(e),
                Ok(_) => if op == BrainfuckOperation::Print {
                    Ok(Action::Print(m.cell()))
                } else {
                    Ok(Action::Continue)
                },
            }
        }
    }
}

/// The machine that `step` leaves behind on the machine `m` of the program
/// `ops`: the effect of the current operation, unless the program has ended,
/// the operation is a `Read`, or it fails.
pub open spec fn state_after_step(ops: Seq<BrainfuckOperation>, m: MachineState) -> MachineState {
    if m.running(ops.len()) && ops[m.instruction_pointer] != BrainfuckOperation::Read {
        match effect_of(ops[m.instruction_pointer], m, None) {
            Ok(next) => next,
            Err(_) => m,
        }
    } else {
        m
    }
}

impl Clone for BrainfuckInterpreter {
    fn clone(&self) -> (copy: Self)
        ensures
            copy@ == self@,
            copy.program() == self.program(),
    {
        proof {
            use_type_invariant(self);
        }
        let operations = self.operations.clone();
        assert(operations@ =~= self.operations@);
        BrainfuckInterpreter {
            operations,
            instruction_pointer: self.instruction_pointer,
            data_pointer: self.data_pointer,
            data: self.data,
        }
    }
}

impl BrainfuckInterpreter {
    #[verifier::type_invariant]
    spec fn sound(&self) -> bool {
        &&& well_linked(self.operations@)
        &&& self.instruction_pointer <= self.operations@.len()
        &&& self.data_pointer < TAPE_LENGTH
    }

    /// The compiled program, which no method changes.
    pub closed spec fn program(&self) -> Seq<BrainfuckOperation> {
        self.operations@
    }

    /// Compiles `code` and sets up a machine with both pointers at 0 and
    /// every cell 0.
    ///
    /// Fails with `MismatchedBracket` exactly when the brackets of `code`
    /// are not balanced.
    pub fn new(code: &str) -> (result: Result<BrainfuckInterpreter, BrainfuckError>)
        ensures
            result is Ok <==> balanced(commands(code@)),
            result is Ok <==> all_brackets_paired(commands(code@)),
            result matches Ok(interpreter) ==> {
                &&& is_compilation_of(interpreter.program(), commands(code@))
                &&& well_linked(interpreter.program())
                &&& interpreter@ == initial_state()
            },
            result matches Err(e) ==> e == BrainfuckError::MismatchedBracket,
    {
        match compile(code) {
            Err(e) => Err(e),
            Ok(operations) => {
                proof {
                    lemma_compilation_is_well_linked(operations@, commands(code@));
                }
                let interpreter = BrainfuckInterpreter {
                    operations,
                    instruction_pointer: 0,
                    data_pointer: 0,
                    data: [0; TAPE_LENGTH],
                };
                assert(interpreter@.tape =~= initial_state().tape);
                Ok(interpreter)
            },
        }
    }

    /// The compiled program.
    pub fn operations(&self) -> (ops: &Vec<BrainfuckOperation>)
        ensures
            ops@ == self.program(),
            well_linked(ops@),
    {
        proof {
            use_type_invariant(self);
        }
        &self.operations
    }

    /// The position of the operation that is executed next. It is never
    /// behind the end of the program, and at the end exactly when the
    /// program has ended.
    pub fn instruction_pointer(&self) -> (ip: usize)
        ensures
            ip == self@.instruction_pointer,
            ip <= self.program().len(),
    {
        proof {
            use_type_invariant(self);
        }
        self.instruction_pointer
    }

    /// The position of the current cell, which is always on the tape.
    pub fn data_pointer(&self) -> (dp: usize)
        ensures
            dp == self@.data_pointer,
            self@.on_tape(),
    {
        proof {
            use_type_invariant(self);
        }
        self.data_pointer
    }

    /// The value of the cell at `index`, or `None` where the tape ends
    /// before `index`.
    pub fn cell(&self, index: usize) -> (value: Option<u8>)
        ensures
            value == if index < TAPE_LENGTH {
                Some(self@.tape[index as int])
            } else {
                None
            },
    {
        if index < TAPE_LENGTH {
            Some(self.data[index])
        } else {
            None
        }
    }

    /// The operation under the instruction pointer, or `None` once the
    /// program has ended.
    pub fn get_current_operation(&self) -> (current: Option<&BrainfuckOperation>)
        ensures
            current == if self@.running(self.program().len()) {
                Some(&self.program()[self@.instruction_pointer])
            } else {
                None
            },
    {
        if self.instruction_pointer < self.operations.len() {
            Some(&self.operations[self.instruction_pointer])
        } else {
            None
        }
    }

    /// Moves the instruction pointer on by one, unless the program has
    /// ended.
    pub fn move_to_next_operation(&mut self)
        ensures
            final(self).program() == old(self).program(),
            final(self)@ == if old(self)@.running(old(self).program().len()) {
                old(self)@.advanced()
            } else {
                old(self)@
            },
    {
        proof {
            use_type_invariant(&*self);
        }
        if self.instruction_pointer < self.operations.len() {
            self.instruction_pointer += 1
        };
    }

    /// Sets the instruction pointer to `target`, which becomes the
    /// operation executed next. The target is the position of an operation,
    /// or the length of the program, which ends the program.
    pub fn jump_to_operation(&mut self, target: usize)
        requires
            target <= old(self).program().len(),
        ensures
            final(self).program() == old(self).program(),
            final(self)@ == old(self)@.at(target as int),
    {
        proof {
            use_type_invariant(&*self);
        }
        self.instruction_pointer = target;
    }

    /// Executes the current operation with `input` as what a `Read`
    /// receives.
    fn execute(&mut self, input: Option<u8>) -> (result: Result<(), BrainfuckError>)
        requires
            old(self)@.running(old(self).program().len()),
        ensures
            final(self).program() == old(self).program(),
            match effect_of(
                old(self).program()[old(self)@.instruction_pointer],
                old(self)@,
                input,
            ) {
                Ok(next) => result is Ok && final(self)@ == next,
                Err(e) => result == Err::<(), BrainfuckError>(e) && final(self)@ == old(self)@,
            },
    {
        proof {
            use_type_invariant(&*self);
            lemma_effect_stays_in_range(self.operations@, self@, input);
        }
        let op = self.operations[self.instruction_pointer];
        let cell = self.data[self.data_pointer];
        match op {
            BrainfuckOperation::MovePointerRight => {
                if self.data_pointer < TAPE_LENGTH - 1 {
                    self.data_pointer += 1;
                } else {
                    return Err(BrainfuckError::TapeBoundsError);
                }
            },
            BrainfuckOperation::MovePointerLeft => {
                if self.data_pointer > 0 {
                    self.data_pointer -= 1;
                } else {
                    return Err(BrainfuckError::TapeBoundsError);
                }
            },
            BrainfuckOperation::IncrementData => {
                self.data[self.data_pointer] = cell.wrapping_add(1);
            },
            BrainfuckOperation::DecrementData => {
                self.data[self.data_pointer] = cell.wrapping_sub(1);
            },
            BrainfuckOperation::Print => {},
            BrainfuckOperation::Read => {
                match input {
                    Some(value) => {
                        self.data[self.data_pointer] = value;
                    },
                    None => {
                        return Err(BrainfuckError::EndOfInput);
                    },
                }
            },
            BrainfuckOperation::LoopStart(Some(close)) => {
                if cell == 0 {
                    self.jump_to_operation(close);
                    return Ok(());
                }
            },
            BrainfuckOperation::LoopEnd(Some(open)) => {
                if cell != 0 {
                    self.jump_to_operation(open);
                    return Ok(());
                }
            },
            _ => {},
        }
        self.move_to_next_operation();
        Ok(())
    }

    /// Executes one operation, unless the program has ended or the
    /// operation is a `Read`, and says what the caller has to do.
    ///
    /// On a `Read` nothing changes and the answer is `Action::Read`: the
    /// `Read` is executed by `supply_input`. After a failure the machine is
    /// as it was.
    pub fn step(&mut self) -> (result: Result<Action, BrainfuckError>)
        ensures
            final(self).program() == old(self).program(),
            result == action_of(old(self).program(), old(self)@),
            final(self)@ == state_after_step(old(self).program(), old(self)@),
    {
        match self.get_current_operation() {
            None => Ok(Action::Halt),
            Some(BrainfuckOperation::Read) => Ok(Action::Read),
            Some(BrainfuckOperation::Print) => {
                proof {
                    use_type_invariant(&*self);
                }
                let cell = self.data[self.data_pointer];
                match self.execute(None) {
                    Ok(()) => Ok(Action::Print(cell)),
                    Err(e) => Err(e),
                }
            },
            Some(_) => match self.execute(None) {
                Ok(()) => Ok(Action::Continue),
                Err(e) => Err(e),
            },
        }
    }

    /// Executes the `Read` that the machine stands on, with `input` as the
    /// byte read, or `None` at the end of the input.
    ///
    /// The answer is `Ok(true)` when the byte was stored and the machine
    /// moved on, and `EndOfInput` when there was none: the end of the input
    /// is a failure, and the machine is then as it was. Where the machine
    /// does not stand on a `Read`, nothing changes and the answer is
    /// `Ok(false)`.
    pub fn supply_input(&mut self, input: Option<u8>) -> (result: Result<bool, BrainfuckError>)
        ensures
            final(self).program() == old(self).program(),
            old(self).awaits_input() ==> match input {
                Some(value) => {
                    &&& result == Ok::<bool, BrainfuckError>(true)
                    &&& final(self)@ == old(self)@.with_cell(value).advanced()
                },
                None => {
                    &&& result == Err::<bool, BrainfuckError>(BrainfuckError::EndOfInput)
                    &&& final(self)@ == old(self)@
                },
            },
            !old(self).awaits_input() ==> {
                &&& result == Ok::<bool, BrainfuckError>(false)
                &&& final(self)@ == old(self)@
            },
    {
        match self.get_current_operation() {
            Some(BrainfuckOperation::Read) => match self.execute(input) {
                Ok(()) => Ok(true),
                Err(e) => Err(e),
            },
            _ => Ok(false),
        }
    }

    /// The machine stands on a `Read`.
    pub open spec fn awaits_input(&self) -> bool {
        &&& self@.running(self.program().len())
        &&& self.program()[self@.instruction_pointer] == BrainfuckOperation::Read
    }

    /// Runs the program from its first operation, on the tape and the data
    /// pointer as they are, for at most `max_steps` operations. Each `Read`
    /// takes the next byte of `input`; each `Print` adds a byte to the
    /// output in the report.
    ///
    /// The run ends when the program does, at the first failure (which
    /// includes a `Read` at the end of `input`), or after `max_steps`
    /// operations. The machine is left where the run ended.
    pub fn run(&mut self, input: &[u8], max_steps: u64) -> (report: RunReport)
        ensures
            final(self).program() == old(self).program(),
            ({
                let run = run_of(
                    old(self).program(),
                    old(self)@.at(0),
                    input@,
                    0,
                    Seq::empty(),
                    max_steps as nat,
                );
                &&& final(self)@ == run.state
                &&& report.status == run.status
                &&& report.output@ == run.output
                &&& report.consumed == run.consumed
            }),
            report.status == RunStatus::Finished <==> !final(self)@.running(
                old(self).program().len(),
            ),
            final(self)@.instruction_pointer <= old(self).program().len(),
            report.consumed <= input@.len(),
    {
        self.jump_to_operation(0);
        let mut output: Vec<u8> = Vec::new();
        let mut consumed: usize = 0;
        let mut steps: u64 = max_steps;
        let ghost whole = run_of(
            old(self).program(),
            old(self)@.at(0),
            input@,
            0,
            Seq::empty(),
            max_steps as nat,
        );
        loop
            invariant
                self.program() == old(self).program(),
                consumed <= input@.len(),
                whole == run_of(
                    old(self).program(),
                    old(self)@.at(0),
                    input@,
                    0,
                    Seq::empty(),
                    max_steps as nat,
                ),
                whole == run_of(
                    self.program(),
                    self@,
                    input@,
                    consumed as int,
                    output@,
                    steps as nat,
                ),
            decreases steps,
        {
            proof {
                use_type_invariant(&*self);
            }
            let op = match self.get_current_operation() {
                None => {
                    return RunReport { status: RunStatus::Finished, output, consumed };
                },
                Some(op) => *op,
            };
            if steps == 0 {
                return RunReport { status: RunStatus::OutOfSteps, output, consumed };
            }
            let cell = self.data[self.data_pointer];
            let next = if consumed < input.len() {
                Some(input[consumed])
            } else {
                None
            };
            match self.execute(next) {
                Err(e) => {
                    return RunReport { status: RunStatus::Failed(e), output, consumed };
                },
                Ok(()) => {
                    match op {
                        BrainfuckOperation::Print => {
                            proof {
                                assert(output@.push(cell) =~= output@ + seq![cell]);
                            }
                            output.push(cell);
                        },
                        BrainfuckOperation::Read => {
                            consumed += 1;
                        },
                        _ => {
                            proof {
                                assert(output@ + Seq::<u8>::empty() =~= output@);
                            }
                        },
                    }
                    steps -= 1;
                },
            }
        }
    }
}

} // verus!
