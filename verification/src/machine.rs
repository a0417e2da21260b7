//! The meaning of a program: what one operation does to the machine, and
//! what a run of many operations reads, writes and leaves behind.

use vstd::prelude::*;
use crate::brackets::matched;
use crate::compiler::operation_matches;
use crate::operation::BrainfuckError;
use crate::operation::BrainfuckOperation;

verus! {

/// The number of cells on the tape.
pub const TAPE_LENGTH: usize = 30000;

/// The cell value after `+`: one more, and 0 after 255.
pub open spec fn incremented(cell: u8) -> u8 {
    ((cell + 1) % 256) as u8
}

/// The cell value after `-`: one less, and 255 after 0.
pub open spec fn decremented(cell: u8) -> u8 {
    ((cell + 255) % 256) as u8
}

/// The character that an operation is written as.
pub open spec fn command_of(op: BrainfuckOperation) -> char {
    match op {
        BrainfuckOperation::MovePointerRight => '>',
        BrainfuckOperation::MovePointerLeft => '<',
        BrainfuckOperation::IncrementData => '+',
        BrainfuckOperation::DecrementData => '-',
        BrainfuckOperation::Print => '.',
        BrainfuckOperation::Read => ',',
        BrainfuckOperation::LoopStart(_) => '[',
        BrainfuckOperation::LoopEnd(_) => ']',
    }
}

/// The program text that a sequence of operations is written as.
pub open spec fn text_of(ops: Seq<BrainfuckOperation>) -> Seq<char> {
    Seq::new(ops.len(), |k: int| command_of(ops[k]))
}

/// Every bracket of `ops` carries the position of its partner.
pub open spec fn well_linked(ops: Seq<BrainfuckOperation>) -> bool {
    forall|k: int| 0 <= k < ops.len() ==> operation_matches(text_of(ops), k, #[trigger] ops[k])
}

/// The instruction pointer, the data pointer and the tape.
pub struct MachineState {
    pub instruction_pointer: int,
    pub data_pointer: int,
    pub tape: Seq<u8>,
}

impl MachineState {
    /// The tape has its full length and the data pointer is on it.
    pub open spec fn on_tape(self) -> bool {
        &&& 0 <= self.data_pointer < TAPE_LENGTH
        &&& self.tape.len() == TAPE_LENGTH
    }

    /// The instruction pointer is on an operation of a program of `length`
    /// operations. Once it is not, the program has ended.
    pub open spec fn running(self, length: nat) -> bool {
        0 <= self.instruction_pointer < length
    }

    /// The cell under the data pointer.
    pub open spec fn cell(self) -> u8 {
        self.tape[self.data_pointer]
    }

    /// The same machine at another instruction.
    pub open spec fn at(self, instruction_pointer: int) -> MachineState {
        MachineState { instruction_pointer, ..self }
    }

    /// The same machine at the next instruction.
    pub open spec fn advanced(self) -> MachineState {
        self.at(self.instruction_pointer + 1)
    }

    /// The same machine with `value` in the cell under the data pointer.
    pub open spec fn with_cell(self, value: u8) -> MachineState {
        MachineState { tape: self.tape.update(self.data_pointer, value), ..self }
    }
}

/// The machine before anything has run: both pointers at 0 and every cell 0.
pub open spec fn initial_state() -> MachineState {
    MachineState {
        instruction_pointer: 0,
        data_pointer: 0,
        tape: Seq::new(TAPE_LENGTH as nat, |i: int| 0u8),
    }
}

/// The machine after the operation `op`, or the failure that `op` ends in.
/// `input` is what a `Read` receives: a byte, or `None` at the end of the
/// input.
///
/// A bracket that jumps sets the instruction pointer to the position of its
/// partner, which is the operation executed next; every other operation
/// moves on to the following one.
pub open spec fn effect_of(op: BrainfuckOperation, m: MachineState, input: Option<u8>) -> Result<
    MachineState,
    BrainfuckError,
> {
    match op {
        BrainfuckOperation::MovePointerRight => if m.data_pointer + 1 < TAPE_LENGTH {
            Ok(MachineState { data_pointer: m.data_pointer + 1, ..m.advanced() })
        } else {
            Err(BrainfuckError::TapeBoundsError)
        },
        BrainfuckOperation::MovePointerLeft => if m.data_pointer > 0 {
            Ok(MachineState { data_pointer: m.data_pointer - 1, ..m.advanced() })
        } else {
            Err(BrainfuckError::TapeBoundsError)
        },
        BrainfuckOperation::IncrementData => Ok(m.with_cell(incremented(m.cell())).advanced()),
        BrainfuckOperation::DecrementData => Ok(m.with_cell(decremented(m.cell())).advanced()),
        BrainfuckOperation::Print => Ok(m.advanced()),
        BrainfuckOperation::Read => match input {
            Some(value) => Ok(m.with_cell(value).advanced()),
            None => Err(BrainfuckError::EndOfInput),
        },
        BrainfuckOperation::LoopStart(target) => match target {
            Some(close) if m.cell() == 0 => Ok(m.at(close as int)),
            _ => Ok(m.advanced()),
        },
        BrainfuckOperation::LoopEnd(target) => match target {
            Some(open) if m.cell() != 0 => Ok(m.at(open as int)),
            _ => Ok(m.advanced()),
        },
    }
}

/// What `op` writes to the output: `Print` writes the current cell, and no
/// other operation writes anything.
pub open spec fn emitted_by(op: BrainfuckOperation, m: MachineState) -> Seq<u8> {
    if op == BrainfuckOperation::Print {
        seq![m.cell()]
    } else {
        Seq::empty()
    }
}

/// How a run ended.
#[derive(Debug, PartialEq, Eq, Clone, Copy, Structural)]
pub enum RunStatus {
    /// The instruction pointer went past the last operation.
    Finished,
    /// The allowed number of steps was used up before the program ended.
    OutOfSteps,
    /// An operation failed; the machine is as it was before that operation.
    Failed(BrainfuckError),
}

/// A run: where the machine stands, how much of the input it has read, what
/// it has written, and how it ended.
pub struct Run {
    pub state: MachineState,
    pub consumed: int,
    pub output: Seq<u8>,
    pub status: RunStatus,
}

/// The next byte of the input, if any is left.
pub open spec fn next_input(input: Seq<u8>, consumed: int) -> Option<u8> {
    if 0 <= consumed < input.len() {
        Some(input[consumed])
    } else {
        None
    }
}

/// The run of at most `steps` operations of `ops` from the machine `m`,
/// which has already read `consumed` bytes of `input` and written `output`.
///
/// A run ends when the instruction pointer has left the program, when an
/// operation fails, or when `steps` operations have been executed.
pub open spec fn run_of(
    ops: Seq<BrainfuckOperation>,
    m: MachineState,
    input: Seq<u8>,
    consumed: int,
    output: Seq<u8>,
    steps: nat,
) -> Run
    decreases steps,
{
    if !m.running(ops.len()) {
        Run { state: m, consumed, output, status: RunStatus::Finished }
    } else if steps == 0 {
        Run { state: m, consumed, output, status: RunStatus::OutOfSteps }
    } else {
        let op = ops[m.instruction_pointer];
        match effect_of(op, m, next_input(input, consumed)) {
            Err(e) => Run { state: m, consumed, output, status: RunStatus::Failed(e) },
            Ok(next) => run_of(
                ops,
                next,
                input,
                if op == BrainfuckOperation::Read {
                    consumed + 1
                } else {
                    consumed
                },
                output + emitted_by(op, m),
                (steps - 1) as nat,
            ),
        }
    }
}

/// A program without operations ends at once: the machine stays as it is,
/// nothing is read and nothing is written, whatever the input and however
/// many steps are allowed.
pub proof fn lemma_empty_program_does_nothing(
    m: MachineState,
    input: Seq<u8>,
    consumed: int,
    output: Seq<u8>,
    steps: nat,
)
    ensures
        run_of(Seq::empty(), m, input, consumed, output, steps) == (Run {
            state: m,
            consumed,
            output,
            status: RunStatus::Finished,
        }),
{
}

/// `+` then `-`, and `-` then `+`, give back the value that a cell had, for
/// every value, the wrap from 255 to 0 and from 0 to 255 included.
pub proof fn lemma_increment_and_decrement_are_inverse(cell: u8)
    ensures
        decremented(incremented(cell)) == cell,
        incremented(decremented(cell)) == cell,
        incremented(255) == 0,
        decremented(0) == 255,
        cell < 255 ==> incremented(cell) == cell + 1,
        cell > 0 ==> decremented(cell) == cell - 1,
{
}

/// On a machine, `IncrementData` followed by `DecrementData`, or the other
/// way round, changes nothing but the instruction pointer, which has moved
/// on by two.
pub proof fn lemma_increment_then_decrement_restores(m: MachineState, input: Option<u8>)
    requires
        m.on_tape(),
    ensures
        effect_of(BrainfuckOperation::IncrementData, m, input) matches Ok(a) && effect_of(
            BrainfuckOperation::DecrementData,
            a,
            input,
        ) == Ok::<MachineState, BrainfuckError>(m.at(m.instruction_pointer + 2)),
        effect_of(BrainfuckOperation::DecrementData, m, input) matches Ok(a) && effect_of(
            BrainfuckOperation::IncrementData,
            a,
            input,
        ) == Ok::<MachineState, BrainfuckError>(m.at(m.instruction_pointer + 2)),
{
    lemma_increment_and_decrement_are_inverse(m.cell());
    let up = m.with_cell(incremented(m.cell())).advanced();
    let down = m.with_cell(decremented(m.cell())).advanced();
    assert(up.with_cell(decremented(up.cell())).tape =~= m.tape);
    assert(down.with_cell(incremented(down.cell())).tape =~= m.tape);
}

/// `MovePointerRight` fails with `TapeBoundsError` on the last cell and
/// `MovePointerLeft` on the first; at every other position the data pointer
/// moves by exactly one, the tape stays as it is, and the instruction
/// pointer moves on.
pub proof fn lemma_moves_stay_on_tape(m: MachineState, input: Option<u8>)
    requires
        m.on_tape(),
    ensures
        effect_of(BrainfuckOperation::MovePointerRight, m, input) matches Ok(next)
            ==> next.on_tape(),
        effect_of(BrainfuckOperation::MovePointerLeft, m, input) matches Ok(next)
            ==> next.on_tape(),
        m.data_pointer == TAPE_LENGTH - 1 ==> effect_of(
            BrainfuckOperation::MovePointerRight,
            m,
            input,
        ) == Err::<MachineState, BrainfuckError>(BrainfuckError::TapeBoundsError),
        m.data_pointer < TAPE_LENGTH - 1 ==> effect_of(
            BrainfuckOperation::MovePointerRight,
            m,
            input,
        ) == Ok::<MachineState, BrainfuckError>(
            MachineState {
                instruction_pointer: m.instruction_pointer + 1,
                data_pointer: m.data_pointer + 1,
                tape: m.tape,
            },
        ),
        m.data_pointer == 0 ==> effect_of(BrainfuckOperation::MovePointerLeft, m, input) == Err::<
            MachineState,
            BrainfuckError,
        >(BrainfuckError::TapeBoundsError),
        m.data_pointer > 0 ==> effect_of(BrainfuckOperation::MovePointerLeft, m, input) == Ok::<
            MachineState,
            BrainfuckError,
        >(
            MachineState {
                instruction_pointer: m.instruction_pointer + 1,
                data_pointer: m.data_pointer - 1,
                tape: m.tape,
            },
        ),
{
}

/// In a well-linked program, a `[` on a zero cell leads in one step to its
/// partner `]`, and that `]`, still on a zero cell, leads in the next step
/// to the operation after it: the loop is skipped and nothing else has
/// changed. On a non-zero cell the `[` just moves on into the loop.
pub proof fn lemma_loop_start_skips(
    ops: Seq<BrainfuckOperation>,
    m: MachineState,
    input: Option<u8>,
)
    requires
        well_linked(ops),
        m.on_tape(),
        m.running(ops.len()),
        ops[m.instruction_pointer] is LoopStart,
    ensures
        ops[m.instruction_pointer] matches BrainfuckOperation::LoopStart(Some(close)) && {
            &&& matched(text_of(ops), m.instruction_pointer, close as int)
            &&& ops[close as int] == BrainfuckOperation::LoopEnd(Some(m.instruction_pointer as usize))
            &&& m.cell() == 0 ==> {
                &&& effect_of(ops[m.instruction_pointer], m, input) == Ok::<
                    MachineState,
                    BrainfuckError,
                >(m.at(close as int))
                &&& effect_of(ops[close as int], m.at(close as int), input) == Ok::<
                    MachineState,
                    BrainfuckError,
                >(m.at(close + 1))
            }
            &&& m.cell() != 0 ==> effect_of(ops[m.instruction_pointer], m, input) == Ok::<
                MachineState,
                BrainfuckError,
            >(m.advanced())
        },
{
    let text = text_of(ops);
    let here = m.instruction_pointer;
    assert(operation_matches(text, here, ops[here]));
    let close = ops[here]->LoopStart_0->0;
    assert(operation_matches(text, close as int, ops[close as int]));
    assert(text[close as int] == command_of(ops[close as int]));
    let back = ops[close as int]->LoopEnd_0->0;
    crate::brackets::lemma_partner_of_close_is_unique(text, here, back as int, close as int);
}

/// In a well-linked program, a `]` on a non-zero cell leads in one step to
/// its partner `[`, which is the operation executed next, and nothing else
/// has changed. On a zero cell the `]` just moves on out of the loop.
pub proof fn lemma_loop_end_repeats(
    ops: Seq<BrainfuckOperation>,
    m: MachineState,
    input: Option<u8>,
)
    requires
        well_linked(ops),
        m.on_tape(),
        m.running(ops.len()),
        ops[m.instruction_pointer] is LoopEnd,
    ensures
        ops[m.instruction_pointer] matches BrainfuckOperation::LoopEnd(Some(open)) && {
            &&& matched(text_of(ops), open as int, m.instruction_pointer)
            &&& ops[open as int] == BrainfuckOperation::LoopStart(Some(m.instruction_pointer as usize))
            &&& m.cell() != 0 ==> effect_of(ops[m.instruction_pointer], m, input) == Ok::<
                MachineState,
                BrainfuckError,
            >(m.at(open as int))
            &&& m.cell() == 0 ==> effect_of(ops[m.instruction_pointer], m, input) == Ok::<
                MachineState,
                BrainfuckError,
            >(m.advanced())
        },
{
    let text = text_of(ops);
    let here = m.instruction_pointer;
    assert(operation_matches(text, here, ops[here]));
    let open = ops[here]->LoopEnd_0->0;
    assert(operation_matches(text, open as int, ops[open as int]));
    assert(text[open as int] == command_of(ops[open as int]));
    let forth = ops[open as int]->LoopStart_0->0;
    crate::brackets::lemma_partner_of_open_is_unique(text, open as int, here, forth as int);
}

/// In a well-linked program an operation that succeeds leaves the data
/// pointer on the tape and the instruction pointer on an operation or just
/// behind the last one, and the tape keeps its length.
pub proof fn lemma_effect_stays_in_range(
    ops: Seq<BrainfuckOperation>,
    m: MachineState,
    input: Option<u8>,
)
    requires
        well_linked(ops),
        m.on_tape(),
        m.running(ops.len()),
    ensures
        effect_of(ops[m.instruction_pointer], m, input) matches Ok(next) ==> {
            &&& next.on_tape()
            &&& 0 <= next.instruction_pointer <= ops.len()
        },
{
    assert(operation_matches(text_of(ops), m.instruction_pointer, ops[m.instruction_pointer]));
}

/// The operations of a compilation are well linked, and written out they
/// are the commands that were compiled.
pub proof fn lemma_compilation_is_well_linked(ops: Seq<BrainfuckOperation>, cmds: Seq<char>)
    requires
        crate::compiler::is_compilation_of(ops, cmds),
    ensures
        text_of(ops) == cmds,
        well_linked(ops),
{
    assert forall|k: int| 0 <= k < ops.len() implies text_of(ops)[k] == cmds[k] by {
        assert(operation_matches(cmds, k, ops[k]));
    }
    assert(text_of(ops) =~= cmds);
}

} // verus!
