//! From source text to linked operations.

use vstd::prelude::*;
use crate::brackets::{
    all_brackets_paired, balanced, bracket_value, commands, depth, is_command,
    lemma_balanced_empty, lemma_balanced_means_paired, lemma_balanced_push_plain,
    lemma_balanced_through_pair, lemma_commands_of_prefix, lemma_commands_step, lemma_depth_push,
    lemma_partner_of_close_is_unique, lemma_partner_of_open_is_unique, matched,
};
use crate::operation::BrainfuckError;
use crate::operation::BrainfuckOperation;

verus! {

/// `op` is the operation that the command at position `k` stands for, with
/// a bracket linked to its partner.
pub open spec fn operation_matches(cmds: Seq<char>, k: int, op: BrainfuckOperation) -> bool {
    match op {
        BrainfuckOperation::MovePointerRight => cmds[k] == '>',
        BrainfuckOperation::MovePointerLeft => cmds[k] == '<',
        BrainfuckOperation::IncrementData => cmds[k] == '+',
        BrainfuckOperation::DecrementData => cmds[k] == '-',
        BrainfuckOperation::Print => cmds[k] == '.',
        BrainfuckOperation::Read => cmds[k] == ',',
        BrainfuckOperation::LoopStart(target) => {
            &&& cmds[k] == '['
            &&& target matches Some(close)
            &&& matched(cmds, k, close as int)
        },
        BrainfuckOperation::LoopEnd(target) => {
            &&& cmds[k] == ']'
            &&& target matches Some(open)
            &&& matched(cmds, open as int, k)
        },
    }
}

/// `ops` has one operation for each command, in order, and every bracket
/// points at its partner.
pub open spec fn is_compilation_of(ops: Seq<BrainfuckOperation>, cmds: Seq<char>) -> bool {
    &&& ops.len() == cmds.len()
    &&& forall|k: int| 0 <= k < ops.len() ==> operation_matches(cmds, k, #[trigger] ops[k])
}

/// A text has at most one compilation.
pub proof fn lemma_compilation_is_unique(
    cmds: Seq<char>,
    a: Seq<BrainfuckOperation>,
    b: Seq<BrainfuckOperation>,
)
    requires
        is_compilation_of(a, cmds),
        is_compilation_of(b, cmds),
    ensures
        a == b,
{
    assert forall|k: int| 0 <= k < a.len() implies a[k] == b[k] by {
        assert(operation_matches(cmds, k, a[k]));
        assert(operation_matches(cmds, k, b[k]));
        match (a[k], b[k]) {
            (BrainfuckOperation::LoopStart(Some(x)), BrainfuckOperation::LoopStart(Some(y))) => {
                lemma_partner_of_open_is_unique(cmds, k, x as int, y as int);
            },
            (BrainfuckOperation::LoopEnd(Some(x)), BrainfuckOperation::LoopEnd(Some(y))) => {
                lemma_partner_of_close_is_unique(cmds, x as int, y as int, k);
            },
            _ => {},
        }
    }
    assert(a =~= b);
}

/// The empty source has no commands, is balanced, and compiles to no
/// operations.
pub proof fn lemma_empty_source_compiles_to_nothing()
    ensures
        commands(Seq::<char>::empty()) == Seq::<char>::empty(),
        balanced(commands(Seq::<char>::empty())),
        is_compilation_of(Seq::<BrainfuckOperation>::empty(), commands(Seq::<char>::empty())),
        forall|ops: Seq<BrainfuckOperation>|
            is_compilation_of(ops, commands(Seq::<char>::empty())) ==> ops
                == Seq::<BrainfuckOperation>::empty(),
{
    reveal(Seq::filter);
    lemma_balanced_empty();
    assert forall|ops: Seq<BrainfuckOperation>|
        is_compilation_of(ops, commands(Seq::<char>::empty())) implies ops == Seq::<
        BrainfuckOperation,
    >::empty() by {
        assert(ops =~= Seq::<BrainfuckOperation>::empty());
    }
}

/// The stretch of commands after the `m`-th open bracket that still waits
/// for its partner (for `m == 0`, from the start) up to the next such
/// bracket (for the last, up to `n`).
spec fn stretch(cmds: Seq<char>, pending: Seq<usize>, n: int, m: int) -> Seq<char> {
    cmds.subrange(
        if m == 0 {
            0
        } else {
            pending[m - 1] + 1
        },
        if m == pending.len() {
            n
        } else {
            pending[m] as int
        },
    )
}

/// What holds while the first `ops.len()` commands have been compiled and
/// the brackets at `pending` are still open.
spec fn scanning(cmds: Seq<char>, ops: Seq<BrainfuckOperation>, pending: Seq<usize>) -> bool {
    &&& ops.len() <= cmds.len()
    &&& depth(cmds.take(ops.len() as int)) == pending.len()
    &&& forall|m: int|
        0 <= m < pending.len() ==> {
            &&& (#[trigger] pending[m]) < ops.len()
            &&& cmds[pending[m] as int] == '['
            &&& ops[pending[m] as int] == BrainfuckOperation::LoopStart(None)
        }
    &&& forall|a: int, b: int|
        0 <= a < b < pending.len() ==> (#[trigger] pending[a]) < (#[trigger] pending[b])
    &&& forall|m: int|
        0 <= m <= pending.len() ==> balanced(#[trigger] stretch(cmds, pending, ops.len() as int, m))
    &&& forall|k: int|
        0 <= k < ops.len() ==> {
            ||| operation_matches(cmds, k, #[trigger] ops[k])
            ||| (ops[k] == BrainfuckOperation::LoopStart(None) && pending.contains(k as usize))
        }
}

proof fn lemma_scan_begins(cmds: Seq<char>)
    ensures
        scanning(cmds, Seq::empty(), Seq::empty()),
{
    let ops = Seq::<BrainfuckOperation>::empty();
    let pending = Seq::<usize>::empty();
    assert(cmds.take(0) =~= Seq::<char>::empty());
    lemma_balanced_empty();
    assert forall|m: int| 0 <= m <= pending.len() implies balanced(
        #[trigger] stretch(cmds, pending, 0, m),
    ) by {
        assert(stretch(cmds, pending, 0, m) =~= Seq::<char>::empty());
    }
}

proof fn lemma_scan_plain(
    cmds: Seq<char>,
    ops: Seq<BrainfuckOperation>,
    pending: Seq<usize>,
    op: BrainfuckOperation,
)
    requires
        scanning(cmds, ops, pending),
        ops.len() < cmds.len(),
        bracket_value(cmds[ops.len() as int]) == 0,
        operation_matches(cmds, ops.len() as int, op),
    ensures
        scanning(cmds, ops.push(op), pending),
{
    let n = ops.len() as int;
    let next = ops.push(op);
    assert(cmds.take(n + 1) =~= cmds.take(n).push(cmds[n]));
    lemma_depth_push(cmds.take(n), cmds[n]);
    assert forall|m: int| 0 <= m <= pending.len() implies balanced(
        #[trigger] stretch(cmds, pending, n + 1, m),
    ) by {
        assert(balanced(stretch(cmds, pending, n, m)));
        if m == pending.len() {
            if m > 0 {
                assert(pending[m - 1] < n);
            }
            lemma_balanced_push_plain(stretch(cmds, pending, n, m), cmds[n]);
            assert(stretch(cmds, pending, n + 1, m) =~= stretch(cmds, pending, n, m).push(cmds[n]));
        } else {
            assert(stretch(cmds, pending, n + 1, m) == stretch(cmds, pending, n, m));
        }
    }
    assert forall|k: int| 0 <= k < next.len() implies {
        ||| operation_matches(cmds, k, #[trigger] next[k])
        ||| (next[k] == BrainfuckOperation::LoopStart(None) && pending.contains(k as usize))
    } by {
        if k < n {
            assert(next[k] == ops[k]);
        }
    }
}

proof fn lemma_scan_open(cmds: Seq<char>, ops: Seq<BrainfuckOperation>, pending: Seq<usize>)
    requires
        scanning(cmds, ops, pending),
        ops.len() < cmds.len(),
        ops.len() <= usize::MAX,
        cmds[ops.len() as int] == '[',
    ensures
        scanning(
            cmds,
            ops.push(BrainfuckOperation::LoopStart(None)),
            pending.push(ops.len() as usize),
        ),
{
    let n = ops.len() as int;
    let next = ops.push(BrainfuckOperation::LoopStart(None));
    let waiting = pending.push(n as usize);
    assert(cmds.take(n + 1) =~= cmds.take(n).push(cmds[n]));
    lemma_depth_push(cmds.take(n), cmds[n]);
    assert forall|m: int| 0 <= m < waiting.len() implies {
        &&& (#[trigger] waiting[m]) < next.len()
        &&& cmds[waiting[m] as int] == '['
        &&& next[waiting[m] as int] == BrainfuckOperation::LoopStart(None)
    } by {
        if m < pending.len() {
            assert(waiting[m] == pending[m]);
        }
    }
    assert forall|a: int, b: int| 0 <= a < b < waiting.len() implies (#[trigger] waiting[a]) < (
    #[trigger] waiting[b]) by {
        assert(waiting[a] == pending[a]);
        if b < pending.len() {
            assert(waiting[b] == pending[b]);
        }
    }
    assert forall|m: int| 0 <= m <= waiting.len() implies balanced(
        #[trigger] stretch(cmds, waiting, n + 1, m),
    ) by {
        if m == waiting.len() {
            lemma_balanced_empty();
            assert(stretch(cmds, waiting, n + 1, m) =~= Seq::<char>::empty());
        } else {
            assert(balanced(stretch(cmds, pending, n, m)));
            if m > 0 {
                assert(waiting[m - 1] == pending[m - 1]);
            }
            if m < pending.len() {
                assert(waiting[m] == pending[m]);
            }
            assert(stretch(cmds, waiting, n + 1, m) =~= stretch(cmds, pending, n, m));
        }
    }
    assert forall|k: int| 0 <= k < next.len() implies {
        ||| operation_matches(cmds, k, #[trigger] next[k])
        ||| (next[k] == BrainfuckOperation::LoopStart(None) && waiting.contains(k as usize))
    } by {
        if k < n {
            assert(next[k] == ops[k]);
            if !operation_matches(cmds, k, ops[k]) {
                let m = choose|m: int| 0 <= m < pending.len() && pending[m] == k as usize;
                assert(waiting[m] == k as usize);
            }
        } else {
            assert(waiting[pending.len() as int] == k as usize);
        }
    }
}

proof fn lemma_scan_close(cmds: Seq<char>, ops: Seq<BrainfuckOperation>, pending: Seq<usize>)
    requires
        scanning(cmds, ops, pending),
        ops.len() < cmds.len(),
        ops.len() <= usize::MAX,
        cmds[ops.len() as int] == ']',
        pending.len() > 0,
    ensures
        pending.last() < ops.len(),
        scanning(
            cmds,
            ops.update(
                pending.last() as int,
                BrainfuckOperation::LoopStart(Some(ops.len() as usize)),
            ).push(BrainfuckOperation::LoopEnd(Some(pending.last()))),
            pending.drop_last(),
        ),
{
    let n = ops.len() as int;
    let top = pending.len() - 1;
    let open = pending[top];
    let next = ops.update(open as int, BrainfuckOperation::LoopStart(Some(n as usize))).push(
        BrainfuckOperation::LoopEnd(Some(open)),
    );
    let waiting = pending.drop_last();
    assert(open < n);
    assert(cmds.take(n + 1) =~= cmds.take(n).push(cmds[n]));
    lemma_depth_push(cmds.take(n), cmds[n]);
    assert(balanced(stretch(cmds, pending, n, top + 1)));
    assert(matched(cmds, open as int, n));
    assert forall|m: int| 0 <= m < waiting.len() implies {
        &&& (#[trigger] waiting[m]) < next.len()
        &&& cmds[waiting[m] as int] == '['
        &&& next[waiting[m] as int] == BrainfuckOperation::LoopStart(None)
    } by {
        assert(waiting[m] == pending[m]);
        assert(pending[m] < pending[top]);
    }
    assert forall|a: int, b: int| 0 <= a < b < waiting.len() implies (#[trigger] waiting[a]) < (
    #[trigger] waiting[b]) by {
        assert(waiting[a] == pending[a]);
        assert(waiting[b] == pending[b]);
    }
    assert forall|m: int| 0 <= m <= waiting.len() implies balanced(
        #[trigger] stretch(cmds, waiting, n + 1, m),
    ) by {
        assert(balanced(stretch(cmds, pending, n, m)));
        if m > 0 {
            assert(waiting[m - 1] == pending[m - 1]);
            assert(pending[m - 1] < pending[top] || m - 1 == top);
        }
        if m == waiting.len() {
            let from = if m == 0 {
                0
            } else {
                pending[m - 1] + 1
            };
            assert(stretch(cmds, pending, n, m) == cmds.subrange(from, open as int));
            lemma_balanced_through_pair(cmds, from, open as int, n);
            assert(stretch(cmds, waiting, n + 1, m) == cmds.subrange(from, n + 1));
        } else {
            assert(waiting[m] == pending[m]);
            assert(stretch(cmds, waiting, n + 1, m) == stretch(cmds, pending, n, m));
        }
    }
    assert forall|k: int| 0 <= k < next.len() implies {
        ||| operation_matches(cmds, k, #[trigger] next[k])
        ||| (next[k] == BrainfuckOperation::LoopStart(None) && waiting.contains(k as usize))
    } by {
        if k == n {
        } else if k == open {
        } else {
            assert(next[k] == ops[k]);
            if !operation_matches(cmds, k, ops[k]) {
                let m = choose|m: int| 0 <= m < pending.len() && pending[m] == k as usize;
                assert(m < top);
                assert(waiting[m] == k as usize);
            }
        }
    }
}

proof fn lemma_scan_cannot_close(
    cmds: Seq<char>,
    ops: Seq<BrainfuckOperation>,
    pending: Seq<usize>,
)
    requires
        scanning(cmds, ops, pending),
        ops.len() < cmds.len(),
        cmds[ops.len() as int] == ']',
        pending.len() == 0,
    ensures
        !balanced(cmds),
{
    let n = ops.len() as int;
    assert(cmds.take(n + 1) =~= cmds.take(n).push(cmds[n]));
    lemma_depth_push(cmds.take(n), cmds[n]);
    assert(depth(cmds.take(n + 1)) < 0);
}

proof fn lemma_scan_ends(cmds: Seq<char>, ops: Seq<BrainfuckOperation>, pending: Seq<usize>)
    requires
        scanning(cmds, ops, pending),
        ops.len() == cmds.len(),
    ensures
        pending.len() == 0 <==> balanced(cmds),
        pending.len() == 0 ==> is_compilation_of(ops, cmds),
{
    assert(cmds.take(cmds.len() as int) =~= cmds);
    if pending.len() == 0 {
        assert(balanced(stretch(cmds, pending, cmds.len() as int, 0)));
        assert(stretch(cmds, pending, cmds.len() as int, 0) =~= cmds);
        assert forall|k: int| 0 <= k < ops.len() implies operation_matches(
            cmds,
            k,
            #[trigger] ops[k],
        ) by {
            if !operation_matches(cmds, k, ops[k]) {
                assert(pending.contains(k as usize));
            }
        }
    }
}

/// Compiles source text.
///
/// Characters that are no commands are skipped. The result has one
/// operation for each command, in the order of the source, and each bracket
/// carries the position of its partner. Compilation succeeds exactly when
/// the brackets of the source are balanced, which is to say that each of
/// them has a partner: a `]` with no open `[`, or a `[` left open at the
/// end, gives `MismatchedBracket`.
pub fn compile(code: &str) -> (result: Result<Vec<BrainfuckOperation>, BrainfuckError>)
    ensures
        result is Ok <==> balanced(commands(code@)),
        result is Ok <==> all_brackets_paired(commands(code@)),
        result matches Ok(ops) ==> is_compilation_of(ops@, commands(code@)),
        result matches Err(e) ==> e == BrainfuckError::MismatchedBracket,
{
    broadcast use vstd::string::axiom_spec_iter;

    let ghost cmds = commands(code@);
    let mut ops: Vec<BrainfuckOperation> = Vec::new();
    let mut pending: Vec<usize> = Vec::new();
    proof {
        lemma_balanced_means_paired(cmds);
        lemma_scan_begins(cmds);
        assert(code@.take(0) =~= Seq::<char>::empty());
        reveal(Seq::filter);
    }
    for c in it: code.chars()
        invariant
            it.seq() == code@,
            cmds == commands(code@),
            balanced(cmds) <==> all_brackets_paired(cmds),
            commands(code@.take(it.index())).len() == ops@.len(),
            scanning(cmds, ops@, pending@),
    {
        let ghost i = it.index();
        let ghost n = ops@.len() as int;
        let ghost open_before = pending@;
        proof {
            lemma_commands_step(code@, i);
            lemma_commands_of_prefix(code@, i + 1);
            if is_command(c) {
                assert(cmds.take(n + 1)[n] == c);
            }
        }
        let here = ops.len();
        match c {
            '>' => {
                proof {
                    lemma_scan_plain(cmds, ops@, pending@, BrainfuckOperation::MovePointerRight);
                }
                ops.push(BrainfuckOperation::MovePointerRight);
            },
            '<' => {
                proof {
                    lemma_scan_plain(cmds, ops@, pending@, BrainfuckOperation::MovePointerLeft);
                }
                ops.push(BrainfuckOperation::MovePointerLeft);
            },
            '+' => {
                proof {
                    lemma_scan_plain(cmds, ops@, pending@, BrainfuckOperation::IncrementData);
                }
                ops.push(BrainfuckOperation::IncrementData);
            },
            '-' => {
                proof {
                    lemma_scan_plain(cmds, ops@, pending@, BrainfuckOperation::DecrementData);
                }
                ops.push(BrainfuckOperation::DecrementData);
            },
            '.' => {
                proof {
                    lemma_scan_plain(cmds, ops@, pending@, BrainfuckOperation::Print);
                }
                ops.push(BrainfuckOperation::Print);
            },
            ',' => {
                proof {
                    lemma_scan_plain(cmds, ops@, pending@, BrainfuckOperation::Read);
                }
                ops.push(BrainfuckOperation::Read);
            },
            '[' => {
                proof {
                    lemma_scan_open(cmds, ops@, pending@);
                }
                ops.push(BrainfuckOperation::LoopStart(None));
                pending.push(here);
            },
            ']' => {
                match pending.pop() {
                    None => {
                        proof {
                            lemma_scan_cannot_close(cmds, ops@, pending@);
                        }
                        return Err(BrainfuckError::MismatchedBracket);
                    },
                    Some(open) => {
                        proof {
                            lemma_scan_close(cmds, ops@, open_before);
                        }
                        ops[open] = BrainfuckOperation::LoopStart(Some(here));
                        ops.push(BrainfuckOperation::LoopEnd(Some(open)));
                    },
                }
            },
            _ => {},
        }
    }
    proof {
        assert(code@.take(code@.len() as int) =~= code@);
        lemma_scan_ends(cmds, ops@, pending@);
    }
    if pending.len() == 0 {
        Ok(ops)
    } else {
        Err(BrainfuckError::MismatchedBracket)
    }
}

} // verus!
