//! The command stream that source text is folded into.
use vstd::prelude::*;

verus! {

/// One folded command; a count is the length of the run of equal symbols
/// it stands for.
#[derive(Debug, Clone, Copy, PartialEq, Eq, Structural)]
pub enum Command {
    Increment(usize),
    Decrement(usize),
    MoveRight(usize),
    MoveLeft(usize),
    Output(usize),
    Input,
    LoopStart,
    LoopEnd,
}

/// Why a program could not be translated in full.
#[derive(Debug, Clone, Copy, PartialEq, Eq, Structural)]
pub enum CompileError {
    /// A `]` with no open `[`; `position` is where it was met.
    UnmatchedLoopEnd { position: usize },
    /// A `[` that is never closed; `position` is the buffer offset of the
    /// branch of the innermost such loop.
    UnterminatedLoop { position: usize },
    /// The program does not fit the reach of a 32-bit branch, or a cursor run
    /// does not fit a sign-extended 32-bit immediate.
    ProgramTooLarge,
}

/// The indices of the `LoopStart` commands among the first `i` commands
/// that no later `LoopEnd` among them has closed, innermost last. A
/// `LoopEnd` that finds none open closes nothing.
pub open spec fn open_loops(cmds: Seq<Command>, i: int) -> Seq<int>
    decreases i,
{
    if i <= 0 {
        Seq::empty()
    } else {
        let s = open_loops(cmds, i - 1);
        match cmds[i - 1] {
            Command::LoopStart => s.push(i - 1),
            Command::LoopEnd => if s.len() > 0 {
                s.drop_last()
            } else {
                s
            },
            _ => s,
        }
    }
}

/// Command `i` is a `LoopEnd` with no open loop to close.
pub open spec fn is_unmatched_end(cmds: Seq<Command>, i: int) -> bool {
    cmds[i] == Command::LoopEnd && open_loops(cmds, i).len() == 0
}

/// The index of the first unmatched `LoopEnd` at or after `i`, or the length
/// of `cmds` if there is none.
pub open spec fn unmatched_from(cmds: Seq<Command>, i: int) -> int
    decreases cmds.len() - i,
{
    if i >= cmds.len() {
        cmds.len() as int
    } else if i >= 0 && is_unmatched_end(cmds, i) {
        i
    } else {
        unmatched_from(cmds, i + 1)
    }
}

/// The index of the first unmatched `LoopEnd`, or the length of `cmds`.
pub open spec fn first_unmatched(cmds: Seq<Command>) -> int {
    unmatched_from(cmds, 0)
}

/// The loops open after the first `k` commands depend on those alone.
pub proof fn lemma_open_loops_prefix(p: Seq<Command>, x: Seq<Command>, k: int)
    requires
        0 <= k <= p.len(),
    ensures
        open_loops(p + x, k) == open_loops(p, k),
    decreases k,
{
    if k > 0 {
        lemma_open_loops_prefix(p, x, k - 1);
        assert((p + x)[k - 1] == p[k - 1]);
    }
}

/// The search from `i` finds nothing exactly when no command from `i` on
/// is an unmatched `LoopEnd`.
pub proof fn lemma_unmatched_from_none(cmds: Seq<Command>, i: int)
    requires
        0 <= i <= cmds.len(),
    ensures
        unmatched_from(cmds, i) == cmds.len() <==> forall|k: int|
            i <= k < cmds.len() ==> !#[trigger] is_unmatched_end(cmds, k),
        unmatched_from(cmds, i) <= cmds.len(),
    decreases cmds.len() - i,
{
    if i < cmds.len() {
        lemma_unmatched_from_none(cmds, i + 1);
    }
}

/// Appending one command that is not an unmatched `LoopEnd` to a stream
/// with none keeps it free of them.
pub proof fn lemma_extend_matched(p: Seq<Command>, c: Command)
    requires
        first_unmatched(p) == p.len(),
        c == Command::LoopEnd ==> open_loops(p, p.len() as int).len() > 0,
    ensures
        first_unmatched(p.push(c)) == p.len() + 1,
        open_loops(p.push(c), p.len() + 1int) == match c {
            Command::LoopStart => open_loops(p, p.len() as int).push(p.len() as int),
            Command::LoopEnd => open_loops(p, p.len() as int).drop_last(),
            _ => open_loops(p, p.len() as int),
        },
{
    let q = p.push(c);
    lemma_unmatched_from_none(p, 0);
    lemma_unmatched_from_none(q, 0);
    assert forall|k: int| 0 <= k < q.len() implies !#[trigger] is_unmatched_end(q, k) by {
        assert(q =~= p + seq![c]);
        lemma_open_loops_prefix(p, seq![c], k);
        if k < p.len() {
            assert(q[k] == p[k]);
            assert(!is_unmatched_end(p, k));
        }
    }
    assert(q =~= p + seq![c]);
    lemma_open_loops_prefix(p, seq![c], p.len() as int);
}

} // verus!
