//! What a command stream does to the tape, stated over mathematical values.
//!
//! This is the meaning that the machine-code templates are written to
//! carry, read off the instructions they use; nothing here proves it of the
//! bytes, which Verus has no model of. An increment or decrement is an
//! 8-bit `add` or `sub` on the byte under the cursor, so it wraps modulo
//! 256. A cursor move adds to or subtracts from the address; its immediate
//! is sign-extended, which is why the 8-bit form is used only up to 127 and
//! the 32-bit form only up to 2^31 - 1. A write run is one one-byte write
//! per copy, each taken to succeed. A read at the end of input leaves the
//! cell as it was.
use vstd::prelude::*;
use vstd::arithmetic::div_mod::lemma_add_mod_noop_right;
use crate::command::{Command, open_loops};
use crate::parser::{
    CLOSE, DOT, LEFT, MINUS, OPEN, PLUS, RIGHT, folded, lemma_run_len_bound, parse_from,
    run_len, run_rest,
};

verus! {

/// The state a routine acts on: the tape, the cursor as an index into it,
/// the input not read yet, and the bytes written so far.
pub struct Machine {
    pub tape: Seq<u8>,
    pub cursor: int,
    pub input: Seq<u8>,
    pub output: Seq<u8>,
}

/// The cell under the cursor.
pub open spec fn cell(m: Machine) -> u8 {
    m.tape[m.cursor]
}

/// `m` with the cell under the cursor set to `v`.
pub open spec fn set_cell(m: Machine, v: u8) -> Machine {
    Machine { tape: m.tape.update(m.cursor, v), cursor: m.cursor, input: m.input, output: m.output }
}

/// `m` with the cursor moved to `c`.
pub open spec fn set_cursor(m: Machine, c: int) -> Machine {
    Machine { tape: m.tape, cursor: c, input: m.input, output: m.output }
}

/// The effect of one command that is not a loop bracket.
pub open spec fn effect(c: Command, m: Machine) -> Machine {
    match c {
        Command::Increment(n) => set_cell(m, ((cell(m) + n) % 0x100) as u8),
        Command::Decrement(n) => set_cell(m, ((cell(m) - n) % 0x100) as u8),
        Command::MoveRight(n) => set_cursor(m, m.cursor + n),
        Command::MoveLeft(n) => set_cursor(m, m.cursor - n),
        Command::Output(n) => Machine {
            tape: m.tape,
            cursor: m.cursor,
            input: m.input,
            output: m.output + Seq::new(n as nat, |k: int| cell(m)),
        },
        Command::Input => if m.input.len() > 0 {
            Machine {
                tape: m.tape.update(m.cursor, m.input[0]),
                cursor: m.cursor,
                input: m.input.drop_first(),
                output: m.output,
            }
        } else {
            m
        },
        _ => m,
    }
}

/// The effect of a stream of commands without loops, in order.
pub open spec fn apply(cmds: Seq<Command>, m: Machine) -> Machine
    decreases cmds.len(),
{
    if cmds.len() == 0 {
        m
    } else {
        apply(cmds.drop_first(), effect(cmds[0], m))
    }
}

/// The index of the `LoopEnd` that closes a loop whose body starts at `j`,
/// with `depth` loops opened inside it so far; the length of `cmds` if
/// there is none.
pub open spec fn loop_end_from(cmds: Seq<Command>, j: int, depth: nat) -> int
    decreases cmds.len() - j,
{
    if j < 0 || j >= cmds.len() {
        cmds.len() as int
    } else if cmds[j] == Command::LoopStart {
        loop_end_from(cmds, j + 1, depth + 1)
    } else if cmds[j] == Command::LoopEnd {
        if depth == 0 {
            j
        } else {
            loop_end_from(cmds, j + 1, (depth - 1) as nat)
        }
    } else {
        loop_end_from(cmds, j + 1, depth)
    }
}

/// Runs `cmds` from command `pc` on `m` for at most `fuel` steps: `Some` of
/// the final state if the routine returns within them.
///
/// A `[` on a zero cell continues past its `]`; a `]` on a nonzero cell
/// continues with the body of its `[`; a `]` that closes no loop ends the
/// routine, as the translation ends there.
pub open spec fn run(cmds: Seq<Command>, pc: int, m: Machine, fuel: nat) -> Option<Machine>
    decreases fuel,
{
    if pc < 0 || pc >= cmds.len() {
        Some(m)
    } else if fuel == 0 {
        None
    } else if cmds[pc] == Command::LoopStart {
        if cell(m) == 0 {
            run(cmds, loop_end_from(cmds, pc + 1, 0) + 1, m, (fuel - 1) as nat)
        } else {
            run(cmds, pc + 1, m, (fuel - 1) as nat)
        }
    } else if cmds[pc] == Command::LoopEnd {
        if open_loops(cmds, pc).len() == 0 {
            Some(m)
        } else if cell(m) != 0 {
            run(cmds, open_loops(cmds, pc).last() + 1, m, (fuel - 1) as nat)
        } else {
            run(cmds, pc + 1, m, (fuel - 1) as nat)
        }
    } else {
        run(cmds, pc + 1, effect(cmds[pc], m), (fuel - 1) as nat)
    }
}

/// The number of copies of `b` in `cs` from index `i` on.
pub open spec fn count_from(cs: Seq<u8>, i: int, b: u8) -> nat
    decreases cs.len() - i,
{
    if i < 0 || i >= cs.len() {
        0
    } else {
        (if cs[i] == b {
            1nat
        } else {
            0nat
        }) + count_from(cs, i + 1, b)
    }
}

proof fn lemma_count_run(cs: Seq<u8>, i: int, j: int, b: u8)
    requires
        0 <= i <= j <= cs.len(),
        forall|k: int| i <= k < j ==> cs[k] == cs[i],
    ensures
        count_from(cs, i, b) == (if i < j && cs[i] == b {
            (j - i) as nat
        } else {
            0nat
        }) + count_from(cs, j, b),
    decreases j - i,
{
    if i < j {
        lemma_count_run(cs, i + 1, j, b);
        if i + 1 < j {
            assert(cs[i + 1] == cs[i]);
        }
    }
}

proof fn lemma_apply_cons(c: Command, rest: Seq<Command>, m: Machine)
    ensures
        apply(seq![c] + rest, m) == apply(rest, effect(c, m)),
{
    let s = seq![c] + rest;
    assert(s.drop_first() =~= rest);
    assert(s[0] == c);
}

proof fn lemma_net_cell_from(cs: Seq<u8>, i: int, m: Machine)
    requires
        0 <= i <= cs.len() <= usize::MAX,
        forall|k: int| i <= k < cs.len() ==> cs[k] == PLUS || cs[k] == MINUS,
        0 <= m.cursor < m.tape.len(),
    ensures
        apply(parse_from(cs, i, 0), m) == set_cell(
            m,
            ((cell(m) + count_from(cs, i, PLUS) - count_from(cs, i, MINUS)) % 0x100) as u8,
        ),
    decreases cs.len() - i,
{
    if i >= cs.len() {
        assert(m.tape.update(m.cursor, cell(m)) =~= m.tape);
    } else {
        let r = run_len(cs, i);
        lemma_run_len_bound(cs, i);
        let c = folded(cs[i], r);
        let rest = parse_from(cs, i + r, 0);
        assert(parse_from(cs, i, 0) == seq![c] + rest);
        lemma_apply_cons(c, rest, m);
        let m1 = effect(c, m);
        lemma_net_cell_from(cs, i + r, m1);
        lemma_count_run(cs, i, i + r, PLUS);
        lemma_count_run(cs, i, i + r, MINUS);
        let net1 = count_from(cs, i + r, PLUS) - count_from(cs, i + r, MINUS);
        let x = if cs[i] == PLUS {
            cell(m) + r
        } else {
            cell(m) - r
        };
        assert(r as usize == r);
        assert(0 <= x % 0x100 < 0x100);
        assert(((x % 0x100) as u8) == x % 0x100);
        assert(cell(m1) == x % 0x100);
        lemma_add_mod_noop_right(net1, x, 0x100);
        assert(cell(m1) + net1 == net1 + x % 0x100);
        assert(x + net1 == cell(m) + count_from(cs, i, PLUS) - count_from(cs, i, MINUS));
        assert(m1.tape.update(m.cursor, ((cell(m1) + net1) % 0x100) as u8) =~= m.tape.update(
            m.cursor,
            ((cell(m) + count_from(cs, i, PLUS) - count_from(cs, i, MINUS)) % 0x100) as u8,
        ));
    }
}

/// A program whose symbols are only `+` and `-` leaves in the cell under
/// the cursor its old value plus the number of `+` less the number of `-`,
/// modulo 256, and changes nothing else.
pub proof fn lemma_net_increments(cs: Seq<u8>, m: Machine)
    requires
        cs.len() <= usize::MAX,
        forall|k: int| 0 <= k < cs.len() ==> cs[k] == PLUS || cs[k] == MINUS,
        0 <= m.cursor < m.tape.len(),
    ensures
        apply(parse_from(cs, 0, 0), m) == set_cell(
            m,
            ((cell(m) + count_from(cs, 0, PLUS) - count_from(cs, 0, MINUS)) % 0x100) as u8,
        ),
{
    lemma_net_cell_from(cs, 0, m);
}

proof fn lemma_net_moves_from(cs: Seq<u8>, i: int, m: Machine)
    requires
        0 <= i <= cs.len() <= usize::MAX,
        forall|k: int| i <= k < cs.len() ==> cs[k] == RIGHT || cs[k] == LEFT,
    ensures
        apply(parse_from(cs, i, 0), m) == set_cursor(
            m,
            m.cursor + count_from(cs, i, RIGHT) - count_from(cs, i, LEFT),
        ),
    decreases cs.len() - i,
{
    if i < cs.len() {
        let r = run_len(cs, i);
        lemma_run_len_bound(cs, i);
        let c = folded(cs[i], r);
        let rest = parse_from(cs, i + r, 0);
        assert(parse_from(cs, i, 0) == seq![c] + rest);
        lemma_apply_cons(c, rest, m);
        assert(r as usize == r);
        lemma_net_moves_from(cs, i + r, effect(c, m));
        lemma_count_run(cs, i, i + r, RIGHT);
        lemma_count_run(cs, i, i + r, LEFT);
    }
}

/// A program whose symbols are only `>` and `<` moves the cursor by the
/// number of `>` less the number of `<`, and changes nothing else.
pub proof fn lemma_net_moves(cs: Seq<u8>, m: Machine)
    requires
        cs.len() <= usize::MAX,
        forall|k: int| 0 <= k < cs.len() ==> cs[k] == RIGHT || cs[k] == LEFT,
    ensures
        apply(parse_from(cs, 0, 0), m) == set_cursor(
            m,
            m.cursor + count_from(cs, 0, RIGHT) - count_from(cs, 0, LEFT),
        ),
{
    lemma_net_moves_from(cs, 0, m);
}

/// The commands of `[-]`.
pub open spec fn clear_loop() -> Seq<Command> {
    seq![Command::LoopStart, Command::Decrement(1), Command::LoopEnd]
}

proof fn lemma_clear_passes(m: Machine, v: nat)
    requires
        0 <= m.cursor < m.tape.len(),
        1 <= v <= 0xFF,
        cell(m) == v,
    ensures
        run(clear_loop(), 1, m, 2 * v) == Some(set_cell(m, 0)),
    decreases v,
{
    let cmds = clear_loop();
    let m1 = effect(Command::Decrement(1), m);
    assert(((v - 1) % 0x100) as u8 == v - 1);
    assert(m1 == set_cell(m, (v - 1) as u8));
    assert(open_loops(cmds, 0) == Seq::<int>::empty());
    assert(cmds[0] == Command::LoopStart && cmds[1] == Command::Decrement(1));
    assert(open_loops(cmds, 1) =~= seq![0int]);
    assert(open_loops(cmds, 2) =~= seq![0int]);
    assert(run(cmds, 1, m, 2 * v) == run(cmds, 2, m1, (2 * v - 1) as nat));
    if v == 1 {
        assert(run(cmds, 2, m1, 1) == run(cmds, 3, m1, 0));
        assert(m1.tape =~= set_cell(m, 0).tape);
    } else {
        assert(run(cmds, 2, m1, (2 * v - 1) as nat) == run(cmds, 1, m1, (2 * (v - 1)) as nat));
        lemma_clear_passes(m1, (v - 1) as nat);
        assert(set_cell(m1, 0).tape =~= set_cell(m, 0).tape);
    }
}

/// `[-]` on a nonzero cell zeroes it, returning within one step for its
/// `[` and two for each pass through its body, as many passes as the cell
/// held; nothing else changes. On a zero cell it returns after its `[`
/// alone: the body runs zero times.
pub proof fn lemma_clear_loop(m: Machine)
    requires
        0 <= m.cursor < m.tape.len(),
    ensures
        parse_from(seq![OPEN, MINUS, CLOSE], 0, 0) == clear_loop(),
        run(clear_loop(), 0, m, (1 + 2 * cell(m)) as nat) == Some(set_cell(m, 0)),
        cell(m) == 0 ==> run(clear_loop(), 0, m, 1) == Some(m),
{
    let cs = seq![OPEN, MINUS, CLOSE];
    assert(run_len(cs, 1) == 1);
    assert(parse_from(cs, 3, 0) == Seq::<Command>::empty());
    assert(parse_from(cs, 2, 1) =~= seq![Command::LoopEnd]);
    assert(parse_from(cs, 1, 1) =~= seq![Command::Decrement(1), Command::LoopEnd]);
    assert(parse_from(cs, 0, 0) =~= clear_loop());
    let cmds = clear_loop();
    if cell(m) == 0 {
        assert(loop_end_from(cmds, 3, 0) == 3);
        assert(loop_end_from(cmds, 2, 0) == 2);
        assert(loop_end_from(cmds, 1, 0) == 2);
        assert(m.tape.update(m.cursor, 0) =~= m.tape);
        assert(run(cmds, 0, m, 1) == run(cmds, 3, m, 0));
    } else {
        assert(run(cmds, 0, m, (1 + 2 * cell(m)) as nat) == run(cmds, 1, m, (2 * cell(m)) as nat));
        lemma_clear_passes(m, cell(m) as nat);
    }
}

/// `cmds` applied `n` times over, each time to what the previous time left.
pub open spec fn repeat_apply(cmds: Seq<Command>, n: nat, m: Machine) -> Machine
    decreases n,
{
    if n == 0 {
        m
    } else {
        repeat_apply(cmds, (n - 1) as nat, apply(cmds, m))
    }
}

proof fn lemma_repeat_single_plus(n: nat, m: Machine)
    requires
        0 <= m.cursor < m.tape.len(),
    ensures
        repeat_apply(parse_from(seq![PLUS], 0, 0), n, m) == set_cell(
            m,
            ((cell(m) + n) % 0x100) as u8,
        ),
    decreases n,
{
    let one = seq![PLUS];
    if n == 0 {
        assert(m.tape.update(m.cursor, cell(m)) =~= m.tape);
    } else {
        lemma_net_increments(one, m);
        assert(count_from(one, 1, PLUS) == 0 && count_from(one, 1, MINUS) == 0);
        let m1 = apply(parse_from(one, 0, 0), m);
        assert(m1 == set_cell(m, ((cell(m) + 1) % 0x100) as u8));
        lemma_repeat_single_plus((n - 1) as nat, m1);
        lemma_add_mod_noop_right(n - 1, cell(m) + 1, 0x100);
        assert(set_cell(m1, ((cell(m1) + (n - 1)) % 0x100) as u8).tape =~= set_cell(
            m,
            ((cell(m) + n) % 0x100) as u8,
        ).tape);
    }
}

/// Folding a run is invisible: the commands of `n` `+` in a row leave the
/// same machine as the commands of a single `+` run `n` times, each time
/// from where the previous run left off.
pub proof fn lemma_folding_transparent(n: nat, m: Machine)
    requires
        n <= usize::MAX,
        0 <= m.cursor < m.tape.len(),
    ensures
        apply(parse_from(Seq::new(n, |k: int| PLUS), 0, 0), m) == repeat_apply(
            parse_from(seq![PLUS], 0, 0),
            n,
            m,
        ),
{
    let cs = Seq::new(n, |k: int| PLUS);
    lemma_net_increments(cs, m);
    lemma_count_run(cs, 0, n as int, PLUS);
    lemma_count_run(cs, 0, n as int, MINUS);
    lemma_repeat_single_plus(n, m);
}

/// Running one stream of commands and then another from the state the
/// first left is running the two joined: a session that keeps the tape and
/// the cursor between lines runs them as one program.
pub proof fn lemma_apply_sequence(a: Seq<Command>, b: Seq<Command>, m: Machine)
    ensures
        apply(a + b, m) == apply(b, apply(a, m)),
    decreases a.len(),
{
    if a.len() == 0 {
        assert(a + b =~= b);
    } else {
        assert((a + b).drop_first() =~= a.drop_first() + b);
        assert((a + b)[0] == a[0]);
        lemma_apply_sequence(a.drop_first(), b, effect(a[0], m));
    }
}

/// No loop bracket among the commands.
pub open spec fn loop_free(cmds: Seq<Command>) -> bool {
    forall|k: int|
        0 <= k < cmds.len() ==> #[trigger] cmds[k] != Command::LoopStart && cmds[k]
            != Command::LoopEnd
}

proof fn lemma_run_loop_free_from(cmds: Seq<Command>, pc: int, m: Machine)
    requires
        loop_free(cmds),
        0 <= pc <= cmds.len(),
    ensures
        run(cmds, pc, m, (cmds.len() - pc) as nat) == Some(apply(cmds.subrange(pc, cmds.len() as int), m)),
    decreases cmds.len() - pc,
{
    let rest = cmds.subrange(pc, cmds.len() as int);
    if pc < cmds.len() {
        assert(rest[0] == cmds[pc]);
        assert(rest.drop_first() =~= cmds.subrange(pc + 1, cmds.len() as int));
        lemma_run_loop_free_from(cmds, pc + 1, effect(cmds[pc], m));
    } else {
        assert(rest.len() == 0);
    }
}

/// Without loops, running a stream of commands to its end is applying
/// them in order, one step each.
pub proof fn lemma_run_loop_free(cmds: Seq<Command>, m: Machine)
    requires
        loop_free(cmds),
    ensures
        run(cmds, 0, m, cmds.len()) == Some(apply(cmds, m)),
{
    lemma_run_loop_free_from(cmds, 0, m);
    assert(cmds.subrange(0, cmds.len() as int) =~= cmds);
}

proof fn lemma_run_rest_block(cs: Seq<u8>, i: int, j: int)
    requires
        0 <= i < j <= cs.len(),
        forall|k: int| i <= k < j ==> cs[k] == cs[i],
        j < cs.len() ==> cs[j] != cs[i],
    ensures
        run_len(cs, i) == j - i,
    decreases j - i,
{
    if i + 1 < j {
        lemma_run_rest_block(cs, i + 1, j);
    }
}

/// On a zero cell, `n` `+` followed by one `.` write exactly one byte: `n`
/// modulo 256.
pub proof fn lemma_count_then_write(n: nat, m: Machine)
    requires
        1 <= n <= usize::MAX - 1,
        0 <= m.cursor < m.tape.len(),
        cell(m) == 0,
    ensures
        apply(parse_from(Seq::new(n, |k: int| PLUS).push(DOT), 0, 0), m).output == m.output.push(
            (n % 0x100) as u8,
        ),
{
    let pluses = Seq::new(n, |k: int| PLUS);
    let cs = pluses.push(DOT);
    lemma_run_rest_block(cs, 0, n as int);
    assert(run_rest(cs, n as int) == 0);
    assert(parse_from(cs, n + 1int, 0) == Seq::<Command>::empty());
    assert(parse_from(cs, n as int, 0) =~= seq![Command::Output(1)]);
    assert(parse_from(cs, 0, 0) =~= seq![Command::Increment(n as usize)] + seq![
        Command::Output(1),
    ]);
    lemma_apply_cons(Command::Increment(n as usize), seq![Command::Output(1)], m);
    let m1 = effect(Command::Increment(n as usize), m);
    assert(cell(m1) == n % 0x100);
    lemma_apply_cons(Command::Output(1), Seq::empty(), m1);
    assert(apply(Seq::<Command>::empty(), effect(Command::Output(1), m1)) == effect(
        Command::Output(1),
        m1,
    ));
    assert(seq![Command::Output(1)] =~= seq![Command::Output(1)] + Seq::<Command>::empty());
    assert(effect(Command::Output(1), m1).output =~= m.output.push((n % 0x100) as u8));
}

} // verus!
