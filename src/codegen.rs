//! Translation of a command stream into x86-64 machine code.
//!
//! The cursor lives in `r13`. Each command is one fixed template of bytes;
//! the branches of a loop are resolved by backpatching the forward branch
//! of its `[` once its `]` is emitted.
use vstd::prelude::*;
use crate::buff::{Buff, le32, le64};
use crate::command::{Command, CompileError, first_unmatched, is_unmatched_end, open_loops, unmatched_from};
use crate::displacement::{displacement, get_32bit_offset};

verus! {

/// The largest code size whose every branch a 32-bit displacement reaches.
pub const MAX_CODE_LEN: usize = 0x7FFF_FFFF;

/// The largest cursor run that a sign-extended 8-bit immediate carries.
pub const MAX_SHORT_MOVE: usize = 0x7F;

/// The largest cursor run that a sign-extended 32-bit immediate carries.
pub const MAX_MOVE: usize = 0x7FFF_FFFF;

/// `push r13; mov r13, imm64`: saves the caller's `r13`, which the calling
/// convention asks a routine to preserve, and loads the tape cursor.
pub open spec fn prologue(pointer: u64) -> Seq<u8> {
    seq![0x41u8, 0x55u8, 0x49u8, 0xbdu8] + le64(pointer)
}

/// `mov rax, r13; pop r13; ret`: hands the final cursor back to the caller
/// and restores its `r13`.
pub open spec fn epilogue() -> Seq<u8> {
    seq![0x4cu8, 0x89u8, 0xe8u8, 0x41u8, 0x5du8, 0xc3u8]
}

/// `mov rdi, 1; mov rsi, r13; mov rdx, 1`: the channel (standard output),
/// source (the cell under the cursor) and length (one byte) of a write.
/// The kernel keeps these registers across a `syscall`.
pub open spec fn write_setup() -> Seq<u8> {
    seq![
        0x48u8, 0xC7, 0xC7, 0x01, 0x00, 0x00, 0x00,
        0x4C, 0x89, 0xEE,
        0x48, 0xC7, 0xC2, 0x01, 0x00, 0x00, 0x00,
    ]
}

/// `mov rax, 1; syscall`: one write. The kernel returns its result in
/// `rax`, so each write selects the service anew.
pub open spec fn write_call() -> Seq<u8> {
    seq![0x48u8, 0xC7, 0xC0, 0x01, 0x00, 0x00, 0x00, 0x0F, 0x05]
}

/// `n` writes, one after another.
pub open spec fn writes(n: nat) -> Seq<u8>
    decreases n,
{
    if n == 0 {
        Seq::empty()
    } else {
        writes((n - 1) as nat) + write_call()
    }
}

/// `mov rdi, 0; mov rsi, r13; mov rdx, 1`: the channel (standard input),
/// destination (the cell under the cursor) and length (one byte) of a read.
pub open spec fn read_setup() -> Seq<u8> {
    seq![
        0x48u8, 0xC7, 0xC7, 0x00, 0x00, 0x00, 0x00,
        0x4C, 0x89, 0xEE,
        0x48, 0xC7, 0xC2, 0x01, 0x00, 0x00, 0x00,
    ]
}

/// `mov rax, 0; syscall`: one read.
pub open spec fn read_call() -> Seq<u8> {
    seq![0x48u8, 0xC7, 0xC0, 0x00, 0x00, 0x00, 0x00, 0x0F, 0x05]
}

/// `cmp byte [r13], 0; jz rel32`, without its displacement.
pub open spec fn loop_start_head() -> Seq<u8> {
    seq![0x41u8, 0x80, 0x7D, 0x00, 0x00, 0x0F, 0x84]
}

/// `cmp byte [r13], 0; jnz rel32`, without its displacement.
pub open spec fn loop_end_head() -> Seq<u8> {
    seq![0x41u8, 0x80, 0x7D, 0x00, 0x00, 0x0F, 0x85]
}

/// The bytes of a command; for a loop bracket, the bytes before its
/// displacement field.
pub open spec fn template(c: Command) -> Seq<u8> {
    match c {
        Command::Increment(n) => seq![0x41u8, 0x80, 0x45, 0x00, (n % 0x100) as u8],
        Command::Decrement(n) => seq![0x41u8, 0x80, 0x6D, 0x00, (n % 0x100) as u8],
        Command::MoveRight(n) => if n <= MAX_SHORT_MOVE {
            seq![0x49u8, 0x83, 0xC5, n as u8]
        } else {
            seq![0x49u8, 0x81, 0xC5] + le32(n as u32)
        },
        Command::MoveLeft(n) => if n <= MAX_SHORT_MOVE {
            seq![0x49u8, 0x83, 0xED, n as u8]
        } else {
            seq![0x49u8, 0x81, 0xED] + le32(n as u32)
        },
        Command::Output(n) => write_setup() + writes(n as nat),
        Command::Input => read_setup() + read_call(),
        Command::LoopStart => loop_start_head(),
        Command::LoopEnd => loop_end_head(),
    }
}

/// A loop bracket: its template is followed by a 4-byte displacement.
pub open spec fn is_bracket(c: Command) -> bool {
    c == Command::LoopStart || c == Command::LoopEnd
}

/// The number of bytes a command occupies.
pub open spec fn size(c: Command) -> nat {
    if is_bracket(c) {
        template(c).len() + 4
    } else {
        template(c).len()
    }
}

/// The number of bytes that the first `i` commands occupy.
pub open spec fn offset(cmds: Seq<Command>, i: int) -> nat
    decreases i,
{
    if i <= 0 {
        0
    } else {
        offset(cmds, i - 1) + size(cmds[i - 1])
    }
}

/// Where command `i` begins when code is emitted from `base` on.
pub open spec fn pos(cmds: Seq<Command>, base: int, i: int) -> int {
    base + prologue(0).len() + offset(cmds, i)
}

/// Every cursor run fits a sign-extended 32-bit immediate.
pub open spec fn moves_fit(cmds: Seq<Command>) -> bool {
    forall|i: int|
        0 <= i < cmds.len() ==> match #[trigger] cmds[i] {
            Command::MoveRight(n) => n <= MAX_MOVE,
            Command::MoveLeft(n) => n <= MAX_MOVE,
            _ => true,
        }
}

/// The size of the routine for `cmds`, all of them emitted.
pub open spec fn routine_len(cmds: Seq<Command>) -> nat {
    prologue(0).len() + offset(cmds, cmds.len() as int) + epilogue().len()
}

/// `bytes` stand in `code` from `at` on.
pub open spec fn holds_at(code: Seq<u8>, at: int, bytes: Seq<u8>) -> bool {
    0 <= at && at + bytes.len() <= code.len() && code.subrange(at, at + bytes.len()) == bytes
}

/// The four zero bytes that hold the place of a forward displacement.
pub open spec fn placeholder() -> Seq<u8> {
    seq![0u8, 0u8, 0u8, 0u8]
}

/// What command `k` of `cmds` has left in `code`, emitted from `base` on.
///
/// A `[` leaves `cmp byte [r13], 0` and the opcode of `jz`, whose
/// displacement its `]` fills in. A matched `]` leaves `cmp` and a `jnz`
/// back to the `jz` of its `[`, and has patched that `jz` to land just past
/// the `jnz`.
pub open spec fn command_emitted(code: Seq<u8>, cmds: Seq<Command>, base: int, k: int) -> bool {
    let at = pos(cmds, base, k);
    match cmds[k] {
        Command::LoopStart => holds_at(code, at, loop_start_head()),
        Command::LoopEnd => open_loops(cmds, k).len() > 0 ==> {
            let start = pos(cmds, base, open_loops(cmds, k).last());
            &&& holds_at(code, at, loop_end_head() + le32(displacement(at + 11, start + 5)))
            &&& holds_at(code, start + 7, le32(displacement(start + 11, at + 11)))
        },
        _ => holds_at(code, at, template(cmds[k])),
    }
}

/// The first `n` commands stand in `code`, and every loop still open among
/// them keeps its placeholder.
pub open spec fn emitted(code: Seq<u8>, cmds: Seq<Command>, base: int, n: int) -> bool {
    &&& forall|k: int| 0 <= k < n ==> #[trigger] command_emitted(code, cmds, base, k)
    &&& forall|j: int|
        0 <= j < open_loops(cmds, n).len() ==> holds_at(
            code,
            pos(cmds, base, #[trigger] open_loops(cmds, n)[j]) + 7,
            placeholder(),
        )
}

proof fn lemma_writes_len(n: nat)
    ensures
        writes(n).len() == 9 * n,
    decreases n,
{
    if n > 0 {
        lemma_writes_len((n - 1) as nat);
    }
}

proof fn lemma_size_positive(c: Command)
    ensures
        size(c) >= 4,
        is_bracket(c) ==> size(c) == 11,
{
    match c {
        Command::Output(n) => {
            lemma_writes_len(n as nat);
        },
        Command::Input => {
            assert(template(c).len() == 26);
        },
        _ => {},
    }
}

proof fn lemma_offset_mono(cmds: Seq<Command>, a: int, b: int)
    requires
        0 <= a < b <= cmds.len(),
    ensures
        offset(cmds, a) + size(cmds[a]) <= offset(cmds, b),
    decreases b,
{
    if b > a + 1 {
        lemma_offset_mono(cmds, a, b - 1);
    }
}

proof fn lemma_offset_le(cmds: Seq<Command>, a: int, b: int)
    requires
        0 <= a <= b <= cmds.len(),
    ensures
        offset(cmds, a) <= offset(cmds, b),
{
    if a < b {
        lemma_offset_mono(cmds, a, b);
    }
}

/// The open loops are `LoopStart` commands, in increasing order, before `i`.
proof fn lemma_open_loops_shape(cmds: Seq<Command>, i: int)
    requires
        0 <= i <= cmds.len(),
    ensures
        forall|j: int|
            0 <= j < open_loops(cmds, i).len() ==> 0 <= #[trigger] open_loops(cmds, i)[j] < i
                && cmds[open_loops(cmds, i)[j]] == Command::LoopStart,
        forall|j1: int, j2: int|
            0 <= j1 < j2 < open_loops(cmds, i).len() ==> open_loops(cmds, i)[j1] < open_loops(
                cmds,
                i,
            )[j2],
    decreases i,
{
    if i > 0 {
        lemma_open_loops_shape(cmds, i - 1);
    }
}

/// A loop that a `]` closed at `k` is not open again at `i`.
proof fn lemma_closed_stays_closed(cmds: Seq<Command>, k: int, i: int)
    requires
        0 <= k < i <= cmds.len(),
        cmds[k] == Command::LoopEnd,
        open_loops(cmds, k).len() > 0,
    ensures
        !open_loops(cmds, i).contains(open_loops(cmds, k).last()),
    decreases i,
{
    let o = open_loops(cmds, k).last();
    lemma_open_loops_shape(cmds, k);
    lemma_open_loops_shape(cmds, i);
    if i == k + 1 {
        let s = open_loops(cmds, k);
        assert forall|j: int| 0 <= j < open_loops(cmds, i).len() implies open_loops(cmds, i)[j] != o by {
            assert(open_loops(cmds, i)[j] == s[j]);
        }
    } else {
        lemma_closed_stays_closed(cmds, k, i - 1);
        let s = open_loops(cmds, i - 1);
        assert forall|j: int| 0 <= j < open_loops(cmds, i).len() implies open_loops(cmds, i)[j] != o by {
            if j < s.len() {
                assert(open_loops(cmds, i)[j] == s[j]);
                assert(s.contains(s[j]));
            }
        }
    }
}

proof fn lemma_holds_at_frame(c1: Seq<u8>, c2: Seq<u8>, at: int, bytes: Seq<u8>)
    requires
        holds_at(c1, at, bytes),
        at + bytes.len() <= c2.len(),
        forall|p: int| at <= p < at + bytes.len() ==> c2[p] == c1[p],
    ensures
        holds_at(c2, at, bytes),
{
    assert(c2.subrange(at, at + bytes.len()) =~= c1.subrange(at, at + bytes.len()));
}

/// Appending bytes keeps what was emitted.
proof fn lemma_emitted_append(c1: Seq<u8>, more: Seq<u8>, cmds: Seq<Command>, base: int, n: int)
    requires
        emitted(c1, cmds, base, n),
    ensures
        forall|k: int| 0 <= k < n ==> #[trigger] command_emitted(c1 + more, cmds, base, k),
        forall|j: int|
            0 <= j < open_loops(cmds, n).len() ==> holds_at(
                c1 + more,
                pos(cmds, base, #[trigger] open_loops(cmds, n)[j]) + 7,
                placeholder(),
            ),
{
    let c2 = c1 + more;
    assert forall|at: int, bytes: Seq<u8>| holds_at(c1, at, bytes) implies #[trigger] holds_at(
        c2,
        at,
        bytes,
    ) by {
        lemma_holds_at_frame(c1, c2, at, bytes);
    }
    assert forall|k: int| 0 <= k < n implies #[trigger] command_emitted(c2, cmds, base, k) by {
        assert(command_emitted(c1, cmds, base, k));
    }
}

/// Two commands before `i` occupy disjoint byte ranges.
proof fn lemma_apart(cmds: Seq<Command>, base: int, a: int, b: int)
    requires
        0 <= a < cmds.len(),
        0 <= b < cmds.len(),
        a != b,
    ensures
        pos(cmds, base, a) + size(cmds[a]) <= pos(cmds, base, b) || pos(cmds, base, b) + size(
            cmds[b],
        ) <= pos(cmds, base, a),
{
    if a < b {
        lemma_offset_mono(cmds, a, b);
    } else {
        lemma_offset_mono(cmds, b, a);
    }
}

/// Filling in the displacement of the open loop `o` keeps what the first
/// `i` commands left.
proof fn lemma_patch_frame(
    c1: Seq<u8>,
    c2: Seq<u8>,
    cmds: Seq<Command>,
    base: int,
    i: int,
    o: int,
)
    requires
        0 <= o < i <= cmds.len(),
        open_loops(cmds, i).contains(o),
        c2.len() == c1.len(),
        forall|p: int|
            0 <= p < c1.len() && !(pos(cmds, base, o) + 7 <= p < pos(cmds, base, o) + 11)
                ==> c2[p] == c1[p],
        forall|k: int| 0 <= k < i ==> #[trigger] command_emitted(c1, cmds, base, k),
    ensures
        forall|k: int| 0 <= k < i ==> #[trigger] command_emitted(c2, cmds, base, k),
{
    lemma_open_loops_shape(cmds, i);
    assert(cmds[o] == Command::LoopStart);
    lemma_size_positive(cmds[o]);
    assert forall|k: int| 0 <= k < i implies #[trigger] command_emitted(c2, cmds, base, k) by {
        assert(command_emitted(c1, cmds, base, k));
        let at = pos(cmds, base, k);
        lemma_size_positive(cmds[k]);
        if k != o {
            lemma_apart(cmds, base, k, o);
        }
        match cmds[k] {
            Command::LoopStart => {
                lemma_holds_at_frame(c1, c2, at, loop_start_head());
            },
            Command::LoopEnd => {
                if open_loops(cmds, k).len() > 0 {
                    let o2 = open_loops(cmds, k).last();
                    let start = pos(cmds, base, o2);
                    lemma_open_loops_shape(cmds, k);
                    assert(cmds[o2] == Command::LoopStart);
                    lemma_closed_stays_closed(cmds, k, i);
                    assert(o2 != o);
                    lemma_apart(cmds, base, o2, o);
                    lemma_size_positive(cmds[o2]);
                    lemma_holds_at_frame(
                        c1,
                        c2,
                        at,
                        loop_end_head() + le32(displacement(at + 11, start + 5)),
                    );
                    lemma_holds_at_frame(
                        c1,
                        c2,
                        start + 7,
                        le32(displacement(start + 11, at + 11)),
                    );
                }
            },
            _ => {
                lemma_holds_at_frame(c1, c2, at, template(cmds[k]));
            },
        }
    }
}

/// `code` holds, from `base` on, the routine for `cmds` with `pointer` as
/// the initial cursor: the prologue, the commands before the first
/// unmatched `LoopEnd`, and the epilogue, and nothing after it.
pub open spec fn translated(code: Seq<u8>, base: int, cmds: Seq<Command>, pointer: u64) -> bool {
    let n = first_unmatched(cmds);
    let end = pos(cmds, base, n);
    &&& code.len() == end + epilogue().len()
    &&& holds_at(code, base, prologue(pointer))
    &&& emitted(code, cmds, base, n)
    &&& holds_at(code, end, epilogue())
}

/// What translating `cmds` from `base` on reports: the first unmatched
/// `LoopEnd`, with the buffer length where it stopped the translation;
/// else a loop left open, with the offset of the branch of the innermost
/// one; else success.
pub open spec fn encode_outcome(cmds: Seq<Command>, base: int) -> Result<(), CompileError> {
    let n = first_unmatched(cmds);
    if n < cmds.len() {
        Err(CompileError::UnmatchedLoopEnd { position: pos(cmds, base, n) as usize })
    } else if open_loops(cmds, n).len() > 0 {
        Err(
            CompileError::UnterminatedLoop {
                position: (pos(cmds, base, open_loops(cmds, n).last()) + 5) as usize,
            },
        )
    } else {
        Ok(())
    }
}

/// The offsets of the `jz` branches that translating `cmds` from `base` on
/// leaves waiting for their `]`, outermost first: none once every loop is
/// closed.
pub open spec fn open_branches(cmds: Seq<Command>, base: int) -> Seq<usize> {
    let open = open_loops(cmds, first_unmatched(cmds));
    Seq::new(open.len(), |j: int| (pos(cmds, base, open[j]) + 5) as usize)
}

/// The commands can be translated: each cursor run fits its immediate and
/// every branch of the routine reaches its target.
pub open spec fn encodable(cmds: Seq<Command>) -> bool {
    moves_fit(cmds) && routine_len(cmds) <= MAX_CODE_LEN
}

impl Buff {
    /// Appends the template of a command that is not a loop bracket.
    pub fn emit_template(&mut self, c: Command)
        requires
            !is_bracket(c),
            old(self).data@.len() + size(c) <= usize::MAX,
        ensures
            final(self).data@ == old(self).data@ + template(c),
            final(self).jmp_stack@ == old(self).jmp_stack@,
    {
        match c {
            Command::Increment(n) => {
                self.append(vec![0x41, 0x80, 0x45, 0x00, (n % 0x100) as u8]);
            },
            Command::Decrement(n) => {
                self.append(vec![0x41, 0x80, 0x6D, 0x00, (n % 0x100) as u8]);
            },
            Command::MoveRight(n) => {
                if n <= MAX_SHORT_MOVE {
                    self.append(vec![0x49, 0x83, 0xC5, n as u8]);
                } else {
                    self.append(vec![0x49, 0x81, 0xC5]);
                    self.u32(#[verifier::truncate] (n as u32));
                }
            },
            Command::MoveLeft(n) => {
                if n <= MAX_SHORT_MOVE {
                    self.append(vec![0x49, 0x83, 0xED, n as u8]);
                } else {
                    self.append(vec![0x49, 0x81, 0xED]);
                    self.u32(#[verifier::truncate] (n as u32));
                }
            },
            Command::Output(n) => {
                proof {
                    lemma_writes_len(n as nat);
                }
                self.emit_write_setup();
                self.emit_writes(n);
            },
            Command::Input => {
                self.emit_read_setup();
                // mov rax, 0; syscall
                self.append(vec![0x48, 0xC7, 0xC0, 0x00, 0x00, 0x00, 0x00, 0x0F, 0x05]);
            },
            _ => {},
        }
        proof {
            assert(self.data@ =~= old(self).data@ + template(c));
        }
    }

    /// Appends the register setup of a one-byte write.
    fn emit_write_setup(&mut self)
        ensures
            final(self).data@ == old(self).data@ + write_setup(),
            final(self).jmp_stack@ == old(self).jmp_stack@,
    {
        self.append(vec![0x48, 0xC7, 0xC7, 0x01, 0x00, 0x00, 0x00]);
        self.append(vec![0x4C, 0x89, 0xEE]);
        self.append(vec![0x48, 0xC7, 0xC2, 0x01, 0x00, 0x00, 0x00]);
        proof {
            assert(self.data@ =~= old(self).data@ + write_setup());
        }
    }

    /// Appends the register setup of a one-byte read.
    fn emit_read_setup(&mut self)
        ensures
            final(self).data@ == old(self).data@ + read_setup(),
            final(self).jmp_stack@ == old(self).jmp_stack@,
    {
        self.append(vec![0x48, 0xC7, 0xC7, 0x00, 0x00, 0x00, 0x00]);
        self.append(vec![0x4C, 0x89, 0xEE]);
        self.append(vec![0x48, 0xC7, 0xC2, 0x01, 0x00, 0x00, 0x00]);
        proof {
            assert(self.data@ =~= old(self).data@ + read_setup());
        }
    }

    /// Appends `n` writes of the cell under the cursor.
    fn emit_writes(&mut self, n: usize)
        requires
            old(self).data@.len() + 9 * n <= usize::MAX,
        ensures
            final(self).data@ == old(self).data@ + writes(n as nat),
            final(self).jmp_stack@ == old(self).jmp_stack@,
    {
        let mut j: usize = 0;
        while j < n
            invariant
                j <= n,
                old(self).data@.len() + 9 * n <= usize::MAX,
                self.data@ == old(self).data@ + writes(j as nat),
                self.jmp_stack@ == old(self).jmp_stack@,
            decreases n - j,
        {
            proof {
                lemma_writes_len(j as nat);
            }
            // mov rax, 1; syscall
            self.append(vec![0x48, 0xC7, 0xC0, 0x01, 0x00, 0x00, 0x00, 0x0F, 0x05]);
            j = j + 1;
            proof {
                assert(self.data@ =~= old(self).data@ + writes(j as nat));
            }
        }
    }

    /// Translates `cmds` into a routine that loads `pointer` into the cursor
    /// register, runs the commands and returns the final cursor.
    ///
    /// At the first `LoopEnd` that has no open loop, translation stops there
    /// and the routine ends early; that is reported with the buffer length
    /// at that point. The truncation is deliberate: what was emitted is a
    /// well-formed prefix of the routine, closed by the epilogue. A loop
    /// left open is reported with the offset of the branch of the innermost
    /// one. The epilogue is emitted in every case.
    #[verifier::rlimit(40)]
    pub fn encode(&mut self, cmds: Vec<Command>, pointer: u64) -> (r: Result<(), CompileError>)
        requires
            old(self).jmp_stack@.len() == 0,
            old(self).data@.len() + routine_len(cmds@) <= MAX_CODE_LEN,
            moves_fit(cmds@),
        ensures
            final(self).data@.subrange(0, old(self).data@.len() as int) == old(self).data@,
            translated(final(self).data@, old(self).data@.len() as int, cmds@, pointer),
            r == encode_outcome(cmds@, old(self).data@.len() as int),
            final(self).jmp_stack@ == open_branches(cmds@, old(self).data@.len() as int),
    {
        let ghost base = self.data@.len() as int;
        let ghost c = cmds@;
        proof {
            lemma_offset_le(c, 0, c.len() as int);
        }
        // push r13; mov r13, pointer
        self.push(0x41);
        self.push(0x55);
        self.push(0x49);
        self.push(0xbd);
        self.u64(pointer);
        proof {
            assert(self.data@.subrange(base, base + 12) =~= prologue(pointer));
            assert(self.data@.subrange(0, base) =~= old(self).data@);
        }
        let mut i: usize = 0;
        let mut unmatched: bool = false;
        while i < cmds.len()
            invariant_except_break
                !unmatched,
            invariant
                0 <= i <= c.len(),
                c == cmds@,
                base + routine_len(c) <= MAX_CODE_LEN,
                unmatched_from(c, 0) == unmatched_from(c, i as int),
                self.data@.len() == pos(c, base, i as int),
                self.data@.subrange(0, base) == old(self).data@,
                holds_at(self.data@, base, prologue(pointer)),
                emitted(self.data@, c, base, i as int),
                self.jmp_stack@.len() == open_loops(c, i as int).len(),
                forall|j: int|
                    0 <= j < self.jmp_stack@.len() ==> #[trigger] self.jmp_stack@[j] == pos(
                        c,
                        base,
                        open_loops(c, i as int)[j],
                    ) + 5,
            ensures
                unmatched ==> i < c.len() && is_unmatched_end(c, i as int),
                !unmatched ==> i == c.len(),
            decreases c.len() - i,
        {
            let cmd = cmds[i];
            let ghost i0 = i as int;
            let ghost code0 = self.data@;
            let ghost at = pos(c, base, i0);
            proof {
                lemma_offset_mono(c, i0, c.len() as int);
                lemma_size_positive(cmd);
                lemma_open_loops_shape(c, i0);
            }
            match cmd {
                Command::LoopStart => {
                    // cmp byte [r13], 0
                    self.append(vec![0x41, 0x80, 0x7D, 0x00, 0x00]);
                    self.stack(self.len());
                    // jz, to a displacement that the matching `]` fills in
                    self.append(vec![0x0F, 0x84]);
                    self.u32(0);
                    proof {
                        let more = loop_start_head() + placeholder();
                        assert(le32(0) =~= placeholder());
                        assert(self.data@ =~= code0 + more);
                        lemma_emitted_append(code0, more, c, base, i0);
                        assert(self.data@.subrange(at, at + 7) =~= loop_start_head());
                        assert(self.data@.subrange(at + 7, at + 11) =~= placeholder());
                        assert(self.data@.subrange(0, base) =~= code0.subrange(0, base));
                        lemma_holds_at_frame(code0, self.data@, base, prologue(pointer));
                        assert(open_loops(c, i0 + 1) == open_loops(c, i0).push(i0));
                        assert(command_emitted(self.data@, c, base, i0));
                        assert forall|k: int| 0 <= k < i0 + 1 implies #[trigger] command_emitted(
                            self.data@,
                            c,
                            base,
                            k,
                        ) by {
                            if k < i0 {
                                assert(command_emitted(code0 + more, c, base, k));
                            }
                        }
                        let ol = open_loops(c, i0 + 1);
                        assert forall|j: int| 0 <= j < ol.len() implies holds_at(
                            self.data@,
                            pos(c, base, #[trigger] ol[j]) + 7,
                            placeholder(),
                        ) by {
                            if j < ol.len() - 1 {
                                assert(ol[j] == open_loops(c, i0)[j]);
                            }
                        }
                    }
                },
                Command::LoopEnd => {
                    match self.jmp_stack.pop() {
                        None => {
                            unmatched = true;
                            break ;
                        },
                        Some(open_offset) => {
                            let ghost ol = open_loops(c, i0);
                            let ghost o = ol.last();
                            let ghost start = pos(c, base, o);
                            proof {
                                assert(open_offset == start + 5);
                                assert(ol.contains(o));
                                lemma_apart(c, base, o, i0);
                                lemma_size_positive(c[o]);
                                lemma_offset_le(c, 0, o);
                            }
                            // cmp byte [r13], 0
                            self.append(vec![0x41, 0x80, 0x7D, 0x00, 0x00]);
                            // jnz back to the jz of the matching `[`
                            let jmp_bk_from: usize = self.len() + 6;
                            let rel_jmp_bk_offset: u32 = get_32bit_offset(jmp_bk_from, open_offset);
                            self.append(vec![0x0F, 0x85]);
                            self.u32(rel_jmp_bk_offset);
                            let ghost code1 = self.data@;
                            // the jz of the `[` lands just past this jnz
                            let jmp_fw_from: usize = open_offset + 6;
                            let jmp_fw_to: usize = self.len();
                            let rel_jmp_fw_offset: u32 = get_32bit_offset(jmp_fw_from, jmp_fw_to);
                            self.replace_u32(rel_jmp_fw_offset, open_offset + 2);
                            proof {
                                let bk = loop_end_head() + le32(displacement(at + 11, start + 5));
                                let fw = le32(displacement(start + 11, at + 11));
                                assert(code1 =~= code0 + bk);
                                lemma_emitted_append(code0, bk, c, base, i0);
                                assert(code1.subrange(at, at + 11) =~= bk);
                                lemma_patch_frame(code1, self.data@, c, base, i0, o);
                                assert(self.data@.subrange(start + 7, start + 11) =~= fw);
                                lemma_holds_at_frame(code1, self.data@, at, bk);
                                assert(command_emitted(self.data@, c, base, i0));
                                assert forall|k: int|
                                    0 <= k < i0 + 1 implies #[trigger] command_emitted(
                                    self.data@,
                                    c,
                                    base,
                                    k,
                                ) by {}
                                let nl = open_loops(c, i0 + 1);
                                assert(nl == ol.drop_last());
                                assert forall|j: int| 0 <= j < nl.len() implies holds_at(
                                    self.data@,
                                    pos(c, base, #[trigger] nl[j]) + 7,
                                    placeholder(),
                                ) by {
                                    assert(nl[j] == ol[j]);
                                    assert(ol[j] < o);
                                    lemma_apart(c, base, ol[j], o);
                                    lemma_size_positive(c[ol[j]]);
                                    assert(holds_at(code1, pos(c, base, ol[j]) + 7, placeholder()));
                                    lemma_holds_at_frame(
                                        code1,
                                        self.data@,
                                        pos(c, base, ol[j]) + 7,
                                        placeholder(),
                                    );
                                }
                                assert(self.data@.subrange(0, base) =~= code0.subrange(0, base));
                                lemma_holds_at_frame(code0, self.data@, base, prologue(pointer));
                                assert forall|j: int| 0 <= j < self.jmp_stack@.len() implies #[trigger] self.jmp_stack@[j]
                                    == pos(c, base, nl[j]) + 5 by {
                                    assert(nl[j] == ol[j]);
                                }
                            }
                        },
                    }
                },
                _ => {
                    self.emit_template(cmd);
                    proof {
                        let more = template(cmd);
                        lemma_emitted_append(code0, more, c, base, i0);
                        assert(self.data@.subrange(at, at + more.len()) =~= more);
                        assert(self.data@.subrange(0, base) =~= code0.subrange(0, base));
                        lemma_holds_at_frame(code0, self.data@, base, prologue(pointer));
                        assert(open_loops(c, i0 + 1) == open_loops(c, i0));
                        assert(command_emitted(self.data@, c, base, i0));
                        assert forall|k: int| 0 <= k < i0 + 1 implies #[trigger] command_emitted(
                            self.data@,
                            c,
                            base,
                            k,
                        ) by {
                            if k < i0 {
                                assert(command_emitted(code0 + more, c, base, k));
                            }
                        }
                    }
                },
            }
            i = i + 1;
        }
        let ghost code2 = self.data@;
        let ghost n = i as int;
        proof {
            if !unmatched {
                assert(unmatched_from(c, n) == n);
            }
            lemma_offset_le(c, n, c.len() as int);
        }
        // mov rax, r13; pop r13; ret
        self.append(vec![0x4c, 0x89, 0xe8, 0x41, 0x5d, 0xc3]);
        proof {
            assert(self.jmp_stack@ =~= open_branches(c, base));
            assert(self.data@ =~= code2 + epilogue());
            lemma_emitted_append(code2, epilogue(), c, base, n);
            assert(self.data@.subrange(0, base) =~= code2.subrange(0, base));
            lemma_holds_at_frame(code2, self.data@, base, prologue(pointer));
            assert(self.data@.subrange(pos(c, base, n), pos(c, base, n) + 6) =~= epilogue());
        }
        if unmatched {
            Err(CompileError::UnmatchedLoopEnd { position: self.len() - 6 })
        } else if self.jmp_stack.len() > 0 {
            let top: usize = self.jmp_stack[self.jmp_stack.len() - 1];
            Err(CompileError::UnterminatedLoop { position: top })
        } else {
            Ok(())
        }
    }
}


/// Whether `cmds` can be translated into one routine.
pub fn fits(cmds: &Vec<Command>) -> (r: bool)
    ensures
        r == encodable(cmds@),
{
    let ghost c = cmds@;
    let mut total: usize = 18;
    let mut i: usize = 0;
    while i < cmds.len()
        invariant
            i <= c.len(),
            c == cmds@,
            total == prologue(0).len() + offset(c, i as int) + epilogue().len(),
            total <= MAX_CODE_LEN,
            forall|k: int|
                0 <= k < i ==> match #[trigger] c[k] {
                    Command::MoveRight(n) => n <= MAX_MOVE,
                    Command::MoveLeft(n) => n <= MAX_MOVE,
                    _ => true,
                },
        decreases c.len() - i,
    {
        let cmd = cmds[i];
        proof {
            lemma_offset_le(c, i + 1, c.len() as int);
        }
        let sz: usize = match cmd {
            Command::Increment(_) => 5,
            Command::Decrement(_) => 5,
            Command::MoveRight(n) => {
                if n > MAX_MOVE {
                    return false;
                }
                if n <= MAX_SHORT_MOVE {
                    4
                } else {
                    7
                }
            },
            Command::MoveLeft(n) => {
                if n > MAX_MOVE {
                    return false;
                }
                if n <= MAX_SHORT_MOVE {
                    4
                } else {
                    7
                }
            },
            Command::Output(n) => {
                if n > MAX_CODE_LEN / 9 {
                    proof {
                        lemma_writes_len(n as nat);
                        assert(size(cmd) == 17 + 9 * n);
                    }
                    return false;
                }
                17 + 9 * n
            },
            Command::Input => 26,
            Command::LoopStart => 11,
            Command::LoopEnd => 11,
        };
        proof {
            if let Command::Output(n) = cmd {
                lemma_writes_len(n as nat);
                assert(template(cmd).len() == 17 + 9 * n);
            } else if cmd == Command::Input {
                assert(template(cmd).len() == 26);
            }
            assert(sz == size(cmd));
        }
        if sz > MAX_CODE_LEN - total {
            return false;
        }
        total = total + sz;
        i = i + 1;
    }
    true
}

} // verus!
