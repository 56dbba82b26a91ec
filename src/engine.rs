//! From source text to machine code in an executable region.
use vstd::prelude::*;
use vstd::string::StringSliceAdditionalSpecFns;
use vonneumann::ExecutableMemory;
use crate::buff::Buff;
use crate::codegen::{encodable, encode_outcome, fits, pos, translated};
use crate::command::{Command, CompileError, open_loops};
use crate::parser::{lemma_parsed_matched, parse, parse_from, symbols, unmatched_from};

verus! {

/// `vonneumann::ExecutableMemory`, a region of memory mapped executable;
/// opaque here, and known only by the bytes it holds.
#[verifier::external_type_specification]
#[verifier::external_body]
pub struct ExExecutableMemory(ExecutableMemory);

/// The bytes that an executable region holds.
pub uninterp spec fn region_contents(m: ExecutableMemory) -> Seq<u8>;

/// Relies on `vonneumann::ExecutableMemory::with_contents`: it maps a fresh
/// read-write-execute region and copies `data` into it, so the region then
/// holds exactly `data`. The call panics when the mapping fails: always for
/// zero bytes, so `data` must not be empty, and otherwise only when the
/// system refuses the memory.
pub assume_specification[ ExecutableMemory::with_contents ](data: &[u8]) -> (r: ExecutableMemory)
    requires
        data@.len() > 0,
    ensures
        region_contents(r) == data@,
;

/// The commands that source text whose bytes are `src` folds into.
pub open spec fn source_commands(src: Seq<u8>) -> Seq<Command> {
    parse_from(symbols(src), 0, 0)
}

/// A translated program, with the report of the `]` that closed no loop
/// where translation stopped early, if there was one.
#[derive(Debug)]
pub struct Translation {
    pub code: Vec<u8>,
    pub report: Option<CompileError>,
}

/// A translated program in an executable region, with the report of the
/// `]` that closed no loop where translation stopped early, if there was
/// one.
#[derive(Debug)]
pub struct Routine {
    pub program: ExecutableMemory,
    pub report: Option<CompileError>,
}

/// What compiling source text whose bytes are `src` gives: no routine for a
/// program too large to translate, nor for one that leaves a loop open
/// (reported with the offset of the branch of the innermost one); else a
/// routine, with the report of a `]` that closed no loop, at its index among
/// the symbols, if the source has one. Such a routine holds the commands
/// before that `]`, and still returns the cursor.
pub open spec fn compile_outcome(src: Seq<u8>) -> Result<Option<CompileError>, CompileError> {
    let cmds = source_commands(src);
    if !encodable(cmds) {
        Err(CompileError::ProgramTooLarge)
    } else if open_loops(cmds, cmds.len() as int).len() > 0 {
        Err(
            CompileError::UnterminatedLoop {
                position: (pos(cmds, 0, open_loops(cmds, cmds.len() as int).last()) + 5) as usize,
            },
        )
    } else {
        Ok(
            match unmatched_from(symbols(src), 0, 0) {
                Some(p) => Some(CompileError::UnmatchedLoopEnd { position: p as usize }),
                None => None,
            },
        )
    }
}

/// A translation with outcome `o` is a routine that can run: all but a
/// loop left open.
pub open spec fn runnable(o: Result<(), CompileError>) -> bool {
    match o {
        Err(CompileError::UnterminatedLoop { .. }) => false,
        _ => true,
    }
}

/// The report that goes with a routine whose translation had outcome `o`.
pub open spec fn report_of(o: Result<(), CompileError>) -> Option<CompileError> {
    match o {
        Ok(()) => None,
        Err(e) => Some(e),
    }
}

/// Compiles source text into the bytes of a routine that starts with the
/// cursor at `pointer` and returns the final cursor.
pub fn compile(source: &str, pointer: u64) -> (r: Result<Translation, CompileError>)
    ensures
        match compile_outcome(source.spec_bytes()) {
            Ok(report) => r is Ok && r->Ok_0.report == report && translated(
                r->Ok_0.code@,
                0,
                source_commands(source.spec_bytes()),
                pointer,
            ),
            Err(e) => r is Err && r->Err_0 == e,
        },
{
    let (cmds, unmatched) = parse(source);
    proof {
        lemma_parsed_matched(symbols(source.spec_bytes()));
    }
    if !fits(&cmds) {
        return Err(CompileError::ProgramTooLarge);
    }
    let mut buffer = Buff::new();
    match buffer.encode(cmds, pointer) {
        Ok(()) => {
            let report = match unmatched {
                Some(p) => Some(CompileError::UnmatchedLoopEnd { position: p }),
                None => None,
            };
            Ok(Translation { code: buffer.data, report })
        },
        Err(e) => Err(e),
    }
}

/// Translates `code` into a routine that starts with the cursor at
/// `pointer`, in a fresh executable region. At a `LoopEnd` that closes no
/// loop the routine ends early and comes with the report of it; nothing is
/// mapped for a program too large to translate or one that leaves a loop
/// open.
pub fn run_with_ptr(code: Vec<Command>, pointer: u64) -> (r: Result<Routine, CompileError>)
    ensures
        !encodable(code@) ==> r is Err && r->Err_0 == CompileError::ProgramTooLarge,
        encodable(code@) && !runnable(encode_outcome(code@, 0)) ==> r is Err && r->Err_0
            == encode_outcome(code@, 0)->Err_0,
        encodable(code@) && runnable(encode_outcome(code@, 0)) ==> r is Ok && r->Ok_0.report
            == report_of(encode_outcome(code@, 0)) && translated(
            region_contents(r->Ok_0.program),
            0,
            code@,
            pointer,
        ),
{
    if !fits(&code) {
        return Err(CompileError::ProgramTooLarge);
    }
    let mut buffer = Buff::new();
    let outcome = buffer.encode(code, pointer);
    match outcome {
        Err(CompileError::UnterminatedLoop { position }) => {
            Err(CompileError::UnterminatedLoop { position })
        },
        _ => {
            let report = match outcome {
                Ok(()) => None,
                Err(e) => Some(e),
            };
            let program = ExecutableMemory::with_contents(buffer.data.as_slice());
            Ok(Routine { program, report })
        },
    }
}

/// Compiles source text into a routine in a fresh executable region that
/// starts with the cursor at `pointer` and returns the final cursor.
pub fn load(source: &str, pointer: u64) -> (r: Result<Routine, CompileError>)
    ensures
        match compile_outcome(source.spec_bytes()) {
            Ok(report) => r is Ok && r->Ok_0.report == report && translated(
                region_contents(r->Ok_0.program),
                0,
                source_commands(source.spec_bytes()),
                pointer,
            ),
            Err(e) => r is Err && r->Err_0 == e,
        },
{
    match compile(source, pointer) {
        Ok(t) => Ok(Routine { program: ExecutableMemory::with_contents(t.code.as_slice()), report: t.report }),
        Err(e) => Err(e),
    }
}

} // verus!
