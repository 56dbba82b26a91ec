//! Folding source text into a command stream.
//!
//! Only the eight symbols `+ - > < . , [ ]` mean anything; every other
//! character is a comment. All eight are ASCII, and no byte of a multi-byte
//! UTF-8 character is ASCII, so the source is scanned byte by byte.
use vstd::prelude::*;
use vstd::string::StringSliceAdditionalSpecFns;
use crate::command::{Command, first_unmatched, lemma_extend_matched, lemma_unmatched_from_none, open_loops};

verus! {

/// `+`: add to the cell under the cursor.
pub const PLUS: u8 = 0x2B;
/// `-`: subtract from the cell under the cursor.
pub const MINUS: u8 = 0x2D;
/// `>`: move the cursor right.
pub const RIGHT: u8 = 0x3E;
/// `<`: move the cursor left.
pub const LEFT: u8 = 0x3C;
/// `.`: write the cell under the cursor.
pub const DOT: u8 = 0x2E;
/// `,`: read into the cell under the cursor.
pub const COMMA: u8 = 0x2C;
/// `[`: start of a loop.
pub const OPEN: u8 = 0x5B;
/// `]`: end of a loop.
pub const CLOSE: u8 = 0x5D;

/// One of the eight symbols of the language.
pub open spec fn is_symbol(b: u8) -> bool {
    b == PLUS || b == MINUS || b == RIGHT || b == LEFT || b == DOT || b == COMMA || b == OPEN
        || b == CLOSE
}

/// The symbols of `s`, in order, with everything else left out.
pub open spec fn symbols(s: Seq<u8>) -> Seq<u8>
    decreases s.len(),
{
    if s.len() == 0 {
        Seq::empty()
    } else {
        let r = symbols(s.drop_last());
        if is_symbol(s.last()) {
            r.push(s.last())
        } else {
            r
        }
    }
}

/// A symbol whose runs fold into one command.
pub open spec fn is_folded(b: u8) -> bool {
    b == PLUS || b == MINUS || b == RIGHT || b == LEFT || b == DOT
}

/// The number of copies of `cs[i]` that directly follow it.
pub open spec fn run_rest(cs: Seq<u8>, i: int) -> nat
    decreases cs.len() - i,
{
    if 0 <= i && i + 1 < cs.len() && cs[i + 1] == cs[i] {
        1 + run_rest(cs, i + 1)
    } else {
        0
    }
}

/// The length of the maximal run of `cs[i]` that starts at `i`.
pub open spec fn run_len(cs: Seq<u8>, i: int) -> nat {
    1 + run_rest(cs, i)
}

/// The command for a run of `n` copies of the folded symbol `b`.
pub open spec fn folded(b: u8, n: nat) -> Command {
    if b == PLUS {
        Command::Increment(n as usize)
    } else if b == MINUS {
        Command::Decrement(n as usize)
    } else if b == RIGHT {
        Command::MoveRight(n as usize)
    } else if b == LEFT {
        Command::MoveLeft(n as usize)
    } else {
        Command::Output(n as usize)
    }
}

/// The commands for the symbols `cs` from `i` on, with `depth` loops open:
/// runs of a folded symbol become one command each, `,` `[` `]` one command
/// each, and the scan stops at a `]` that finds no loop open.
pub open spec fn parse_from(cs: Seq<u8>, i: int, depth: nat) -> Seq<Command>
    decreases cs.len() - i,
{
    if i < 0 || i >= cs.len() {
        Seq::empty()
    } else if cs[i] == OPEN {
        seq![Command::LoopStart] + parse_from(cs, i + 1, depth + 1)
    } else if cs[i] == CLOSE {
        if depth == 0 {
            Seq::empty()
        } else {
            seq![Command::LoopEnd] + parse_from(cs, i + 1, (depth - 1) as nat)
        }
    } else if cs[i] == COMMA {
        seq![Command::Input] + parse_from(cs, i + 1, depth)
    } else {
        proof {
            lemma_run_len_bound(cs, i);
        }
        seq![folded(cs[i], run_len(cs, i))] + parse_from(cs, i + run_len(cs, i), depth)
    }
}

/// The index in `cs` of the first `]` from `i` on that finds no loop open,
/// with `depth` loops open at `i`.
pub open spec fn unmatched_from(cs: Seq<u8>, i: int, depth: nat) -> Option<int>
    decreases cs.len() - i,
{
    if i < 0 || i >= cs.len() {
        None
    } else if cs[i] == OPEN {
        unmatched_from(cs, i + 1, depth + 1)
    } else if cs[i] == CLOSE {
        if depth == 0 {
            Some(i)
        } else {
            unmatched_from(cs, i + 1, (depth - 1) as nat)
        }
    } else {
        unmatched_from(cs, i + 1, depth)
    }
}

/// A run stays inside the symbols, and holds one symbol only.
pub proof fn lemma_run_len_bound(cs: Seq<u8>, i: int)
    requires
        0 <= i < cs.len(),
    ensures
        i + run_len(cs, i) <= cs.len(),
        forall|k: int| i <= k < i + run_len(cs, i) ==> cs[k] == cs[i],
    decreases cs.len() - i,
{
    if i + 1 < cs.len() && cs[i + 1] == cs[i] {
        lemma_run_len_bound(cs, i + 1);
    }
}

/// A run of symbols that are not brackets leaves the search for an
/// unmatched `]` where it was.
proof fn lemma_unmatched_skip(cs: Seq<u8>, i: int, j: int, depth: nat)
    requires
        0 <= i <= j <= cs.len(),
        forall|k: int| i <= k < j ==> cs[k] != OPEN && cs[k] != CLOSE,
    ensures
        unmatched_from(cs, i, depth) == unmatched_from(cs, j, depth),
    decreases j - i,
{
    if i < j {
        lemma_unmatched_skip(cs, i + 1, j, depth);
    }
}

fn is_symbol_byte(b: u8) -> (r: bool)
    ensures
        r == is_symbol(b),
{
    b == PLUS || b == MINUS || b == RIGHT || b == LEFT || b == DOT || b == COMMA || b == OPEN
        || b == CLOSE
}

/// Folds the source into commands. At a `]` that closes no loop the scan
/// stops: the commands before it are returned with its index among the
/// symbols of the source.
pub fn parse(input: &str) -> (r: (Vec<Command>, Option<usize>))
    ensures
        r.0@ == parse_from(symbols(input.spec_bytes()), 0, 0),
        r.1 == match unmatched_from(symbols(input.spec_bytes()), 0, 0) {
            Some(p) => Some(p as usize),
            None => None::<usize>,
        },
{
    let bytes: &[u8] = input.as_bytes();
    let ghost src = input.spec_bytes();
    let mut chars: Vec<u8> = Vec::new();
    let mut k: usize = 0;
    while k < bytes.len()
        invariant
            k <= bytes@.len(),
            bytes@ == src,
            chars@ == symbols(src.subrange(0, k as int)),
            chars@.len() <= k,
        decreases bytes@.len() - k,
    {
        proof {
            assert(src.subrange(0, k + 1).drop_last() =~= src.subrange(0, k as int));
        }
        if is_symbol_byte(bytes[k]) {
            chars.push(bytes[k]);
        }
        k = k + 1;
    }
    proof {
        assert(src.subrange(0, src.len() as int) =~= src);
    }
    let ghost cs = chars@;
    let mut map: Vec<Command> = Vec::new();
    let mut i: usize = 0;
    let mut depth: usize = 0;
    while i < chars.len()
        invariant
            i <= cs.len(),
            cs == chars@,
            cs == symbols(src),
            src == input.spec_bytes(),
            depth <= i,
            map@ + parse_from(cs, i as int, depth as nat) == parse_from(cs, 0, 0),
            unmatched_from(cs, i as int, depth as nat) == unmatched_from(cs, 0, 0),
        decreases cs.len() - i,
    {
        let b: u8 = chars[i];
        let ghost i0 = i as int;
        let ghost d0 = depth as nat;
        let ghost before = map@;
        if b == OPEN {
            map.push(Command::LoopStart);
            depth = depth + 1;
            i = i + 1;
            proof {
                assert(map@ + parse_from(cs, i as int, depth as nat) =~= before + parse_from(cs, i0, d0));
            }
        } else if b == CLOSE {
            if depth == 0 {
                proof {
                    assert(cs[i0] == CLOSE);
                    assert(parse_from(cs, i0, d0) =~= Seq::<Command>::empty());
                    assert(map@ =~= map@ + parse_from(cs, i0, d0));
                    assert(unmatched_from(cs, i0, d0) == Some(i0));
                }
                return (map, Some(i));
            }
            map.push(Command::LoopEnd);
            depth = depth - 1;
            i = i + 1;
            proof {
                assert(map@ + parse_from(cs, i as int, depth as nat) =~= before + parse_from(cs, i0, d0));
            }
        } else if b == COMMA {
            map.push(Command::Input);
            i = i + 1;
            proof {
                assert(map@ + parse_from(cs, i as int, depth as nat) =~= before + parse_from(cs, i0, d0));
            }
        } else {
            let mut j: usize = i + 1;
            while j < chars.len() && chars[j] == b
                invariant
                    0 <= i0 < j <= cs.len(),
                    i0 == i,
                    cs == chars@,
                    b == cs[i0],
                    forall|q: int| i0 <= q < j ==> cs[q] == b,
                    run_rest(cs, i0) == (j - 1 - i0) + run_rest(cs, j - 1),
                decreases cs.len() - j,
            {
                assert(cs[j - 1] == b);
                let ghost jm = j - 1;
                assert(cs[jm + 1] == b);
                assert(run_rest(cs, jm) == 1 + run_rest(cs, jm + 1));
                j = j + 1;
            }
            let l: usize = j - i;
            proof {
                assert(run_rest(cs, j - 1) == 0);
                assert(l == run_len(cs, i0));
                lemma_unmatched_skip(cs, i0, j as int, d0);
            }
            let cmd: Command = if b == PLUS {
                Command::Increment(l)
            } else if b == MINUS {
                Command::Decrement(l)
            } else if b == RIGHT {
                Command::MoveRight(l)
            } else if b == LEFT {
                Command::MoveLeft(l)
            } else {
                Command::Output(l)
            };
            map.push(cmd);
            i = j;
            proof {
                assert(map@ + parse_from(cs, i as int, depth as nat) =~= before + parse_from(cs, i0, d0));
            }
        }
    }
    proof {
        assert(map@ =~= map@ + parse_from(cs, i as int, depth as nat));
    }
    (map, None)
}

/// The commands that follow a stream free of unmatched `LoopEnd`s with
/// `depth` loops open keep it free of them: the scan stops before a `]`
/// that would close nothing.
proof fn lemma_parse_from_matched(p: Seq<Command>, cs: Seq<u8>, i: int, depth: nat)
    requires
        0 <= i,
        first_unmatched(p) == p.len(),
        open_loops(p, p.len() as int).len() == depth,
    ensures
        first_unmatched(p + parse_from(cs, i, depth)) == (p + parse_from(cs, i, depth)).len(),
    decreases cs.len() - i,
{
    if i >= cs.len() || (cs[i] == CLOSE && depth == 0) {
        assert(p + parse_from(cs, i, depth) =~= p);
    } else {
        let b = cs[i];
        let (c, next, d2) = if b == OPEN {
            (Command::LoopStart, i + 1, depth + 1)
        } else if b == CLOSE {
            (Command::LoopEnd, i + 1, (depth - 1) as nat)
        } else if b == COMMA {
            (Command::Input, i + 1, depth)
        } else {
            lemma_run_len_bound(cs, i);
            (folded(b, run_len(cs, i)), i + run_len(cs, i), depth)
        };
        lemma_extend_matched(p, c);
        lemma_parse_from_matched(p.push(c), cs, next, d2);
        assert(p + parse_from(cs, i, depth) =~= p.push(c) + parse_from(cs, next, d2));
    }
}

/// The commands of any source hold no unmatched `LoopEnd`: the scan stops
/// at the first `]` that closes no loop.
pub proof fn lemma_parsed_matched(cs: Seq<u8>)
    ensures
        first_unmatched(parse_from(cs, 0, 0)) == parse_from(cs, 0, 0).len(),
{
    let e = Seq::<Command>::empty();
    lemma_unmatched_from_none(e, 0);
    lemma_parse_from_matched(e, cs, 0, 0);
    assert(e + parse_from(cs, 0, 0) =~= parse_from(cs, 0, 0));
}

} // verus!
