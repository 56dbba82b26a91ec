use bfjit::{parse, Command};

#[test]
fn runs_fold_and_comments_vanish() {
    let (cmds, unmatched) = parse("++ a +--\n>><.x.");
    assert_eq!(unmatched, None);
    assert_eq!(
        cmds,
        vec![
            Command::Increment(3),
            Command::Decrement(2),
            Command::MoveRight(2),
            Command::MoveLeft(1),
            Command::Output(2),
        ]
    );
}

#[test]
fn commas_and_brackets_never_fold() {
    let (cmds, unmatched) = parse(",,[[]]");
    assert_eq!(unmatched, None);
    assert_eq!(
        cmds,
        vec![
            Command::Input,
            Command::Input,
            Command::LoopStart,
            Command::LoopStart,
            Command::LoopEnd,
            Command::LoopEnd,
        ]
    );
}

#[test]
fn non_ascii_text_is_a_comment() {
    let (cmds, unmatched) = parse("é+ü+→-");
    assert_eq!(unmatched, None);
    assert_eq!(cmds, vec![Command::Increment(2), Command::Decrement(1)]);
}

#[test]
fn unmatched_loop_end_stops_the_scan() {
    let (cmds, unmatched) = parse("+[]]+++");
    assert_eq!(unmatched, Some(3));
    assert_eq!(cmds, vec![Command::Increment(1), Command::LoopStart, Command::LoopEnd]);
}

#[test]
fn lone_loop_end_gives_nothing() {
    assert_eq!(parse("]"), (vec![], Some(0)));
}

#[test]
fn net_increments_reach_the_cell() {
    let (cmds, _) = parse("+++--+");
    assert_eq!(cmds, vec![Command::Increment(3), Command::Decrement(2), Command::Increment(1)]);
}

#[test]
fn empty_source_gives_no_commands() {
    assert_eq!(parse(""), (vec![], None));
    assert_eq!(parse("no symbols here"), (vec![], None));
}

#[test]
fn moves_fold_into_runs() {
    let (cmds, unmatched) = parse(">>><<>");
    assert_eq!(unmatched, None);
    assert_eq!(cmds, vec![Command::MoveRight(3), Command::MoveLeft(2), Command::MoveRight(1)]);
}
