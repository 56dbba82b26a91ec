use bfjit::session::{START_OFFSET, TAPE_LEN};
use bfjit::{compile, Session, SessionError};

#[test]
fn new_session_has_zero_tape_and_middle_cursor() {
    let s = Session::new();
    assert_eq!(s.tape.len(), TAPE_LEN);
    assert!(s.tape.iter().all(|&c| c == 0));
    assert_eq!(s.offset(), START_OFFSET);
}

#[test]
fn cursor_pointer_adds_the_offset() {
    let s = Session::new();
    assert_eq!(s.cursor_pointer(1000), Ok(1000 + START_OFFSET as u64));
    assert_eq!(s.cursor_pointer(u64::MAX), Err(SessionError::AddressOverflow));
}

#[test]
fn resume_takes_the_returned_cursor() {
    let mut s = Session::new();
    assert_eq!(s.resume(1000, 1001), Ok(1));
    assert_eq!(s.offset(), 1);
    assert_eq!(s.resume(1000, 999), Err(SessionError::CursorOffTape { address: 999 }));
    assert_eq!(s.offset(), 1);
    let past = 1000 + TAPE_LEN as u64;
    assert_eq!(s.resume(1000, past), Err(SessionError::CursorOffTape { address: past }));
    assert_eq!(s.offset(), 1);
}

#[test]
fn each_cycle_is_compiled_at_the_persisted_cursor() {
    // "+++", ">", "+++" on a fresh session: the second routine starts where
    // the first left the cursor, and the third where the second moved it.
    let base: u64 = 0x10_0000;
    let mut s = Session::new();
    s.offset = 0;
    let p1 = s.cursor_pointer(base).unwrap();
    assert_eq!(compile("+++", p1).unwrap().code[4..12], base.to_le_bytes());
    assert_eq!(s.resume(base, p1), Ok(0));
    let p2 = s.cursor_pointer(base).unwrap();
    assert_eq!(compile(">", p2).unwrap().code[4..12], base.to_le_bytes());
    assert_eq!(s.resume(base, p2 + 1), Ok(1));
    let p3 = s.cursor_pointer(base).unwrap();
    assert_eq!(compile("+++", p3).unwrap().code[4..12], (base + 1).to_le_bytes());
    assert_eq!(s.offset(), 1);
}
