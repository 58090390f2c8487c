use catseq::decorate::{copy_decorated, copy_or_die, Decorators, State};

fn fresh_state() -> State {
    State { empty_streak: 1, current_line: 1 }
}

fn run(input: &[u8], ends: bool, number: bool, squeeze: bool) -> Vec<u8> {
    let mut state = fresh_state();
    let decorators = Decorators { ends, number, squeeze };
    copy_or_die(&mut state, input, &decorators)
}

#[test]
fn no_decorations_is_identity() {
    let input = b"alpha\n\nbeta\nno trailing newline";
    assert_eq!(run(input, false, false, false), input.to_vec());
    assert_eq!(run(b"", false, false, false), b"".to_vec());
    let mut state = fresh_state();
    let out = copy_or_die(&mut state, b"x\n\n\ny\n", &Decorators {
        ends: false,
        number: false,
        squeeze: false,
    });
    assert_eq!(out, b"x\n\n\ny\n".to_vec());
    assert_eq!(state.empty_streak, 1);
    assert_eq!(state.current_line, 1);
}

#[test]
fn numbering_counts_every_line() {
    assert_eq!(
        run(b"a\n\nb\n", false, true, false),
        b"     1: a\n     2: \n     3: b\n".to_vec()
    );
}

#[test]
fn show_ends_marks_every_newline() {
    assert_eq!(run(b"x\n", true, false, false), b"x$\n".to_vec());
    assert_eq!(run(b"a\nb\n\n", true, false, false), b"a$\nb$\n$\n".to_vec());
    assert_eq!(run(b"no newline", true, false, false), b"no newline".to_vec());
}

#[test]
fn squeeze_keeps_one_blank_of_two() {
    assert_eq!(run(b"a\n\n\nb\n", false, false, true), b"a\n\nb\n".to_vec());
}

#[test]
fn squeeze_keeps_one_blank_of_three() {
    assert_eq!(run(b"a\n\n\n\nb\n", false, false, true), b"a\n\nb\n".to_vec());
}

#[test]
fn squeeze_single_blank_passes() {
    assert_eq!(run(b"a\n\nb\n", false, false, true), b"a\n\nb\n".to_vec());
}

#[test]
fn squeeze_at_stream_start() {
    assert_eq!(run(b"\n\n\nx\n", false, false, true), b"\nx\n".to_vec());
}

#[test]
fn state_carries_across_chunks() {
    let decorators = Decorators { ends: true, number: false, squeeze: false };
    let mut state = fresh_state();
    let mut out = copy_decorated(&mut state, b"ab", &decorators);
    assert_eq!(out, b"ab".to_vec());
    assert_eq!(state.empty_streak, 0);
    out = copy_decorated(&mut state, b"\ncd\n", &decorators);
    assert_eq!(out, b"$\ncd$\n".to_vec());
}

#[test]
fn numbering_continues_across_inputs() {
    let decorators = Decorators { ends: false, number: true, squeeze: false };
    let mut state = fresh_state();
    assert_eq!(
        copy_decorated(&mut state, b"a\n", &decorators),
        b"     1: a\n".to_vec()
    );
    assert_eq!(
        copy_decorated(&mut state, b"b\n", &decorators),
        b"     2: b\n".to_vec()
    );
    assert_eq!(state.current_line, 3);
}

#[test]
fn wide_line_numbers_grow_past_the_field() {
    let decorators = Decorators { ends: false, number: true, squeeze: false };
    let mut state = State { empty_streak: 1, current_line: 1234567 };
    assert_eq!(
        copy_decorated(&mut state, b"x\n", &decorators),
        b"1234567: x\n".to_vec()
    );
    let mut state = State { empty_streak: 1, current_line: 999999 };
    assert_eq!(
        copy_decorated(&mut state, b"x\n", &decorators),
        b"999999: x\n".to_vec()
    );
}

#[test]
fn squeeze_streak_tracks_run_length() {
    let decorators = Decorators { ends: false, number: false, squeeze: true };
    let mut state = fresh_state();
    let out = copy_decorated(&mut state, b"a\n\n\n", &decorators);
    assert_eq!(out, b"a\n\n".to_vec());
    assert_eq!(state.empty_streak, 3);
}

#[test]
fn squeeze_run_spanning_chunks_is_one_run() {
    let decorators = Decorators { ends: false, number: false, squeeze: true };
    let mut state = fresh_state();
    let mut out = copy_decorated(&mut state, b"a\n\n", &decorators);
    assert_eq!(out, b"a\n\n".to_vec());
    out = copy_decorated(&mut state, b"\n\nb\n", &decorators);
    assert_eq!(out, b"b\n".to_vec());
}

#[test]
fn all_decorations_together() {
    assert_eq!(
        run(b"a\n\n\n\nb\n", true, true, true),
        b"     1: a$\n     2: $\n     3: b$\n".to_vec()
    );
}
