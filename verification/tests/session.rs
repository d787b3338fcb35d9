use rendersloth::{next_step, prints_newlines, quits, KeyPress, RunMode, Step};

fn key(ch: Option<char>, control_only: bool) -> KeyPress {
    KeyPress { ch, control_only }
}

#[test]
fn quit_keys() {
    assert!(quits(key(Some('q'), false)));
    assert!(quits(key(Some('q'), true)));
    assert!(quits(key(Some('c'), true)));
    assert!(!quits(key(Some('c'), false)));
    assert!(!quits(key(Some('Q'), false)));
    assert!(!quits(key(Some('x'), true)));
    assert!(!quits(key(None, true)));
}

#[test]
fn image_mode_draws_once() {
    let mode = RunMode::Image { width: 10, height: 5 };
    assert_eq!(next_step(mode, None), Step::Stop);
    assert_eq!(next_step(mode, Some(key(Some('x'), false))), Step::Stop);
    assert_eq!(next_step(mode, Some(key(Some('q'), false))), Step::Stop);
    assert!(prints_newlines(mode));
}

#[test]
fn turntable_turns_until_quit() {
    let mode = RunMode::Turntable;
    assert_eq!(next_step(mode, None), Step::Rotate);
    assert_eq!(next_step(mode, Some(key(Some('a'), false))), Step::Rotate);
    assert_eq!(next_step(mode, Some(key(Some('c'), false))), Step::Rotate);
    assert_eq!(next_step(mode, Some(key(Some('q'), false))), Step::Quit);
    assert_eq!(next_step(mode, Some(key(Some('c'), true))), Step::Quit);
    assert!(!prints_newlines(mode));
}
