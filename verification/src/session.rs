//! The decisions of the viewer loop: after each frame is shown, whether to
//! stop, to quit the interactive view, or to turn the model and go on.
use vstd::prelude::*;

verus! {

/// How the viewer runs: one frame of a given size, or a turntable that
/// redraws until the user quits.
#[derive(Clone, Copy, Debug, PartialEq, Eq)]
pub enum RunMode {
    Image { width: usize, height: usize },
    Turntable,
}

/// A key the user pressed: its character, if it is one, and whether the
/// modifiers held were exactly Control.
#[derive(Clone, Copy, Debug, PartialEq, Eq)]
pub struct KeyPress {
    pub ch: Option<char>,
    pub control_only: bool,
}

/// What the loop does after showing a frame.
#[derive(Clone, Copy, Debug, PartialEq, Eq)]
pub enum Step {
    /// Leave the loop; the frame stays on screen.
    Stop,
    /// Leave the interactive view: show the cursor again and restore the
    /// terminal, then leave the loop.
    Quit,
    /// Turn the model by the time elapsed and draw the next frame.
    Rotate,
}

/// `q`, or `c` with Control alone, ends the turntable.
pub open spec fn is_quit_key(key: KeyPress) -> bool {
    key.ch == Some('q') || (key.ch == Some('c') && key.control_only)
}

/// The step after a frame: an image is drawn once; a turntable quits on a
/// quit key and otherwise turns.
pub open spec fn spec_next_step(mode: RunMode, key: Option<KeyPress>) -> Step {
    match mode {
        RunMode::Image { .. } => Step::Stop,
        RunMode::Turntable => match key {
            Some(k) => if is_quit_key(k) {
                Step::Quit
            } else {
                Step::Rotate
            },
            None => Step::Rotate,
        },
    }
}

/// Whether `key` ends the turntable.
pub fn quits(key: KeyPress) -> (r: bool)
    ensures
        r == is_quit_key(key),
{
    match key.ch {
        Some(c) => c == 'q' || (c == 'c' && key.control_only),
        None => false,
    }
}

/// The step after a frame was shown in `mode`, with `key` the key pressed
/// meanwhile, if any.
pub fn next_step(mode: RunMode, key: Option<KeyPress>) -> (s: Step)
    ensures
        s == spec_next_step(mode, key),
{
    match mode {
        RunMode::Image { .. } => Step::Stop,
        RunMode::Turntable => match key {
            Some(k) => if quits(k) {
                Step::Quit
            } else {
                Step::Rotate
            },
            None => Step::Rotate,
        },
    }
}

/// What the viewer does after a frame: an image stops; the turntable quits
/// exactly on `q` (whatever the modifiers) or on `c` with Control alone,
/// and on any other key (a key without a character among them) or no key
/// at all it keeps turning.
pub proof fn lemma_next_step_law(mode: RunMode, key: Option<KeyPress>)
    ensures
        mode is Image ==> spec_next_step(mode, key) == Step::Stop,
        mode is Turntable ==> (spec_next_step(mode, key) == Step::Quit <==> (key matches Some(k)
            && (k.ch == Some('q') || (k.ch == Some('c') && k.control_only)))),
        mode is Turntable ==> (spec_next_step(mode, key) == Step::Rotate <==> !(key matches Some(k)
            && (k.ch == Some('q') || (k.ch == Some('c') && k.control_only)))),
        mode is Turntable && key is None ==> spec_next_step(mode, key) == Step::Rotate,
        mode is Turntable && (key matches Some(k) && k.ch is None) ==> spec_next_step(mode, key)
            == Step::Rotate,
{
}

/// A key without a character never ends the turntable, `q` always does, and
/// `c` does exactly when Control alone is held; no other character does.
pub proof fn lemma_quit_keys(key: KeyPress)
    ensures
        key.ch is None ==> !is_quit_key(key),
        key.ch == Some('q') ==> is_quit_key(key),
        key.ch == Some('c') ==> (is_quit_key(key) <==> key.control_only),
        is_quit_key(key) ==> key.ch == Some('q') || key.ch == Some('c'),
{
}

/// Whether the frame is printed with a line break after each row: only a
/// one-off image is; the turntable redraws in place.
pub fn prints_newlines(mode: RunMode) -> (r: bool)
    ensures
        r == (mode is Image),
{
    match mode {
        RunMode::Image { .. } => true,
        RunMode::Turntable => false,
    }
}

} // verus!
