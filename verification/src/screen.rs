//! The screens of the front end and the steps between them.

use vstd::prelude::*;

verus! {

/// The screens of the front end, in the order in which a run passes them.
#[derive(Clone, Copy, Debug, PartialEq, Eq, Structural)]
pub enum CurrentScreen {
    Main,
    SelectingMidi,
    SelectingWav,
    ConfirmingSelection,
    Grading,
}

/// A key of the keyboard, as far as the front end tells keys apart.
#[derive(Clone, Copy, Debug, PartialEq, Eq, Structural)]
pub enum Key {
    Char(char),
    Left,
    Right,
    Up,
    Down,
    Other,
}

/// What happened to a key.
#[derive(Clone, Copy, Debug, PartialEq, Eq, Structural)]
pub struct KeyEvent {
    pub key: Key,
    /// Whether the key was let go, not pressed.
    pub released: bool,
}

/// What the front end has to do besides showing the next screen.
#[derive(Clone, Copy, Debug, PartialEq, Eq, Structural)]
pub enum Action {
    Nothing,
    /// Leave the program.
    Quit,
    SelectPreviousMidi,
    SelectNextMidi,
    SelectPreviousWav,
    SelectNextWav,
    /// Forget which files are selected.
    ClearSelections,
}

/// The screen to show next, and what to do on the way.
#[derive(Clone, Copy, Debug, PartialEq, Eq, Structural)]
pub struct Step {
    pub screen: CurrentScreen,
    pub action: Action,
}

/// The colours in which a score is shown.
#[derive(Clone, Copy, Debug, PartialEq, Eq, Structural)]
pub enum GradeColor {
    Black,
    Red,
    Yellow,
    Green,
    Blue,
    Cyan,
    Magenta,
}

/// The step that a key event causes on a screen. Keys that are let go cause
/// nothing. The right key leads on and the left key back; a list of files is
/// left to the right only with a file selected. On the first screen `q`
/// leaves the program; from the last screen the right key leads back to the
/// first, and the selections are forgotten.
pub open spec fn next_step(
    screen: CurrentScreen,
    event: KeyEvent,
    midi_selected: bool,
    wav_selected: bool,
) -> Step {
    if event.released {
        Step { screen, action: Action::Nothing }
    } else {
        match (screen, event.key) {
            (CurrentScreen::Main, Key::Char(c)) => Step {
                screen,
                action: if c == 'q' {
                    Action::Quit
                } else {
                    Action::Nothing
                },
            },
            (CurrentScreen::Main, Key::Right) => Step {
                screen: CurrentScreen::SelectingMidi,
                action: Action::Nothing,
            },
            (CurrentScreen::SelectingMidi, Key::Left) => Step {
                screen: CurrentScreen::Main,
                action: Action::Nothing,
            },
            (CurrentScreen::SelectingMidi, Key::Up) => Step {
                screen,
                action: Action::SelectPreviousMidi,
            },
            (CurrentScreen::SelectingMidi, Key::Down) => Step {
                screen,
                action: Action::SelectNextMidi,
            },
            (CurrentScreen::SelectingMidi, Key::Right) => Step {
                screen: if midi_selected {
                    CurrentScreen::SelectingWav
                } else {
                    screen
                },
                action: Action::Nothing,
            },
            (CurrentScreen::SelectingWav, Key::Left) => Step {
                screen: CurrentScreen::SelectingMidi,
                action: Action::Nothing,
            },
            (CurrentScreen::SelectingWav, Key::Up) => Step {
                screen,
                action: Action::SelectPreviousWav,
            },
            (CurrentScreen::SelectingWav, Key::Down) => Step {
                screen,
                action: Action::SelectNextWav,
            },
            (CurrentScreen::SelectingWav, Key::Right) => Step {
                screen: if wav_selected {
                    CurrentScreen::ConfirmingSelection
                } else {
                    screen
                },
                action: Action::Nothing,
            },
            (CurrentScreen::ConfirmingSelection, Key::Left) => Step {
                screen: CurrentScreen::SelectingWav,
                action: Action::Nothing,
            },
            (CurrentScreen::ConfirmingSelection, Key::Right) => Step {
                screen: CurrentScreen::Grading,
                action: Action::Nothing,
            },
            (CurrentScreen::Grading, Key::Right) => Step {
                screen: CurrentScreen::Main,
                action: Action::ClearSelections,
            },
            _ => Step { screen, action: Action::Nothing },
        }
    }
}

/// Whether the files that a screen shows as chosen are selected: from the
/// list of recordings on, a reference is; from the confirmation on, a
/// recording is too.
pub open spec fn selections_present(
    screen: CurrentScreen,
    midi_selected: bool,
    wav_selected: bool,
) -> bool {
    match screen {
        CurrentScreen::Main | CurrentScreen::SelectingMidi => true,
        CurrentScreen::SelectingWav => midi_selected,
        CurrentScreen::ConfirmingSelection | CurrentScreen::Grading => midi_selected
            && wav_selected,
    }
}

/// Whether `after` can say that a reference is selected when `before` said
/// so and `action` has been done: moving in the list of references may
/// change its selection in any way, forgetting clears it, and nothing else
/// touches it.
pub open spec fn midi_selection_follows(action: Action, before: bool, after: bool) -> bool {
    match action {
        Action::ClearSelections => !after,
        Action::SelectPreviousMidi | Action::SelectNextMidi => true,
        _ => after == before,
    }
}

/// Whether `after` can say that a recording is selected when `before` said
/// so and `action` has been done.
pub open spec fn wav_selection_follows(action: Action, before: bool, after: bool) -> bool {
    match action {
        Action::ClearSelections => !after,
        Action::SelectPreviousWav | Action::SelectNextWav => true,
        _ => after == before,
    }
}

/// No step leads to a screen that shows a file as chosen while none is
/// selected.
pub proof fn lemma_selections_kept(
    screen: CurrentScreen,
    event: KeyEvent,
    midi_selected: bool,
    wav_selected: bool,
    midi_after: bool,
    wav_after: bool,
)
    requires
        selections_present(screen, midi_selected, wav_selected),
        midi_selection_follows(
            next_step(screen, event, midi_selected, wav_selected).action,
            midi_selected,
            midi_after,
        ),
        wav_selection_follows(
            next_step(screen, event, midi_selected, wav_selected).action,
            wav_selected,
            wav_after,
        ),
    ensures
        selections_present(
            next_step(screen, event, midi_selected, wav_selected).screen,
            midi_after,
            wav_after,
        ),
{
}

/// Decides what a key event causes on a screen, given whether a file is
/// selected in each of the two lists.
pub fn handle_key(
    screen: CurrentScreen,
    event: KeyEvent,
    midi_selected: bool,
    wav_selected: bool,
) -> (step: Step)
    ensures
        step == next_step(screen, event, midi_selected, wav_selected),
{
    if event.released {
        return Step { screen, action: Action::Nothing };
    }
    match screen {
        CurrentScreen::Main => match event.key {
            Key::Char(c) => Step {
                screen,
                action: if c == 'q' {
                    Action::Quit
                } else {
                    Action::Nothing
                },
            },
            Key::Right => Step { screen: CurrentScreen::SelectingMidi, action: Action::Nothing },
            _ => Step { screen, action: Action::Nothing },
        },
        CurrentScreen::SelectingMidi => match event.key {
            Key::Left => Step { screen: CurrentScreen::Main, action: Action::Nothing },
            Key::Up => Step { screen, action: Action::SelectPreviousMidi },
            Key::Down => Step { screen, action: Action::SelectNextMidi },
            Key::Right => if midi_selected {
                Step { screen: CurrentScreen::SelectingWav, action: Action::Nothing }
            } else {
                Step { screen, action: Action::Nothing }
            },
            _ => Step { screen, action: Action::Nothing },
        },
        CurrentScreen::SelectingWav => match event.key {
            Key::Left => Step { screen: CurrentScreen::SelectingMidi, action: Action::Nothing },
            Key::Up => Step { screen, action: Action::SelectPreviousWav },
            Key::Down => Step { screen, action: Action::SelectNextWav },
            Key::Right => if wav_selected {
                Step { screen: CurrentScreen::ConfirmingSelection, action: Action::Nothing }
            } else {
                Step { screen, action: Action::Nothing }
            },
            _ => Step { screen, action: Action::Nothing },
        },
        CurrentScreen::ConfirmingSelection => match event.key {
            Key::Left => Step { screen: CurrentScreen::SelectingWav, action: Action::Nothing },
            Key::Right => Step { screen: CurrentScreen::Grading, action: Action::Nothing },
            _ => Step { screen, action: Action::Nothing },
        },
        CurrentScreen::Grading => match event.key {
            Key::Right => Step { screen: CurrentScreen::Main, action: Action::ClearSelections },
            _ => Step { screen, action: Action::Nothing },
        },
    }
}

/// The colour for a score in parts per million: black below a fifth, then
/// red, yellow and green for a fifth each, blue up to nine tenths, cyan
/// above, and magenta for the whole.
pub open spec fn color_of(grade: int) -> GradeColor {
    if grade < 200_000 {
        GradeColor::Black
    } else if grade < 400_000 {
        GradeColor::Red
    } else if grade < 600_000 {
        GradeColor::Yellow
    } else if grade < 800_000 {
        GradeColor::Green
    } else if grade < 900_000 {
        GradeColor::Blue
    } else if grade < 1_000_000 {
        GradeColor::Cyan
    } else {
        GradeColor::Magenta
    }
}

/// The colour in which a score is shown.
pub fn color_grade(grade: u64) -> (color: GradeColor)
    requires
        grade <= 1_000_000,
    ensures
        color == color_of(grade as int),
{
    if grade < 200_000 {
        GradeColor::Black
    } else if grade < 400_000 {
        GradeColor::Red
    } else if grade < 600_000 {
        GradeColor::Yellow
    } else if grade < 800_000 {
        GradeColor::Green
    } else if grade < 900_000 {
        GradeColor::Blue
    } else if grade < 1_000_000 {
        GradeColor::Cyan
    } else {
        GradeColor::Magenta
    }
}

} // verus!
