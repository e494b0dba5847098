//! The speeds at which a tournament can be played, the buttons that select
//! them, and how many images a speed shows at once.

use vstd::prelude::*;

verus! {

/// Marks the screen on which the speed is selected.
#[derive(Debug, Clone, Copy, PartialEq, Eq, Hash, Structural)]
pub struct SpeedSelectComponent;

/// Marks the button that begins the tournament.
#[derive(Debug, Clone, Copy, PartialEq, Eq, Hash, Structural)]
pub struct BeginButton;

/// The speed of a tournament.
#[derive(Debug, Clone, Copy, PartialEq, Eq, Hash, Structural)]
pub enum SpeedState {
    /// Two images at a time.
    Slow,
    /// Two images at a time; the speed selected at the start.
    Normal,
    /// More images at a time, the more the larger the round.
    Fast,
}

impl Default for SpeedState {
    fn default() -> (state: SpeedState)
        ensures
            state == SpeedState::Normal,
    {
        SpeedState::Normal
    }
}

/// The buttons that select a speed.
#[derive(Debug, Clone, Copy, PartialEq, Eq, Hash, Structural)]
pub enum SpeedSelectButton {
    /// Selects `SpeedState::Slow`.
    SlowButton,
    /// Selects `SpeedState::Normal`.
    NormalButton,
    /// Selects `SpeedState::Fast`.
    FastButton,
}

impl SpeedSelectButton {
    /// The speed that the button selects.
    pub open spec fn selects(self) -> SpeedState {
        match self {
            SpeedSelectButton::SlowButton => SpeedState::Slow,
            SpeedSelectButton::NormalButton => SpeedState::Normal,
            SpeedSelectButton::FastButton => SpeedState::Fast,
        }
    }

    /// The speed that pressing the button selects.
    pub fn speed(&self) -> (state: SpeedState)
        ensures
            state == self.selects(),
    {
        match self {
            SpeedSelectButton::SlowButton => SpeedState::Slow,
            SpeedSelectButton::NormalButton => SpeedState::Normal,
            SpeedSelectButton::FastButton => SpeedState::Fast,
        }
    }

    /// Whether the button is the one of the speed in force, and so is drawn
    /// with the border of the selected button.
    pub fn is_selected(&self, state: SpeedState) -> (selected: bool)
        ensures
            selected == (self.selects() == state),
    {
        match (self, state) {
            (SpeedSelectButton::SlowButton, SpeedState::Slow) => true,
            (SpeedSelectButton::NormalButton, SpeedState::Normal) => true,
            (SpeedSelectButton::FastButton, SpeedState::Fast) => true,
            _ => false,
        }
    }
}

/// Marks the button of the slow speed.
#[derive(Debug, Clone, Copy, PartialEq, Eq, Hash, Structural)]
pub struct SlowButton;

/// Marks the button of the normal speed.
#[derive(Debug, Clone, Copy, PartialEq, Eq, Hash, Structural)]
pub struct NormalButton;

/// Marks the button of the fast speed.
#[derive(Debug, Clone, Copy, PartialEq, Eq, Hash, Structural)]
pub struct FastButton;

impl SlowButton {
    /// The button as one of the speed buttons.
    pub fn button(&self) -> (button: SpeedSelectButton)
        ensures
            button == SpeedSelectButton::SlowButton,
    {
        SpeedSelectButton::SlowButton
    }
}

impl NormalButton {
    /// The button as one of the speed buttons.
    pub fn button(&self) -> (button: SpeedSelectButton)
        ensures
            button == SpeedSelectButton::NormalButton,
    {
        SpeedSelectButton::NormalButton
    }
}

impl FastButton {
    /// The button as one of the speed buttons.
    pub fn button(&self) -> (button: SpeedSelectButton)
        ensures
            button == SpeedSelectButton::FastButton,
    {
        SpeedSelectButton::FastButton
    }
}

/// The number of images shown at once in a round of `participants` items.
pub open spec fn images_for_match(participants: int, speed: SpeedState) -> int {
    if speed != SpeedState::Fast || participants <= 100 {
        2
    } else if participants <= 250 {
        3
    } else if participants <= 500 {
        4
    } else if participants <= 1000 {
        6
    } else if participants <= 2000 {
        8
    } else if participants <= 4000 {
        10
    } else if participants <= 6000 {
        12
    } else {
        16
    }
}

/// The number of images shown at once in a round of `num_participants`
/// items: two at the slow and the normal speed; at the fast speed two up
/// to 100 participants, then 3, 4, 6, 8, 10 and 12 up to 250, 500, 1000,
/// 2000, 4000 and 6000 participants, and 16 beyond.
pub fn calculate_number_of_images_for_match(num_participants: usize, speed_state: SpeedState) -> (images:
    usize)
    ensures
        images == images_for_match(num_participants as int, speed_state),
        2 <= images <= 16,
{
    match speed_state {
        SpeedState::Fast => {
            if num_participants <= 100 {
                2
            } else if num_participants <= 250 {
                3
            } else if num_participants <= 500 {
                4
            } else if num_participants <= 1000 {
                6
            } else if num_participants <= 2000 {
                8
            } else if num_participants <= 4000 {
                10
            } else if num_participants <= 6000 {
                12
            } else {
                16
            }
        },
        _ => 2,
    }
}

} // verus!
