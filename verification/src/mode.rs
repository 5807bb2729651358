use vstd::prelude::*;

verus! {

/// What a run of the program does with the visible applications.
#[derive(PartialEq, Eq, Structural, Clone, Copy, Debug)]
pub enum ToggleMode {
    Hide,
    Show,
}

/// The other mode.
pub open spec fn opposite(mode: ToggleMode) -> ToggleMode {
    match mode {
        ToggleMode::Hide => ToggleMode::Show,
        ToggleMode::Show => ToggleMode::Hide,
    }
}

impl ToggleMode {
    /// Switches to the other mode.
    pub fn toggle(&self) -> (res: Self)
        ensures
            res == opposite(*self),
    {
        match self {
            ToggleMode::Hide => ToggleMode::Show,
            ToggleMode::Show => ToggleMode::Hide,
        }
    }
}

/// Toggling twice gives the mode back, and toggling never keeps the mode.
pub proof fn lemma_toggle_involution(mode: ToggleMode)
    ensures
        opposite(opposite(mode)) == mode,
        opposite(mode) != mode,
{
}

} // verus!
