use vstd::prelude::*;

verus! {

/// What the window server reports of one running application.
pub struct AppInfo {
    /// The localized name.
    pub name: String,
    /// The process id.
    pub pid: usize,
    /// Whether the application is hidden right now.
    pub is_hidden: bool,
}

/// A request to hide or to unhide the application at a position of the list
/// that was planned over.
#[derive(PartialEq, Eq, Structural, Clone, Copy, Debug)]
pub enum Action {
    Hide(usize),
    Unhide(usize),
}

} // verus!
