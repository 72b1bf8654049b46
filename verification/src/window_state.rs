//! The remembered window size and position, and where it is kept.
use vstd::prelude::*;

verus! {

/// Window size and position.
#[derive(Clone, Copy, Debug, PartialEq, Eq, Structural)]
pub struct WindowState {
    /// `None` on first run: the OS picks a placement rather than (0, 0).
    pub x: Option<i32>,
    pub y: Option<i32>,
    pub width: u32,
    pub height: u32,
}

/// The first-run state: no position, 1000 by 720.
pub open spec fn default_window() -> WindowState {
    WindowState { x: None, y: None, width: 1000, height: 720 }
}

impl Default for WindowState {
    fn default() -> (w: WindowState)
        ensures
            w == default_window(),
    {
        WindowState { x: None, y: None, width: 1000, height: 720 }
    }
}

/// Where the window state is kept: a JSON file.
pub struct WindowStateStore {
    path: String,
}

impl WindowStateStore {
    /// A store for the file at `path`.
    pub fn new(path: String) -> (store: WindowStateStore)
        ensures
            store.path()@ == path@,
    {
        WindowStateStore { path }
    }

    /// The file's path.
    pub closed spec fn path(&self) -> String {
        self.path
    }

    /// The file's path.
    pub fn file_path(&self) -> (p: &String)
        ensures
            p@ == self.path()@,
    {
        &self.path
    }

    /// The window state to use, given what the file held: the stored one, or
    /// the default when there is no file yet.
    pub fn load(&self, stored: Option<WindowState>) -> (w: WindowState)
        ensures
            w == match stored {
                Some(t) => t,
                None => default_window(),
            },
    {
        match stored {
            Some(t) => t,
            None => WindowState::default(),
        }
    }
}

} // verus!
