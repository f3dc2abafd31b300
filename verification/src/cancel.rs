//! Asking a build to stop.
//!
//! Tripping the token stops the scheduler handing out a package that has not
//! started, and stops a download writing another chunk. It does not reach into a
//! package that is already being built.

use vstd::prelude::*;

verus! {

/// A flag asking an in-flight build to stop starting new work.
///
/// There is one of it per build: whoever trips it and whoever asks it refer to the
/// same token, so it cannot be copied. `W` is what a scheduler registers to be woken
/// with.
#[derive(Debug)]
pub struct Cancel<W = ()> {
    /// Whether the token has been tripped.
    pub cancelled: bool,
    /// What a scheduler has registered to be woken with when the token is tripped.
    pub wakeup: Option<W>,
}

impl<W> Default for Cancel<W> {
    fn default() -> (r: Self)
        ensures
            r == (Cancel::<W> { cancelled: false, wakeup: None }),
    {
        Cancel { cancelled: false, wakeup: None }
    }
}

impl<W> Cancel<W> {
    /// A token that has not been tripped.
    pub fn new() -> (r: Cancel<W>)
        ensures
            r == (Cancel::<W> { cancelled: false, wakeup: None }),
    {
        Cancel { cancelled: false, wakeup: None }
    }

    /// Trip the token, and say what is to be run now that it is: what was registered
    /// last, unless that has been forgotten since.
    pub fn cancel(&mut self) -> (wake: Option<&W>)
        ensures
            *final(self) == (Cancel::<W> { cancelled: true, wakeup: old(self).wakeup }),
            wake == (match old(self).wakeup {
                Some(action) => Some(&action),
                None => None,
            }),
    {
        self.cancelled = true;
        match &self.wakeup {
            Some(action) => Some(action),
            None => None,
        }
    }

    /// Whether the token has been tripped.
    pub fn is_cancelled(&self) -> (r: bool)
        ensures
            r == self.cancelled,
    {
        self.cancelled
    }

    /// A scheduler asks to be woken with `action` when the token is tripped. It takes
    /// the place of whatever was registered before.
    pub fn register_wakeup(&mut self, action: W)
        ensures
            *final(self) == (Cancel::<W> {
                cancelled: old(self).cancelled,
                wakeup: Some(action),
            }),
    {
        self.wakeup = Some(action);
    }

    /// The scheduler has no more workers left to wake.
    pub fn clear_wakeup(&mut self)
        ensures
            *final(self) == (Cancel::<W> { cancelled: old(self).cancelled, wakeup: None }),
    {
        self.wakeup = None;
    }
}

} // verus!
