//! When the pop-up of the colour chooser closes by itself.

use vstd::prelude::*;

verus! {

/// Milliseconds after which a pop-up that was never entered closes.
pub const IDLE_TIME: u64 = 1000;

/// What the pop-up remembers between frames: whether the pointer has
/// entered it, and the time in milliseconds of the first frame it was shown
/// in, if it is shown.
#[derive(Clone, Copy, Debug, PartialEq, Eq)]
pub struct PopupWatch {
    pub entered: bool,
    pub first_shown: Option<u64>,
}

impl PopupWatch {
    /// A pop-up that is not shown.
    pub open spec fn hidden() -> PopupWatch {
        PopupWatch { entered: false, first_shown: None }
    }

    /// Whether at `now` the pop-up has been shown for the idle time.
    pub open spec fn idle_elapsed(self, now: u64) -> bool {
        self.first_shown matches Some(since) && now - since >= IDLE_TIME
    }

    /// The watch after a frame at `now` in which the pointer was over the
    /// pop-up or not, and whether the pop-up closes. It closes when the
    /// pointer leaves after having entered, and when it was never entered
    /// and the idle time is over.
    pub open spec fn after_frame(self, hovered: bool, now: u64) -> (PopupWatch, bool) {
        let shown = PopupWatch {
            entered: self.entered || hovered,
            first_shown: if self.first_shown is None {
                Some(now)
            } else {
                self.first_shown
            },
        };
        if !shown.entered && shown.idle_elapsed(now) {
            (PopupWatch::hidden(), true)
        } else if !hovered && shown.entered {
            (PopupWatch::hidden(), true)
        } else {
            (shown, false)
        }
    }

    /// A pop-up that is not shown.
    pub fn new() -> (watch: PopupWatch)
        ensures
            watch == PopupWatch::hidden(),
    {
        PopupWatch { entered: false, first_shown: None }
    }

    /// Takes note of a frame at `now` and tells whether the pop-up closes.
    /// Time must not run backwards.
    pub fn frame(&mut self, hovered: bool, now: u64) -> (closes: bool)
        requires
            old(self).first_shown matches Some(since) ==> since <= now,
        ensures
            (*final(self), closes) == old(self).after_frame(hovered, now),
    {
        let since: u64 = match self.first_shown {
            Some(since) => since,
            None => now,
        };
        self.first_shown = Some(since);
        if hovered {
            self.entered = true;
        }
        let idle: bool = now - since >= IDLE_TIME;
        if (!self.entered && idle) || (!hovered && self.entered) {
            self.entered = false;
            self.first_shown = None;
            true
        } else {
            false
        }
    }
}

} // verus!
