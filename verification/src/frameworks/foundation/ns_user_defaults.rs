//! `NSUserDefaults`: the cached standard defaults object.
use vstd::prelude::*;
use crate::objc::id;

verus! {

/// The cached `NSUserDefaults*` returned by `standardUserDefaults`.
pub struct State {
    pub standard_defaults: Option<id>,
}

impl Default for State {
    fn default() -> (s: State)
        ensures
            s.standard_defaults is None,
    {
        State { standard_defaults: None }
    }
}

impl State {
    /// Forgets the cached object, so that the next request makes a new one.
    pub fn reset(&mut self)
        ensures
            final(self).standard_defaults is None,
    {
        self.standard_defaults = None;
    }
}

} // verus!
