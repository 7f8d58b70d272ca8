//! `GKLocalPlayer`: the cached local player object.
use vstd::prelude::*;
use crate::objc::id;

verus! {

/// Cache for `[GKLocalPlayer localPlayer]`: the same object is returned
/// every time once made.
pub struct State {
    pub local_player: Option<id>,
}

impl Default for State {
    fn default() -> (s: State)
        ensures
            s.local_player is None,
    {
        State { local_player: None }
    }
}

} // verus!
