//! The subscription registry.
//!
//! Tracks which data-carrying message types are currently of interest.  The
//! control-plane `Subscribe` type is never subject to activation: it is not
//! a data flow one can opt into.  Both mutators are idempotent and report
//! whether they changed anything, so callers can skip redundant wire
//! traffic.

use vstd::prelude::*;

use crate::message::MsgType;

verus! {

/// The set of currently active data-carrying message types.
pub struct Subscriptions {
    light_state: bool,
    pacman_location: bool,
    full_state: bool,
}

impl Subscriptions {
    /// Whether frames of type `t` are currently of interest.
    pub closed spec fn spec_active(self, t: MsgType) -> bool {
        match t {
            MsgType::LightState => self.light_state,
            MsgType::PacmanLocation => self.pacman_location,
            MsgType::FullState => self.full_state,
            MsgType::Subscribe => false,
        }
    }
}

impl View for Subscriptions {
    type V = Set<MsgType>;

    open spec fn view(&self) -> Set<MsgType> {
        Set::new(|t: MsgType| self.spec_active(t))
    }
}

impl Subscriptions {
    /// A registry with nothing active.
    pub fn new() -> (r: Subscriptions)
        ensures
            r@ == Set::<MsgType>::empty(),
    {
        let r = Subscriptions { light_state: false, pacman_location: false, full_state: false };
        proof {
            assert(r@ =~= Set::<MsgType>::empty());
        }
        r
    }

    pub fn is_active(&self, t: MsgType) -> (r: bool)
        ensures
            r == self@.contains(t),
    {
        match t {
            MsgType::LightState => self.light_state,
            MsgType::PacmanLocation => self.pacman_location,
            MsgType::FullState => self.full_state,
            MsgType::Subscribe => false,
        }
    }

    /// Marks `t` active.  Idempotent: the result reports whether a state
    /// change occurred, so a second activation in a row reports `false`.
    /// The control-plane `Subscribe` type is never activated.
    pub fn activate(&mut self, t: MsgType) -> (changed: bool)
        ensures
            changed == (t.is_data_spec() && !old(self)@.contains(t)),
            final(self)@ == if t.is_data_spec() {
                old(self)@.insert(t)
            } else {
                old(self)@
            },
    {
        let r = match t {
            MsgType::LightState => {
                let was = self.light_state;
                self.light_state = true;
                !was
            },
            MsgType::PacmanLocation => {
                let was = self.pacman_location;
                self.pacman_location = true;
                !was
            },
            MsgType::FullState => {
                let was = self.full_state;
                self.full_state = true;
                !was
            },
            MsgType::Subscribe => false,
        };
        proof {
            if t.is_data_spec() {
                assert(final(self)@ =~= old(self)@.insert(t));
            } else {
                assert(final(self)@ =~= old(self)@);
            }
        }
        r
    }

    /// Marks `t` inactive.  Idempotent: the result reports whether a state
    /// change occurred.
    pub fn deactivate(&mut self, t: MsgType) -> (changed: bool)
        ensures
            changed == (t.is_data_spec() && old(self)@.contains(t)),
            final(self)@ == if t.is_data_spec() {
                old(self)@.remove(t)
            } else {
                old(self)@
            },
    {
        let r = match t {
            MsgType::LightState => {
                let was = self.light_state;
                self.light_state = false;
                was
            },
            MsgType::PacmanLocation => {
                let was = self.pacman_location;
                self.pacman_location = false;
                was
            },
            MsgType::FullState => {
                let was = self.full_state;
                self.full_state = false;
                was
            },
            MsgType::Subscribe => false,
        };
        proof {
            if t.is_data_spec() {
                assert(final(self)@ =~= old(self)@.remove(t));
            } else {
                assert(final(self)@ =~= old(self)@);
            }
        }
        r
    }
}

} // verus!
