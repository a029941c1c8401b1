//! Edge detection for the three controls.
use vstd::prelude::*;
use crate::geometry::Point;

verus! {

/// Where a control stands between frames.
#[derive(Clone, Copy, PartialEq, Eq, Structural, Debug)]
pub enum ButtonState {
    Idle,
    JustPressed,
    Held,
}

/// The controls the world reacts to.
#[derive(Clone, Copy, PartialEq, Eq, Structural, Debug)]
pub enum Control {
    Spawn,
    Remove,
    Clear,
}

impl ButtonState {
    pub open spec fn is_down_spec(self) -> bool {
        !(self is Idle)
    }

    /// The state after a frame in which the control is `down`.
    pub open spec fn next_spec(self, down: bool) -> ButtonState {
        if !down {
            ButtonState::Idle
        } else if self is Idle {
            ButtonState::JustPressed
        } else {
            ButtonState::Held
        }
    }

    pub fn next(self, down: bool) -> (r: ButtonState)
        ensures
            r == self.next_spec(down),
            r.is_down_spec() == down,
            (r is JustPressed) == (down && !self.is_down_spec()),
    {
        if !down {
            ButtonState::Idle
        } else {
            match self {
                ButtonState::Idle => ButtonState::JustPressed,
                _ => ButtonState::Held,
            }
        }
    }

    /// Whether the control went down in the latest frame.
    pub fn is_just_pressed(self) -> (r: bool)
        ensures
            r == (self is JustPressed),
    {
        match self {
            ButtonState::JustPressed => true,
            _ => false,
        }
    }
}

/// The state of the controls and the cursor in one frame.
#[derive(Clone, Copy, PartialEq, Eq, Structural, Debug)]
pub struct Inputs {
    pub spawn: ButtonState,
    pub remove: ButtonState,
    pub clear: ButtonState,
    /// The cursor, in fixed-point steps from the arena's centre.
    pub cursor: Point,
}

impl Inputs {
    pub open spec fn state_of(&self, c: Control) -> ButtonState {
        match c {
            Control::Spawn => self.spawn,
            Control::Remove => self.remove,
            Control::Clear => self.clear,
        }
    }

    /// No control down, the cursor at the centre.
    pub fn new() -> (r: Inputs)
        ensures
            r.spawn is Idle,
            r.remove is Idle,
            r.clear is Idle,
            r.cursor == (Point { x: 0, y: 0 }),
    {
        Inputs {
            spawn: ButtonState::Idle,
            remove: ButtonState::Idle,
            clear: ButtonState::Idle,
            cursor: Point { x: 0, y: 0 },
        }
    }

    /// Records whether `control` is down in this frame.
    pub fn record(&mut self, control: Control, down: bool)
        ensures
            final(self).cursor == old(self).cursor,
            forall|c: Control|
                #[trigger] final(self).state_of(c) == if c == control {
                    old(self).state_of(c).next_spec(down)
                } else {
                    old(self).state_of(c)
                },
    {
        match control {
            Control::Spawn => self.spawn = self.spawn.next(down),
            Control::Remove => self.remove = self.remove.next(down),
            Control::Clear => self.clear = self.clear.next(down),
        }
    }

    /// Whether `control` went down in this frame.
    pub fn just_pressed(&self, control: Control) -> (r: bool)
        ensures
            r == (self.state_of(control) is JustPressed),
    {
        match control {
            Control::Spawn => self.spawn.is_just_pressed(),
            Control::Remove => self.remove.is_just_pressed(),
            Control::Clear => self.clear.is_just_pressed(),
        }
    }
}

} // verus!
