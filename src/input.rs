//! Mouse state kept from frame to frame: which button is held, and the
//! press and release edges that a frame's poll reveals.
use vstd::prelude::*;

verus! {

#[derive(PartialEq, Eq, Structural, Clone, Copy, Debug)]
pub enum MouseButton {
    Left,
    Right,
    Middle,
}

/// What changed in the mouse buttons since the previous poll.
#[derive(PartialEq, Eq, Structural, Clone, Copy, Debug)]
pub enum MouseEvent {
    Nothing,
    Pressed,
    Released,
}

/// Whether a button is held, and which one was held last.
#[derive(PartialEq, Eq, Structural, Clone, Copy, Debug)]
pub struct MouseState {
    pub is_pressed: bool,
    pub button: MouseButton,
}

impl MouseState {
    /// No button held; the left one is reported as the last one.
    pub fn new() -> (m: MouseState)
        ensures
            !m.is_pressed,
            m.button == MouseButton::Left,
    {
        MouseState { is_pressed: false, button: MouseButton::Left }
    }

    /// Takes in which buttons are down now. The left button wins over the
    /// right, and the right over the middle. A button going down after
    /// none was held is a press; all going up after one was held is a
    /// release. With no button down the last button is kept.
    pub fn update(&mut self, left: bool, right: bool, middle: bool) -> (e: MouseEvent)
        ensures
            final(self).is_pressed == (left || right || middle),
            final(self).button == (if left {
                MouseButton::Left
            } else if right {
                MouseButton::Right
            } else if middle {
                MouseButton::Middle
            } else {
                old(self).button
            }),
            e == (if !old(self).is_pressed && final(self).is_pressed {
                MouseEvent::Pressed
            } else if old(self).is_pressed && !final(self).is_pressed {
                MouseEvent::Released
            } else {
                MouseEvent::Nothing
            }),
    {
        let was_pressed = self.is_pressed;
        let mut event = MouseEvent::Nothing;
        if left {
            self.is_pressed = true;
            self.button = MouseButton::Left;
        } else if right {
            self.is_pressed = true;
            self.button = MouseButton::Right;
        } else if middle {
            self.is_pressed = true;
            self.button = MouseButton::Middle;
        } else {
            if was_pressed {
                event = MouseEvent::Released;
            }
            self.is_pressed = false;
        }
        if !was_pressed && self.is_pressed {
            event = MouseEvent::Pressed;
        }
        event
    }
}

} // verus!
