//! The decisions of the window-event loop: what an event does to the held keys,
//! and whether the loop goes on waiting or asks to exit.
use vstd::prelude::*;
use crate::input::{HeldKeys, Key};

verus! {

/// The window events the loop tells apart.
#[derive(Debug, Clone, Copy, PartialEq, Eq, Structural)]
pub enum WindowEvent {
    CloseRequested,
    KeyPressed(Key),
    KeyReleased(Key),
    Other,
}

/// What the event loop does next.
#[derive(Debug, Clone, Copy, PartialEq, Eq, Structural)]
pub enum Flow {
    Wait,
    Exit,
}

/// The event loop stops when the render thread has died, when the window is
/// asked to close, or when escape is pressed.
pub open spec fn exits_on(event: WindowEvent, render_healthy: bool) -> bool {
    !render_healthy || event == WindowEvent::CloseRequested || event == WindowEvent::KeyPressed(Key::Escape)
}

/// Whether the event loop goes on after `event`.
pub fn next_flow(event: WindowEvent, render_healthy: bool) -> (r: Flow)
    ensures
        r == (if exits_on(event, render_healthy) {
            Flow::Exit
        } else {
            Flow::Wait
        }),
{
    if !render_healthy {
        return Flow::Exit;
    }
    match event {
        WindowEvent::CloseRequested => Flow::Exit,
        WindowEvent::KeyPressed(Key::Escape) => Flow::Exit,
        _ => Flow::Wait,
    }
}

/// Brings the held keys up to date with `event`: a press adds its key, a
/// release removes it, any other event leaves them as they are.
pub fn apply_key_event(keys: &mut HeldKeys, event: WindowEvent)
    requires
        old(keys).wf(),
    ensures
        final(keys).wf(),
        match event {
            WindowEvent::KeyPressed(k) => if old(keys)@.contains(k) {
                final(keys)@ == old(keys)@
            } else {
                final(keys)@ == old(keys)@.push(k)
            },
            WindowEvent::KeyReleased(k) => if old(keys)@.contains(k) {
                exists|i: int|
                    0 <= i < old(keys)@.len() && old(keys)@[i] == k && final(keys)@ == old(keys)@.remove(i)
            } else {
                final(keys)@ == old(keys)@
            },
            _ => final(keys)@ == old(keys)@,
        },
        final(keys)@.to_set() == match event {
            WindowEvent::KeyPressed(k) => old(keys)@.to_set().insert(k),
            WindowEvent::KeyReleased(k) => old(keys)@.to_set().remove(k),
            _ => old(keys)@.to_set(),
        },
{
    match event {
        WindowEvent::KeyPressed(k) => keys.press(k),
        WindowEvent::KeyReleased(k) => keys.release(k),
        _ => {},
    }
}

} // verus!
