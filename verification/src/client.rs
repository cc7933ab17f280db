//! The client side: the decisions of its frame loop, from input events to
//! the requests it sends and the texture patches it draws.
use vstd::prelude::*;

use crate::msg::{Msg, MsgView};
use crate::particle::Particle;
use crate::server::particles::BLOCK_SIZE;

verus! {

/// Minimum time between two requests sent while the button is held, in nanoseconds.
pub const INPUT_INTERVAL_NANOS: u128 = 32_000_000;

/// The largest span of time a `std::time::Duration` holds, in nanoseconds.
pub const MAX_DURATION_NANOS: u128 = 18_446_744_073_709_551_615_999_999_999;

/// An input event, as the client's loop sees it.
#[derive(Clone, Copy, Debug, PartialEq, Eq)]
pub enum ClientEvent {
    /// The window was closed or Escape was pressed.
    Quit,
    /// The pointer moved over the cell `(x, y)` of the world.
    CursorMoved { x: i32, y: i32 },
    /// A mouse button was pressed.
    MouseDown,
    /// A mouse button was released.
    MouseUp,
    /// Any other event.
    Other,
}

/// The abstract state of the client's input.
pub struct ClientInputView {
    pub cursor: (i32, i32),
    pub mouse_down: bool,
    pub input_sleep: nat,
}

/// What the client remembers between frames: the cell under the pointer,
/// whether a button is held, and the time since the last request.
pub struct ClientInput {
    cursor: (i32, i32),
    mouse_down: bool,
    input_sleep_nanos: u128,
}

impl View for ClientInput {
    type V = ClientInputView;

    closed spec fn view(&self) -> ClientInputView {
        ClientInputView {
            cursor: self.cursor,
            mouse_down: self.mouse_down,
            input_sleep: self.input_sleep_nanos as nat,
        }
    }
}

impl ClientInputView {
    /// The state after an event; unchanged by `Quit` and `Other`.
    pub open spec fn after_event(self, event: ClientEvent) -> ClientInputView {
        match event {
            ClientEvent::CursorMoved { x, y } => ClientInputView { cursor: (x, y), ..self },
            ClientEvent::MouseDown => ClientInputView { mouse_down: true, ..self },
            ClientEvent::MouseUp => ClientInputView { mouse_down: false, ..self },
            _ => self,
        }
    }

    /// A request is due: the button is held and at least `INPUT_INTERVAL_NANOS`
    /// passed since the last one.
    pub open spec fn request_due(self) -> bool {
        self.mouse_down && self.input_sleep >= INPUT_INTERVAL_NANOS
    }
}

/// Each event changes only what it is about: a pointer move only the cursor,
/// a press or a release only whether a button is held; `Quit` and other
/// events change nothing. The time since the last request is never changed
/// by an event.
pub proof fn lemma_events_change_only_their_field(state: ClientInputView, x: i32, y: i32)
    ensures
        state.after_event(ClientEvent::CursorMoved { x, y }).cursor == (x, y),
        state.after_event(ClientEvent::CursorMoved { x, y }).mouse_down == state.mouse_down,
        state.after_event(ClientEvent::CursorMoved { x, y }).input_sleep == state.input_sleep,
        state.after_event(ClientEvent::MouseDown).mouse_down,
        state.after_event(ClientEvent::MouseDown).cursor == state.cursor,
        state.after_event(ClientEvent::MouseDown).input_sleep == state.input_sleep,
        !state.after_event(ClientEvent::MouseUp).mouse_down,
        state.after_event(ClientEvent::MouseUp).cursor == state.cursor,
        state.after_event(ClientEvent::MouseUp).input_sleep == state.input_sleep,
        state.after_event(ClientEvent::Quit) == state,
        state.after_event(ClientEvent::Other) == state,
{
}

/// A request is due exactly when a button is held and at least
/// `INPUT_INTERVAL_NANOS` (32 ms) passed since the last one; once due, it
/// stays due as more frame time passes and as the pointer moves.
pub proof fn lemma_request_due_when_held_long_enough(state: ClientInputView, more: nat, x: i32, y: i32)
    ensures
        state.request_due() <==> (state.mouse_down && state.input_sleep >= 32_000_000),
        state.request_due() ==> (ClientInputView {
            cursor: state.cursor,
            mouse_down: state.mouse_down,
            input_sleep: state.input_sleep + more,
        }).request_due(),
        state.request_due() ==> state.after_event(ClientEvent::CursorMoved { x, y }).request_due(),
{
}

/// Right after a request is sent, no other one is due: two requests are at
/// least `INPUT_INTERVAL_NANOS` of frame time apart.
pub proof fn lemma_requests_spaced(state: ClientInputView)
    ensures
        !(ClientInputView { input_sleep: 0, ..state }).request_due(),
{
}

/// No request is due while no button is held.
pub proof fn lemma_no_request_without_button(state: ClientInputView)
    requires
        !state.mouse_down,
    ensures
        !state.request_due(),
{
}

/// What a `TextureUpdate` asks the client to draw: a `BLOCK_SIZE` square of
/// pixels at `(x, y)` of the world texture, rows of `pitch` bytes.
#[derive(Debug, PartialEq, Eq)]
pub struct TexturePatch {
    pub x: i32,
    pub y: i32,
    pub width: u32,
    pub height: u32,
    pub pitch: usize,
    pub data: Vec<u8>,
}

impl ClientInput {
    /// The state at start: pointer over `(0, 0)`, no button held, no time passed.
    pub fn new() -> (r: ClientInput)
        ensures
            r@ == (ClientInputView { cursor: (0, 0), mouse_down: false, input_sleep: 0 }),
    {
        ClientInput { cursor: (0, 0), mouse_down: false, input_sleep_nanos: 0 }
    }

    /// The cell under the pointer.
    pub fn cursor(&self) -> (r: (i32, i32))
        ensures
            r == self@.cursor,
    {
        self.cursor
    }

    /// Whether a mouse button is held.
    pub fn is_mouse_down(&self) -> (r: bool)
        ensures
            r == self@.mouse_down,
    {
        self.mouse_down
    }

    /// Time since the last request, in nanoseconds.
    pub fn input_sleep_nanos(&self) -> (r: u128)
        ensures
            r == self@.input_sleep,
    {
        self.input_sleep_nanos
    }

    /// Takes an event into account; returns whether the loop goes on, which
    /// it does for every event but `Quit`.
    pub fn handle_event(&mut self, event: ClientEvent) -> (keep_running: bool)
        ensures
            keep_running == !(event is Quit),
            final(self)@ == old(self)@.after_event(event),
    {
        match event {
            ClientEvent::Quit => false,
            ClientEvent::CursorMoved { x, y } => {
                self.cursor = (x, y);
                true
            },
            ClientEvent::MouseDown => {
                self.mouse_down = true;
                true
            },
            ClientEvent::MouseUp => {
                self.mouse_down = false;
                true
            },
            ClientEvent::Other => true,
        }
    }

    /// The request to send this frame, if one is due: sand at the cell under
    /// the pointer. Sending restarts the count of time.
    pub fn take_request(&mut self) -> (r: Option<Msg>)
        ensures
            old(self)@.request_due() ==> r is Some && r->Some_0@ == (MsgView::SetParticle {
                x: old(self)@.cursor.0,
                y: old(self)@.cursor.1,
                particle: Particle::Sand,
            }) && final(self)@ == (ClientInputView { input_sleep: 0, ..old(self)@ }),
            !old(self)@.request_due() ==> r is None && final(self)@ == old(self)@,
    {
        if self.input_sleep_nanos >= INPUT_INTERVAL_NANOS && self.mouse_down {
            self.input_sleep_nanos = 0;
            Some(Msg::SetParticle { x: self.cursor.0, y: self.cursor.1, particle: Particle::Sand })
        } else {
            None
        }
    }

    /// Adds the duration of a frame to the time since the last request.
    pub fn add_frame_time(&mut self, nanos: u128)
        requires
            old(self)@.input_sleep + nanos <= MAX_DURATION_NANOS,
        ensures
            final(self)@ == (ClientInputView { input_sleep: (old(self)@.input_sleep + nanos) as nat, ..old(self)@ }),
    {
        self.input_sleep_nanos = self.input_sleep_nanos + nanos;
    }
}

/// What a received message asks to draw: for a `TextureUpdate`, its block's
/// square at its position, three bytes per pixel; nothing for another message.
pub fn texture_patch(msg: Msg) -> (r: Option<TexturePatch>)
    ensures
        match msg@ {
            MsgView::TextureUpdate { x, y, data } => r is Some && r->Some_0.x == x && r->Some_0.y == y
                && r->Some_0.width == BLOCK_SIZE && r->Some_0.height == BLOCK_SIZE && r->Some_0.pitch
                == BLOCK_SIZE * 3 && r->Some_0.data@ == data,
            _ => r is None,
        },
{
    match msg {
        Msg::TextureUpdate { x, y, data } => Some(
            TexturePatch { x, y, width: 8, height: 8, pitch: 24, data },
        ),
        _ => None,
    }
}

} // verus!
