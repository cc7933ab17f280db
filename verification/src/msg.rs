//! The messages that the server and its clients exchange.
use vstd::prelude::*;

use crate::particle::Particle;

verus! {

/// A message between the server and a client.
#[derive(Debug, PartialEq)]
pub enum Msg {
    /// The texture of the block at `(x, y)`: three bytes per cell, row after row.
    TextureUpdate { x: i32, y: i32, data: Vec<u8> },
    /// A request to write a particle at a global position.
    SetParticle { x: i32, y: i32, particle: Particle },
}

/// The abstract value of a message.
pub enum MsgView {
    TextureUpdate { x: i32, y: i32, data: Seq<u8> },
    SetParticle { x: i32, y: i32, particle: Particle },
}

impl View for Msg {
    type V = MsgView;

    open spec fn view(&self) -> MsgView {
        match self {
            Msg::TextureUpdate { x, y, data } => MsgView::TextureUpdate { x: *x, y: *y, data: data@ },
            Msg::SetParticle { x, y, particle } => MsgView::SetParticle { x: *x, y: *y, particle: *particle },
        }
    }
}

/// The abstract values of a sequence of messages.
pub open spec fn msgs_view(msgs: Seq<Msg>) -> Seq<MsgView> {
    msgs.map_values(|m: Msg| m@)
}

} // verus!
