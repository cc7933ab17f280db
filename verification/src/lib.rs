//! A falling-sand world, split into square blocks that are simulated
//! frame by frame, with the messages that a server and its clients exchange.

pub mod client;
pub mod msg;
pub mod particle;
pub mod server;
