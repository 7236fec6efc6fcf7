//! The download of one piece from one peer: a state machine that is fed
//! what the connection brought and answers with what to do next.

pub mod state;
pub mod laws;
pub mod session;
