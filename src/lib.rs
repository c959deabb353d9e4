// Server-authoritative logic of an UNO-style card game: the card model, the
// game session state machine that sets up and deals a game, and the binary
// protocol of the messages exchanged with the clients.
use vstd::prelude::*;

pub mod cards;
pub mod game;
pub mod networking;

verus! {

} // verus!
