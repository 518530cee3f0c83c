//! A two-player game of hidden army chess (junqi): the board, the pieces,
//! the rules of movement and battle, the line protocol spoken between the
//! server and its clients, the server's game state and the client's view.

pub mod board;
pub mod client;
pub mod game;
pub mod protocol;
pub mod rules;
pub mod text;
pub mod types;
