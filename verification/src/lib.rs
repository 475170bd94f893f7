//! Seraphim: game rules, game records and training-data framing for a
//! PUCT-guided game-playing engine, with contracts checked by Verus.

pub mod game;
pub mod text;
pub mod tictactoe;
pub mod io;
pub mod go;
pub mod sgf_lex;
pub mod sgf;
pub mod example;
pub mod session;
pub mod generate;
pub mod search;
