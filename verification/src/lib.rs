//! Domino counting and chain building: the logic behind a small camera
//! front end that counts the pips of photographed dominoes and proposes the
//! longest train that can be laid from a starting number.

pub mod chain;
pub mod combo;
pub mod number;
pub mod pips;
pub mod session;
pub mod text;
