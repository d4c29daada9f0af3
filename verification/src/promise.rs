//! What the library is for, stated on what it is given.
//!
//! The laws here begin with what there is: what a game's memory holds, byte by
//! byte, a line of text, a shelf of captures. They end with what is found in it,
//! or asked of the timer. None of them says how: whatever way the work is done,
//! these have to come out.
pub mod buildings;
pub mod catalogue;
pub mod container;
pub mod heap;
pub mod lines;
pub mod reading;
pub mod scene;
pub mod search;
pub mod services;
pub mod session;
pub mod shelf;
pub mod sweep;
pub mod timer;
pub mod tools;
pub mod watching;
pub mod wonder;
pub mod words;
