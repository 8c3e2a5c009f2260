//! Logic of a Morse code trainer: practice text generation, the text
//! shown and played, and the choices that the interface makes from its
//! settings.

pub mod backend;
pub mod chars;
pub mod constants;
pub mod widgets;
