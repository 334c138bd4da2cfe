//! Core of a four-function calculator: exact decimal numbers and the
//! input-handling state machine behind the display.

pub mod calc;
pub mod decimal;
pub mod laws;
