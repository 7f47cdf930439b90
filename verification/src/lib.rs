//! A solver core for letter-feedback word-guessing games.
//!
//! The crate narrows a candidate word list across rounds: the codec turns a
//! (guess, answer) pair into a ternary outcome code, the scorer ranks every
//! candidate by the expected information its feedback would reveal, and the
//! filter keeps exactly the candidates consistent with a reported pattern.

pub mod codec;
pub mod entropy;
pub mod filter;
pub mod scorer;
pub mod session;
