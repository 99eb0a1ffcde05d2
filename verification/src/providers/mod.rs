//! Answers to the client's requests.
pub mod definition;
pub mod formatting;
