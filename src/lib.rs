//! Timestamps every line of a text stream, unfolding lines that the producer
//! tries to overwrite with carriage returns or cursor escape sequences.
pub mod escape;
pub mod read_char;
pub mod token;
mod text;
pub mod timestamp;
pub mod output;
pub mod buffered;
pub mod error;
pub mod main_loop;
