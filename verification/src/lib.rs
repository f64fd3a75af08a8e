//! A codec for the Erlang external term format.
//!
//! The crate models every supported term kind as a closed sum type
//! ([`terms::Term`]), serialises terms to the exact tagged wire bytes of the
//! format, deserialises wire bytes back into terms, and renders terms as
//! text.  The wire layout is specified mathematically over the view of each
//! term ([`terms::TermV`]); the encoder and decoder are verified against
//! those specifications.

pub mod error;
pub mod terms;
