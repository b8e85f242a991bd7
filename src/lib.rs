//! Loading a FASTA reference genome into a condensed, indexed form.
pub mod lines;
pub mod text;
pub mod genome;
pub mod laws;

pub use genome::{Entry, Genome, ParseError, Span};
pub use lines::Pitchfork;
