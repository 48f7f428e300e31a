//! Groups a flat stream of lexical tokens into a forest of annotated blocks.
//!
//! A [`Collector`] holds a registry of [`Sink`]s. Each sink names an
//! annotation and the parts of the block that the annotation opens; the
//! collector makes one forward pass over the tokens and returns the blocks.
pub mod block;
pub mod collector;
pub mod laws;
pub mod lexer;
pub mod model;
pub mod sink;
pub mod text;
pub mod token;

pub use block::TokenBlock;
pub use collector::Collector;
pub use sink::{PartBehavior, PartParser, Sink};
pub use token::Token;
