//! Hides programs for a minimal stack-machine language inside the pixels of a
//! raster image, and recovers and runs them.

pub mod text;
pub mod lexer;
pub mod codec;
pub mod roundtrip;
pub mod img;
pub mod parser;
pub mod interpreter;
