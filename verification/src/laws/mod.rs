//! What the library promises as a whole, stated over inputs and results and
//! proved of the models that the functions' contracts speak of.
pub mod analysis;
pub mod decoding;
pub mod documents;
pub mod errors;
pub mod expressions;
pub mod extraction;
pub mod numbers;
pub mod operators;
pub mod texts;
pub mod tokens;
