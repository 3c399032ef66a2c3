//! A JSON text engine whose behaviour is proved: a tokenizer, a
//! recursive-descent parser building a value tree, and a compact serializer,
//! together with the small vector, timing and resource-registry helpers that
//! the engine around it uses.
pub mod chars;
pub mod numeric;
pub mod lexer;
pub mod value;
pub mod parser;
pub mod text;
pub mod laws;
pub mod glmath;
pub mod rootable;
pub mod timer;
pub mod resources;
