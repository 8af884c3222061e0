//! A codec for a contract ABI over 64-bit words: a grammar for type
//! signatures, a value codec, and dispatch of word streams to the functions
//! and events of an ABI by selector or topic.
pub mod abi;
pub mod error;
pub mod params;
pub mod schema;
pub mod text;
pub mod types;
pub mod value;

pub use abi::{Abi, Event, Function};
pub use error::AbiError;
pub use params::{DecodedParam, DecodedParams, DecodedParamsReader, Param, ParamEntry};
pub use schema::AbiEntry;
pub use types::Type;
pub use value::{FixedArray4, Value};
