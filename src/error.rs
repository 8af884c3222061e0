use vstd::prelude::*;

verus! {

/// The kinds of failure that the codec and the dispatch layer report.
#[derive(Debug, Clone, Copy, PartialEq, Eq, Structural)]
pub enum AbiError {
    /// A type signature that the grammar does not accept, or a `tuple`
    /// without components.
    Grammar,
    /// A schema entry that lacks a required field or has an unknown kind.
    Schema,
    /// A word stream that ends early or holds a word that does not fit.
    Codec,
    /// No function or event matches the given selector, signature or topic.
    NotFound,
    /// Log decoding was asked for with an empty topic list.
    MissingTopic,
}

} // verus!
