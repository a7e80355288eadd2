//! A bounded, structured conversational-session store.
//!
//! The store keeps an ordered, size-bounded history of conversational turns,
//! each made of typed content blocks (plain text, model-internal thoughts,
//! function calls and function results). On top of it sit a status labeler
//! (mapping pending function-call names to short UI phrases), a text
//! extractor (collapsing a turn into user-visible text), and a serializer
//! with a canonical textual form whose round trip is proved.

use vstd::prelude::*;

pub mod codec;
pub mod labels;
pub mod laws;
pub mod model;
pub mod session;
pub mod text;

verus! {

/// The failures a session operation can surface to its caller.
#[derive(Clone, Copy, PartialEq, Eq, Structural, Debug)]
pub enum SessionError {
    /// A payload is not well-formed block or turn data.
    ParseError,
    /// A payload parsed, but breaks the chat-structure rules.
    ProtocolViolation,
    /// A read was attempted on a session that has no turns yet.
    EmptySession,
}

} // verus!
