//! A Bencode value engine: a streaming decoder, a canonical encoder, a path
//! selector language and a mutation API over an owned value tree.
//!
//! - `value`: the value type, its model `Val`, and well-formedness (dict keys
//!   strictly ascending).
//! - `order`, `dict`: byte-string order and the sorted-entry dict operations.
//! - `encode`, `decode`: serialisation, and a chunk-fed decoder driven by a
//!   byte-level state machine with an explicit container stack.
//! - `selector`, `path`: `.key` / `[index]` selectors, selecting and editing
//!   the addressed node.
//! - `edit`: insert, push, remove and clear on one container.
//! - `traverse`, `hash`, `display`: depth-first visiting, structural hashing
//!   and the bounded pretty-printer.
//! - `interactive`, `batch`: the editor's command grammar and batch mode.
//! - `roundtrip`, `laws`: proofs of the properties the engine keeps.
//! - `text`: the UTF-8 and quoting services taken from the standard library.
pub mod text;
pub mod value;
pub mod order;
pub mod dict;
pub mod encode;
pub mod decode;
pub mod selector;
pub mod edit;
pub mod roundtrip;
pub mod path;
pub mod batch;
pub mod interactive;
pub mod laws;
pub mod hash;
pub mod traverse;
pub mod display;
