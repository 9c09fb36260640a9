//! JSON-NS: a small subset of JSON-LD. A document's property and type names
//! are expanded to absolute IRIs in the context that the document declares,
//! and compacted again for a target context of the caller's choice.
//!
//! A document is a [`Value`]. A [`Processor`] holds the context that is
//! known before the document is read, empty unless set, and the
//! [`TargetContext`] whose rules name the prefixes of the output:
//!
//! ```text
//! let mut processor = Processor::new();
//! processor.add_rule("bar", "http://example.com/ns#");
//! let output = processor.process_value(&input);
//! ```
//!
//! With the input `{"@context": {"foo": "http://example.com/ns#"},
//! "foo:hello": "world"}` the output is `{"bar:hello": "world"}`. Without
//! the rule it holds the property `http://example.com/ns#hello`, and with a
//! rule for the empty prefix just `hello`.
//!
//! The output is no JSON-NS document itself: to process it again may give
//! unexpected results.

pub mod assoc;
pub mod context;
pub mod processor;
pub mod table;
pub mod target;
pub mod text;
pub mod value;

pub use context::Context;
pub use processor::Processor;
pub use table::Table;
pub use target::{parse_rules, parse_target, TargetContext};
pub use text::{is_absolute_iri, is_curie_prefix, is_keyword};
pub use value::{Object, OneOrMany, Value};
