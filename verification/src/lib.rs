//! A path-addressable record of semi-structured values.
//!
//! A record is a tree of values (objects keyed by text, arrays, and scalar
//! leaves) whose nodes are reached through dotted and bracketed paths such as
//! `map.inner.leaf` or `list[2]`.
pub mod key_order;
pub mod value;
pub mod equality;
pub mod lookup;
pub mod model;
pub mod document;
pub mod path_text;
pub mod entries;
pub mod laws;
pub mod entry;
pub mod walk;
pub mod event;
pub mod tokenizer;
pub mod target;

pub use document::{ConversionError, Document, Shape};
pub use entry::{Entry, OccupiedEntry, VacantEntry};
pub use event::LogEvent;
pub use key_order::{key_order, KeyOrder};
pub use lookup::{Lookup, LookupBuf, Segment, SegmentBuf};
pub use model::EntryError;
pub use path_text::LookupError;
pub use tokenizer::{
    tokenize, BuildError, Conversion, ConvertError, Tokenizer, TokenizerConfig,
};
pub use value::{Kind, Moment, Value};
pub use walk::FieldWalker;
pub use target::{Secrets, Target, TargetValue};
