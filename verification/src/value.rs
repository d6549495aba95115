//! Value representations.
//!
//! Two representations share one interface: `tagged`, where every value carries a tag
//! saying what kind of value it is, and `untagged`, where every value is a machine word
//! (anything bigger would be interned). The rest of the crate runs on the untagged one.

pub mod tagged;
pub mod untagged;

pub use untagged::{Value, ValueType, TagError, Untag};
