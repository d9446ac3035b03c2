//! An editable TOML inline table (`{ key = value, ... }`) that keeps the
//! order of its entries and the whitespace around keys and values.
//!
//! - `inline_table`: the table and its operations, with their contracts;
//! - `entry`: in-place access to one key of a table;
//! - `table`: the model of a table's entries;
//! - `pairs`: the trusted items over `linked_hash_map::LinkedHashMap`,
//!   which holds the entries;
//! - `sort`: sorting the entries by key;
//! - `wf`: what makes a table well formed, and the lemmas that keep it so;
//! - `laws`: properties that relate the operations;
//! - `key`, `value`, `repr`, `order`: keys, values, whitespace, key order.

pub mod entry;
pub mod inline_table;
pub mod key;
pub mod laws;
pub mod order;
pub mod pairs;
pub mod repr;
pub mod sort;
pub mod table;
pub mod value;
pub mod wf;

pub use entry::{InlineEntry, InlineOccupiedEntry, InlineVacantEntry};
pub use inline_table::InlineTable;
pub use key::Key;
pub use repr::Decor;
pub use table::{TableKeyValue, TableLike};
pub use value::{Formatted, Item, Value};
