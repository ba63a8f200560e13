//! Decoding of a task manager's change journal and rendering of each
//! recorded change as a field-by-field difference.

pub mod attrs;
pub mod changes;
pub mod pager;
pub mod render;
pub mod taskdb;
pub mod text;
pub mod value;
