//! Page-and-row storage layer: a typed column codec, a row codec with a
//! null-indicator region, and fixed-size slotted pages of rows.
pub mod bytes;
pub mod datatype;
pub mod page;
pub mod row;
