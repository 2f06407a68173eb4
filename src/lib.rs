//! Renders documents with embedded Lua blocks: each `<lua>`...`</lua>` region
//! is evaluated in one interpreter shared by the whole run, and its text
//! result takes the region's place.
pub mod blocks;
pub mod error;
pub mod request;
pub mod script;
pub mod render;
