//! A uniform abstraction over trees of files that are either baked into the
//! binary as embedded tables or read live from disk, together with an
//! overlay mechanism: several roots compose with override precedence, and
//! later roots shadow earlier ones at matching relative paths.

pub mod dir;
pub mod error;
mod fsio;
pub mod paths;
pub mod silo;

pub use error::Error;
