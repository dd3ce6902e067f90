//! A 128-bit identifier type compatible with the UUID byte layout, together
//! with a verified text codec: strict parsing, lax parsing, and formatting of
//! the three fixed textual layouts of such an identifier.

pub mod codec;
pub mod id128;
pub mod laws;
pub mod text;

pub use id128::Error;
pub use id128::ID128;
pub use text::Case;
pub use text::Format;
