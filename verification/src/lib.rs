//! Conversion between raw bytes and C-style escaped text.
//!
//! [`escape`] writes any sequence of bytes as printable ASCII text, with a
//! backslash in front of what would not print or would be misread.
//! [`unescape`] reads such text back into bytes. It also reads octal escapes
//! and universal character names, which `escape` never writes, and says
//! where the first malformed escape sequence stands.
//!
//! Each of the two has a model over sequences of bytes and characters,
//! [`escape::escape_spec`] and [`unescape::unescape_spec`], to which the
//! compiled function is proved equal. What holds of both together is proved
//! of the models in [`roundtrip`], and where the errors point in [`offsets`].

pub mod ascii;
pub mod digits;
pub mod error;
pub mod escape;
pub mod offsets;
pub mod roundtrip;
pub mod text;
pub mod unescape;

pub use error::UnescapeError;
pub use escape::escape;
pub use unescape::unescape;
