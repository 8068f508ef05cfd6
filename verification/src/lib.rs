//! Decoder for the Safari / WebKit `Cookies.binarycookies` cookie-jar format
//! used on macOS and iOS.
//!
//! [`from_bytes`] decodes a whole buffer into [`BinaryCookies`]; [`cookies`]
//! streams the cookies lazily. Both are verified against the format stated in
//! [`format`], and against each other in [`laws`] and [`extent`].

pub mod cursor;
pub mod decode;
pub mod display;
pub mod error;
pub mod extent;
pub mod format;
pub mod generated;
pub mod iter;
pub mod laws;
pub mod model;
pub mod text;
pub mod timestamp;

pub use decode::from_bytes;
pub use error::{Component, Error};
pub use iter::{cookies, Cookies};
pub use model::{BinaryCookies, Cookie, Flags, Page};
pub use time::OffsetDateTime;
