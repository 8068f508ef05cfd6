//! Decode-failure taxonomy for the `.binarycookies` format.

use vstd::prelude::*;

verus! {

/// Which of the five cookie string components overflowed the size cap.
#[derive(Debug, Clone, Copy, PartialEq, Eq, Hash)]
#[non_exhaustive]
pub enum Component {
    /// The comment region (`commentOffset..domainOffset`).
    Comment,
    /// The domain field.
    Domain,
    /// The name field.
    Name,
    /// The path field.
    Path,
    /// The value field.
    Value,
}

/// The lower-case label of a component, as used in error messages.
pub open spec fn component_label(component: Component) -> Seq<char> {
    match component {
        Component::Comment => "comment"@,
        Component::Domain => "domain"@,
        Component::Name => "name"@,
        Component::Path => "path"@,
        Component::Value => "value"@,
    }
}

impl Component {
    /// The lower-case label of this component (`"comment"`, `"domain"`, ...).
    pub fn as_str(&self) -> (label: &'static str)
        ensures
            label@ == component_label(*self),
    {
        match self {
            Component::Comment => "comment",
            Component::Domain => "domain",
            Component::Name => "name",
            Component::Path => "path",
            Component::Value => "value",
        }
    }
}

/// Errors produced while decoding a `.binarycookies` file.
///
/// Every malformed input maps to a variant here; the decoder never panics.
#[derive(Debug, Clone, Copy, PartialEq, Eq)]
pub enum Error {
    /// The file does not start with the `cook` magic; carries the four bytes found.
    InvalidSignature([u8; 4]),
    /// A page does not start with the `00 00 01 00` tag.
    InvalidPageTag,
    /// A page header does not end with the `00 00 00 00` marker.
    InvalidPageEnd,
    /// A cookie header does not end with the `00 00 00 00` marker.
    InvalidCookieHeaderEnd,
    /// The input ended before the structure it declares was fully read.
    UnexpectedEof,
    /// The declared page count exceeds the hardening cap of 65 536.
    TooManyPages(u32),
    /// The declared per-page cookie count exceeds the hardening cap of 1 048 576.
    TooManyCookies(u32),
    /// One of the five cookie components is longer than 4096 bytes.
    CookieTooLarge {
        /// Which component overflowed.
        component: Component,
        /// Length of the offending component in bytes.
        size: u32,
    },
    /// The five cookie components together exceed 4096 bytes.
    CookieTotalTooLarge(u32),
    /// Cookie string offsets are not monotonically increasing.
    MalformedOffsets,
}

} // verus!
