//! Strings that carry terminal styling: a sequence of text pieces, each
//! with its own style, that can be appended to, restyled, measured and
//! flattened back to plain text.

pub mod string;
pub mod style;

pub use string::{TermString, TermWrite};
pub use style::{Attr, Color, TermStyle};
