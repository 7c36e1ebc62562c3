//! Extraction and normalization of the meaningful substrings of a JSDoc tag.
//!
//! A surrounding parser locates the raw byte ranges of each part of a tag
//! (`@param {Type} name description`); this crate turns those raw, span-tagged
//! substrings into cleaned logical strings and refined source spans:
//!
//! - [`JSDocCommentPart`]: a tag's free-text comment, with the conventional
//!   leading `*` markers stripped line by line, and a span narrowed to the
//!   first visible line for single-line diagnostics.
//! - [`JSDocTagKindPart`]: the `@kind` keyword, without the `@`.
//! - [`JSDocTagTypePart`]: the `{type}` expression, without the braces.
//! - [`JSDocTagTypeNamePart`]: the name with its optional/default modifiers
//!   (`[name]`, `[name=default]`) detected and stripped.

pub mod comment;
pub mod span;
pub mod tag;
pub mod text;

pub use comment::JSDocCommentPart;
pub use span::Span;
pub use tag::JSDocTagKindPart;
pub use tag::JSDocTagTypeNamePart;
pub use tag::JSDocTagTypePart;
