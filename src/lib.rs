//! Renders a JSON document as Markdown: top-level keys become headings,
//! deeper keys become bold bullets, and long prose is split into paragraphs.

pub mod json;
pub mod text;
pub mod render;
pub mod outline;

pub use json::JsonValue;
pub use render::{MarkdownRenderer, RenderStyle};
