//! Markdown preview core: a tolerant Markdown parser producing a span-annotated
//! element tree, a whitespace normalizer used as a cheap change gate, a renderer
//! that maps source offsets to preview rows and back, and the controller that
//! keeps a preview in step with its editor.
pub mod elements;
pub mod minifier;
pub mod parser;
pub mod preview_settings;
pub mod renderer;
pub mod sync;

pub use preview_settings::MarkdownPreviewSettings;
