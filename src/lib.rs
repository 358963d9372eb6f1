//! Diagnostic reports rendered against the source text they point into.
//!
//! The library maps byte ranges of registered sources to line and column
//! positions, plans how the labels of a diagnostic are laid out, and renders
//! the report as a sequence of styled text spans that a terminal front end
//! can print.

pub mod cache;
pub mod diagnostic;
pub mod files;
pub mod layout;
pub mod render;
pub mod sources;
pub mod text;

pub use cache::{
    bug, diagnostic, error, get_caching, set_caching, warn, Caching, Entry,
    InMemoryCached, Registry,
};
pub use diagnostic::{Diagnostic, FileId, Label, LabelRegion, LabelStyle, Level, Stage};
pub use files::{Files, Location, ParsedFile, SourceCodes};
pub use layout::{plan, RenderPlan};
pub use sources::{src, ContentWithName, Src, SrcId, Sources};
pub use render::{
    fits, render_diagnostic, underline, InvalidDiagnostic, Renderer, Span, Style, TerminalRenderer,
};
