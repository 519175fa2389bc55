//! The reports: duplicate blocks and complex functions, as text.

pub mod complexity_renderer;
pub mod duplicate_renderer;
pub mod format;

pub use complexity_renderer::ComplexityReportTimings;
pub use duplicate_renderer::{render_duplicate_report, DuplicateReport, DuplicateReportTimings};
