//! Line-level sequence diffing for log files.
//!
//! The heart of the crate is a pure diff engine: it takes two ordered
//! sequences of lines, each carrying the text to display and a derived
//! comparison key, and classifies every line as added, deleted, unchanged
//! or moved, grouping contiguous moved lines into reportable blocks and
//! deriving aggregate statistics. Around it stand the comparison-key
//! deriver, the persisted settings, and the viewer-text renderer.

pub mod diff_engine;
pub mod diff_laws;
pub mod diff_model;
pub mod settings;
pub mod settings_manager;
pub mod timestamp_parser;
pub mod viewer;

pub use diff_engine::{
    build_comparable_lines, ComparableLine, DiffEngineOperations, DiffLine, DiffResult, DiffState,
    DiffStatistics, HeckelDiffEngine, LineContent, MovedBlock, SymbolTable,
};
pub use settings::{record_timestamp_pattern_history, AppSettings, MAX_TIMESTAMP_HISTORY};
pub use settings_manager::{CoreSettingsManager, SettingsManagerOperations};
pub use timestamp_parser::{
    pattern_is_valid, CoreTimestampParser, TimestampParserError, TimestampParserOperations,
};
pub use viewer::{build_viewer_text, format_line_for_side};
