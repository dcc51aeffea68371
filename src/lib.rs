//! Selects and launches external formatters for files staged in a git index.
//!
//! The library holds the decisions: how `fmt.<language>.<option>` configuration
//! entries become a directory of formatters, which staged paths qualify, which
//! formatter a path resolves to by extension, and the argument vector that is
//! launched for it. Reading the repository and spawning processes stay with
//! the caller.

pub mod config;
pub mod formatter;
pub mod text;

pub use config::{collect_formatters, CollectedOptions, LanguageOptions, OPTION_KEY};
pub use formatter::{
    command_argv, parse_extensions, should_format, ConfigError, Formatter, FormatterOption,
    PathStatus, COMMAND_OPTION, EXTENSIONS_OPTION, FILE_TEMPLATE, INDEX_MODIFIED, INDEX_NEW,
    WT_MODIFIED,
};
pub use text::{replace_all, split_on};
