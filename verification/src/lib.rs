//! An HTML linter for agent-generated documents: it checks that images have alt text, that the
//! `html` element has a language, that buttons have a type, that iframes have a title, that the
//! document starts with a doctype, and reports tokenizer errors; findings come back as a report
//! with byte offsets, lines and columns.
pub mod bench;
pub mod cli;
pub mod engine;
pub mod fixtures;
pub mod input;
pub mod model;
pub mod order;
pub mod text;

pub use cli::{Cli, CliAction};
pub use engine::lint_bytes;
pub use model::{Report, RuleSet};
