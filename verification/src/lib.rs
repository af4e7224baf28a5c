//! Turning a language model's reply into one shell command, and checking
//! that command against a set of static safety rules.

pub mod cli;
pub mod controls;
pub mod extract;
pub mod safety;
pub mod session;
pub mod text;

pub use cli::{default_threads, parse_args, Options};
pub use controls::strip_controls;
pub use extract::{extract_command, looks_degenerate, strip_cli_chrome};
pub use safety::{check_safety, has_danger, Finding, Severity};
pub use session::{MODEL_NAME, SYSTEM_PROMPT};
