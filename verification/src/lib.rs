//! Management of macOS launch agents: typed descriptors for user-level
//! background jobs, their canonical plist files under
//! `~/Library/LaunchAgents`, and the `launchctl` command lines that
//! register, unregister and query them.
//!
//! The library itself is pure: it derives paths, encodes and decodes
//! descriptor files, formats commands and classifies status output.
//! Callers supply the ambient values (home directory, effective user id)
//! and perform the actual file and process operations.

use vstd::prelude::*;

mod agent;
mod codec;
mod control;
mod text;

pub use codec::args_block;
pub use codec::args_entries;
pub use codec::bool_view;
pub use codec::canonical_for;
pub use codec::esc;
pub use codec::esc_char;
pub use codec::lemma_round_trip;
pub use codec::plist_view;
pub use codec::special_char;

pub use control::command_view;
pub use control::print_command_view;
pub use text::contains_seq;
pub use text::contains_str;
pub use text::dec_view;
pub use text::u32_dec;
pub use agent::AgentView;
pub use agent::BuilderError;
pub use agent::LaunchAgent;
pub use agent::LaunchAgentBuilder;
pub use agent::ProcessType;
pub use agent::path_view;
pub use agent::token_view;

verus! {

/// Errors surfaced by descriptor handling and `launchctl` interaction.
#[derive(Debug)]
pub enum LaunchAgentError {
    /// A descriptor file's content is malformed, or its scheduling-class
    /// token is not one of the recognized values.
    FormatError,
    /// A filesystem operation failed (missing file, permissions, missing
    /// parent directory).
    IOError,
    /// An external `launchctl` invocation could not be spawned or returned
    /// a non-zero exit code.
    CommandError { exit_code: i32, output: String },
    /// A required environment value (the home directory) is unset or
    /// unreadable.
    EnvironmentError,
}

/// Result type for launchctl operations.
pub type LaunchctlResult<T> = Result<T, LaunchAgentError>;

} // verus!
