//! Building web links to a repository on a git hosting service from the
//! text that git prints: remote URLs, `path:line` arguments and the
//! diagnostics of a push.

pub mod error;
pub mod git_output;
pub mod links;
pub mod push_output;
pub mod remote_url;
pub mod targets;
pub mod text;

pub use error::{ParseError, PrUrlError};
pub use git_output::branch_from_symbolic_ref;
pub use links::{commit_link, line_link, parse_path_and_line, to_decimal, FileLineArgument};
pub use push_output::{extract_pr_url, pr_url_from_capture, PR_URL_PATTERN};
pub use remote_url::normalize;
pub use targets::{commit_target, line_target};
pub use text::trimmed;
