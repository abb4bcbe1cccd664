use vstd::prelude::*;
use vstd::string::*;

use crate::error::ParseError;
use crate::links::{commit_link, decimal, line_link, FileLineArgument};
use crate::remote_url::{normalize, normalized, recognized};

verus! {

/// The page of commit `sha` in the repository whose remote URL git printed
/// as `remote_url`.
pub fn commit_target(remote_url: &str, sha: &str) -> (res: Result<String, ParseError>)
    ensures
        match res {
            Ok(u) => recognized(remote_url@) && u@ == normalized(remote_url@) + "/commit/"@ + sha@,
            Err(e) => !recognized(remote_url@) && e == ParseError::UnrecognizedFormat,
        },
{
    let base = normalize(remote_url)?;
    Ok(commit_link(base.as_str(), sha))
}

/// The view of the line that `file` names, on `branch`, in the repository
/// whose remote URL git printed as `remote_url`.
pub fn line_target(remote_url: &str, branch: &str, file: &FileLineArgument) -> (res: Result<
    String,
    ParseError,
>)
    requires
        file.line_number >= 1,
    ensures
        match res {
            Ok(u) => recognized(remote_url@) && file.filepath@.len() > 0 && u@ == normalized(
                remote_url@,
            ) + "/blob/"@ + branch@ + "/"@ + file.filepath@ + "#L"@ + decimal(
                file.line_number as nat,
            ),
            Err(e) => if !recognized(remote_url@) {
                e == ParseError::UnrecognizedFormat
            } else {
                file.filepath@.len() == 0 && e == ParseError::EmptyPath
            },
        },
{
    let base = normalize(remote_url)?;
    line_link(base.as_str(), branch, file.filepath.as_str(), file.line_number)
}

} // verus!
