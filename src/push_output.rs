use vstd::prelude::*;
use vstd::string::*;

use crate::error::PrUrlError;

verus! {

#[verifier::external_type_specification]
#[verifier::external_body]
pub struct ExRegexError(regex::Error);

/// The text of the first capture group of the leftmost match of the regular
/// expression `pattern` in `text`, as the `regex` crate finds it.
pub uninterp spec fn first_group(pattern: Seq<char>, text: Seq<char>) -> Option<Seq<char>>;

/// Relies on `regex::Regex::new` to compile `pattern`, then on
/// `Regex::captures` and `Captures::get(1)` for the first capture group of
/// the leftmost match in `text`. `Regex::new` fails only on an invalid
/// pattern or one over the default size limit, which the pull-request
/// pattern is not.
#[verifier::external_body]
fn capture_first_group(pattern: &str, text: &str) -> (r: Result<Option<String>, regex::Error>)
    ensures
        pattern@ == PR_URL_PATTERN@ ==> r is Ok,
        r matches Ok(c) ==> match c {
            Some(s) => first_group(pattern@, text@) == Some(s@),
            None => first_group(pattern@, text@) is None,
        },
{
    regex::Regex::new(pattern).map(
        |re| re.captures(text).and_then(|c| c.get(1)).map(|m| m.as_str().to_string()),
    )
}

/// A line of a push's diagnostics that starts with `remote:` and holds a
/// web address beginning with `https`: the address runs up to the next white
/// space, which must reach the end of a line.
pub const PR_URL_PATTERN: &'static str = r"remote:.*(https\S*)\s*\n";

/// The pull-request page from what the pattern captured in a push's output.
pub fn pr_url_from_capture(capture: Option<String>) -> (r: Result<String, PrUrlError>)
    ensures
        match r {
            Ok(u) => capture matches Some(s) && u@ == s@,
            Err(e) => capture is None && e == PrUrlError::PrUrlNotFound,
        },
{
    match capture {
        Some(s) => Ok(s),
        None => Err(PrUrlError::PrUrlNotFound),
    }
}

/// The address of the page that opens a pull request, as the server
/// announced it in the diagnostics of a push.
pub fn extract_pr_url(push_output: &str) -> (r: Result<String, PrUrlError>)
    ensures
        match r {
            Ok(u) => first_group(PR_URL_PATTERN@, push_output@) == Some(u@),
            Err(e) => first_group(PR_URL_PATTERN@, push_output@) is None && e
                == PrUrlError::PrUrlNotFound,
        },
{
    match capture_first_group(PR_URL_PATTERN, push_output) {
        Ok(capture) => pr_url_from_capture(capture),
        Err(_) => {
            proof {
                assert(false);
            }
            Err(PrUrlError::PrUrlNotFound)
        },
    }
}

} // verus!
