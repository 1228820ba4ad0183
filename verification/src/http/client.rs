//! What is reported when executing a request fails.

use vstd::prelude::*;

use crate::text::{decimal, push_decimal};
use vstd::string::StringExecFns;

verus! {

/// The message of a failed request: a timeout names the configured timeout
/// when there is one; any other failure is reported as the client describes it.
pub open spec fn spec_request_error(is_timeout: bool, timeout_ms: Option<u64>, description: Seq<char>) -> Seq<char> {
    if is_timeout {
        match timeout_ms {
            Some(t) => "request timed out after "@ + decimal(t as nat) + "ms"@,
            None => "request timed out"@,
        }
    } else {
        description
    }
}

/// The message of a failed request; `is_timeout` and `description` are what
/// the HTTP client reports of the failure.
pub fn request_error(is_timeout: bool, timeout_ms: Option<u64>, description: String) -> (m: String)
    ensures
        m@ == spec_request_error(is_timeout, timeout_ms, description@),
{
    if is_timeout {
        if let Some(timeout_ms) = timeout_ms {
            let mut m = "request timed out after ".to_owned();
            push_decimal(&mut m, timeout_ms);
            m.append("ms");
            return m;
        }
        return "request timed out".to_owned();
    }
    description
}

} // verus!
