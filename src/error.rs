use vstd::prelude::*;

use vstd::string::StringExecFns;

verus! {

/// Failures of the channel between the wheel's thread and its users.
#[derive(Debug, PartialEq, Eq)]
pub enum TimerError {
    /// The delivery channel closed while a receiver waited on it.
    RecvError(String),
    /// The wheel's thread found nobody left to deliver to.
    SendError(String),
}

pub type TimerResult<R> = Result<R, TimerError>;

/// The quoted, escaped form in which `Debug` prints a text.
pub uninterp spec fn debug_quoted(s: Seq<char>) -> Seq<char>;

/// Relies on `<str as Debug>::fmt`: the text between double quotes with its special
/// characters escaped, which depends on the text alone.
#[verifier::external_body]
fn quoted(s: &str) -> (r: String)
    ensures
        r@ == debug_quoted(s@),
{
    format!("{:?}", s)
}

impl TimerError {
    /// The text the error carries.
    pub open spec fn detail(&self) -> Seq<char> {
        match self {
            TimerError::RecvError(msg) => msg@,
            TimerError::SendError(msg) => msg@,
        }
    }

    /// The error as shown to people: `Internal Error:` and the detail in quotes.
    pub fn message(&self) -> (r: String)
        ensures
            r@ == "Internal Error:"@ + debug_quoted(self.detail()),
    {
        let detail = match self {
            TimerError::RecvError(msg) => msg,
            TimerError::SendError(msg) => msg,
        };
        let mut text = String::from_str("Internal Error:");
        let q = quoted(detail.as_str());
        text.append(q.as_str());
        proof {
            reveal_strlit("Internal Error:");
        }
        text
    }
}

} // verus!
