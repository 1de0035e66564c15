//! The library's error: a message.

use vstd::prelude::*;
use vstd::string::StringExecFns;

verus! {

pub struct Error {
    msg: String,
}

impl Error {
    pub closed spec fn message_view(&self) -> Seq<char> {
        self.msg@
    }

    pub fn new(msg: &str) -> (r: Error)
        ensures
            r.message_view() == msg@,
    {
        Error { msg: msg.to_owned() }
    }

    /// An error carrying the message of another.
    pub fn other<E: core::fmt::Display>(error: E) -> (r: Error)
        ensures
            exists|text: String| #[trigger] vstd::string::to_string_from_display_ensures::<E>(&error, text)
                && r.message_view() == text@,
    {
        let msg = error.to_string();
        Error { msg }
    }

    /// An error carrying the message of another and where it happened.
    pub fn other_loc<E: core::fmt::Display>(error: E, loc: &str) -> (r: Error)
        ensures
            exists|text: String| #[trigger] vstd::string::to_string_from_display_ensures::<E>(&error, text)
                && r.message_view() == text@ + "\n\tat "@ + loc@,
    {
        let mut msg = error.to_string();
        let ghost text = msg;
        msg.append("\n\tat ");
        msg.append(loc);
        let r = Error { msg };
        assert(r.message_view() == text@ + "\n\tat "@ + loc@);
        r
    }

    /// The same error, its message followed by `loc`.
    pub fn rethrow(self, loc: &str) -> (r: Error)
        ensures
            r.message_view() == self.message_view() + loc@,
    {
        let mut msg = self.msg;
        msg.append(loc);
        Error { msg }
    }

    pub fn message(&self) -> (r: &str)
        ensures
            r@ == self.message_view(),
    {
        self.msg.as_str()
    }
}

} // verus!
