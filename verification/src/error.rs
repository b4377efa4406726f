use vstd::prelude::*;
use vstd::string::StringExecFns;

verus! {

/// Represents any error caught in a typing session.
#[derive(Debug)]
pub struct ToipeError {
    /// Error message. Should not start with "error" or similar.
    pub msg: String,
}

impl ToipeError {
    /// Prefixes the message with a context.
    pub fn with_context(self, context: &str) -> (res: Self)
        ensures
            res.msg@ == context@ + self.msg@,
    {
        let mut me = self;
        let mut msg = context.to_owned();
        msg.append(me.msg.as_str());
        me.msg = msg;
        me
    }

    /// The text that the error shows to a user: `ToipeError: ` and the message.
    pub fn display_text(&self) -> (res: String)
        ensures
            res@ == "ToipeError: "@ + self.msg@,
    {
        let mut s = "ToipeError: ".to_owned();
        s.append(self.msg.as_str());
        s
    }
}

impl From<String> for ToipeError {
    fn from(error: String) -> (res: Self) {
        ToipeError { msg: error }
    }
}

impl vstd::std_specs::convert::FromSpecImpl<String> for ToipeError {
    open spec fn obeys_from_spec() -> bool {
        true
    }

    open spec fn from_spec(v: String) -> Self {
        ToipeError { msg: v }
    }
}

} // verus!
