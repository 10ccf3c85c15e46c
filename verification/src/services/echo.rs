use vstd::prelude::*;

verus! {

/// The payload of an echo request or of its reply.
#[derive(Clone, Debug)]
pub struct Echo {
    echo: String,
}

impl Echo {
    /// The text carried.
    pub closed spec fn text(&self) -> Seq<char> {
        self.echo@
    }

    /// A payload carrying `echo`.
    pub fn new(echo: String) -> (e: Self)
        ensures
            e.text() == echo@,
    {
        Echo { echo }
    }

    /// The text carried.
    pub fn echo(&self) -> (s: &String)
        ensures
            s@ == self.text(),
    {
        &self.echo
    }

    /// The reply to this payload: a payload with the same text.
    pub fn reply(&self) -> (r: Self)
        ensures
            r.text() == self.text(),
    {
        Self { echo: self.echo.clone() }
    }
}

} // verus!
