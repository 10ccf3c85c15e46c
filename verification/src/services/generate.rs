use vstd::prelude::*;

verus! {

/// The number of characters of an identifier.
pub const ID_LEN: usize = 26;

/// `rusty_ulid::generate_ulid_string`: a fresh ULID in its text form. The
/// crate documents that every such string has exactly 26 characters; that
/// is all that is claimed here. Which characters they are depends on the
/// clock and on a random source, so two calls need not agree. The call
/// fails only once the clock has passed the year 10889, the last that the
/// format can hold.
#[verifier::external_body]
pub(crate) fn generate_ulid_string() -> (id: String)
    ensures
        id@.len() == ID_LEN,
{
    rusty_ulid::generate_ulid_string()
}

/// The payload of the answer to a request for an identifier.
#[derive(Clone, Debug)]
pub struct GenerateOk {
    id: String,
}

impl GenerateOk {
    /// The identifier carried.
    pub closed spec fn text(&self) -> Seq<char> {
        self.id@
    }

    /// A payload carrying `id`.
    pub fn new(id: String) -> (g: Self)
        ensures
            g.text() == id@,
    {
        GenerateOk { id }
    }

    /// The identifier carried.
    pub fn id(&self) -> (s: &String)
        ensures
            s@ == self.text(),
    {
        &self.id
    }
}

impl Default for GenerateOk {
    /// A payload carrying a fresh identifier.
    fn default() -> (g: Self)
        ensures
            g.text().len() == ID_LEN,
    {
        GenerateOk::new(generate_ulid_string())
    }
}

} // verus!
