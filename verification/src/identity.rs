//! Threema IDs.

use vstd::prelude::*;

verus! {

/// How many characters a Threema ID has.
pub const ID_LENGTH: usize = 8;

/// Whether a character may stand anywhere in a Threema ID.
pub open spec fn is_id_char(c: char) -> bool {
    '0' <= c <= '9' || 'A' <= c <= 'Z'
}

/// Whether a text is a Threema ID: eight digits and capital letters, of which the first may be a
/// star instead.
pub open spec fn is_threema_id(text: Seq<char>) -> bool {
    &&& text.len() == ID_LENGTH
    &&& is_id_char(text[0]) || text[0] == '*'
    &&& forall|i: int| 1 <= i < text.len() ==> is_id_char(#[trigger] text[i])
}

/// `threema_gateway::ThreemaId::from_str`, and `as_str` of what it gives: a Threema ID is taken as
/// it stands, and any other text is turned down.
#[verifier::external_body]
fn read_threema_id(text: &str) -> (id: Option<String>)
    ensures
        id is Some <==> is_threema_id(text@),
        id is Some ==> id->0@ == text@,
{
    match text.parse::<threema_gateway::ThreemaId>() {
        Ok(id) => Some(id.as_str().to_owned()),
        Err(_) => None,
    }
}

/// The Threema ID of a user.
#[derive(Debug)]
pub struct Identity {
    /// The ID as it is written.
    pub text: String,
}

impl Identity {
    /// Whether the text is a Threema ID.
    pub open spec fn is_valid(self) -> bool {
        is_threema_id(self.text@)
    }

    /// Read a Threema ID.
    pub fn parse(text: &str) -> (identity: Option<Identity>)
        ensures
            identity is Some <==> is_threema_id(text@),
            identity is Some ==> identity->0.text@ == text@ && identity->0.is_valid(),
    {
        match read_threema_id(text) {
            Some(text) => Some(Identity { text }),
            None => None,
        }
    }
}

} // verus!
