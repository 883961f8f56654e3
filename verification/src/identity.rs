//! Process instance identity.
//!
//! One identifier is generated at startup and attached to every emitted
//! event and log line, so that an operator can correlate output across
//! restarts. It is built once, then passed by reference to whatever needs
//! it — never a lazily initialized global.

use vstd::prelude::*;

verus! {

/// Whether the character may stand in the identifier's text besides the
/// hyphens: a lowercase hexadecimal digit.
pub open spec fn is_lower_hex_digit(c: char) -> bool {
    ('0' <= c && c <= '9') || ('a' <= c && c <= 'f')
}

/// The documented text form of the identifier: 36 characters, hyphens at
/// positions 8, 13, 18 and 23, lowercase hexadecimal digits everywhere
/// else.
pub open spec fn is_identity_text(s: Seq<char>) -> bool {
    &&& s.len() == 36
    &&& s[8] == '-'
    &&& s[13] == '-'
    &&& s[18] == '-'
    &&& s[23] == '-'
    &&& forall|i: int|
        0 <= i < 36 && i != 8 && i != 13 && i != 18 && i != 23 ==> is_lower_hex_digit(
            #[trigger] s[i],
        )
}

/// Relies on uuid::Uuid::new_v4 and its hyphenated text form: 36 lowercase
/// hexadecimal digits with hyphens at positions 8, 13, 18 and 23, random
/// beyond that.
#[verifier::external_body]
fn fresh_uuid() -> (r: String)
    ensures
        is_identity_text(r@),
{
    format!("{}", uuid::Uuid::new_v4())
}

/// The process-wide identifier: generated once, read-only afterwards.
pub struct InstanceId {
    id: String,
}

impl View for InstanceId {
    type V = Seq<char>;

    closed spec fn view(&self) -> Seq<char> {
        self.id@
    }
}

impl InstanceId {
    /// Generates a fresh random identifier in the hyphenated lowercase
    /// hexadecimal form.
    pub fn generate() -> (r: InstanceId)
        ensures
            is_identity_text(r@),
    {
        InstanceId { id: fresh_uuid() }
    }

    /// The identifier's text.
    pub fn as_str(&self) -> (r: &str)
        ensures
            r@ == self@,
    {
        self.id.as_str()
    }

    /// A copy of the identifier's text, for tagging an event.
    pub fn text(&self) -> (r: String)
        ensures
            r@ == self@,
    {
        self.id.clone()
    }
}

} // verus!
