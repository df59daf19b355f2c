//! Fresh identifiers, from the outside crate that makes them.
use vstd::prelude::*;

verus! {

/// Whether a text has the hyphenated form of a UUID: 36 characters, a hyphen at
/// positions 8, 13, 18 and 23, and a lowercase hexadecimal digit everywhere else.
pub open spec fn hyphenated_uuid_form(s: Seq<char>) -> bool {
    &&& s.len() == 36
    &&& forall|i: int| 0 <= i < 36 ==> {
        if i == 8 || i == 13 || i == 18 || i == 23 {
            s[i] == '-'
        } else {
            ('0' <= #[trigger] s[i] <= '9') || ('a' <= s[i] <= 'f')
        }
    }
}

/// A fresh random identifier: `uuid::Uuid::new_v4`, written with `to_string`,
/// which formats it hyphenated in lowercase hexadecimal. Only that form is
/// stated: the digits are random.
#[verifier::external_body]
pub(crate) fn new_uuid() -> (r: String)
    ensures
        hyphenated_uuid_form(r@),
{
    uuid::Uuid::new_v4().to_string()
}

} // verus!
