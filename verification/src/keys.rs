//! The canonical text form of a note key: 36 characters, lowercase
//! hexadecimal digits with hyphens at positions 8, 13, 18 and 23 (the
//! hyphenated rendering of a 128-bit identifier). Keys are compared and
//! stored in this form; the durable backend uses it as the file name.

use vstd::prelude::*;

verus! {

/// A lowercase hexadecimal digit.
pub open spec fn is_lower_hex_char(c: char) -> bool {
    (48 <= c as u32 && c as u32 <= 57) || (97 <= c as u32 && c as u32 <= 102)
}

/// Whether position `i` of a canonical key holds a hyphen.
pub open spec fn is_hyphen_position(i: int) -> bool {
    i == 8 || i == 13 || i == 18 || i == 23
}

/// The canonical key form: 36 characters, hyphens exactly at the four
/// hyphen positions, lowercase hexadecimal digits everywhere else.
pub open spec fn is_canonical_key(s: Seq<char>) -> bool {
    &&& s.len() == 36
    &&& forall|i: int|
        0 <= i < 36 ==> (if is_hyphen_position(i) {
            s[i] == '-'
        } else {
            is_lower_hex_char(s[i])
        })
}

/// Decides whether `s` is in the canonical key form.
pub fn check_canonical_key(s: &str) -> (r: bool)
    ensures
        r == is_canonical_key(s@),
{
    let n = s.unicode_len();
    if n != 36 {
        return false;
    }
    let mut i: usize = 0;
    while i < 36
        invariant
            0 <= i <= 36,
            s@.len() == 36,
            forall|j: int|
                0 <= j < i ==> (if is_hyphen_position(j) {
                    s@[j] == '-'
                } else {
                    is_lower_hex_char(s@[j])
                }),
        decreases 36 - i,
    {
        let c = s.get_char(i);
        if i == 8 || i == 13 || i == 18 || i == 23 {
            if c != '-' {
                return false;
            }
        } else {
            let cu = c as u32;
            if !((48 <= cu && cu <= 57) || (97 <= cu && cu <= 102)) {
                return false;
            }
        }
        i = i + 1;
    }
    true
}

/// Relies on `uuid::Uuid::new_v4` and its `Display` implementation: a
/// fresh random 128-bit identifier, rendered in the lowercase hyphenated
/// form (nothing is promised of which identifier comes back).
#[verifier::external_body]
pub(crate) fn fresh_key_text() -> (r: String)
    ensures
        is_canonical_key(r@),
{
    uuid::Uuid::new_v4().to_string()
}

} // verus!
