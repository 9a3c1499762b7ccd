//! PDF dates: `(D:`, the local date and time, the offset from UTC as `+hh'mm'`, `)`.
use vstd::prelude::*;
use vstd::string::StringExecFns;
use vstd::string::StringSliceAdditionalSpecFns;
use crate::serde_pdf::ser::lit;
use crate::unicode::lemma_encode_utf8_concat;

verus! {

/// The PDF date for the local date and time `local` (digits of year, month, day, hours, minutes
/// and seconds) and the offset from UTC `offset` (a sign, two digits of hours, two of minutes):
/// `(D:`, `local`, the first three bytes of `offset`, `'`, the rest of `offset`, `')`.
pub fn pdf_date(local: &str, offset: &str) -> (r: String)
    requires
        vstd::utf8::is_char_boundary(offset.spec_bytes(), 3),
    ensures
        vstd::utf8::encode_utf8(r@) == lit("(D:") + local.spec_bytes() + offset.spec_bytes().subrange(0, 3)
            + lit("'") + offset.spec_bytes().subrange(3, offset.spec_bytes().len() as int) + lit("')"),
{
    let (hours, minutes) = offset.split_at(3);
    let r = String::from_str("(D:").concat(local).concat(hours).concat("'").concat(minutes).concat("')");
    proof {
        let a = "(D:"@;
        lemma_encode_utf8_concat(a, local@);
        lemma_encode_utf8_concat(a + local@, hours@);
        lemma_encode_utf8_concat(a + local@ + hours@, "'"@);
        lemma_encode_utf8_concat(a + local@ + hours@ + "'"@, minutes@);
        lemma_encode_utf8_concat(a + local@ + hours@ + "'"@ + minutes@, "')"@);
    }
    r
}

} // verus!
