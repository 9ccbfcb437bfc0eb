//! The boundary to the strings of `std` where `vstd` says nothing of them.
//! Nothing in this file is proved.

use vstd::prelude::*;

verus! {

/// What `str::to_uppercase` makes of a text: its characters, each replaced
/// by its upper case form as Unicode defines it.
pub uninterp spec fn en_mayusculas(s: Seq<char>) -> Seq<char>;

/// `str::to_uppercase`: its result is a function of the text alone, which
/// `en_mayusculas` names.
#[verifier::external_body]
pub(crate) fn mayusculas(s: &str) -> (r: String)
    ensures
        r@ == en_mayusculas(s@),
{
    s.to_uppercase()
}

/// `String::push`: assumed to append the character to the end of the string.
#[verifier::external_body]
pub(crate) fn agregar_caracter(s: &mut String, c: char)
    ensures
        final(s)@ == old(s)@.push(c),
{
    s.push(c)
}

} // verus!
