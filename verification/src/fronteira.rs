//! The boundary of the verified code: calls whose contracts are assumed, not proved.

use vstd::prelude::*;

verus! {

/// Whether the checksum validator of the `cpf` crate accepts the text `texto`.
pub uninterp spec fn cpf_valido(texto: Seq<char>) -> bool;

/// Asks the checksum validator whether `texto` is a valid CPF.
///
/// Assumed of `cpf::valid`: it returns, and its answer depends on the characters of the text
/// alone. Nothing is assumed about which texts it accepts.
#[verifier::external_body]
pub(crate) fn validar(texto: &str) -> (r: bool)
    ensures
        r == cpf_valido(texto@),
{
    cpf::valid(texto)
}

/// Appends one character to a string.
///
/// Assumed of `String::push`: the string afterwards is the string before followed by `c`.
#[verifier::external_body]
pub(crate) fn acrescentar(s: &mut String, c: char)
    ensures
        final(s)@ == old(s)@.push(c),
{
    s.push(c)
}

} // verus!
