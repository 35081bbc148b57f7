//! Parsing Rust sources with `syn`.
use vstd::prelude::*;
use crate::error::Error;

verus! {

/// A parsed Rust source file (`syn::File`).
#[verifier::external_type_specification]
#[verifier::external_body]
pub struct ExSynFile(syn::File);

/// Whether `syn::parse_file` accepts `source` as a Rust source file.
pub uninterp spec fn parses_as_rust(source: Seq<char>) -> bool;

/// `syn::parse_file`: the syntax tree of `source`, or `syn`'s message where it is
/// not Rust. Claimed: it succeeds exactly on the texts that `parses_as_rust` names,
/// which depends on the text alone; the message is left unsaid.
#[verifier::external_body]
fn parse_rust(source: &str) -> (r: Result<syn::File, String>)
    ensures
        r is Ok <==> parses_as_rust(source@),
{
    match syn::parse_file(source) {
        Ok(file) => Ok(file),
        Err(error) => Err(error.to_string()),
    }
}

/// The syntax tree of the source at `path`, whose text is `source`; a source that
/// does not parse is a parse error that names `path`.
pub fn parse_source(path: &str, source: &str) -> (r: Result<syn::File, Error>)
    ensures
        r is Ok <==> parses_as_rust(source@),
        r matches Err(e) ==> (e matches Error::Parse { path: p, .. } && p@ == path@),
{
    match parse_rust(source) {
        Ok(file) => Ok(file),
        Err(message) => Err(Error::Parse { path: path.to_owned(), message }),
    }
}

} // verus!
