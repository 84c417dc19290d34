//! Reading the matrix from JSON text.

use crate::assoc::{as_map, lemma_put_all, names_distinct};
use crate::matrix::InputMatrix;
use std::collections::HashMap;
use vstd::prelude::*;

verus! {

#[verifier::external_type_specification]
#[verifier::external_body]
pub struct ExJsonError(serde_json::Error);

/// Why a text was not taken as a matrix.
#[derive(Clone, Debug)]
pub struct ParseError {
    /// What the JSON reader found wrong, with the line and column.
    pub message: String,
}

/// What `serde_json::from_str` makes of a text when it is asked for a map from
/// strings to lists of strings: the mapping that the JSON object stands for,
/// or `None` where the reader refuses the text.
pub uninterp spec fn json_object(text: Seq<char>) -> Option<Map<Seq<char>, Seq<Seq<char>>>>;

/// Reads the text with `serde_json::from_str` as a `HashMap` from `String` to
/// `Vec<String>` and hands out the map's entries. The call succeeds exactly
/// where [`json_object`] has a mapping for the text, and the entries then
/// stand for that mapping. Nothing is said of their order, which is that of
/// the hash map and may change from one call to the next.
#[verifier::external_body]
fn object_entries(text: &str) -> (entries: Result<Vec<(String, Vec<String>)>, serde_json::Error>)
    ensures
        entries is Ok <==> json_object(text@) is Some,
        entries is Ok ==> as_map(entries->Ok_0.deep_view()) == json_object(text@)->Some_0,
{
    let parsed: HashMap<String, Vec<String>> = serde_json::from_str(text)?;
    Ok(parsed.into_iter().collect())
}

/// The message of a `serde_json::Error`, as its `Display` writes it.
#[verifier::external_body]
fn error_message(error: &serde_json::Error) -> (message: String) {
    error.to_string()
}

/// Reads a matrix from JSON text: an object whose members are arrays of
/// strings. The matrix holds one variable per member; where the text names a
/// member twice, the later values stand. The order of the variables is not
/// fixed by the text.
pub fn parse_matrix(m: &str) -> (parsed: Result<InputMatrix, ParseError>)
    ensures
        parsed is Ok <==> json_object(m@) is Some,
        parsed is Ok ==> {
            &&& as_map(parsed->Ok_0@) == json_object(m@)->Some_0
            &&& names_distinct(parsed->Ok_0@)
        },
{
    match object_entries(m) {
        Ok(entries) => {
            proof {
                lemma_put_all(entries.deep_view());
            }
            Ok(InputMatrix::from_rows(entries))
        },
        Err(error) => Err(ParseError { message: error_message(&error) }),
    }
}

} // verus!
