//! The JSON document that carries a new description to the hosting platform.

use vstd::prelude::*;

verus! {

/// `serde_json::Error`, of which nothing is known here but that it can be
/// handed on and turned into text.
#[verifier::external_type_specification]
#[verifier::external_body]
pub struct ExJsonError(serde_json::Error);

/// The lower-case hexadecimal digit for `d`, where `0 <= d < 16`.
pub open spec fn hex_digit(d: int) -> char {
    if d < 10 {
        ('0' as int + d) as char
    } else {
        ('a' as int + d - 10) as char
    }
}

/// What stands for `c` inside a JSON string literal: the quote and the
/// backslash get a backslash in front, five control characters have a letter
/// of their own, the other characters below the space are written as
/// `\u00` and two hexadecimal digits, and every other character stands for
/// itself.
pub open spec fn json_escape(c: char) -> Seq<char> {
    let u = c as int;
    if c == '"' {
        seq!['\\', '"']
    } else if c == '\\' {
        seq!['\\', '\\']
    } else if u == 0x08 {
        seq!['\\', 'b']
    } else if u == 0x09 {
        seq!['\\', 't']
    } else if u == 0x0A {
        seq!['\\', 'n']
    } else if u == 0x0C {
        seq!['\\', 'f']
    } else if u == 0x0D {
        seq!['\\', 'r']
    } else if u < 0x20 {
        seq!['\\', 'u', '0', '0', hex_digit(u / 16), hex_digit(u % 16)]
    } else {
        seq![c]
    }
}

/// The JSON string literal for `text`: its characters, each as `json_escape`
/// gives it, between two quotes.
pub open spec fn json_string(text: Seq<char>) -> Seq<char> {
    seq!['"'] + text.map_values(|c: char| json_escape(c)).flatten() + seq!['"']
}

/// `serde_json::to_string` on a string slice. It writes into a vector, which
/// takes whatever it is given, so it always succeeds; what it returns is the
/// JSON string literal for `text` in the compact form, as `json_string`
/// spells it out.
#[verifier::external_body]
fn to_json_string(text: &str) -> (encoded: Result<String, serde_json::Error>)
    ensures
        encoded is Ok,
        encoded matches Ok(literal) ==> literal@ == json_string(text@),
{
    serde_json::to_string(text)
}

/// The text of a `serde_json::Error`, as its `Display` gives it. Nothing is
/// claimed of it.
#[verifier::external_body]
fn error_text(error: &serde_json::Error) -> String {
    error.to_string()
}

/// Why a description could not be turned into a JSON document.
#[derive(Debug)]
pub struct PatchError {
    /// What the encoder said.
    pub message: String,
}

/// The JSON object with the one member `body`, whose value is the string
/// literal `literal`.
pub open spec fn patch_text(literal: Seq<char>) -> Seq<char> {
    "{\"body\":"@ + literal + "}"@
}

/// Frames an encoded description as the document that sets it, and hands an
/// encoder's failure on.
pub fn patch_from(encoded: Result<String, serde_json::Error>) -> (patch: Result<String, PatchError>)
    ensures
        patch is Ok <==> encoded is Ok,
        patch matches Ok(document) ==> document@ == patch_text(encoded->Ok_0@),
{
    match encoded {
        Ok(literal) => {
            let mut document = String::new();
            document.append("{\"body\":");
            document.append(literal.as_str());
            document.append("}");
            assert(document@ =~= patch_text(literal@));
            Ok(document)
        },
        Err(error) => Err(PatchError { message: error_text(&error) }),
    }
}

/// The JSON document that sets a request's description to `body`. Every
/// description has one.
pub fn body_patch(body: &str) -> (patch: Result<String, PatchError>)
    ensures
        patch is Ok,
        patch matches Ok(document) ==> document@ == patch_text(json_string(body@)),
{
    patch_from(to_json_string(body))
}

} // verus!
