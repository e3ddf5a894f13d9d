use vstd::prelude::*;

verus! {

/// Why one segment got no text from the transcription service.
#[derive(Debug, Clone, Copy, PartialEq, Eq, Structural)]
pub enum TranscriptionError {
    /// The service answered with a status other than success.
    Status,
    /// The answer is not a JSON object with a string field `text`.
    MissingText,
}

/// The string held in the field `text` of the JSON object that `body`
/// encodes; `None` when `body` is not JSON, not an object, or has no such
/// string field.
pub uninterp spec fn json_text_field(body: Seq<u8>) -> Option<Seq<char>>;

/// Relies on serde_json::from_slice and Value::get / Value::as_str: decodes the
/// body and reads its string field `text`, if any.
#[verifier::external_body]
fn read_text_field(body: &[u8]) -> (r: Option<String>)
    ensures
        r matches Some(t) ==> json_text_field(body@) == Some(t@),
        r is None ==> json_text_field(body@) is None,
{
    let v: serde_json::Value = serde_json::from_slice(body).ok()?;
    v.get("text").and_then(|t| t.as_str()).map(|t| t.to_string())
}

/// The text of a transcription answer: a success status and a body whose
/// field `text` is a string.
pub fn transcription_from_response(status_success: bool, body: &Vec<u8>) -> (r: Result<
    String,
    TranscriptionError,
>)
    ensures
        !status_success ==> r == Err::<String, TranscriptionError>(TranscriptionError::Status),
        status_success && json_text_field(body@) is None ==> r == Err::<String, TranscriptionError>(
            TranscriptionError::MissingText,
        ),
        status_success && json_text_field(body@) is Some ==> (r matches Ok(t) && json_text_field(
            body@,
        ) == Some(t@)),
{
    if !status_success {
        return Err(TranscriptionError::Status);
    }
    match read_text_field(body.as_slice()) {
        Some(t) => Ok(t),
        None => Err(TranscriptionError::MissingText),
    }
}

} // verus!
