use crate::text::{push_text, string_of};
use serde_json::Value;
use vstd::prelude::*;

verus! {

/// A reply in the form that Slack takes from a slash command.
#[derive(Debug, PartialEq, Eq)]
pub struct SimpleSlackResponse {
    /// Who sees the reply: `ephemeral` or `in_channel`.
    pub response_type: String,
    /// What the reply says.
    pub text: String,
}

/// A reply that only the asking user sees.
pub fn ephemeral_response(message: String) -> (reply: SimpleSlackResponse)
    ensures
        reply.response_type@ == "ephemeral"@,
        reply.text@ == message@,
{
    SimpleSlackResponse { response_type: "ephemeral".to_owned(), text: message }
}

/// A reply that the whole channel sees.
pub fn in_channel_response(message: String) -> (reply: SimpleSlackResponse)
    ensures
        reply.response_type@ == "in_channel"@,
        reply.text@ == message@,
{
    SimpleSlackResponse { response_type: "in_channel".to_owned(), text: message }
}

/// What the service answers to a request.
#[derive(Debug, PartialEq, Eq)]
pub enum Reply {
    /// Success, with a reply for Slack in the body.
    Success(SimpleSlackResponse),
    /// The request was refused, with the reason in the body.
    BadRequest(String),
}

/// The greeting that answers a request for the root page.
pub fn index_reply() -> (reply: Reply)
    ensures
        reply matches Reply::Success(body) && body.response_type@ == "in_channel"@ && body.text@
            == "Dia dhuit!\n"@,
{
    Reply::Success(in_channel_response("Dia dhuit!\n".to_owned()))
}

/// What `serde_json` makes of a request body: the text of the JSON value it holds, written
/// out again, or the parser's complaint.
pub uninterp spec fn json_text_of(body: Seq<u8>) -> Result<Seq<char>, Seq<char>>;

/// `serde_json::from_slice` into a `Value`, then `Value::to_string`: the JSON value that
/// the bytes hold, written out again in compact form, or the text of the parser's error.
/// The contract only names the result.
#[verifier::external_body]
fn rewrite_json(body: &[u8]) -> (out: Result<String, String>)
    ensures
        match out {
            Ok(text) => json_text_of(body@) == Ok::<Seq<char>, Seq<char>>(text@),
            Err(why) => json_text_of(body@) == Err::<Seq<char>, Seq<char>>(why@),
        },
{
    match serde_json::from_slice::<Value>(body) {
        Ok(value) => Ok(value.to_string()),
        Err(why) => Err(why.to_string()),
    }
}

/// The answer to a posted body, given what the JSON parser made of it: the value echoed to
/// the asking user, or a refusal that quotes the parser.
pub fn reply_to_parsed(parsed: Result<String, String>) -> (reply: Reply)
    ensures
        match parsed {
            Ok(text) => reply matches Reply::Success(body) && body.response_type@
                == "ephemeral"@ && body.text@ == text@,
            Err(why) => reply matches Reply::BadRequest(message) && message@
                == "Failed to parse Json: "@ + why@,
        },
{
    match parsed {
        Ok(text) => Reply::Success(ephemeral_response(text)),
        Err(why) => {
            let mut message: Vec<char> = Vec::new();
            push_text(&mut message, "Failed to parse Json: ");
            push_text(&mut message, why.as_str());
            Reply::BadRequest(string_of(&message))
        },
    }
}

/// The answer to a posted body.
pub fn submit_reply(info: &[u8]) -> (reply: Reply)
    ensures
        match json_text_of(info@) {
            Ok(text) => reply matches Reply::Success(body) && body.response_type@
                == "ephemeral"@ && body.text@ == text,
            Err(why) => reply matches Reply::BadRequest(message) && message@
                == "Failed to parse Json: "@ + why,
        },
{
    reply_to_parsed(rewrite_json(info))
}

} // verus!
