//! The completion client, without the network: the request that goes to the
//! chat-completion service, and what is made of its answer.
//!
//! The answer of the service is either its completion envelope with a first
//! choice, or some other JSON value, which is then its own account of what
//! happened; an envelope that holds no choice counts among these. The first
//! gives the text of the first choice; the second is shown as it is,
//! pretty-printed, in place of a summary. So every body that is JSON gives a
//! text.

use vstd::prelude::*;
use crate::prompt::Prompt;
use crate::text::{trim_text, trimmed};

verus! {

/// Where the chat-completion service is reached.
pub const ENDPOINT: &'static str = "https://api.openai.com/v1/chat/completions";

/// The model that is asked.
pub const MODEL: &'static str = "gpt-3.5-turbo";

/// The completion envelope of the service.
#[derive(Default, Debug, Clone, PartialEq)]
pub struct Root {
    pub id: String,
    pub object: String,
    pub created: i64,
    pub model: String,
    pub usage: Usage,
    pub choices: Vec<Choice>,
}

/// What a completion has cost, in tokens.
#[derive(Default, Debug, Clone, PartialEq)]
pub struct Usage {
    pub prompt_tokens: i64,
    pub completion_tokens: i64,
    pub total_tokens: i64,
}

/// One answer of the service.
#[derive(Default, Debug, Clone, PartialEq)]
pub struct Choice {
    pub message: Message,
    pub finish_reason: String,
    pub index: i64,
}

/// One message of a conversation, with the role of who said it.
#[derive(Default, Debug, Clone, PartialEq)]
pub struct Message {
    pub role: String,
    pub content: String,
}

/// `serde_json::Value`, carried through as it is: nothing of what it holds
/// is known here.
#[verifier::external_type_specification]
#[verifier::external_body]
pub struct ExJsonValue(serde_json::Value);

/// `serde_json::Error`, which printing a value may end in.
#[verifier::external_type_specification]
#[verifier::external_body]
pub struct ExJsonError(serde_json::Error);

/// `Clone` for `serde_json::Value`, which that crate derives: the copy holds
/// what the value holds.
pub assume_specification[ <serde_json::Value as Clone>::clone ](
    value: &serde_json::Value,
) -> (copy: serde_json::Value)
    ensures
        copy == *value,
;

/// What the service answered: its completion envelope, or any other JSON
/// value.
#[derive(Debug, Clone, PartialEq)]
pub enum Response {
    Success(Root),
    Failure(serde_json::Value),
}

/// The body of the request to the service.
#[derive(Debug, Clone, PartialEq)]
pub struct ChatRequest {
    pub model: String,
    pub messages: Vec<Message>,
}

/// Why an answer of the service gives no text.
#[derive(Debug, Clone, Copy, PartialEq, Eq)]
pub enum CompletionError {
    /// The completion envelope holds no choice.
    NoChoices,
}

/// The pretty-printed text of a JSON value.
pub uninterp spec fn pretty_json(value: serde_json::Value) -> Seq<char>;

/// `serde_json::to_string_pretty` on a `serde_json::Value`. The text that it
/// gives depends on the value alone. It does not fail on such a value: the
/// keys of its objects are strings, and it is written into memory.
#[verifier::external_body]
fn to_string_pretty(value: &serde_json::Value) -> (printed: Result<String, serde_json::Error>)
    ensures
        match printed {
            Ok(text) => text@ == pretty_json(*value),
            Err(_) => false,
        },
{
    serde_json::to_string_pretty(value)
}

/// The value of the `Authorization` header for the key `api_key`.
pub open spec fn bearer(api_key: Seq<char>) -> Seq<char> {
    "Bearer "@ + trimmed(api_key)
}

/// Whether a completion envelope holds a first choice.
pub open spec fn has_first_choice(root: Root) -> bool {
    root.choices@.len() > 0
}

/// The text that an answer of the service gives, where `printed` is the
/// pretty-printed form of its JSON value.
pub open spec fn answer_with(response: Response, printed: Seq<char>) -> Result<
    Seq<char>,
    CompletionError,
> {
    match response {
        Response::Success(root) => if has_first_choice(root) {
            Ok(root.choices@[0].message.content@)
        } else {
            Err(CompletionError::NoChoices)
        },
        Response::Failure(_) => Ok(printed),
    }
}

/// The text that an answer of the service gives: the content of the first
/// choice of a completion, as it is; any other JSON value pretty-printed.
pub open spec fn answer_of(response: Response) -> Result<Seq<char>, CompletionError> {
    match response {
        Response::Success(_) => answer_with(response, Seq::empty()),
        Response::Failure(value) => answer_with(response, pretty_json(value)),
    }
}

/// What is made of the two attempts to decode a body. The completion
/// envelope wins where the body has its shape and holds a first choice. Any
/// other JSON value, an envelope without a choice too, is the service's own
/// account of what happened. A body that is no JSON gives nothing.
pub open spec fn resolved(success: Option<Root>, generic: Option<serde_json::Value>) -> Option<
    Response,
> {
    if success is Some && has_first_choice(success.unwrap()) {
        Some(Response::Success(success.unwrap()))
    } else {
        match generic {
            Some(value) => Some(Response::Failure(value)),
            None => None,
        }
    }
}

/// The value of the `Authorization` header for the key `api_key`: the key is
/// trimmed first.
pub fn bearer_header(api_key: &str) -> (header: String)
    ensures
        header@ == bearer(api_key@),
{
    let mut header = String::from_str("Bearer ");
    let key = trim_text(api_key);
    header.append(key.as_str());
    header
}

/// The request for one prompt: a conversation of one turn, with the
/// instruction in the system role and the prompt's message in the user role.
pub fn build_request(prompt: Prompt) -> (request: ChatRequest)
    ensures
        request.model@ == MODEL@,
        request.messages@.len() == 2,
        request.messages@[0].role@ == "system"@,
        request.messages@[0].content@ == prompt.system_instruction@,
        request.messages@[1].role@ == "user"@,
        request.messages@[1].content@ == prompt.user_content@,
{
    let mut messages: Vec<Message> = Vec::new();
    messages.push(Message { role: String::from_str("system"), content: prompt.system_instruction });
    messages.push(Message { role: String::from_str("user"), content: prompt.user_content });
    ChatRequest { model: String::from_str(MODEL), messages }
}

/// The answer that two attempts to decode a body give: `success` is the body
/// read as a completion envelope, `generic` the body read as any JSON value.
/// A body that is JSON always gives an answer, and the answer always gives a
/// text.
pub fn resolve_response(success: Option<Root>, generic: Option<serde_json::Value>) -> (response:
    Option<Response>)
    ensures
        response == resolved(success, generic),
        generic is Some ==> response is Some,
        response matches Some(r) ==> answer_of(r) is Ok,
{
    match success {
        Some(root) => {
            if root.choices.len() > 0 {
                return Some(Response::Success(root));
            }
        },
        None => {},
    }
    match generic {
        Some(value) => Some(Response::Failure(value)),
        None => None,
    }
}

/// The text that `response` gives, where `printed` is the pretty-printed form
/// of its JSON value. For a completion envelope `printed` is not read.
pub fn answer_from(response: &Response, printed: String) -> (answer: Result<
    String,
    CompletionError,
>)
    ensures
        match answer {
            Ok(text) => answer_with(*response, printed@) == Ok::<Seq<char>, CompletionError>(
                text@,
            ),
            Err(error) => answer_with(*response, printed@) == Err::<Seq<char>, CompletionError>(
                error,
            ),
        },
{
    match response {
        Response::Success(root) => {
            if root.choices.len() > 0 {
                Ok(root.choices[0].message.content.clone())
            } else {
                Err(CompletionError::NoChoices)
            }
        },
        Response::Failure(_) => Ok(printed),
    }
}

/// The text that `response` gives. Only a completion envelope that holds no
/// choice gives none; `resolve_response` never hands out such an envelope.
pub fn completion_text(response: &Response) -> (answer: Result<String, CompletionError>)
    ensures
        match answer {
            Ok(text) => answer_of(*response) == Ok::<Seq<char>, CompletionError>(text@),
            Err(error) => answer_of(*response) == Err::<Seq<char>, CompletionError>(error),
        },
{
    match response {
        Response::Success(_) => answer_from(response, String::new()),
        Response::Failure(value) => answer_from(response, to_string_pretty(value).unwrap()),
    }
}

/// The text that the body of an answer gives, from the two attempts to decode
/// it: the content of the first choice where the body is a completion
/// envelope with a choice, the body pretty-printed where it is any other
/// JSON, and nothing where it is no JSON.
pub fn read_answer(success: Option<Root>, generic: Option<serde_json::Value>) -> (answer: Option<
    String,
>)
    ensures
        match resolved(success, generic) {
            Some(response) => answer matches Some(text) && answer_of(response) == Ok::<
                Seq<char>,
                CompletionError,
            >(text@),
            None => answer is None,
        },
        generic is Some ==> answer is Some,
{
    match resolve_response(success, generic) {
        Some(response) => match completion_text(&response) {
            Ok(text) => Some(text),
            Err(_) => None,
        },
        None => None,
    }
}

/// What is printed for the answer `answer`: the text as it is, and a line
/// feed.
pub fn answer_output(answer: &str) -> (printed: String)
    ensures
        printed@ == answer@ + seq!['\n'],
{
    let mut printed = String::from_str(answer);
    proof {
        reveal_strlit("\n");
        assert("\n"@ =~= seq!['\n']);
    }
    printed.append("\n");
    printed
}

} // verus!
