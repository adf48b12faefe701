//! The fixed answers of the web service and the headers it adds to every
//! response.
use vstd::prelude::*;

verus! {

/// The greeting the service root answers with.
pub fn hello() -> (reply: String)
    ensures
        reply@ == "Tony API for Prog4 CSS436"@,
{
    "Tony API for Prog4 CSS436".to_owned()
}

/// The answer to an unload request once the table has been cleared.
pub fn unload_reply() -> (reply: String)
    ensures
        reply@ == "Successfully Unloaded"@,
{
    "Successfully Unloaded".to_owned()
}

/// The answer to a request that failed with `message`.
pub fn error_reply(message: &str) -> (reply: String)
    ensures
        reply@ == "Error: "@ + message@,
{
    let mut reply = "Error: ".to_owned();
    reply.append(message);
    reply
}

/// What the names source answers when its response has HTTP status
/// `status`: `None` when the status is a success (2xx) and the response's
/// body is the answer, otherwise the text `Error`.
pub fn names_fallback(status: u16) -> (reply: Option<String>)
    ensures
        200 <= status < 300 ==> reply is None,
        !(200 <= status < 300) ==> (reply matches Some(t) && t@ == "Error"@),
{
    if 200 <= status && status < 300 {
        None
    } else {
        Some("Error".to_owned())
    }
}

/// The response fairing that lets any origin call the service.
pub struct CORS;

/// The headers, as (name, value) pairs, that the fairing sets on every
/// response, in order.
pub open spec fn cors_headers() -> Seq<(Seq<char>, Seq<char>)> {
    seq![
        ("Access-Control-Allow-Origin"@, "*"@),
        ("Access-Control-Allow-Methods"@, "POST, GET, PATCH, OPTIONS"@),
        ("Access-Control-Allow-Headers"@, "*"@),
        ("Access-Control-Allow-Credentials"@, "true"@),
    ]
}

impl CORS {
    /// The name the fairing reports.
    pub fn info_name() -> (name: String)
        ensures
            name@ == "Add CORS headers to responses"@,
    {
        "Add CORS headers to responses".to_owned()
    }

    /// The headers the fairing sets on every response.
    pub fn response_headers() -> (headers: Vec<(String, String)>)
        ensures
            headers@.map_values(|h: (String, String)| (h.0@, h.1@)) == cors_headers(),
    {
        let mut headers: Vec<(String, String)> = Vec::new();
        headers.push(("Access-Control-Allow-Origin".to_owned(), "*".to_owned()));
        headers.push(
            ("Access-Control-Allow-Methods".to_owned(), "POST, GET, PATCH, OPTIONS".to_owned()),
        );
        headers.push(("Access-Control-Allow-Headers".to_owned(), "*".to_owned()));
        headers.push(("Access-Control-Allow-Credentials".to_owned(), "true".to_owned()));
        proof {
            assert(headers@.map_values(|h: (String, String)| (h.0@, h.1@)) =~= cors_headers());
        }
        headers
    }
}

} // verus!
