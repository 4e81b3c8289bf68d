//! Requests that come in from outside the process, and what is said in reply.
use vstd::prelude::*;
use vstd::string::*;
use vstd::utf8::{decode_utf8, valid_utf8};

use crate::text::{append_decimal, decimal, from_utf8};

verus! {

/// What a client needs to know to connect to its control plane.
#[derive(Debug)]
pub struct ClientConfig {
    pub ads_address: String,
    pub node_name: String,
    pub cluster_name: String,
}

/// A client of the control plane.
#[derive(Debug)]
pub struct Junction {
    pub client: ClientConfig,
}

/// The client that there is without any configuration.
pub fn default_client() -> (junction: Junction)
    ensures
        junction.client.ads_address@ == "0.0.0.0"@,
        junction.client.node_name@ == "wow"@,
        junction.client.cluster_name@ == "clustermesurprised"@,
{
    Junction {
        client: ClientConfig {
            ads_address: String::from_str("0.0.0.0"),
            node_name: String::from_str("wow"),
            cluster_name: String::from_str("clustermesurprised"),
        },
    }
}

/// Why a client could not connect: the error, and what caused it.
#[derive(Debug)]
pub struct BuildError {
    pub message: String,
    pub cause: Option<String>,
}

impl BuildError {
    /// What is said of the error.
    pub open spec fn text(self) -> Seq<char> {
        match self.cause {
            Some(cause) => "ads connection failed: "@ + self.message@ + ": "@ + cause@,
            None => "ads connection failed: "@ + self.message@,
        }
    }
}

/// The client, or a text that says why there is none.
pub fn new_client<C>(built: Result<C, BuildError>) -> (client: Result<C, String>)
    ensures
        match built {
            Ok(c) => client == Ok::<C, String>(c),
            Err(error) => client matches Err(text) && text@ == error.text() && text@ == (
            match error.cause {
                Some(cause) => "ads connection failed: "@ + error.message@ + ": "@ + cause@,
                None => "ads connection failed: "@ + error.message@,
            }),
        },
{
    match built {
        Ok(client) => Ok(client),
        Err(error) => {
            let text = String::from_str("ads connection failed: ").concat(error.message.as_str());
            match error.cause {
                Some(cause) => Err(text.concat(": ").concat(cause.as_str())),
                None => Err(text),
            }
        },
    }
}

/// The characters that the name of an HTTP method is made of.
pub open spec fn is_method_char(c: char) -> bool {
    ||| '0' <= c <= '9'
    ||| 'A' <= c <= 'Z'
    ||| 'a' <= c <= 'z'
    ||| c == '!' || c == '#' || c == '$' || c == '%' || c == '&' || c == '\'' || c == '*'
    ||| c == '+' || c == '-' || c == '.' || c == '^' || c == '_' || c == '`' || c == '|' || c == '~'
}

/// Whether a text is the name of an HTTP method, be it a known one or not.
pub open spec fn is_method(text: Seq<char>) -> bool {
    text.len() > 0 && forall|i: int| 0 <= i < text.len() ==> is_method_char(#[trigger] text[i])
}

/// The name of a method is not empty, and has printable ASCII characters only: no space, no
/// brackets of any kind, and none of the characters that separate things in a header.
pub proof fn a_method_has_no_separators(text: Seq<char>)
    ensures
        is_method(text) <==> text.len() > 0 && forall|i: int|
            0 <= i < text.len() ==> {
                let c = #[trigger] text[i];
                &&& '!' <= c <= '~'
                &&& c != '"' && c != '(' && c != ')' && c != ',' && c != '/' && c != ':' && c != ';'
                &&& c != '<' && c != '=' && c != '>' && c != '?' && c != '@' && c != '['
                &&& c != '\\' && c != ']' && c != '{' && c != '}'
            },
{
    assert forall|c: char| #[trigger] is_method_char(c) <==> {
        &&& '!' <= c <= '~'
        &&& c != '"' && c != '(' && c != ')' && c != ',' && c != '/' && c != ':' && c != ';'
        &&& c != '<' && c != '=' && c != '>' && c != '?' && c != '@' && c != '['
        &&& c != '\\' && c != ']' && c != '{' && c != '}'
    } by {}
}

/// The `FromStr` of `http::Method`, and `http::Method::as_str` on what it gives: there is a
/// method if the text is not empty and has only characters that may stand in a method, and
/// its name is the text.
#[verifier::external_body]
fn http_method(text: &str) -> (method: Option<String>)
    ensures
        match method {
            Some(method) => is_method(text@) && method@ == text@,
            None => !is_method(text@),
        },
{
    match text.parse::<http::Method>() {
        Ok(method) => Some(method.as_str().to_string()),
        Err(_) => None,
    }
}

/// A request to resolve an URL.
#[derive(Debug)]
pub struct HttpRequest<U> {
    pub url: U,
    pub method: String,
    /// The names and values of the headers that the client is asked with.
    pub headers: Vec<(String, String)>,
}

/// The contents of an [`HttpRequest`].
#[verifier::ext_equal]
pub struct RequestView<U> {
    pub url: U,
    pub method: Seq<char>,
    pub headers: Seq<(Seq<char>, Seq<char>)>,
}

impl<U> View for HttpRequest<U> {
    type V = RequestView<U>;

    open spec fn view(&self) -> RequestView<U> {
        RequestView {
            url: self.url,
            method: self.method@,
            headers: self.headers@.map_values(|header: (String, String)| (header.0@, header.1@)),
        }
    }
}

/// `parsed` is something that `parse_url` can make of the text in these bytes.
pub open spec fn url_parses_to<U, F: Fn(&str) -> Option<U>>(
    parse_url: F,
    bytes: Seq<u8>,
    parsed: Option<U>,
) -> bool {
    exists|text: &str|
        text@ == decode_utf8(bytes) && #[trigger] call_ensures(parse_url, (text,), parsed)
}

/// Whether a request is far enough in order for its URL to be parsed.
pub open spec fn has_url_text(junction: Option<&Junction>, url: Option<&[u8]>) -> bool {
    junction is Some && (url matches Some(url) && valid_utf8(url@))
}

/// The method that bytes name.
pub open spec fn method_of(bytes: Option<&[u8]>) -> Option<Seq<char>> {
    match bytes {
        Some(bytes) => if valid_utf8(bytes@) && is_method(decode_utf8(bytes@)) {
            Some(decode_utf8(bytes@))
        } else {
            None
        },
        None => None,
    }
}

/// What becomes of a request whose URL was parsed: 2 if it is no proper URL, 3 if there is no
/// proper method, and otherwise the URL and the method, without any headers.
pub open spec fn request_of<U>(parsed: Option<U>, method: Option<&[u8]>) -> Result<
    RequestView<U>,
    u8,
> {
    match parsed {
        None => Err(2),
        Some(url) => match method_of(method) {
            None => Err(3),
            Some(method) => Ok(RequestView { url, method, headers: Seq::empty() }),
        },
    }
}

pub open spec fn request_view<U>(request: Result<HttpRequest<U>, u8>) -> Result<
    RequestView<U>,
    u8,
> {
    match request {
        Ok(request) => Ok(request@),
        Err(code) => Err(code),
    }
}

/// `request` is something that can become of a request with this client, URL and method.
pub open spec fn becomes<U, F: Fn(&str) -> Option<U>>(
    junction: Option<&Junction>,
    url: Option<&[u8]>,
    method: Option<&[u8]>,
    parse_url: F,
    request: Result<HttpRequest<U>, u8>,
) -> bool {
    if junction is None {
        request == Err::<HttpRequest<U>, u8>(1)
    } else if !has_url_text(junction, url) {
        request == Err::<HttpRequest<U>, u8>(2)
    } else {
        exists|parsed: Option<U>| #[trigger]
            url_parses_to(parse_url, url->0@, parsed) && request_view(request) == request_of(
                parsed,
                method,
            )
    }
}

/// `parse_url` makes one and the same thing of a text, whenever it is asked.
pub open spec fn goes_by_the_text<U, F: Fn(&str) -> Option<U>>(parse_url: F) -> bool {
    forall|a: &str, b: &str, x: Option<U>, y: Option<U>| #[trigger]
        call_ensures(parse_url, (a,), x) && #[trigger] call_ensures(parse_url, (b,), y) && a@ == b@
            ==> x == y
}

/// Takes a request: a client, an URL and a method, each of which can be missing, and headers,
/// which are not read. A request that is in order gets what it takes to resolve it, without
/// any headers; any other gets the number of its fault: 1 if there is no client, 2 if there is
/// no proper URL, 3 if there is no proper method.
pub fn resolve_http<U, H, F: Fn(&str) -> Option<U>>(
    junction: Option<&Junction>,
    url: Option<&[u8]>,
    method: Option<&[u8]>,
    _headers: H,
    parse_url: F,
) -> (request: Result<HttpRequest<U>, u8>)
    requires
        forall|text: &str| #[trigger] call_requires(parse_url, (text,)),
    ensures
        becomes(junction, url, method, parse_url, request),
        request matches Ok(request) ==> request.headers@.len() == 0,
{
    if junction.is_none() {
        return Err(1);
    }
    let url = match url {
        Some(bytes) => match from_utf8(bytes) {
            Some(text) => {
                let parsed = parse_url(text);
                assert(url_parses_to(parse_url, bytes@, parsed));
                match parsed {
                    Some(url) => url,
                    None => {
                        return Err(2);
                    },
                }
            },
            None => {
                return Err(2);
            },
        },
        None => {
            return Err(2);
        },
    };
    let method = match method {
        Some(bytes) => match from_utf8(bytes) {
            Some(text) => match http_method(text) {
                Some(method) => method,
                None => {
                    return Err(3);
                },
            },
            None => {
                return Err(3);
            },
        },
        None => {
            return Err(3);
        },
    };
    let request = HttpRequest { url, method, headers: Vec::new() };
    assert(request@.headers =~= Seq::empty());
    Ok(request)
}

/// What becomes of a request, step by step: without a client it is 1; without bytes of an URL,
/// or with bytes that are no text, 2; and so it is where the parser makes nothing of the text
/// of the URL. A request whose URL is parsed to something is 3 if it has no method, or bytes
/// that are no text, or a text that names no method. Otherwise it asks for what the parser made
/// of the URL, with the text of the method, and without headers.
pub proof fn request_step_by_step<U, F: Fn(&str) -> Option<U>>(
    junction: Option<&Junction>,
    url: Option<&[u8]>,
    method: Option<&[u8]>,
    parse_url: F,
    request: Result<HttpRequest<U>, u8>,
)
    requires
        becomes(junction, url, method, parse_url, request),
    ensures
        request == Err::<HttpRequest<U>, u8>(1) <==> junction is None,
        junction is Some && (url is None || !valid_utf8(url->0@)) ==> request == Err::<
            HttpRequest<U>,
            u8,
        >(2),
        junction is Some && url is Some && valid_utf8(url->0@) ==> exists|
            text: &str,
            parsed: Option<U>,
        |
            {
                &&& text@ == decode_utf8(url->0@)
                &&& #[trigger] call_ensures(parse_url, (text,), parsed)
                &&& parsed is None ==> request == Err::<HttpRequest<U>, u8>(2)
                &&& parsed is Some && (method is None || !valid_utf8(method->0@) || !is_method(
                    decode_utf8(method->0@),
                )) ==> request == Err::<HttpRequest<U>, u8>(3)
                &&& parsed is Some && method is Some && valid_utf8(method->0@) && is_method(
                    decode_utf8(method->0@),
                ) ==> {
                    &&& request is Ok
                    &&& request->Ok_0.url == parsed->0
                    &&& request->Ok_0.method@ == decode_utf8(method->0@)
                    &&& request->Ok_0.headers@.len() == 0
                }
            },
{
    if junction is Some && url is Some && valid_utf8(url->0@) {
        let parsed = choose|parsed: Option<U>| #[trigger]
            url_parses_to(parse_url, url->0@, parsed) && request_view(request) == request_of(
                parsed,
                method,
            );
        let text = choose|text: &str|
            text@ == decode_utf8(url->0@) && #[trigger] call_ensures(parse_url, (text,), parsed);
        assert(call_ensures(parse_url, (text,), parsed));
        if let Ok(request) = request {
            assert(request@.headers.len() == request.headers@.len());
        }
    }
}

/// Two requests with the same client, URL and method get the same answer, whatever headers
/// either of them has: the same fault, or the same URL and method to resolve, and no headers.
pub proof fn headers_do_not_matter<U, H, G, F: Fn(&str) -> Option<U>>(
    junction: Option<&Junction>,
    url: Option<&[u8]>,
    method: Option<&[u8]>,
    first_headers: H,
    second_headers: G,
    parse_url: F,
    first: Result<HttpRequest<U>, u8>,
    second: Result<HttpRequest<U>, u8>,
)
    requires
        goes_by_the_text(parse_url),
        call_ensures(
            resolve_http::<U, H, F>,
            (junction, url, method, first_headers, parse_url),
            first,
        ),
        call_ensures(
            resolve_http::<U, G, F>,
            (junction, url, method, second_headers, parse_url),
            second,
        ),
    ensures
        request_view(first) == request_view(second),
        first matches Ok(request) ==> request@.headers == Seq::<(Seq<char>, Seq<char>)>::empty(),
        second matches Ok(request) ==> request@.headers == Seq::<(Seq<char>, Seq<char>)>::empty(),
{
    one_answer_per_request(junction, url, method, parse_url, first, second);
}

/// What becomes of a request is settled by its client, URL and method.
pub proof fn one_answer_per_request<U, F: Fn(&str) -> Option<U>>(
    junction: Option<&Junction>,
    url: Option<&[u8]>,
    method: Option<&[u8]>,
    parse_url: F,
    first: Result<HttpRequest<U>, u8>,
    second: Result<HttpRequest<U>, u8>,
)
    requires
        goes_by_the_text(parse_url),
        becomes(junction, url, method, parse_url, first),
        becomes(junction, url, method, parse_url, second),
    ensures
        request_view(first) == request_view(second),
{
}

/// What is said in reply to a request: 0 and the address of an endpoint, or 1 and an error.
#[derive(Debug)]
pub struct Reply {
    pub code: i32,
    pub message: String,
}

/// The reply to a request that was resolved to an IP address, in text, and a port, or that
/// could not be resolved.
pub fn http_reply(resolved: Result<(String, u16), String>) -> (reply: Reply)
    ensures
        match resolved {
            Ok((ip, port)) => {
                &&& reply.code == 0
                &&& reply.message@ == ip@ + ":"@ + decimal(port as nat)
            },
            Err(error) => reply.code == 1 && reply.message@ == error@,
        },
{
    match resolved {
        Ok((ip, port)) => {
            let mut message = ip.concat(":");
            append_decimal(&mut message, port as u64);
            Reply { code: 0, message }
        },
        Err(error) => Reply { code: 1, message: error },
    }
}

} // verus!
