//! The fetch client, without its transport: what is asked of the remote search
//! endpoint and of the local rendering proxy, and what their replies mean.
//!
//! Sending a request and decoding a reply's body are the caller's part. This
//! module builds the request from the user's text, and maps each reply, or the
//! failure to get one, to an outcome.

use vstd::prelude::*;
use vstd::string::StringExecFns;
use vstd::utf8::encode_utf8;

verus! {

/// Where a remote search is sent; the encoded query follows.
pub const SEARCH_ENDPOINT: &'static str = "https://html.duckduckgo.com/html/?q=";

/// How a remote search identifies its sender.
pub const SEARCH_USER_AGENT: &'static str =
    "Mozilla/5.0 (Windows NT 10.0; Win64; x64) AppleWebKit/537.36";

/// After how many seconds a remote search is given up.
pub const SEARCH_TIMEOUT_SECONDS: u64 = 30;

/// Where a proxied fetch is sent.
pub const PROXY_ENDPOINT: &'static str = "http://localhost:8080/fetch";

/// After how many seconds a proxied fetch is given up.
pub const PROXY_TIMEOUT_SECONDS: u64 = 30;

/// Whether a byte stands for itself in a percent-encoded text: an ASCII
/// letter or digit, `-`, `.`, `_` or `~`.
pub open spec fn is_unreserved(byte: u8) -> bool {
    ||| 0x30 <= byte <= 0x39
    ||| 0x41 <= byte <= 0x5a
    ||| 0x61 <= byte <= 0x7a
    ||| byte == 0x2d
    ||| byte == 0x2e
    ||| byte == 0x5f
    ||| byte == 0x7e
}

/// The upper-case hexadecimal digit of a value below sixteen.
pub open spec fn hex_digit(value: u8) -> char {
    if value < 10 {
        (0x30 + value) as char
    } else {
        (0x41 + value - 10) as char
    }
}

/// One byte, percent-encoded: itself if unreserved, else `%` and its two
/// hexadecimal digits.
pub open spec fn percent_encoded_byte(byte: u8) -> Seq<char> {
    if is_unreserved(byte) {
        seq![byte as char]
    } else {
        seq!['%', hex_digit(byte / 16), hex_digit(byte % 16)]
    }
}

/// The bytes of a text, percent-encoded one by one.
pub open spec fn percent_encoded(bytes: Seq<u8>) -> Seq<char>
    decreases bytes.len(),
{
    if bytes.len() == 0 {
        Seq::empty()
    } else {
        percent_encoded(bytes.drop_last()) + percent_encoded_byte(bytes.last())
    }
}

/// `urlencoding::encode` percent-encodes every byte of the text's UTF-8 form
/// but the unreserved ones, with upper-case hexadecimal digits.
#[verifier::external_body]
fn percent_encode(text: &str) -> (encoded: String)
    ensures
        encoded@ == percent_encoded(encode_utf8(text@)),
{
    urlencoding::encode(text).into_owned()
}

/// The address of a remote search for `query`.
pub open spec fn search_url(query: Seq<char>) -> Seq<char> {
    SEARCH_ENDPOINT@ + percent_encoded(encode_utf8(query))
}

/// A remote search, ready to be sent as a GET request.
pub struct SearchRequest {
    pub url: String,
    pub user_agent: String,
    pub timeout_seconds: u64,
}

/// The remote search for `query`.
pub fn search_request(query: &str) -> (request: SearchRequest)
    ensures
        request.url@ == search_url(query@),
        request.user_agent@ == SEARCH_USER_AGENT@,
        request.timeout_seconds == SEARCH_TIMEOUT_SECONDS,
{
    let mut url = SEARCH_ENDPOINT.to_owned();
    let encoded = percent_encode(query);
    url.append(encoded.as_str());
    SearchRequest {
        url,
        user_agent: SEARCH_USER_AGENT.to_owned(),
        timeout_seconds: SEARCH_TIMEOUT_SECONDS,
    }
}

/// The markup that a remote search gave: the body of the reply; empty where
/// the request failed or the body could not be read.
pub fn markup_of_reply(body: Option<String>) -> (markup: String)
    ensures
        match body {
            Some(text) => markup@ == text@,
            None => markup@.len() == 0,
        },
{
    match body {
        Some(text) => text,
        None => String::new(),
    }
}

/// A proxied fetch, ready to be sent as a POST request whose body names the
/// address to render.
pub struct ProxyRequest {
    pub endpoint: String,
    pub timeout_seconds: u64,
    pub url: String,
}

/// The proxied fetch of `url`.
pub fn proxy_request(url: &str) -> (request: ProxyRequest)
    ensures
        request.endpoint@ == PROXY_ENDPOINT@,
        request.timeout_seconds == PROXY_TIMEOUT_SECONDS,
        request.url@ == url@,
{
    ProxyRequest {
        endpoint: PROXY_ENDPOINT.to_owned(),
        timeout_seconds: PROXY_TIMEOUT_SECONDS,
        url: url.to_owned(),
    }
}

/// What a text field holds that may be absent.
pub open spec fn text_of(field: Option<String>) -> Option<Seq<char>> {
    match field {
        Some(text) => Some(text@),
        None => None,
    }
}

/// The proxy's answer as its body states it.
pub struct ProxyEnvelope {
    pub success: bool,
    pub content: Option<String>,
    pub error: Option<String>,
}

/// What an envelope holds.
pub struct ProxyEnvelopeView {
    pub success: bool,
    pub content: Option<Seq<char>>,
    pub error: Option<Seq<char>>,
}

impl View for ProxyEnvelope {
    type V = ProxyEnvelopeView;

    open spec fn view(&self) -> ProxyEnvelopeView {
        ProxyEnvelopeView {
            success: self.success,
            content: text_of(self.content),
            error: text_of(self.error),
        }
    }
}

/// How a proxied fetch ended on the wire.
pub enum ProxyReply {
    /// The request did not get through, or no body came back; with the cause.
    TransportFailure(String),
    /// The body was not an envelope; with the cause.
    InvalidBody(String),
    /// The body was this envelope.
    Envelope(ProxyEnvelope),
}

/// What a reply holds.
pub enum ProxyReplyView {
    TransportFailure(Seq<char>),
    InvalidBody(Seq<char>),
    Envelope(ProxyEnvelopeView),
}

impl View for ProxyReply {
    type V = ProxyReplyView;

    open spec fn view(&self) -> ProxyReplyView {
        match self {
            ProxyReply::TransportFailure(cause) => ProxyReplyView::TransportFailure(cause@),
            ProxyReply::InvalidBody(cause) => ProxyReplyView::InvalidBody(cause@),
            ProxyReply::Envelope(envelope) => ProxyReplyView::Envelope(envelope@),
        }
    }
}

/// The outcome of a fetch: the content, or the reason why there is none.
pub enum FetchOutcome {
    Success(String),
    Failure(String),
}

/// What an outcome holds.
pub enum FetchOutcomeView {
    Success(Seq<char>),
    Failure(Seq<char>),
}

impl View for FetchOutcome {
    type V = FetchOutcomeView;

    open spec fn view(&self) -> FetchOutcomeView {
        match self {
            FetchOutcome::Success(content) => FetchOutcomeView::Success(content@),
            FetchOutcome::Failure(reason) => FetchOutcomeView::Failure(reason@),
        }
    }
}

/// The reason given when the request did not get through.
pub open spec fn transport_failure_reason(cause: Seq<char>) -> Seq<char> {
    "request failed: "@ + cause + "; verify the rendering backend is reachable"@
}

/// The reason given when the body was not an envelope.
pub open spec fn invalid_body_reason(cause: Seq<char>) -> Seq<char> {
    "invalid response: "@ + cause
}

/// What an envelope means: on success its content, empty if it names none;
/// else a failure for the reason it names, or for an unknown one.
pub open spec fn envelope_outcome(envelope: ProxyEnvelopeView) -> FetchOutcomeView {
    if envelope.success {
        FetchOutcomeView::Success(
            match envelope.content {
                Some(content) => content,
                None => Seq::empty(),
            },
        )
    } else {
        FetchOutcomeView::Failure(
            match envelope.error {
                Some(reason) => reason,
                None => "unknown error"@,
            },
        )
    }
}

/// What a reply means.
pub open spec fn reply_outcome(reply: ProxyReplyView) -> FetchOutcomeView {
    match reply {
        ProxyReplyView::TransportFailure(cause) => FetchOutcomeView::Failure(
            transport_failure_reason(cause),
        ),
        ProxyReplyView::InvalidBody(cause) => FetchOutcomeView::Failure(invalid_body_reason(cause)),
        ProxyReplyView::Envelope(envelope) => envelope_outcome(envelope),
    }
}

/// What the operator is told to do when the proxy cannot be reached.
pub open spec fn transport_hint() -> Seq<char> {
    "verify the rendering backend is reachable"@
}

/// Whatever the cause, a request that did not get through is a failure whose
/// reason ends with the hint to the operator.
pub proof fn lemma_transport_failure_has_hint(cause: Seq<char>)
    ensures
        reply_outcome(ProxyReplyView::TransportFailure(cause)) matches FetchOutcomeView::Failure(
            reason,
        ) && reason.len() >= transport_hint().len() && reason.skip(
            reason.len() - transport_hint().len(),
        ) == transport_hint(),
{
    reveal_strlit("; verify the rendering backend is reachable");
    reveal_strlit("verify the rendering backend is reachable");
    let tail = "; verify the rendering backend is reachable"@;
    let reason = transport_failure_reason(cause);
    assert(reason.skip(reason.len() - transport_hint().len()) =~= tail.skip(2));
    assert(tail.skip(2) =~= transport_hint());
}

/// A reply is a success only where the proxy says so: an envelope that
/// reports success.
pub proof fn lemma_success_needs_envelope(reply: ProxyReplyView)
    ensures
        reply_outcome(reply) is Success <==> (reply matches ProxyReplyView::Envelope(envelope)
            && envelope.success),
{
}

/// The failure to report when the request did not get through.
pub fn transport_failure(cause: &str) -> (outcome: FetchOutcome)
    ensures
        outcome@ == FetchOutcomeView::Failure(transport_failure_reason(cause@)),
{
    let mut reason = "request failed: ".to_owned();
    reason.append(cause);
    reason.append("; verify the rendering backend is reachable");
    FetchOutcome::Failure(reason)
}

/// The failure to report when the body was not an envelope.
pub fn invalid_body(cause: &str) -> (outcome: FetchOutcome)
    ensures
        outcome@ == FetchOutcomeView::Failure(invalid_body_reason(cause@)),
{
    let mut reason = "invalid response: ".to_owned();
    reason.append(cause);
    FetchOutcome::Failure(reason)
}

/// The outcome that an envelope stands for.
pub fn outcome_of_envelope(envelope: ProxyEnvelope) -> (outcome: FetchOutcome)
    ensures
        outcome@ == envelope_outcome(envelope@),
{
    if envelope.success {
        match envelope.content {
            Some(content) => FetchOutcome::Success(content),
            None => FetchOutcome::Success(String::new()),
        }
    } else {
        match envelope.error {
            Some(reason) => FetchOutcome::Failure(reason),
            None => FetchOutcome::Failure("unknown error".to_owned()),
        }
    }
}

/// The outcome of a proxied fetch, from how it ended on the wire.
pub fn outcome_of_reply(reply: ProxyReply) -> (outcome: FetchOutcome)
    ensures
        outcome@ == reply_outcome(reply@),
{
    match reply {
        ProxyReply::TransportFailure(cause) => transport_failure(cause.as_str()),
        ProxyReply::InvalidBody(cause) => invalid_body(cause.as_str()),
        ProxyReply::Envelope(envelope) => outcome_of_envelope(envelope),
    }
}

} // verus!
