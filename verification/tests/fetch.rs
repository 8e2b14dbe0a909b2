use cypher_search::extractor::parse_results;
use cypher_search::fetch::{
    invalid_body, markup_of_reply, outcome_of_envelope, outcome_of_reply, proxy_request,
    search_request, transport_failure, FetchOutcome, ProxyEnvelope, ProxyReply, PROXY_ENDPOINT,
    PROXY_TIMEOUT_SECONDS, SEARCH_ENDPOINT, SEARCH_USER_AGENT,
};

fn text(field: &serde_json::Value) -> Option<String> {
    field.as_str().map(|s| s.to_string())
}

fn reply_of_body(body: &str) -> ProxyReply {
    match serde_json::from_str::<serde_json::Value>(body) {
        Ok(value) => match value["success"].as_bool() {
            Some(success) => ProxyReply::Envelope(ProxyEnvelope {
                success,
                content: text(&value["content"]),
                error: text(&value["error"]),
            }),
            None => ProxyReply::InvalidBody("missing field `success`".to_string()),
        },
        Err(e) => ProxyReply::InvalidBody(e.to_string()),
    }
}

fn success(outcome: FetchOutcome) -> String {
    match outcome {
        FetchOutcome::Success(content) => content,
        FetchOutcome::Failure(reason) => panic!("failure: {reason}"),
    }
}

fn failure(outcome: FetchOutcome) -> String {
    match outcome {
        FetchOutcome::Success(content) => panic!("success: {content}"),
        FetchOutcome::Failure(reason) => reason,
    }
}

#[test]
fn envelope_with_content_is_a_success() {
    let reply = reply_of_body("{\"success\":true,\"content\":\"<html>hi</html>\"}");
    assert_eq!(success(outcome_of_reply(reply)), "<html>hi</html>");
}

#[test]
fn envelope_with_error_is_a_failure() {
    let reply = reply_of_body("{\"success\":false,\"error\":\"blocked\"}");
    assert_eq!(failure(outcome_of_reply(reply)), "blocked");
}

#[test]
fn envelope_without_error_is_an_unknown_failure() {
    let reply = reply_of_body("{\"success\":false}");
    assert_eq!(failure(outcome_of_reply(reply)), "unknown error");
}

#[test]
fn envelope_without_content_is_an_empty_success() {
    let envelope = ProxyEnvelope { success: true, content: None, error: Some("ignored".to_string()) };
    assert_eq!(success(outcome_of_envelope(envelope)), "");
    let reply = reply_of_body("{\"success\":true,\"content\":null,\"error\":null}");
    assert_eq!(success(outcome_of_reply(reply)), "");
}

#[test]
fn failed_envelope_ignores_its_content() {
    let envelope = ProxyEnvelope {
        success: false,
        content: Some("<html>partial</html>".to_string()),
        error: Some("timeout upstream".to_string()),
    };
    assert_eq!(failure(outcome_of_envelope(envelope)), "timeout upstream");
}

#[test]
fn unreachable_proxy_is_a_failure_with_a_hint() {
    let reply = ProxyReply::TransportFailure("connection refused".to_string());
    let reason = failure(outcome_of_reply(reply));
    assert_eq!(
        reason,
        "request failed: connection refused; verify the rendering backend is reachable"
    );
    assert!(reason.contains("verify the rendering backend is reachable"));
    assert_eq!(
        failure(transport_failure("")),
        "request failed: ; verify the rendering backend is reachable"
    );
}

#[test]
fn undecodable_body_is_a_failure_with_its_cause() {
    let reply = reply_of_body("<html>not json</html>");
    let reason = failure(outcome_of_reply(reply));
    assert!(reason.starts_with("invalid response: "));
    assert!(reason.len() > "invalid response: ".len());
    assert_eq!(failure(invalid_body("expected value")), "invalid response: expected value");
    let reply = reply_of_body("{\"content\":\"x\"}");
    assert_eq!(failure(outcome_of_reply(reply)), "invalid response: missing field `success`");
}

#[test]
fn search_request_encodes_the_query() {
    let request = search_request("rust lang");
    assert_eq!(request.url, "https://html.duckduckgo.com/html/?q=rust%20lang");
    assert_eq!(request.user_agent, "Mozilla/5.0 (Windows NT 10.0; Win64; x64) AppleWebKit/537.36");
    assert_eq!(request.user_agent, SEARCH_USER_AGENT);
    assert_eq!(request.timeout_seconds, 30);
    assert_eq!(search_request("").url, SEARCH_ENDPOINT);
    assert_eq!(
        search_request("a-b_c.d~e/f?g=h&i").url,
        "https://html.duckduckgo.com/html/?q=a-b_c.d~e%2Ff%3Fg%3Dh%26i"
    );
    assert_eq!(
        search_request("ä€ +%").url,
        "https://html.duckduckgo.com/html/?q=%C3%A4%E2%82%AC%20%2B%25"
    );
    assert_eq!(search_request("AZaz09").url, "https://html.duckduckgo.com/html/?q=AZaz09");
}

#[test]
fn proxy_request_names_the_endpoint_and_the_timeout() {
    let request = proxy_request("https://example.com/page?x=1");
    assert_eq!(request.endpoint, "http://localhost:8080/fetch");
    assert_eq!(request.endpoint, PROXY_ENDPOINT);
    assert_eq!(request.timeout_seconds, 30);
    assert_eq!(PROXY_TIMEOUT_SECONDS, 30);
    assert_eq!(request.url, "https://example.com/page?x=1");
}

#[test]
fn failed_search_gives_empty_markup_and_no_results() {
    assert_eq!(markup_of_reply(None), "");
    assert_eq!(markup_of_reply(Some("<p>x</p>".to_string())), "<p>x</p>");
    assert!(parse_results(&markup_of_reply(None)).is_empty());
}
