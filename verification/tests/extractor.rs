use cypher_search::extractor::{
    extract_result, extract_results, normalize_url, parse_results, parse_results_limited,
    ResultBlock, ResultLink, SearchResult, DEFAULT_RESULT_LIMIT,
};

fn block(text: Option<&str>, target: Option<&str>, snippet: Option<&str>) -> ResultBlock {
    ResultBlock {
        link: text.map(|t| ResultLink {
            text: t.to_string(),
            target: target.map(|h| h.to_string()),
        }),
        snippet: snippet.map(|s| s.to_string()),
    }
}

fn triple(r: &SearchResult) -> (String, String, String) {
    (r.title.clone(), r.url.clone(), r.snippet.clone())
}

fn container(n: usize) -> String {
    format!(
        "<div class=\"result\"><a class=\"result__a\" href=\"https://example.com/{n}\"> Title {n} </a>\
         <div class=\"result__snippet\">Snippet {n}\n</div></div>"
    )
}

fn page(containers: &[String]) -> String {
    format!("<!DOCTYPE html><html><body>{}</body></html>", containers.concat())
}

#[test]
fn twenty_containers_give_fifteen_results_in_order() {
    let containers: Vec<String> = (0..20).map(container).collect();
    let results = parse_results(&page(&containers));
    assert_eq!(DEFAULT_RESULT_LIMIT, 15);
    assert_eq!(results.len(), 15);
    for (n, r) in results.iter().enumerate() {
        assert_eq!(
            triple(r),
            (format!("Title {n}"), format!("https://example.com/{n}"), format!("Snippet {n}"))
        );
    }
}

#[test]
fn limit_counts_blocks_not_results() {
    let mut containers = vec!["<div class=\"result\">no link here</div>".to_string()];
    containers.extend((0..3).map(container));
    let results = parse_results_limited(&page(&containers), 2);
    assert_eq!(results.len(), 1);
    assert_eq!(results[0].title, "Title 0");
    assert!(parse_results_limited(&page(&containers), 0).is_empty());
    assert_eq!(parse_results_limited(&page(&containers), 100).len(), 3);
}

#[test]
fn container_without_link_is_skipped() {
    let html = page(&["<div class=\"result\"><span>nothing</span></div>".to_string(), container(7)]);
    let results = parse_results(&html);
    assert_eq!(results.len(), 1);
    assert_eq!(results[0].title, "Title 7");
}

#[test]
fn link_with_empty_text_is_skipped() {
    let empty = "<div class=\"result\"><a class=\"result__a\" href=\"https://a.example\"></a></div>";
    let blank = "<div class=\"result\"><a class=\"result__a\" href=\"https://a.example\">  \n </a></div>";
    assert!(parse_results(&page(&[empty.to_string()])).is_empty());
    assert!(parse_results(&page(&[blank.to_string()])).is_empty());
}

#[test]
fn link_without_target_is_skipped() {
    let missing = "<div class=\"result\"><a class=\"result__a\">Title</a></div>";
    let empty = "<div class=\"result\"><a class=\"result__a\" href=\"\">Title</a></div>";
    assert!(parse_results(&page(&[missing.to_string()])).is_empty());
    assert!(parse_results(&page(&[empty.to_string()])).is_empty());
}

#[test]
fn container_without_snippet_gives_empty_snippet() {
    let html = page(&[
        "<div class=\"result\"><a class=\"result__a\" href=\"https://a.example/x\">Title</a></div>"
            .to_string(),
    ]);
    let results = parse_results(&html);
    assert_eq!(results.len(), 1);
    assert_eq!(
        triple(&results[0]),
        ("Title".to_string(), "https://a.example/x".to_string(), String::new())
    );
}

#[test]
fn protocol_relative_target_gets_https() {
    let html = page(&[
        "<div class=\"result\"><a class=\"result__a\" href=\"//example.com/x\">Title</a></div>"
            .to_string(),
    ]);
    let results = parse_results(&html);
    assert_eq!(results.len(), 1);
    assert_eq!(results[0].url, "https://example.com/x");
    assert_eq!(normalize_url("//example.com/x".to_string()), "https://example.com/x");
    assert_eq!(normalize_url("/relative".to_string()), "/relative");
    assert_eq!(normalize_url("/".to_string()), "/");
    assert_eq!(normalize_url("http://example.com//x".to_string()), "http://example.com//x");
}

#[test]
fn first_link_and_first_snippet_are_read() {
    let html = page(&["<div class=\"result\">\
        <h2><a class=\"result__a\" href=\"https://one.example\">One <b>bold</b></a></h2>\
        <a class=\"result__a\" href=\"https://two.example\">Two</a>\
        <p class=\"result__snippet\"> first <i>snippet</i> </p>\
        <p class=\"result__snippet\">second</p></div>"
        .to_string()]);
    let results = parse_results(&html);
    assert_eq!(results.len(), 1);
    assert_eq!(
        triple(&results[0]),
        ("One bold".to_string(), "https://one.example".to_string(), "first snippet".to_string())
    );
}

#[test]
fn page_without_markup_gives_nothing() {
    assert!(parse_results("").is_empty());
    assert!(parse_results("plain text, no markup").is_empty());
    assert!(parse_results("<<<>>> <div class=result").is_empty());
}

#[test]
fn blocks_are_extracted_like_pages() {
    let blocks = vec![
        block(None, None, Some("orphan")),
        block(Some("  First\t"), Some("//a.example/1"), Some("\n about a ")),
        block(Some(" "), Some("https://b.example"), None),
        block(Some("No target"), None, None),
        block(Some("Empty target"), Some(""), None),
        block(Some("Last"), Some("https://c.example"), None),
    ];
    let results = extract_results(&blocks, 15);
    assert_eq!(results.len(), 2);
    assert_eq!(
        triple(&results[0]),
        ("First".to_string(), "https://a.example/1".to_string(), "about a".to_string())
    );
    assert_eq!(
        triple(&results[1]),
        ("Last".to_string(), "https://c.example".to_string(), String::new())
    );
    assert_eq!(extract_results(&blocks, 5).len(), 1);
    assert!(extract_result(&blocks[0]).is_none());
    assert!(extract_result(&blocks[5]).is_some());
}
