//! The result extractor: from a rendered search-results page to result records.
//!
//! The page is searched for result blocks. Of each block the extractor reads
//! the text and the target of its first link and the text of its first snippet
//! element; a block without a usable link gives no record. At most a fixed
//! number of blocks is read, and the records keep the order of their blocks.

use vstd::prelude::*;
use vstd::string::StringExecFns;
use scraper::{Html, Selector};
use crate::text::{has_prefix, starts_with, trim, trimmed};

verus! {

/// How many result blocks of a page are read unless the caller says otherwise.
pub const DEFAULT_RESULT_LIMIT: usize = 15;

/// The selector of a result block.
pub const RESULT_BLOCK: &'static str = ".result";

/// The selector of a block's link.
pub const RESULT_LINK: &'static str = ".result__a";

/// The attribute that holds a link's target.
pub const LINK_TARGET: &'static str = "href";

/// The selector of a block's snippet element.
pub const RESULT_SNIPPET: &'static str = ".result__snippet";

/// One record of a search-results page.
pub struct SearchResult {
    pub title: String,
    pub url: String,
    pub snippet: String,
}

/// What a record holds.
pub struct SearchResultView {
    pub title: Seq<char>,
    pub url: Seq<char>,
    pub snippet: Seq<char>,
}

impl View for SearchResult {
    type V = SearchResultView;

    open spec fn view(&self) -> SearchResultView {
        SearchResultView { title: self.title@, url: self.url@, snippet: self.snippet@ }
    }
}

/// The first link of a result block: its visible text, and its target where
/// the link has one.
pub struct ResultLink {
    pub text: String,
    pub target: Option<String>,
}

/// What a link holds.
pub struct ResultLinkView {
    pub text: Seq<char>,
    pub target: Option<Seq<char>>,
}

impl View for ResultLink {
    type V = ResultLinkView;

    open spec fn view(&self) -> ResultLinkView {
        ResultLinkView {
            text: self.text@,
            target: match self.target {
                Some(target) => Some(target@),
                None => None,
            },
        }
    }
}

/// What the extractor reads of one result block of a page: its first link,
/// and the visible text of its first snippet element, where it has them.
pub struct ResultBlock {
    pub link: Option<ResultLink>,
    pub snippet: Option<String>,
}

/// What a block holds.
pub struct ResultBlockView {
    pub link: Option<ResultLinkView>,
    pub snippet: Option<Seq<char>>,
}

impl View for ResultBlock {
    type V = ResultBlockView;

    open spec fn view(&self) -> ResultBlockView {
        ResultBlockView {
            link: match self.link {
                Some(link) => Some(link@),
                None => None,
            },
            snippet: match self.snippet {
                Some(snippet) => Some(snippet@),
                None => None,
            },
        }
    }
}

/// What each block of `blocks` holds.
pub open spec fn block_views(blocks: Seq<ResultBlock>) -> Seq<ResultBlockView> {
    Seq::new(blocks.len(), |i: int| blocks[i]@)
}

/// What each record of `results` holds.
pub open spec fn result_views(results: Seq<SearchResult>) -> Seq<SearchResultView> {
    Seq::new(results.len(), |i: int| results[i]@)
}

/// A link target as a record gives it: a protocol-relative target gets the
/// secure scheme in front, any other target stays as it is.
pub open spec fn normalized_url(target: Seq<char>) -> Seq<char> {
    if starts_with(target, "//"@) {
        "https:"@ + target
    } else {
        target
    }
}

/// The record that a block gives: none without a link, with a link whose
/// trimmed text is empty, or with a link that has no target or an empty one.
pub open spec fn result_of(block: ResultBlockView) -> Option<SearchResultView> {
    match block.link {
        None => None,
        Some(link) => {
            let target = match link.target {
                Some(target) => target,
                None => Seq::empty(),
            };
            if trimmed(link.text).len() == 0 || target.len() == 0 {
                None
            } else {
                Some(
                    SearchResultView {
                        title: trimmed(link.text),
                        url: normalized_url(target),
                        snippet: match block.snippet {
                            Some(snippet) => trimmed(snippet),
                            None => Seq::empty(),
                        },
                    },
                )
            }
        },
    }
}

/// The records of `blocks`, in the order of the blocks.
pub open spec fn results_of(blocks: Seq<ResultBlockView>) -> Seq<SearchResultView>
    decreases blocks.len(),
{
    if blocks.len() == 0 {
        Seq::empty()
    } else {
        match result_of(blocks.last()) {
            Some(result) => results_of(blocks.drop_last()).push(result),
            None => results_of(blocks.drop_last()),
        }
    }
}

/// The records of the first `limit` blocks of `blocks`.
pub open spec fn extracted(blocks: Seq<ResultBlockView>, limit: nat) -> Seq<SearchResultView> {
    if limit < blocks.len() {
        results_of(blocks.take(limit as int))
    } else {
        results_of(blocks)
    }
}

/// A protocol-relative target comes out with the secure scheme.
pub proof fn lemma_protocol_relative_gets_https(rest: Seq<char>)
    ensures
        normalized_url("//"@ + rest) == "https://"@ + rest,
{
    reveal_strlit("//");
    reveal_strlit("https:");
    reveal_strlit("https://");
    let target = "//"@ + rest;
    assert(target.take(2) == "//"@);
    assert("https:"@ + target == "https://"@ + rest);
}

/// Whether a block gives a record.
pub open spec fn is_usable(block: ResultBlockView) -> bool {
    result_of(block) is Some
}

/// The skip rules: a block gives no record exactly if it has no link, or the
/// link's trimmed text is empty, or the link has no target or an empty one;
/// a missing snippet never costs the record, it leaves the snippet empty; and
/// a block counts for one record or for none.
pub proof fn lemma_skip_rules(block: ResultBlockView)
    ensures
        !is_usable(block) <==> (block.link matches Some(link) ==> trimmed(link.text).len() == 0
            || (link.target matches Some(target) ==> target.len() == 0)),
        result_of(block) matches Some(result) ==> result.title.len() > 0 && result.url.len() > 0
            && (block.snippet is None ==> result.snippet.len() == 0),
        results_of(seq![block]).len() == if is_usable(block) {
            1nat
        } else {
            0nat
        },
{
    let one = seq![block];
    assert(one.last() == block);
    assert(one.drop_last() == Seq::<ResultBlockView>::empty());
    assert(results_of(one.drop_last()).len() == 0);
}

/// Blocks that all give a record give one record each, in their order.
proof fn lemma_usable_blocks_all_give(blocks: Seq<ResultBlockView>)
    requires
        forall|i: int| 0 <= i < blocks.len() ==> is_usable(#[trigger] blocks[i]),
    ensures
        results_of(blocks).len() == blocks.len(),
        forall|i: int|
            0 <= i < blocks.len() ==> result_of(blocks[i]) == Some(#[trigger] results_of(blocks)[i]),
    decreases blocks.len(),
{
    if blocks.len() > 0 {
        let front = blocks.drop_last();
        assert forall|i: int| 0 <= i < front.len() implies is_usable(#[trigger] front[i]) by {
            assert(front[i] == blocks[i]);
        }
        lemma_usable_blocks_all_give(front);
        assert(is_usable(blocks[blocks.len() - 1]));
        assert forall|i: int| 0 <= i < blocks.len() implies result_of(blocks[i]) == Some(
            #[trigger] results_of(blocks)[i],
        ) by {
            if i < front.len() {
                assert(front[i] == blocks[i]);
                assert(results_of(blocks)[i] == results_of(front)[i]);
            }
        }
    }
}

/// The cap: of blocks that all give a record, the first `limit` give the
/// records, one each and in their order; the blocks behind them give none.
pub proof fn lemma_cap_on_usable_blocks(blocks: Seq<ResultBlockView>, limit: nat)
    requires
        forall|i: int| 0 <= i < blocks.len() ==> is_usable(#[trigger] blocks[i]),
    ensures
        extracted(blocks, limit).len() == if limit < blocks.len() {
            limit
        } else {
            blocks.len()
        },
        forall|i: int|
            0 <= i < extracted(blocks, limit).len() ==> result_of(blocks[i]) == Some(
                #[trigger] extracted(blocks, limit)[i],
            ),
{
    if limit < blocks.len() {
        let front = blocks.take(limit as int);
        assert forall|i: int| 0 <= i < front.len() implies is_usable(#[trigger] front[i]) by {
            assert(front[i] == blocks[i]);
        }
        lemma_usable_blocks_all_give(front);
        assert forall|i: int| 0 <= i < extracted(blocks, limit).len() implies result_of(blocks[i])
            == Some(#[trigger] extracted(blocks, limit)[i]) by {
            assert(front[i] == blocks[i]);
        }
    } else {
        lemma_usable_blocks_all_give(blocks);
    }
}

/// No more records than blocks, and no more than the limit.
pub proof fn lemma_extracted_len(blocks: Seq<ResultBlockView>, limit: nat)
    ensures
        extracted(blocks, limit).len() <= limit,
        extracted(blocks, limit).len() <= blocks.len(),
{
    if limit < blocks.len() {
        lemma_results_len(blocks.take(limit as int));
    } else {
        lemma_results_len(blocks);
    }
}

proof fn lemma_results_len(blocks: Seq<ResultBlockView>)
    ensures
        results_of(blocks).len() <= blocks.len(),
    decreases blocks.len(),
{
    if blocks.len() > 0 {
        lemma_results_len(blocks.drop_last());
    }
}

/// The link target as a record gives it.
pub fn normalize_url(target: String) -> (url: String)
    ensures
        url@ == normalized_url(target@),
{
    if has_prefix(target.as_str(), "//") {
        let mut url = "https:".to_owned();
        url.append(target.as_str());
        url
    } else {
        target
    }
}

/// The record that `block` gives, if it gives one.
pub fn extract_result(block: &ResultBlock) -> (result: Option<SearchResult>)
    ensures
        match result {
            Some(r) => result_of(block@) == Some(r@),
            None => result_of(block@) is None,
        },
        result matches Some(r) ==> r@.title.len() > 0 && r@.url.len() > 0,
{
    match &block.link {
        None => None,
        Some(link) => {
            let title = trim(link.text.as_str());
            let target = match &link.target {
                Some(target) => target.clone(),
                None => String::new(),
            };
            if title.as_str().is_empty() || target.as_str().is_empty() {
                None
            } else {
                let snippet = match &block.snippet {
                    Some(snippet) => trim(snippet.as_str()),
                    None => String::new(),
                };
                Some(SearchResult { title, url: normalize_url(target), snippet })
            }
        },
    }
}

/// The records of the first `limit` blocks, in the order of the blocks.
pub fn extract_results(blocks: &Vec<ResultBlock>, limit: usize) -> (results: Vec<SearchResult>)
    ensures
        result_views(results@) == extracted(block_views(blocks@), limit as nat),
        results@.len() <= limit,
        forall|i: int|
            0 <= i < results@.len() ==> (#[trigger] results@[i])@.title.len() > 0
                && results@[i]@.url.len() > 0,
{
    let ghost given = block_views(blocks@);
    let end = if limit < blocks.len() {
        limit
    } else {
        blocks.len()
    };
    let mut results: Vec<SearchResult> = Vec::new();
    let mut i: usize = 0;
    while i < end
        invariant
            i <= end <= blocks.len(),
            end <= limit,
            given == block_views(blocks@),
            result_views(results@) == results_of(given.take(i as int)),
            results@.len() <= i,
            forall|k: int|
                0 <= k < results@.len() ==> (#[trigger] results@[k])@.title.len() > 0
                    && results@[k]@.url.len() > 0,
        decreases end - i,
    {
        let ghost results_then = results@;
        proof {
            assert(given.take(i + 1).drop_last() == given.take(i as int));
            assert(given.take(i + 1).last() == blocks@[i as int]@);
        }
        match extract_result(&blocks[i]) {
            Some(result) => {
                results.push(result);
                assert(result_views(results@) == result_views(results_then).push(result@));
            },
            None => {},
        }
        i += 1;
    }
    proof {
        if !(limit < blocks.len()) {
            assert(given.take(end as int) == given);
        }
    }
    results
}

/// What a page holds for the extractor, as the `scraper` crate reads it: the
/// elements of `markup` that match the selector `block`, in the order in which
/// a selection hands them out, and of each its first descendant that matches
/// `link`, with its text and its attribute `target`, and the text of its
/// first descendant that matches `snippet`. `None` where one of the three
/// selectors is not one.
pub uninterp spec fn selected_blocks(
    markup: Seq<char>,
    block: Seq<char>,
    link: Seq<char>,
    target: Seq<char>,
    snippet: Seq<char>,
) -> Option<Seq<ResultBlockView>>;

/// Parses the three selectors (`Selector::parse`) and the page
/// (`Html::parse_document`), selects the blocks (`Html::select`), and reads of
/// each its first link (`ElementRef::select`, `ElementRef::text`,
/// `Element::attr`) and its first snippet element. All of it depends on the
/// five texts alone, and is what the contracts call `selected_blocks`;
/// nothing else is claimed of it.
#[verifier::external_body]
fn select_blocks(markup: &str, block: &str, link: &str, target: &str, snippet: &str) -> (found:
    Option<Vec<ResultBlock>>)
    ensures
        match found {
            Some(blocks) => selected_blocks(markup@, block@, link@, target@, snippet@) == Some(
                block_views(blocks@),
            ),
            None => selected_blocks(markup@, block@, link@, target@, snippet@) is None,
        },
{
    let blocks = Selector::parse(block).ok()?;
    let links = Selector::parse(link).ok()?;
    let snippets = Selector::parse(snippet).ok()?;
    let page = Html::parse_document(markup);
    let found = page.select(&blocks).map(|b| ResultBlock {
        link: b.select(&links).next().map(|a| ResultLink {
            text: a.text().collect(),
            target: a.value().attr(target).map(String::from),
        }),
        snippet: b.select(&snippets).next().map(|s| s.text().collect()),
    });
    Some(found.collect())
}

/// The records of a page: none for the empty page, and none where the page
/// cannot be searched; otherwise those of its first `limit` result blocks.
pub open spec fn page_results(markup: Seq<char>, limit: nat) -> Seq<SearchResultView> {
    if markup.len() == 0 {
        Seq::empty()
    } else {
        match selected_blocks(markup, RESULT_BLOCK@, RESULT_LINK@, LINK_TARGET@, RESULT_SNIPPET@) {
            Some(blocks) => extracted(blocks, limit),
            None => Seq::empty(),
        }
    }
}

/// The records of the first `limit` result blocks of the page `markup`.
pub fn parse_results_limited(markup: &str, limit: usize) -> (results: Vec<SearchResult>)
    ensures
        result_views(results@) == page_results(markup@, limit as nat),
        results@.len() <= limit,
        forall|i: int|
            0 <= i < results@.len() ==> (#[trigger] results@[i])@.title.len() > 0
                && results@[i]@.url.len() > 0,
{
    if markup.is_empty() {
        return Vec::new();
    }
    match select_blocks(markup, RESULT_BLOCK, RESULT_LINK, LINK_TARGET, RESULT_SNIPPET) {
        Some(blocks) => extract_results(&blocks, limit),
        None => Vec::new(),
    }
}

/// The records of the first `DEFAULT_RESULT_LIMIT` result blocks of the page
/// `markup`.
pub fn parse_results(markup: &str) -> (results: Vec<SearchResult>)
    ensures
        result_views(results@) == page_results(markup@, DEFAULT_RESULT_LIMIT as nat),
        results@.len() <= DEFAULT_RESULT_LIMIT,
        forall|i: int|
            0 <= i < results@.len() ==> (#[trigger] results@[i])@.title.len() > 0
                && results@[i]@.url.len() > 0,
{
    parse_results_limited(markup, DEFAULT_RESULT_LIMIT)
}

} // verus!
