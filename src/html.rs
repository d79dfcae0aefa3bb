use vstd::prelude::*;
use crate::extract::{ExtractionError, NodeView, PageTables, TableNode};

verus! {

/// Whether scraper accepts a text as a CSS selector.
pub uninterp spec fn selector_accepted(selector: Seq<char>) -> bool;

/// The table elements of an HTML page as read with the given selectors: for each element
/// that `table` matches, in document order, the text fragments of the first element
/// below it that `header_row` matches, and those of each element that `row` matches
/// below the first element that `body` matches.
pub uninterp spec fn page_nodes_of(
    html: Seq<char>,
    table: Seq<char>,
    header_row: Seq<char>,
    body: Seq<char>,
    row: Seq<char>,
) -> Seq<NodeView>;

/// Relies on scraper's Selector::parse, Html::parse_document, Html::select,
/// ElementRef::select and ElementRef::text: the page is parsed and searched with the
/// four selectors. The result depends on the texts alone, and is missing only where
/// a selector is not accepted.
#[verifier::external_body]
fn read_tables(html: &str, table: &str, header_row: &str, body: &str, row: &str) -> (r: Option<
    Vec<TableNode>,
>)
    ensures
        (r is Some) == (selector_accepted(table@) && selector_accepted(header_row@) && selector_accepted(
            body@,
        ) && selector_accepted(row@)),
        r is Some ==> r->0@.map_values(|t: TableNode| t@) == page_nodes_of(
            html@,
            table@,
            header_row@,
            body@,
            row@,
        ),
{
    let sel = |s: &str| scraper::Selector::parse(s).ok();
    let (t, h, b, w) = (sel(table), sel(header_row), sel(body), sel(row));
    let (t, h, b, w) = (t?, h?, b?, w?);
    let texts = |e: scraper::ElementRef| e.text().map(str::to_string).collect();
    let page = scraper::Html::parse_document(html);
    Some(page.select(&t).map(|e| TableNode {
        header: e.select(&h).next().map(texts),
        body: e.select(&b).next().map(|x| x.select(&w).map(texts).collect()),
    }).collect())
}

/// The selectors that locate tables, their header rows, body sections, and the rows
/// directly inside a body section.
pub open spec fn page_of(html: Seq<char>) -> Seq<NodeView> {
    page_nodes_of(html, "table"@, "thead > tr"@, "tbody"@, ":scope > tr"@)
}

pub open spec fn selectors_accepted() -> bool {
    selector_accepted("table"@) && selector_accepted("thead > tr"@) && selector_accepted("tbody"@)
        && selector_accepted(":scope > tr"@)
}

/// Reads the table elements of an HTML page, in document order.
pub fn read_page(text: &str) -> (r: Result<PageTables, ExtractionError>)
    ensures
        r is Ok <==> selectors_accepted(),
        match r {
            Ok(p) => p@ == page_of(text@),
            Err(e) => e == ExtractionError::Unreadable,
        },
{
    proof {
        reveal_strlit("table");
        reveal_strlit("thead > tr");
        reveal_strlit("tbody");
        reveal_strlit(":scope > tr");
    }
    match read_tables(text, "table", "thead > tr", "tbody", ":scope > tr") {
        Some(tables) => Ok(PageTables { tables }),
        None => Err(ExtractionError::Unreadable),
    }
}

} // verus!
