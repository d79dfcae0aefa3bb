use runtime_scraper::extract::{extract, ExtractionError, PageTables, TableNode};
use runtime_scraper::html::read_page;
use runtime_scraper::table::CanonicalTable;

fn strings(v: &[&str]) -> Vec<String> {
    v.iter().map(|s| s.to_string()).collect()
}

fn table(rows: &[&[&str]]) -> CanonicalTable {
    CanonicalTable::new(rows.iter().map(|r| strings(r)).collect())
}

const PAGE: &str = "<html><body>\
<table><thead><tr><th>Name</th><th>Identifier</th></tr></thead>\
<tbody><tr><td>Node.js 20</td><td>nodejs20.x</td></tr><tr><td>Python 3.12</td><td>python3.12</td></tr></tbody></table>\
<table><tbody><tr><td>other</td></tr></tbody></table>\
<table><thead><tr><th>Name</th></tr></thead></table>\
</body></html>";

#[test]
fn extract_first_table_of_page() {
    let page = read_page(PAGE).unwrap();
    assert_eq!(page.tables.len(), 3);
    let t = extract(&page, 0).unwrap();
    assert_eq!(
        t,
        table(&[&["Name", "Identifier"], &["Node.js 20", "nodejs20.x"], &["Python 3.12", "python3.12"]])
    );
}

#[test]
fn extract_missing_table() {
    let page = read_page(PAGE).unwrap();
    assert_eq!(extract(&page, 3), Err(ExtractionError::MissingTable));
}

#[test]
fn extract_missing_header() {
    let page = read_page(PAGE).unwrap();
    assert_eq!(extract(&page, 1), Err(ExtractionError::MissingHeader));
}

#[test]
fn extract_missing_body() {
    let page = read_page(PAGE).unwrap();
    assert_eq!(extract(&page, 2), Err(ExtractionError::MissingBody));
}

#[test]
fn extract_is_deterministic() {
    let a = extract(&read_page(PAGE).unwrap(), 0);
    let b = extract(&read_page(PAGE).unwrap(), 0);
    assert_eq!(a, b);
}

#[test]
fn extract_ignores_incidental_whitespace() {
    let spaced = "<table>\n <thead>\n  <tr>\n   <th>\n     Name\n   </th>\n   <th>  Identifier </th>\n  </tr>\n </thead>\n\
 <tbody>\n  <tr>\n   <td>\n\tNode.js 20\n   </td>\n   <td>nodejs20.x   </td>\n  </tr>\n  <tr><td>Python 3.12</td><td>python3.12</td></tr>\n </tbody>\n</table>";
    let a = extract(&read_page(PAGE).unwrap(), 0).unwrap();
    let b = extract(&read_page(spaced).unwrap(), 0).unwrap();
    assert_eq!(a, b);
}

#[test]
fn nested_markup_fragments_become_cells_in_order() {
    let html = "<table><thead><tr><th>Name</th></tr></thead><tbody>\
<tr><td><b>Java</b> <i>21</i></td><td>java21<br/>  </td></tr></tbody></table>";
    let t = extract(&read_page(html).unwrap(), 0).unwrap();
    assert_eq!(t, table(&[&["Name"], &["Java", "21", "java21"]]));
}

#[test]
fn extract_from_plain_page_model() {
    let page = PageTables {
        tables: vec![TableNode {
            header: Some(strings(&["  Name ", "\n", "Id"])),
            body: Some(vec![strings(&[" a ", "b"]), strings(&["   "])]),
        }],
    };
    assert_eq!(extract(&page, 0), Ok(table(&[&["Name", "Id"], &["a", "b"], &[]])));
}

#[test]
fn page_without_tables() {
    let page = read_page("<p>nothing here</p>").unwrap();
    assert!(page.tables.is_empty());
    assert_eq!(extract(&page, 0), Err(ExtractionError::MissingTable));
}

#[test]
fn body_rows_are_direct_rows_of_the_body() {
    let html = "<table><thead><tr><th>N</th></tr></thead><tbody>\
<tr><td>a<table><tbody><tr><td>inner</td></tr></tbody></table></td></tr>\
<tr><td>b</td></tr></tbody></table>";
    let page = read_page(html).unwrap();
    assert_eq!(page.tables.len(), 2);
    let t = extract(&page, 0).unwrap();
    assert_eq!(t, table(&[&["N"], &["a", "inner"], &["b"]]));
}

#[test]
fn unicode_whitespace_is_trimmed() {
    let page = PageTables {
        tables: vec![TableNode {
            header: Some(strings(&["\u{a0}Name\u{3000}", "\u{2003}"])),
            body: Some(vec![strings(&["\t x \r\n"])]),
        }],
    };
    assert_eq!(extract(&page, 0), Ok(table(&[&["Name"], &["x"]])));
}
