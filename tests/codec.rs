use runtime_scraper::codec::{deserialize, serialize, MalformedSnapshot};
use runtime_scraper::table::CanonicalTable;

fn table(rows: &[&[&str]]) -> CanonicalTable {
    CanonicalTable::new(rows.iter().map(|r| r.iter().map(|c| c.to_string()).collect()).collect())
}

#[test]
fn serialize_joins_cells_and_ends_lines() {
    let t = table(&[&["Name", "Identifier", "SDK for Go"], &["Node.js 18", "nodejs18.x", "No"]]);
    assert_eq!(serialize(&t), "Name,Identifier,SDK for Go\nNode.js 18,nodejs18.x,No\n");
}

#[test]
fn serialize_escapes_delimiter_and_terminators() {
    let t = table(&[&["a,b", "c\\d", "e\nf", "g\rh"]]);
    assert_eq!(serialize(&t), "a\\,b,c\\\\d,e\\nf,g\\rh\n");
}

#[test]
fn serialize_empty_table_and_empty_row() {
    assert_eq!(serialize(&table(&[])), "");
    assert_eq!(serialize(&table(&[&[], &["x"]])), "\nx\n");
}

#[test]
fn round_trip_plain_table() {
    let t = table(&[&["Name", "Identifier"], &["Python 3.12", "python3.12"], &["Java 21", "java21"]]);
    assert_eq!(deserialize(&serialize(&t)), Ok(t));
}

#[test]
fn round_trip_escaped_cells() {
    let t = table(&[&["a,b", "\\", "x\ny"], &[], &["end\r"]]);
    assert_eq!(deserialize(&serialize(&t)), Ok(t));
}

#[test]
fn deserialize_reads_rows() {
    let t = deserialize("h1,h2\nv1,v\\,2\n").unwrap();
    assert_eq!(t, table(&[&["h1", "h2"], &["v1", "v,2"]]));
}

#[test]
fn deserialize_rejects_unterminated_line() {
    assert_eq!(deserialize("a,b"), Err(MalformedSnapshot));
}

#[test]
fn deserialize_rejects_empty_cell() {
    assert_eq!(deserialize("a,,b\n"), Err(MalformedSnapshot));
    assert_eq!(deserialize("a,\n"), Err(MalformedSnapshot));
    assert_eq!(deserialize(",a\n"), Err(MalformedSnapshot));
}

#[test]
fn deserialize_rejects_bad_escape() {
    assert_eq!(deserialize("a\\x\n"), Err(MalformedSnapshot));
    assert_eq!(deserialize("a\\"), Err(MalformedSnapshot));
}

#[test]
fn deserialize_empty_text_is_empty_table() {
    assert_eq!(deserialize(""), Ok(table(&[])));
}

#[test]
fn deserialize_rejects_raw_carriage_return() {
    assert_eq!(deserialize("a\rb\n"), Err(MalformedSnapshot));
    assert_eq!(deserialize("a\\rb\n"), Ok(table(&[&["a\rb"]])));
}
