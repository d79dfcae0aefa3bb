use runtime_scraper::codec::serialize;
use runtime_scraper::extract::ExtractionError;
use runtime_scraper::run::{default_specs, run, RunError, TableSpec, Verdict};
use runtime_scraper::snapshot::{LoadError, SnapshotStore};
use runtime_scraper::table::CanonicalTable;

fn table(rows: &[&[&str]]) -> CanonicalTable {
    CanonicalTable::new(rows.iter().map(|r| r.iter().map(|c| c.to_string()).collect()).collect())
}

fn html_table(rows: &[&[&str]]) -> String {
    let mut s = String::from("<table><thead><tr>");
    for c in rows[0] {
        s.push_str(&format!("<th>{}</th>", c));
    }
    s.push_str("</tr></thead><tbody>");
    for r in &rows[1..] {
        s.push_str("<tr>");
        for c in *r {
            s.push_str(&format!("<td>{}</td>", c));
        }
        s.push_str("</tr>");
    }
    s.push_str("</tbody></table>");
    s
}

const HEADER: &[&str] = &["Name", "Identifier", "SDK for Go"];
const ROW: &[&str] = &["Node.js 18", "nodejs18.x", "No"];

fn baseline_store() -> SnapshotStore {
    let mut store = SnapshotStore::new();
    store.insert("supported_runtimes".to_string(), serialize(&table(&[HEADER, ROW])));
    store
}

fn supported_only() -> Vec<TableSpec> {
    vec![TableSpec::new("supported_runtimes", 0)]
}

#[test]
fn unchanged_table_reports_no_changes() {
    let doc = format!("<html><body>{}</body></html>", html_table(&[HEADER, ROW]));
    let rep = run(&doc, &supported_only(), &baseline_store()).unwrap();
    assert_eq!(rep.tables.len(), 1);
    assert_eq!(rep.tables[0].name, "supported_runtimes");
    assert!(!rep.tables[0].result.changed);
    assert_eq!(rep.tables[0].result.rendered(), "");
    assert_eq!(rep.verdict, Verdict::NoChanges);
    assert_eq!(rep.verdict.message(), "NO CHANGES");
}

#[test]
fn changed_cell_reports_changes() {
    let row = &["Node.js 18", "nodejs18.x (build 2)", "No"][..];
    let doc = format!("<html><body>{}</body></html>", html_table(&[HEADER, row]));
    let rep = run(&doc, &supported_only(), &baseline_store()).unwrap();
    let r = &rep.tables[0].result;
    assert!(r.changed);
    let rendered = r.rendered();
    let removed: Vec<&str> = rendered.lines().filter(|l| l.starts_with('-')).collect();
    let added: Vec<&str> = rendered.lines().filter(|l| l.starts_with('+')).collect();
    assert_eq!(removed, vec!["-Node.js 18,nodejs18.x,No"]);
    assert_eq!(added, vec!["+Node.js 18,nodejs18.x (build 2),No"]);
    assert_eq!(
        rendered,
        " Name,Identifier,SDK for Go\n-Node.js 18,nodejs18.x,No\n+Node.js 18,nodejs18.x (build 2),No\n"
    );
    assert_eq!(rep.verdict, Verdict::ChangesDetected);
    assert_eq!(rep.verdict.message(), "CHANGES DETECTED");
}

#[test]
fn missing_table_aborts_run() {
    let doc = format!("<html><body>{}</body></html>", html_table(&[HEADER, ROW]));
    let mut store = baseline_store();
    store.insert("deprecated_runtimes".to_string(), serialize(&table(&[HEADER])));
    let r = run(&doc, &default_specs(), &store);
    assert_eq!(r.err(), Some(RunError::Extraction(ExtractionError::MissingTable)));
}

#[test]
fn missing_snapshot_aborts_run() {
    let t = html_table(&[HEADER, ROW]);
    let doc = format!("<html><body>{}{}{}</body></html>", t, t, t);
    let r = run(&doc, &default_specs(), &baseline_store());
    assert_eq!(r.err(), Some(RunError::SnapshotNotFound));
}

#[test]
fn malformed_snapshot_aborts_run() {
    let doc = html_table(&[HEADER, ROW]);
    let mut store = SnapshotStore::new();
    store.insert("supported_runtimes".to_string(), "Name,\n".to_string());
    let r = run(&doc, &supported_only(), &store);
    assert_eq!(r.err(), Some(RunError::MalformedSnapshot));
}

#[test]
fn any_changed_table_changes_the_verdict() {
    let old_row = &["Java 8", "java8", "Yes"][..];
    let t0 = html_table(&[HEADER, ROW]);
    let t2 = html_table(&[HEADER, &["Java 8", "java8", "No"]]);
    let doc = format!("<html><body>{}<table></table>{}</body></html>", t0, t2);
    let mut store = baseline_store();
    store.insert("deprecated_runtimes".to_string(), serialize(&table(&[HEADER, old_row])));
    let rep = run(&doc, &default_specs(), &store).unwrap();
    assert_eq!(rep.tables.len(), 2);
    assert_eq!(rep.tables[0].name, "supported_runtimes");
    assert!(!rep.tables[0].result.changed);
    assert_eq!(rep.tables[1].name, "deprecated_runtimes");
    assert!(rep.tables[1].result.changed);
    assert_eq!(rep.verdict, Verdict::ChangesDetected);
}

#[test]
fn default_specs_name_two_tables() {
    let specs = default_specs();
    assert_eq!(specs.len(), 2);
    assert_eq!((specs[0].name.as_str(), specs[0].index), ("supported_runtimes", 0));
    assert_eq!((specs[1].name.as_str(), specs[1].index), ("deprecated_runtimes", 2));
}

#[test]
fn store_load_finds_newest_entry() {
    let mut store = baseline_store();
    store.insert("supported_runtimes".to_string(), "x\n".to_string());
    assert_eq!(store.load("supported_runtimes"), Ok(table(&[&["x"]])));
    assert_eq!(store.load("deprecated_runtimes"), Err(LoadError::NotFound));
}
