use runtime_scraper::diff::{diff, ChangeKind, DiffLine};

#[test]
fn identical_texts_report_no_change() {
    let x = "Name,Identifier\nNode.js 18,nodejs18.x\n";
    let r = diff(x, x);
    assert!(!r.changed);
    assert!(r.lines.is_empty());
    assert_eq!(r.rendered(), "");
}

#[test]
fn identical_empty_texts_report_no_change() {
    let r = diff("", "");
    assert!(!r.changed);
    assert_eq!(r.rendered(), "");
}

#[test]
fn detection_is_symmetric() {
    let a = "h\nx\n";
    let b = "h\ny\n";
    assert_eq!(diff(a, b).changed, diff(b, a).changed);
    assert!(diff(a, b).changed);
    assert_eq!(diff(a, a).changed, diff(a, a).changed);
}

#[test]
fn changed_line_is_deleted_then_inserted() {
    let r = diff("h\nold\nt\n", "h\nnew\nt\n");
    assert!(r.changed);
    assert_eq!(
        r.lines,
        vec![
            DiffLine { kind: ChangeKind::Equal, text: "h\n".to_string() },
            DiffLine { kind: ChangeKind::Delete, text: "old\n".to_string() },
            DiffLine { kind: ChangeKind::Insert, text: "new\n".to_string() },
            DiffLine { kind: ChangeKind::Equal, text: "t\n".to_string() },
        ]
    );
    assert_eq!(r.rendered(), " h\n-old\n+new\n t\n");
}

#[test]
fn added_line_is_only_inserted() {
    let r = diff("a\n", "a\nb\n");
    assert!(r.changed);
    assert_eq!(r.rendered(), " a\n+b\n");
}

#[test]
fn rendering_ends_a_last_line_without_terminator() {
    let r = diff("a", "b");
    assert!(r.changed);
    assert_eq!(r.rendered(), "-a\n+b\n");
}

#[test]
fn markers_of_change_kinds() {
    assert_eq!(ChangeKind::Equal.marker(), ' ');
    assert_eq!(ChangeKind::Delete.marker(), '-');
    assert_eq!(ChangeKind::Insert.marker(), '+');
}
