use dtstree::index::{check_balanced, index_brackets, BracketKind, DtbError};
use dtstree::tree::DtbNode;

fn parse_doc(text: &str) -> DtbNode {
    let mut root = DtbNode {
        node_name: String::new(),
        properties: Vec::new(),
        child_nodes: Vec::new(),
    };
    root.init(text.to_string()).expect("document should parse");
    root
}

#[test]
fn single_node_with_two_properties() {
    let root = parse_doc("root {\n\ta = <1>;\n\tb;\n};\n");
    assert_eq!(root.node_name, "root");
    assert_eq!(root.properties.len(), 2);
    assert_eq!(root.properties[0].key, "a");
    assert_eq!(root.properties[0].value.as_deref(), Some("<1>"));
    assert_eq!(root.properties[1].key, "b");
    assert_eq!(root.properties[1].value, None);
    assert_eq!(root.child_nodes.len(), 0);
}

#[test]
fn single_node_reserializes_to_same_structure() {
    let root = parse_doc("root {\n\ta = <1>;\n\tb;\n};\n");
    let text = root.stringify(0);
    let again = parse_doc(&text);
    assert_eq!(again.node_name, "root");
    assert_eq!(again.properties.len(), 2);
    assert_eq!(again.properties[0].key, "a");
    assert_eq!(again.properties[0].value.as_deref(), Some("<1>"));
    assert_eq!(again.properties[1].key, "b");
    assert_eq!(again.properties[1].value, None);
}

#[test]
fn nested_node_is_a_child() {
    let root = parse_doc("outer {\n\tinner {\n\t\tk = \"v\";\n\t};\n};\n");
    assert_eq!(root.node_name, "outer");
    assert_eq!(root.properties.len(), 0);
    assert_eq!(root.child_nodes.len(), 1);
    let inner = &root.child_nodes[0];
    assert_eq!(inner.node_name, "inner");
    assert_eq!(inner.properties.len(), 1);
    assert_eq!(inner.properties[0].key, "k");
    assert_eq!(inner.properties[0].value.as_deref(), Some("\"v\""));
}

#[test]
fn unmatched_open_is_malformed_not_a_panic() {
    let mut root = DtbNode {
        node_name: String::new(),
        properties: Vec::new(),
        child_nodes: Vec::new(),
    };
    let r = root.init("a {\n\tx;\n".to_string());
    assert_eq!(r, Err(DtbError::MalformedDocument));
}

#[test]
fn find_childnode_missing_is_none_not_a_failure() {
    let root = parse_doc("root {\n\tchild {\n\t\tx;\n\t};\n};\n");
    assert!(root.find_childnode("missing").is_none());
    assert!(root.find_childnode("child").is_some());
}

#[test]
fn lookups_stay_on_their_own_level() {
    let root = parse_doc("root {\n\ta {\n\t\tb {\n\t\t\tx = <1>;\n\t\t};\n\t};\n};\n");
    // the property x sits two levels down: a root-level lookup must not see it
    assert!(root.find_property("x").is_none());
    // nor is the grandchild b a direct child of the root
    assert!(root.find_childnode("b").is_none());
    let a = &root.child_nodes[root.find_childnode("a").unwrap()];
    assert!(a.find_property("x").is_none());
    let b = &a.child_nodes[a.find_childnode("b").unwrap()];
    assert!(b.find_property("x").is_some());
}

#[test]
fn find_property_returns_first_match() {
    let root = parse_doc("root {\n\tstatus = \"disabled\";\n\tother;\n};\n");
    assert_eq!(root.find_property("status"), Some(0));
    assert_eq!(root.find_property("other"), Some(1));
    assert_eq!(root.find_property("absent"), None);
}

#[test]
fn edit_changes_exactly_one_line_of_the_output() {
    let mut root = parse_doc(
        "root {\n\tbefore = <1>;\n\tstatus = \"disabled\";\n\tafter = <2>;\n\tsub {\n\t\tk;\n\t};\n};\n",
    );
    let rendered_before = root.stringify(0);
    let i = root.find_property("status").unwrap();
    root.set_property_value(i, Some("\"okay\"".to_string()));
    let rendered_after = root.stringify(0);
    let old_lines: Vec<&str> = rendered_before.lines().collect();
    let new_lines: Vec<&str> = rendered_after.lines().collect();
    assert_eq!(old_lines.len(), new_lines.len());
    let mut changed = 0;
    for (o, n) in old_lines.iter().zip(new_lines.iter()) {
        if o != n {
            changed += 1;
            assert_eq!(*o, "\tstatus = \"disabled\";");
            assert_eq!(*n, "\tstatus = \"okay\";");
        }
    }
    assert_eq!(changed, 1);
    // sibling order and keys untouched
    assert_eq!(root.properties[0].key, "before");
    assert_eq!(root.properties[0].value.as_deref(), Some("<1>"));
    assert_eq!(root.properties[2].key, "after");
    assert_eq!(root.properties[2].value.as_deref(), Some("<2>"));
}

#[test]
fn indexer_records_events_in_line_order_and_skips_comments() {
    let lines: Vec<String> = vec![
        "// commented { opener".to_string(),
        "root {".to_string(),
        "\tx = <1>;".to_string(),
        "\t// also ignored };".to_string(),
        "};".to_string(),
    ];
    let evs = index_brackets(&lines).unwrap();
    assert_eq!(evs.len(), 2);
    assert_eq!(evs[0].line, 1);
    assert!(matches!(evs[0].kind, BracketKind::Open));
    assert_eq!(evs[1].line, 4);
    assert!(matches!(evs[1].kind, BracketKind::Close));
    assert!(check_balanced(&evs));
}

#[test]
fn indexer_rejects_a_line_that_both_opens_and_closes() {
    let lines: Vec<String> = vec!["a { };".to_string()];
    assert_eq!(index_brackets(&lines), Err(DtbError::MalformedDocument));
}

#[test]
fn unbalanced_events_fail_the_balance_check() {
    let open_only: Vec<String> = vec!["a {".to_string(), "b {".to_string(), "};".to_string()];
    let evs = index_brackets(&open_only).unwrap();
    assert_eq!(evs.len(), 3);
    assert!(!check_balanced(&evs));
    // a close before any open is also unbalanced, even though counts agree
    let close_first: Vec<String> = vec!["};".to_string(), "a {".to_string()];
    let evs2 = index_brackets(&close_first).unwrap();
    assert!(!check_balanced(&evs2));
}

#[test]
fn property_line_without_terminator_is_malformed() {
    let mut root = DtbNode {
        node_name: String::new(),
        properties: Vec::new(),
        child_nodes: Vec::new(),
    };
    let r = root.init("root {\n\ta = b\n};\n".to_string());
    assert_eq!(r, Err(DtbError::MalformedDocument));
}

#[test]
fn header_without_opening_brace_is_malformed() {
    // the brace is present on the line (so it is indexed as an open event)
    // but not at the end of the trimmed header text
    let mut root = DtbNode {
        node_name: String::new(),
        properties: Vec::new(),
        child_nodes: Vec::new(),
    };
    let r = root.init("root { x\n};\n".to_string());
    assert_eq!(r, Err(DtbError::MalformedDocument));
}

#[test]
fn trailing_events_after_root_close_are_malformed() {
    let mut root = DtbNode {
        node_name: String::new(),
        properties: Vec::new(),
        child_nodes: Vec::new(),
    };
    let r = root.init("a {\n};\nb {\n};\n".to_string());
    assert_eq!(r, Err(DtbError::MalformedDocument));
}

#[test]
fn blank_and_unclassifiable_lines_are_skipped() {
    let root = parse_doc("root {\n\n\tjust some words\n\ta = <1>;\n};\n");
    assert_eq!(root.properties.len(), 1);
    assert_eq!(root.properties[0].key, "a");
}
