use dtstree::index::DtbError;
use dtstree::tree::DtbNode;

fn parse_doc(text: &str) -> DtbNode {
    let mut root = DtbNode {
        node_name: String::new(),
        properties: Vec::new(),
        child_nodes: Vec::new(),
    };
    root.init(text.to_string()).expect("document should parse");
    root
}

#[test]
fn three_levels_of_nesting() {
    let root = parse_doc(
        "/ {\n\ta {\n\t\tb {\n\t\t\tc {\n\t\t\t\tdeep = <1>;\n\t\t\t};\n\t\t};\n\t};\n};\n",
    );
    let a = &root.child_nodes[0];
    let b = &a.child_nodes[0];
    let c = &b.child_nodes[0];
    assert_eq!(c.node_name, "c");
    assert_eq!(c.properties[0].key, "deep");
    let again = parse_doc(&root.stringify(0));
    assert_eq!(
        again.child_nodes[0].child_nodes[0].child_nodes[0].properties[0].key,
        "deep"
    );
}

#[test]
fn two_siblings_keep_their_order() {
    let root = parse_doc("p {\n\tfirst {\n\t\tx;\n\t};\n\tsecond {\n\t\ty;\n\t};\n};\n");
    assert_eq!(root.child_nodes.len(), 2);
    assert_eq!(root.child_nodes[0].node_name, "first");
    assert_eq!(root.child_nodes[1].node_name, "second");
    assert_eq!(root.find_childnode("second"), Some(1));
}

#[test]
fn carriage_returns_are_trimmed_away() {
    let root = parse_doc("root {\r\n\ta = <1>;\r\n};\r\n");
    assert_eq!(root.node_name, "root");
    assert_eq!(root.properties[0].key, "a");
    assert_eq!(root.properties[0].value.as_deref(), Some("<1>"));
}

#[test]
fn property_after_a_child_is_kept() {
    let root = parse_doc("n {\n\tbefore = <1>;\n\tkid {\n\t\tx;\n\t};\n\tafter = <2>;\n};\n");
    assert_eq!(root.properties.len(), 2);
    assert_eq!(root.properties[0].key, "before");
    assert_eq!(root.properties[1].key, "after");
    assert_eq!(root.child_nodes.len(), 1);
}

#[test]
fn node_name_with_unit_address() {
    let root = parse_doc("soc {\n\tsdhci@3440000 {\n\t\tstatus = \"disabled\";\n\t};\n};\n");
    let i = root.find_childnode("sdhci@3440000").unwrap();
    assert_eq!(root.child_nodes[i].node_name, "sdhci@3440000");
}

#[test]
fn separator_lost_by_trimming_is_malformed() {
    // the raw line contains " = " only because of its leading whitespace,
    // so after trimming the separator is gone
    let mut root = DtbNode {
        node_name: String::new(),
        properties: Vec::new(),
        child_nodes: Vec::new(),
    };
    let r = root.init("n {\n = x;\n};\n".to_string());
    assert_eq!(r, Err(DtbError::MalformedDocument));
}

#[test]
fn empty_document_is_malformed() {
    let mut root = DtbNode {
        node_name: String::new(),
        properties: Vec::new(),
        child_nodes: Vec::new(),
    };
    assert_eq!(root.init(String::new()), Err(DtbError::MalformedDocument));
    // and the failed load leaves the node untouched
    assert_eq!(root.node_name, "");
    assert_eq!(root.properties.len(), 0);
}
