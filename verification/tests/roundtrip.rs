use dtstree::tree::DtbNode;

fn parse_doc(text: &str) -> DtbNode {
    let mut root = DtbNode {
        node_name: String::new(),
        properties: Vec::new(),
        child_nodes: Vec::new(),
    };
    root.init(text.to_string()).expect("document should parse");
    root
}

fn trees_equal(a: &DtbNode, b: &DtbNode) -> bool {
    if a.node_name != b.node_name {
        return false;
    }
    if a.properties.len() != b.properties.len() || a.child_nodes.len() != b.child_nodes.len() {
        return false;
    }
    for (p, q) in a.properties.iter().zip(b.properties.iter()) {
        if p.key != q.key || p.value != q.value {
            return false;
        }
    }
    for (c, d) in a.child_nodes.iter().zip(b.child_nodes.iter()) {
        if !trees_equal(c, d) {
            return false;
        }
    }
    true
}

#[test]
fn well_formed_document_round_trips_to_an_equal_tree() {
    let text = "/ {\n\tmodel = \"board\";\n\tflag;\n\n\tsoc {\n\t\tranges;\n\n\t\tuart@1000 {\n\t\t\tstatus = \"okay\";\n\t\t\treg = <0x1000 0x100>;\n\t\t};\n\n\t\tsdhci@3440000 {\n\t\t\tstatus = \"disabled\";\n\t\t};\n\t};\n\n\tchosen {\n\t\tbootargs = \"console=ttyS0\";\n\t};\n};\n";
    let first = parse_doc(text);
    let rendered = first.stringify(0);
    let second = parse_doc(&rendered);
    assert!(trees_equal(&first, &second));
    // and the canonical form is a fixed point of render-parse-render
    assert_eq!(second.stringify(0), rendered);
}

#[test]
fn empty_node_round_trips() {
    let text = "outer {\n\tempty {\n\t};\n};\n";
    let first = parse_doc(text);
    assert_eq!(first.child_nodes.len(), 1);
    assert_eq!(first.child_nodes[0].properties.len(), 0);
    assert_eq!(first.child_nodes[0].child_nodes.len(), 0);
    let second = parse_doc(&first.stringify(0));
    assert!(trees_equal(&first, &second));
}

#[test]
fn quoted_value_keeps_its_quotes_and_flag_keeps_no_value() {
    let first = parse_doc("n {\n\tfoo = \"bar\";\n\tflag;\n};\n");
    assert_eq!(first.properties[0].value.as_deref(), Some("\"bar\""));
    assert_eq!(first.properties[1].value, None);
    let rendered = first.stringify(0);
    assert!(rendered.contains("\tfoo = \"bar\";\n"));
    assert!(rendered.contains("\tflag;\n"));
    let second = parse_doc(&rendered);
    assert_eq!(second.properties[0].value.as_deref(), Some("\"bar\""));
    assert_eq!(second.properties[1].value, None);
}

#[test]
fn empty_value_stays_distinct_from_no_value() {
    let first = parse_doc("n {\n\ta = ;\n\tb;\n};\n");
    assert_eq!(first.properties[0].value.as_deref(), Some(""));
    assert_eq!(first.properties[1].value, None);
    let second = parse_doc(&first.stringify(0));
    assert_eq!(second.properties[0].value.as_deref(), Some(""));
    assert_eq!(second.properties[1].value, None);
}

#[test]
fn root_node_gets_the_version_header() {
    let root = parse_doc("/dts-v1/;\n\n/ {\n\tx = <1>;\n};\n");
    assert_eq!(root.node_name, "/");
    let rendered = root.stringify(0);
    assert!(rendered.starts_with("/dts-v1/;\n\n/ {\n"));
}

#[test]
fn non_root_node_gets_no_version_header() {
    let node = parse_doc("soc {\n\tx = <1>;\n};\n");
    let rendered = node.stringify(0);
    assert_eq!(rendered, "soc {\n\tx = <1>;\n};\n");
}

#[test]
fn serializer_layout_is_exact() {
    let text = "/ {\n\ta = <1>;\n\n\tc1 {\n\t\tk;\n\t};\n\n\tc2 {\n\t};\n};\n";
    let root = parse_doc(text);
    let rendered = root.stringify(0);
    assert_eq!(
        rendered,
        "/dts-v1/;\n\n/ {\n\ta = <1>;\n\n\tc1 {\n\t\tk;\n\t};\n\n\tc2 {\n\t};\n};\n"
    );
}

#[test]
fn indent_is_one_tab_per_level() {
    assert_eq!(DtbNode::indent(0), "");
    assert_eq!(DtbNode::indent(1), "\t");
    assert_eq!(DtbNode::indent(4), "\t\t\t\t");
}

#[test]
fn value_containing_separator_text_is_kept_whole() {
    let first = parse_doc("n {\n\tcmd = \"a = b\";\n};\n");
    assert_eq!(first.properties[0].key, "cmd");
    assert_eq!(first.properties[0].value.as_deref(), Some("\"a = b\""));
    let second = parse_doc(&first.stringify(0));
    assert_eq!(second.properties[0].value.as_deref(), Some("\"a = b\""));
}
