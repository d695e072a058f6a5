use agent_browser_wasm::json::{JsonNumber, JsonValue};
use agent_browser_wasm::snapshot_format::{
    compact_tree, count_indent, extract_ax_string, extract_ax_string_opt, extract_properties,
    format_snapshot, labels_distinct, opt_vec_string_or_int, snapshot_walk_ends, string_or_int, AxNode,
    AxProperty, AxValue, SnapshotOptions, SnapshotRef,
};

fn text(s: &str) -> Option<AxValue> {
    Some(AxValue { value: Some(JsonValue::Str(s.to_string())) })
}

fn node(id: &str, role: &str, name: &str, children: &[&str], backend: Option<i64>) -> AxNode {
    AxNode {
        node_id: id.to_string(),
        role: text(role),
        name: text(name),
        value: None,
        properties: None,
        child_ids: Some(children.iter().map(|c| c.to_string()).collect()),
        backend_d_o_m_node_id: backend,
        ignored: None,
    }
}

fn prop(name: &str, value: JsonValue) -> AxProperty {
    AxProperty { name: name.to_string(), value: AxValue { value: Some(value) } }
}

fn options(interactive: bool, compact: bool, depth: Option<usize>) -> SnapshotOptions {
    SnapshotOptions { interactive, compact, depth, urls: false }
}

#[test]
fn renders_button_with_ref() {
    let nodes = vec![
        node("1", "RootWebArea", "Page", &["2"], Some(1)),
        node("2", "button", "Submit", &[], Some(5)),
    ];
    let out = format_snapshot(&nodes, &SnapshotOptions::default()).unwrap();
    assert_eq!(out.output, "- button \"Submit\" [ref=e1]");
    assert_eq!(out.refs.len(), 1);
    assert_eq!(out.refs[0].0, "e1");
    assert_eq!(out.refs[0].1.backend_node_id, 5);
    assert_eq!(out.refs[0].1.role, "button");
    assert_eq!(out.refs[0].1.name, "Submit");
}

#[test]
fn merges_static_text_runs() {
    let nodes = vec![
        node("1", "RootWebArea", "", &["2"], None),
        node("2", "paragraph", "", &["3", "4"], None),
        node("3", "StaticText", "Hello ", &[], None),
        node("4", "StaticText", "world", &[], None),
    ];
    let out = format_snapshot(&nodes, &SnapshotOptions::default()).unwrap();
    assert_eq!(out.output, "- paragraph\n  - StaticText \"Hello world\"");
    assert!(out.refs.is_empty());
}

#[test]
fn drops_static_text_that_repeats_the_name() {
    let nodes = vec![
        node("1", "link", "Home", &["2"], Some(3)),
        node("2", "StaticText", "Home", &[], None),
    ];
    let out = format_snapshot(&nodes, &SnapshotOptions::default()).unwrap();
    assert_eq!(out.output, "- link \"Home\" [ref=e1]");
}

#[test]
fn shows_heading_level_and_numbers_refs_in_order() {
    let mut heading = node("2", "heading", "Title", &[], Some(7));
    heading.properties = Some(vec![prop("level", JsonValue::Number(JsonNumber::PosInt(2)))]);
    let nodes = vec![
        node("1", "main", "", &["2", "3"], Some(1)),
        heading,
        node("3", "textbox", "Email", &[], Some(8)),
    ];
    let out = format_snapshot(&nodes, &SnapshotOptions::default()).unwrap();
    assert_eq!(
        out.output,
        "- main\n  - heading \"Title\" [level=2, ref=e1]\n  - textbox \"Email\" [ref=e2]"
    );
    assert_eq!(out.refs.len(), 2);
    assert_eq!(out.refs[1].0, "e2");
    assert_eq!(out.refs[1].1.backend_node_id, 8);
}

#[test]
fn interactive_mode_prints_only_refs() {
    let nodes = vec![
        node("1", "RootWebArea", "", &["2", "3"], None),
        node("2", "paragraph", "Intro", &[], Some(2)),
        node("3", "button", "OK", &[], Some(3)),
    ];
    let out = format_snapshot(&nodes, &options(true, false, None)).unwrap();
    assert_eq!(out.output, "- button \"OK\" [ref=e1]");
}

#[test]
fn empty_tree_says_so() {
    let nodes: Vec<AxNode> = Vec::new();
    let out = format_snapshot(&nodes, &SnapshotOptions::default()).unwrap();
    assert_eq!(out.output, "(empty page)");
    let out = format_snapshot(&nodes, &options(true, false, None)).unwrap();
    assert_eq!(out.output, "(no interactive elements)");
}

#[test]
fn depth_limit_cuts_subtrees() {
    let nodes = vec![
        node("1", "list", "", &["2"], None),
        node("2", "listitem", "", &["3"], None),
        node("3", "button", "Deep", &[], Some(9)),
    ];
    let out = format_snapshot(&nodes, &options(false, false, Some(1))).unwrap();
    assert_eq!(out.output, "- list\n  - listitem");
    assert_eq!(out.refs.len(), 1);
}

#[test]
fn ignored_and_inline_nodes_are_left_out() {
    let mut ignored = node("2", "generic", "hidden", &[], None);
    ignored.ignored = Some(true);
    let nodes = vec![
        node("1", "RootWebArea", "", &["2", "3"], None),
        ignored,
        node("3", "InlineTextBox", "x", &[], None),
    ];
    let out = format_snapshot(&nodes, &SnapshotOptions::default()).unwrap();
    assert_eq!(out.output, "(empty page)");
}

#[test]
fn generic_wrapper_passes_through() {
    let nodes = vec![
        node("1", "generic", "", &["2"], None),
        node("2", "checkbox", "Agree", &[], Some(4)),
    ];
    let out = format_snapshot(&nodes, &SnapshotOptions::default()).unwrap();
    assert_eq!(out.output, "- checkbox \"Agree\" [ref=e1]");
}

#[test]
fn names_are_quoted_as_json_without_invisible_chars() {
    let nodes = vec![node("1", "button", "a\"b\n\u{200B}", &[], Some(1))];
    let out = format_snapshot(&nodes, &SnapshotOptions::default()).unwrap();
    assert_eq!(out.output, "- button \"a\\\"b\\n\" [ref=e1]");
}

#[test]
fn shows_value_and_states() {
    let mut field = node("1", "textbox", "Name", &[], Some(1));
    field.value = text("Ada");
    field.properties = Some(vec![
        prop("disabled", JsonValue::Bool(true)),
        prop("required", JsonValue::Bool(true)),
        prop("expanded", JsonValue::Bool(false)),
    ]);
    let out = format_snapshot(&vec![field], &SnapshotOptions::default()).unwrap();
    assert_eq!(
        out.output,
        "- textbox \"Name\" [expanded=false, disabled, required, ref=e1]: Ada"
    );
}

#[test]
fn compact_keeps_marked_lines_and_their_ancestors() {
    let nodes = vec![
        node("1", "list", "", &["2", "3"], None),
        node("2", "listitem", "A", &[], Some(2)),
        node("3", "paragraph", "", &[], None),
        node("4", "paragraph", "Other", &[], None),
    ];
    let out = format_snapshot(&nodes, &options(false, true, None)).unwrap();
    assert_eq!(out.output, "- list\n  - listitem \"A\" [ref=e1]");
}

#[test]
fn compact_tree_rules() {
    let tree = "- list\n  - listitem \"A\" [ref=e1]\n  - listitem\n- paragraph";
    assert_eq!(compact_tree(tree, false), "- list\n  - listitem \"A\" [ref=e1]");
    assert_eq!(compact_tree("- paragraph\n- text", true), "(no interactive elements)");
    assert_eq!(compact_tree("- paragraph\n- text", false), "");
    assert_eq!(compact_tree("- a\n  - b\n    - c: 1", false), "- a\n  - b\n    - c: 1");
}

#[test]
fn count_indent_halves_whitespace_bytes() {
    assert_eq!(count_indent("    - x"), 2);
    assert_eq!(count_indent("- x"), 0);
    assert_eq!(count_indent("   - x"), 1);
    assert_eq!(count_indent("\u{3000}- x"), 1);
}

#[test]
fn ax_strings() {
    assert_eq!(extract_ax_string(&text("hi")), "hi");
    assert_eq!(
        extract_ax_string(&Some(AxValue { value: Some(JsonValue::Number(JsonNumber::NegInt(-5))) })),
        "-5"
    );
    assert_eq!(
        extract_ax_string(&Some(AxValue { value: Some(JsonValue::Bool(true)) })),
        "true"
    );
    assert_eq!(extract_ax_string(&Some(AxValue { value: Some(JsonValue::Null) })), "");
    assert_eq!(extract_ax_string(&None), "");
    assert_eq!(extract_ax_string_opt(&text("")), None);
    assert_eq!(extract_ax_string_opt(&text("v")), Some("v".to_string()));
    assert_eq!(
        extract_ax_string_opt(&Some(AxValue {
            value: Some(JsonValue::Number(JsonNumber::Float("1.5".to_string())))
        })),
        Some("1.5".to_string())
    );
    assert_eq!(extract_ax_string_opt(&Some(AxValue { value: Some(JsonValue::Bool(true)) })), None);
}

#[test]
fn properties_take_the_last_of_each_name() {
    let props = Some(vec![
        prop("level", JsonValue::Number(JsonNumber::PosInt(1))),
        prop("checked", JsonValue::Str("mixed".to_string())),
        prop("level", JsonValue::Number(JsonNumber::PosInt(3))),
        prop("selected", JsonValue::Bool(true)),
        prop("other", JsonValue::Bool(true)),
    ]);
    let (level, checked, expanded, selected, disabled, required) = extract_properties(&props);
    assert_eq!(level, Some(3));
    assert_eq!(checked, Some("mixed".to_string()));
    assert_eq!(expanded, None);
    assert_eq!(selected, Some(true));
    assert_eq!(disabled, None);
    assert_eq!(required, None);
    let (_, checked, _, _, _, _) = extract_properties(&Some(vec![prop("checked", JsonValue::Null)]));
    assert_eq!(checked, Some("false".to_string()));
}

#[test]
fn identifiers_from_strings_or_numbers() {
    assert_eq!(string_or_int(&JsonValue::Number(JsonNumber::PosInt(42))), Some("42".to_string()));
    assert_eq!(string_or_int(&JsonValue::Str("7".to_string())), Some("7".to_string()));
    assert_eq!(string_or_int(&JsonValue::Bool(true)), None);
    let ids = opt_vec_string_or_int(Some(vec![
        JsonValue::Str("1".to_string()),
        JsonValue::Number(JsonNumber::PosInt(2)),
        JsonValue::Null,
    ]));
    assert_eq!(ids, Some(vec!["1".to_string(), "2".to_string()]));
    assert_eq!(opt_vec_string_or_int(None), None);
}

#[test]
fn numeric_child_ids_link_children() {
    let mut parent = node("10", "navigation", "Main", &[], Some(1));
    parent.child_ids = opt_vec_string_or_int(Some(vec![JsonValue::Number(JsonNumber::PosInt(11))]));
    let nodes = vec![parent, node("11", "link", "Docs", &[], Some(2))];
    let out = format_snapshot(&nodes, &SnapshotOptions::default()).unwrap();
    assert_eq!(out.output, "- navigation \"Main\" [ref=e1]\n  - link \"Docs\" [ref=e2]");
}

#[test]
fn cycles_reachable_from_a_root_are_found() {
    let looped = vec![
        node("1", "main", "", &["2"], None),
        node("2", "group", "", &["3"], None),
        node("3", "group", "", &["2"], None),
    ];
    assert!(!snapshot_walk_ends(&looped));
    let detached = vec![
        node("1", "main", "", &[], None),
        node("2", "group", "", &["3"], None),
        node("3", "group", "", &["2"], None),
    ];
    assert!(snapshot_walk_ends(&detached));
    let out = format_snapshot(&detached, &SnapshotOptions::default()).unwrap();
    assert_eq!(out.output, "- main");
    let shared = vec![
        node("1", "main", "", &["2", "2"], None),
        node("2", "button", "Twice", &[], Some(4)),
    ];
    assert!(snapshot_walk_ends(&shared));
    let out = format_snapshot(&shared, &SnapshotOptions::default()).unwrap();
    assert_eq!(out.output, "- main\n  - button \"Twice\" [ref=e1]\n  - button \"Twice\" [ref=e1]");
}

#[test]
fn printed_refs_are_the_listed_refs() {
    let nodes = vec![
        node("1", "RootWebArea", "Page", &["2", "5"], Some(1)),
        node("2", "navigation", "Top", &["3", "4"], Some(2)),
        node("3", "link", "Home", &[], Some(3)),
        node("4", "link", "About", &[], Some(4)),
        node("5", "main", "", &["6", "7"], Some(5)),
        node("6", "heading", "Title", &[], Some(6)),
        node("7", "textbox", "", &[], Some(7)),
    ];
    let out = format_snapshot(&nodes, &SnapshotOptions::default()).unwrap();
    let mut printed: Vec<String> = Vec::new();
    for part in out.output.split("ref=").skip(1) {
        let label: String = part.chars().take_while(|c| c.is_ascii_alphanumeric()).collect();
        printed.push(label);
    }
    let listed: Vec<String> = out.refs.iter().map(|(label, _)| label.clone()).collect();
    assert_eq!(printed, vec!["e1", "e2", "e3", "e4", "e5"]);
    assert_eq!(listed, printed);
    let backends: Vec<i64> = out.refs.iter().map(|(_, r)| r.backend_node_id).collect();
    assert_eq!(backends, vec![2, 3, 4, 6, 7]);
    assert_eq!(out.refs[3].1.role, "heading");
    assert_eq!(out.refs[3].1.name, "Title");
}

#[test]
fn snapshots_are_trimmed_and_respect_depth_and_interactive_mode() {
    let nodes = vec![
        node("1", "RootWebArea", "Page", &["2"], Some(1)),
        node("2", "main", "", &["3", "4"], Some(2)),
        node("3", "list", "", &["5"], Some(3)),
        node("4", "button", "Go", &[], Some(4)),
        node("5", "listitem", "Deep", &["6"], Some(5)),
        node("6", "link", "Deeper", &[], Some(6)),
    ];
    for interactive in [false, true] {
        for depth in [None, Some(0), Some(1), Some(2)] {
            let out = format_snapshot(&nodes, &options(interactive, false, depth)).unwrap();
            assert_eq!(out.output, out.output.trim());
            assert!(!out.output.is_empty());
            for line in out.output.lines() {
                if let Some(d) = depth {
                    assert!(count_indent(line) <= d);
                }
                if interactive {
                    assert!(line.contains("ref=e") || out.output == "(no interactive elements)");
                }
            }
        }
    }
    let out = format_snapshot(&nodes, &options(false, false, Some(1))).unwrap();
    assert_eq!(out.output, "- main\n  - list\n  - button \"Go\" [ref=e1]");
    let out = format_snapshot(&nodes, &options(true, false, None)).unwrap();
    assert_eq!(
        out.output,
        "- listitem \"Deep\" [ref=e2]\n  - link \"Deeper\" [ref=e3]\n- button \"Go\" [ref=e1]"
    );
}

#[test]
fn snapshot_labels_are_distinct() {
    use_labels_distinct();
}

fn use_labels_distinct() {
    let nodes = vec![
        node("1", "main", "", &["2", "3"], Some(1)),
        node("2", "button", "A", &[], Some(2)),
        node("3", "link", "B", &[], Some(3)),
    ];
    let out = format_snapshot(&nodes, &SnapshotOptions::default()).unwrap();
    assert!(labels_distinct(&out.refs));
    let r = || SnapshotRef { backend_node_id: 1, role: "button".to_string(), name: "A".to_string() };
    let twice = vec![("e1".to_string(), r()), ("e1".to_string(), r())];
    assert!(!labels_distinct(&twice));
    assert!(labels_distinct(&Vec::new()));
}
