use agent_browser_wasm::json::{JsonNumber, JsonValue};
use agent_browser_wasm::runtime::{
    action, action_kind, action_response, agent_preflight, apply_mouse_button,
    call_on_declaration, command_help_text, command_input, command_line_input,
    command_line_words, decode_println_format, extract_raw_string, format_response,
    full_help_text, key_text, mouse_button_mask, normalize_ref, page_content, parse_bool_arg,
    prepare_command, required_string, reset_state, resolve_ref, response_error,
    runtime_result_value, selector_expression, snapshot_data, snapshot_options, stale_ref_error,
    style_lines, truncate_if_needed, unavailable_top_level_command, unsupported_action,
    wasm_flags, ActionKind, LineStep, OutputOptions, RefTarget, Response, ResponseFormat,
    RunOutput, WasmFlags, WasmState,
};
use agent_browser_wasm::snapshot_format::{format_snapshot, AxNode, AxValue, SnapshotOptions};
use agent_browser_wasm::wasm_support::gen_id;
use agent_browser_wasm::runtime::{
    clears_first, click_button, click_counts, click_duration, constant_reply, drag_plan,
    keyboard_inserts, requested_steps, single_select_value, state_check_script,
};
use agent_browser_wasm::runtime::{
    attached_session, attribute_function, check_function, count_script, pick_target,
    resolved_object_id, wait_timeout_script, wait_url_script,
};

fn s(v: &str) -> JsonValue {
    JsonValue::Str(v.to_string())
}

fn n(v: u64) -> JsonValue {
    JsonValue::Number(JsonNumber::PosInt(v))
}

fn obj(entries: Vec<(&str, JsonValue)>) -> JsonValue {
    JsonValue::Object(entries.into_iter().map(|(k, v)| (k.to_string(), v)).collect())
}

fn args(v: &[&str]) -> Vec<String> {
    v.iter().map(|a| a.to_string()).collect()
}

fn defaults() -> WasmFlags {
    WasmFlags {
        json: false,
        content_boundaries: false,
        max_output: None,
        cdp: None,
        session: "default".to_string(),
        input_mode: "instant".to_string(),
        verbose: false,
        quiet: false,
    }
}

fn plain() -> OutputOptions {
    OutputOptions { json: false, content_boundaries: false, max_output: None }
}

const HELP: &str = "pub fn print_help() {\n    println!(r#\"Usage: {{cmd}}\"#);\n}\npub fn print_command_help(command: &str) {\n    match command {\n        \"click\" => println!(r#\"\n  click <sel>\n\"#),\n        _ => {}\n    }\n}\n";

#[test]
fn run_output_constructors() {
    let o = RunOutput::success("hi".to_string());
    assert_eq!((o.stdout.as_str(), o.stderr.as_str(), o.exit_code, o.clear), ("hi", "", 0, false));
    let o = RunOutput::clear();
    assert_eq!((o.stdout.as_str(), o.stderr.as_str(), o.exit_code, o.clear), ("", "", 0, true));
    let o = RunOutput::error("bad".to_string());
    assert_eq!((o.stdout.as_str(), o.stderr.as_str(), o.exit_code, o.clear), ("", "bad", 1, false));
}

#[test]
fn flags_are_read_and_values_consumed() {
    let f = wasm_flags(
        &args(&["--json", "snapshot", "--max-output", "100", "-v", "--session", "s1"]),
        defaults(),
    );
    assert!(f.json);
    assert_eq!(f.max_output, Some(100));
    assert!(f.verbose);
    assert!(!f.quiet);
    assert_eq!(f.session, "s1");
    let f = wasm_flags(&args(&["--json", "false", "--content-boundaries", "-q"]), defaults());
    assert!(!f.json);
    assert!(f.content_boundaries);
    assert!(f.quiet);
    let f = wasm_flags(&args(&["--max-output", "-5", "--cdp", "ws://x", "--input-mode"]), defaults());
    assert_eq!(f.max_output, None);
    assert_eq!(f.cdp, Some("ws://x".to_string()));
    assert_eq!(f.input_mode, "instant");
    let f = wasm_flags(&args(&["--max-output", "+7", "--input-mode", "human"]), defaults());
    assert_eq!(f.max_output, Some(7));
    assert_eq!(f.input_mode, "human");
}

#[test]
fn bool_args() {
    let a = args(&["--json", "true", "x"]);
    assert_eq!(parse_bool_arg(&a, 0), (true, true));
    assert_eq!(parse_bool_arg(&args(&["--json", "false"]), 0), (false, true));
    assert_eq!(parse_bool_arg(&args(&["--json", "yes"]), 0), (true, false));
    assert_eq!(parse_bool_arg(&args(&["--json"]), 0), (true, false));
}

#[test]
fn unavailable_commands() {
    assert_eq!(
        unavailable_top_level_command(&args(&["install"])),
        Some("Command is not available in the browser build: install".to_string())
    );
    assert_eq!(
        unavailable_top_level_command(&args(&["quit", "--all"])),
        Some("Command is not available in the browser build: close --all".to_string())
    );
    assert_eq!(unavailable_top_level_command(&args(&["close"])), None);
    assert_eq!(unavailable_top_level_command(&args(&["open", "x"])), None);
    assert_eq!(unavailable_top_level_command(&args(&[])), None);
}

#[test]
fn refs_in_selectors() {
    assert_eq!(normalize_ref("@e12"), Some("e12".to_string()));
    assert_eq!(normalize_ref("e3"), Some("e3".to_string()));
    assert_eq!(normalize_ref("e"), None);
    assert_eq!(normalize_ref("e1a"), None);
    assert_eq!(normalize_ref("#button"), None);
    assert_eq!(normalize_ref("@@e1"), None);
}

#[test]
fn truncation_and_page_content() {
    assert_eq!(truncate_if_needed("abcdef", None), "abcdef");
    assert_eq!(truncate_if_needed("abc", Some(3)), "abc");
    assert_eq!(
        truncate_if_needed("abcdef", Some(3)),
        "abc\n[truncated: showing 3 of 6 chars. Use --max-output to adjust]"
    );
    assert_eq!(
        truncate_if_needed("héllo", Some(2)),
        "hé\n[truncated: showing 2 of 5 chars. Use --max-output to adjust]"
    );
    let framed = OutputOptions { json: false, content_boundaries: true, max_output: None };
    assert_eq!(
        page_content("body", Some("https://x"), &framed),
        "--- AGENT_BROWSER_PAGE_CONTENT nonce=wasm origin=https://x ---\nbody\n--- END_AGENT_BROWSER_PAGE_CONTENT nonce=wasm ---"
    );
    assert_eq!(
        page_content("b", None, &framed),
        "--- AGENT_BROWSER_PAGE_CONTENT nonce=wasm origin=unknown ---\nb\n--- END_AGENT_BROWSER_PAGE_CONTENT nonce=wasm ---"
    );
    assert_eq!(page_content("body", Some("o"), &plain()), "body");
}

#[test]
fn raw_strings_and_braces() {
    assert_eq!(
        extract_raw_string("let x = r#\"hello \"world\"\"#;"),
        Some("hello \"world\"".to_string())
    );
    assert_eq!(extract_raw_string("for r\"x\" y"), Some("x".to_string()));
    assert_eq!(extract_raw_string("no raw here"), None);
    assert_eq!(extract_raw_string("r##\"never closed\"#"), None);
    assert_eq!(decode_println_format("{{a}} {{{{"), "{a} {{");
}

#[test]
fn help_texts() {
    assert_eq!(full_help_text(HELP), "Usage: {cmd}");
    assert_eq!(full_help_text("nothing"), "agent-browser - fast browser automation CLI for AI agents");
    assert_eq!(command_help_text(HELP, "click"), Some("click <sel>".to_string()));
    assert_eq!(command_help_text(HELP, "fill"), None);
}

#[test]
fn evaluation_results() {
    let ok = obj(vec![("result", obj(vec![("type", s("string")), ("value", s("hi"))]))]);
    assert!(matches!(runtime_result_value(ok), Ok(JsonValue::Str(v)) if v == "hi"));
    let err = obj(vec![(
        "exceptionDetails",
        obj(vec![("exception", obj(vec![("description", s("Error: boom"))])), ("text", s("Uncaught"))]),
    )]);
    assert!(matches!(runtime_result_value(err), Err(e) if e == "Error: boom"));
    let err = obj(vec![("exceptionDetails", obj(vec![("text", s("Uncaught"))]))]);
    assert!(matches!(runtime_result_value(err), Err(e) if e == "Uncaught"));
    let err = obj(vec![("exceptionDetails", obj(vec![]))]);
    assert!(matches!(runtime_result_value(err), Err(e) if e == "JavaScript exception"));
    let nan = obj(vec![("result", obj(vec![("unserializableValue", s("NaN"))]))]);
    assert!(matches!(runtime_result_value(nan), Ok(JsonValue::Str(v)) if v == "NaN"));
    let undefined = obj(vec![("result", obj(vec![("type", s("undefined"))]))]);
    assert!(matches!(runtime_result_value(undefined), Ok(JsonValue::Null)));
    let bare = obj(vec![("value", n(4))]);
    assert!(matches!(runtime_result_value(bare), Ok(JsonValue::Number(JsonNumber::PosInt(4)))));
}

fn ok_response(data: JsonValue) -> Response {
    action_response(Ok(data))
}

#[test]
fn reply_formats() {
    let json = OutputOptions { json: true, content_boundaries: false, max_output: None };
    assert!(matches!(format_response(&ok_response(obj(vec![])), None, &json), ResponseFormat::ResponseJson));
    let failed = response_error("boom".to_string());
    assert!(matches!(format_response(&failed, None, &plain()), ResponseFormat::Failure(e) if e == "boom"));
    let unknown = Response { success: false, data: None, error: None, warning: None };
    assert!(matches!(format_response(&unknown, None, &plain()), ResponseFormat::Failure(e) if e == "Unknown error"));
    let nav = ok_response(obj(vec![("title", s("T")), ("url", s("U"))]));
    assert!(matches!(format_response(&nav, None, &plain()), ResponseFormat::Navigated(t, u) if t == "T" && u == "U"));
    let url = ok_response(obj(vec![("url", s("U"))]));
    assert!(matches!(format_response(&url, None, &plain()), ResponseFormat::Print(t) if t == "U"));
    let count = ok_response(obj(vec![("count", n(3))]));
    assert!(matches!(format_response(&count, None, &plain()), ResponseFormat::Print(t) if t == "3"));
    let empty = ok_response(obj(vec![]));
    assert!(matches!(format_response(&empty, None, &plain()), ResponseFormat::Print(t) if t.is_empty()));
    let visible = ok_response(obj(vec![("visible", JsonValue::Bool(true))]));
    assert!(matches!(format_response(&visible, None, &plain()), ResponseFormat::Print(t) if t == "true"));
    let bbox = ok_response(obj(vec![("x", n(1))]));
    assert!(matches!(format_response(&bbox, Some("boundingbox"), &plain()), ResponseFormat::BoundingBox));
    let styles = ok_response(obj(vec![("styles", obj(vec![("color", s("red")), ("x", n(1))]))]));
    match format_response(&styles, None, &plain()) {
        ResponseFormat::Styles(lines) => {
            assert_eq!(lines, vec![("color".to_string(), Some("red".to_string())), ("x".to_string(), None)]);
        }
        _ => panic!("expected styles"),
    }
    let result = ok_response(obj(vec![("origin", s("o")), ("result", n(1))]));
    assert!(matches!(format_response(&result, None, &plain()), ResponseFormat::PrettyResult(Some(o)) if o == "o"));
    let other = ok_response(obj(vec![("foo", n(1))]));
    assert!(matches!(format_response(&other, None, &plain()), ResponseFormat::PrettyData));
    let snap = ok_response(obj(vec![("origin", s("https://a")), ("snapshot", s("- x"))]));
    let framed = OutputOptions { json: false, content_boundaries: true, max_output: Some(3) };
    assert!(matches!(format_response(&snap, None, &framed), ResponseFormat::Print(t) if t == "--- AGENT_BROWSER_PAGE_CONTENT nonce=wasm origin=https://a ---\n- x\n--- END_AGENT_BROWSER_PAGE_CONTENT nonce=wasm ---"));
    let none = Response { success: true, data: None, error: None, warning: None };
    assert!(matches!(format_response(&none, None, &plain()), ResponseFormat::Print(t) if t.is_empty()));
    assert_eq!(
        style_lines(&vec![("a".to_string(), "1".to_string()), ("b".to_string(), "2".to_string())]),
        "a: 1\nb: 2"
    );
}

#[test]
fn command_lines() {
    assert!(matches!(command_line_input("   "), LineStep::Done(o) if o.stdout.is_empty() && o.exit_code == 0));
    assert!(matches!(command_line_input("  agent-browser open  "), LineStep::Split(t) if t == "agent-browser open"));
    assert!(matches!(command_line_words(args(&["agent-browser", "open", "x"])), LineStep::Run(a) if a == args(&["open", "x"])));
    assert!(matches!(command_line_words(args(&["clear"])), LineStep::Done(o) if o.clear));
    assert!(matches!(command_line_words(args(&["ls"])), LineStep::Done(o) if o.stderr == "bash: command not found: ls" && o.exit_code == 1));
    assert!(matches!(command_line_words(args(&[])), LineStep::Done(o) if o.stdout.is_empty() && !o.clear));
    assert!(matches!(command_input("", HELP), LineStep::Done(o) if o.stdout == "Usage: {cmd}"));
    assert!(matches!(command_input(" open x ", HELP), LineStep::Split(t) if t == "open x"));
}

#[test]
fn preflight_outputs() {
    let o = agent_preflight(&args(&["--help"]), &args(&[]), HELP, "1.2.3").unwrap();
    assert_eq!(o.stdout, "Usage: {cmd}");
    let o = agent_preflight(&args(&["click", "-h"]), &args(&["click"]), HELP, "1.2.3").unwrap();
    assert_eq!(o.stdout, "click <sel>");
    let o = agent_preflight(&args(&["fill", "-h"]), &args(&["fill"]), HELP, "1.2.3").unwrap();
    assert_eq!(o.stdout, "Usage: {cmd}");
    let o = agent_preflight(&args(&["-V"]), &args(&[]), HELP, "1.2.3").unwrap();
    assert_eq!(o.stdout, "agent-browser 1.2.3");
    let o = agent_preflight(&args(&["--json"]), &args(&[]), HELP, "1.2.3").unwrap();
    assert_eq!(o.stdout, "Usage: {cmd}");
    let o = agent_preflight(&args(&["chat"]), &args(&["chat"]), HELP, "1.2.3").unwrap();
    assert_eq!(o.stderr, "Command is not available in the browser build: chat");
    assert_eq!(o.exit_code, 1);
    assert!(agent_preflight(&args(&["open", "x"]), &args(&["open", "x"]), HELP, "1.2.3").is_none());
}

#[test]
fn commands_made_ready() {
    let (command, act) = prepare_command(Ok(obj(vec![("action", s("click"))])), &defaults()).unwrap();
    assert_eq!(act, Some("click".to_string()));
    assert!(matches!(command.get("inputMode"), Some(JsonValue::Str(m)) if m == "instant"));
    let kept = obj(vec![("action", s("hover")), ("inputMode", s("human"))]);
    let (command, _) = prepare_command(Ok(kept), &defaults()).unwrap();
    assert!(matches!(command.get("inputMode"), Some(JsonValue::Str(m)) if m == "human"));
    let mut fast = defaults();
    fast.input_mode = "fast".to_string();
    let err = prepare_command(Ok(obj(vec![])), &fast).err().unwrap();
    assert_eq!(err.stderr, "--input-mode must be instant, smooth, or human");
    let err = prepare_command(Err("bad".to_string()), &defaults()).err().unwrap();
    assert_eq!(err.stderr, "bad");
    let (command, act) = prepare_command(Ok(JsonValue::Null), &defaults()).unwrap();
    assert_eq!(act, None);
    assert!(matches!(command.get("inputMode"), Some(JsonValue::Str(m)) if m == "instant"));
}

#[test]
fn actions_and_fields() {
    assert!(matches!(action_kind("dblclick"), ActionKind::Click(2)));
    assert!(matches!(action_kind("click"), ActionKind::Click(1)));
    assert!(matches!(action_kind("uncheck"), ActionKind::Check(false)));
    assert!(matches!(action_kind("mouseup"), ActionKind::MouseButton(false)));
    assert!(matches!(action_kind("pdf"), ActionKind::Unsupported));
    assert_eq!(unsupported_action("pdf"), "Command is not available in the browser build: pdf");
    let command = obj(vec![("action", s("fill")), ("selector", s("")), ("value", s("x"))]);
    assert_eq!(action(&command), "fill");
    assert_eq!(action(&obj(vec![])), "");
    assert_eq!(required_string(&command, "value"), Ok("x"));
    assert_eq!(required_string(&command, "selector"), Err("selector is required".to_string()));
    assert_eq!(required_string(&command, "url"), Err("url is required".to_string()));
}

#[test]
fn mouse_and_keys() {
    assert_eq!(mouse_button_mask("right"), Ok(2));
    assert_eq!(mouse_button_mask("forward"), Ok(16));
    assert_eq!(mouse_button_mask("x"), Err("Invalid mouse button: x".to_string()));
    assert_eq!(apply_mouse_button(1, 2, true), 3);
    assert_eq!(apply_mouse_button(3, 1, false), 2);
    assert_eq!(apply_mouse_button(apply_mouse_button(4, 1, true), 1, false), 4);
    assert_eq!(key_text("a"), "a");
    assert_eq!(key_text("é"), "é");
    assert_eq!(key_text("Enter"), "");
}

#[test]
fn request_ids() {
    assert_eq!(gen_id(1_234_567_890), "r567890");
    assert_eq!(gen_id(5_000_000), "r0");
    assert_eq!(gen_id(42), "r42");
}

fn ax(id: &str, role: &str, name: &str, children: &[&str], backend: Option<i64>) -> AxNode {
    AxNode {
        node_id: id.to_string(),
        role: Some(AxValue { value: Some(s(role)) }),
        name: Some(AxValue { value: Some(s(name)) }),
        value: None,
        properties: None,
        child_ids: Some(children.iter().map(|c| c.to_string()).collect()),
        backend_d_o_m_node_id: backend,
        ignored: None,
    }
}

#[test]
fn refs_are_stored_and_forgotten() {
    let nodes = vec![ax("1", "form", "", &["2", "3"], None), ax("2", "button", "Go", &[], Some(11)), ax("3", "link", "Back", &[], Some(12))];
    let snapshot = format_snapshot(&nodes, &SnapshotOptions::default()).unwrap();
    let mut state = WasmState::new();
    state.store_refs(snapshot.refs);
    assert_eq!(state.lookup_ref("e2").map(|r| r.backend_node_id), Some(12));
    assert!(matches!(resolve_ref(&state, "@e1"), RefTarget::Node(l, 11) if l == "e1"));
    assert!(matches!(resolve_ref(&state, "#go"), RefTarget::Selector));
    assert!(matches!(resolve_ref(&state, "@e9"), RefTarget::Missing(m) if m == "Ref not found: @e9. Run agent-browser snapshot again."));
    reset_state(&mut state);
    assert!(state.lookup_ref("e1").is_none());
    assert!(matches!(resolve_ref(&state, "e1"), RefTarget::Missing(_)));
    assert_eq!(stale_ref_error("e4"), "Ref is stale: @e4. Run agent-browser snapshot again.");
}

#[test]
fn snapshot_replies() {
    let command = obj(vec![("compact", JsonValue::Bool(true)), ("interactive", JsonValue::Bool(false)), ("maxDepth", n(3))]);
    let options = snapshot_options(&command);
    assert!(options.compact && !options.interactive && !options.urls);
    assert_eq!(options.depth, Some(3));
    let nodes = vec![ax("1", "button", "Go", &[], Some(11))];
    let snapshot = format_snapshot(&nodes, &SnapshotOptions::default()).unwrap();
    let data = snapshot_data(snapshot.output, &snapshot.refs, &s("https://a"));
    assert!(matches!(data.get("snapshot"), Some(JsonValue::Str(t)) if t == "- button \"Go\" [ref=e1]"));
    assert!(matches!(data.get("origin"), Some(JsonValue::Str(t)) if t == "https://a"));
    let refs = data.get("refs").unwrap();
    let e1 = refs.get("e1").unwrap();
    assert!(matches!(e1.get("role"), Some(JsonValue::Str(t)) if t == "button"));
    assert!(matches!(e1.get("name"), Some(JsonValue::Str(t)) if t == "Go"));
    let data = snapshot_data("x".to_string(), &Vec::new(), &JsonValue::Null);
    assert!(matches!(data.get("origin"), Some(JsonValue::Str(t)) if t.is_empty()));
}

#[test]
fn element_scripts() {
    let script = selector_expression("#a\"b", "(el) => el.id");
    assert_eq!(
        script,
        "(() => {\n                const selector = \"#a\\\"b\";\n                const element = document.querySelector(selector);\n                if (!element) throw new Error(\"No element matches selector: \" + selector);\n                return ((el) => el.id)(element);\n            })()"
    );
    assert_eq!(call_on_declaration("(el) => 1"), "function() { return ((el) => 1)(this); }");
}

#[test]
fn targets_and_sessions() {
    let targets = obj(vec![(
        "targetInfos",
        JsonValue::Array(vec![
            obj(vec![("targetId", s("w1")), ("type", s("worker"))]),
            obj(vec![("targetId", s("p1")), ("type", s("page"))]),
        ]),
    )]);
    assert_eq!(pick_target(&targets), Ok("p1".to_string()));
    let only_worker = obj(vec![(
        "targetInfos",
        JsonValue::Array(vec![obj(vec![("targetId", s("w1")), ("type", s("worker"))])]),
    )]);
    assert_eq!(pick_target(&only_worker), Ok("w1".to_string()));
    let none = obj(vec![("targetInfos", JsonValue::Array(vec![]))]);
    assert_eq!(pick_target(&none), Err("CDP endpoint did not expose a target".to_string()));
    assert_eq!(attached_session(&obj(vec![("sessionId", s("S"))])), Ok("S".to_string()));
    assert_eq!(
        attached_session(&obj(vec![])),
        Err("CDP endpoint did not return a sessionId".to_string())
    );
}

#[test]
fn action_scripts() {
    assert_eq!(wait_timeout_script(250), "new Promise(resolve => setTimeout(resolve, 250))");
    assert_eq!(count_script("a.b"), "document.querySelectorAll(\"a.b\").length");
    assert_eq!(attribute_function("href"), "(element) => element.getAttribute(\"href\")");
    assert!(check_function(false).contains("element.checked = false;"));
    assert!(wait_url_script("**/done").contains("const expected = \"**/done\".replace"));
}

#[test]
fn resolved_node_gives_its_object_or_a_stale_ref() {
    let resolved = obj(vec![("object", obj(vec![("objectId", s("obj-7")), ("type", s("object"))]))]);
    assert_eq!(resolved_object_id(&resolved, "e3"), Ok("obj-7".to_string()));
    let gone = obj(vec![("object", obj(vec![("type", s("object"))]))]);
    assert_eq!(
        resolved_object_id(&gone, "e3"),
        Err("Ref is stale: @e3. Run agent-browser snapshot again.".to_string())
    );
    assert_eq!(
        resolved_object_id(&obj(vec![]), "e9"),
        Err("Ref is stale: @e9. Run agent-browser snapshot again.".to_string())
    );
    assert_eq!(
        resolved_object_id(&obj(vec![("object", obj(vec![("objectId", n(5))]))]), "e1"),
        Err("Ref is stale: @e1. Run agent-browser snapshot again.".to_string())
    );
}

#[test]
fn last_input_mode_wins_and_plain_words_keep_defaults() {
    let f = wasm_flags(
        &args(&["--input-mode", "smooth", "click", "--json", "--input-mode", "human"]),
        defaults(),
    );
    assert_eq!(f.input_mode, "human");
    assert!(f.json);
    let f = wasm_flags(&args(&["--max-output", "--input-mode", "smooth"]), defaults());
    assert_eq!(f.input_mode, "smooth");
    assert_eq!(f.max_output, None);
    let f = wasm_flags(&args(&["--cdp", "--input-mode", "smooth"]), defaults());
    assert_eq!(f.cdp, Some("--input-mode".to_string()));
    assert_eq!(f.input_mode, "instant");
    let f = wasm_flags(&args(&["open", "example.com", "--", "x"]), defaults());
    let d = defaults();
    assert_eq!(f.json, d.json);
    assert_eq!(f.content_boundaries, d.content_boundaries);
    assert_eq!(f.max_output, d.max_output);
    assert_eq!(f.cdp, d.cdp);
    assert_eq!(f.session, d.session);
    assert_eq!(f.input_mode, d.input_mode);
    assert_eq!(f.verbose, d.verbose);
    assert_eq!(f.quiet, d.quiet);
}

#[test]
fn argv_json_is_decoded_or_reported() {
    match agent_browser_wasm::runtime::argv_input(r#"["fill", "@e1", "Olim"]"#) {
        Ok(args) => assert_eq!(args, vec!["fill".to_string(), "@e1".to_string(), "Olim".to_string()]),
        Err(_) => panic!("argv should decode"),
    }
    match agent_browser_wasm::runtime::argv_input("[]") {
        Ok(args) => assert!(args.is_empty()),
        Err(_) => panic!("an empty argv should decode"),
    }
    match agent_browser_wasm::runtime::argv_input("fill @e1") {
        Ok(_) => panic!("plain text is not argv JSON"),
        Err(o) => {
            assert_eq!(o.stdout, "");
            assert_eq!(o.stderr, "Invalid argv JSON: expected ident at line 1 column 2");
            assert_eq!(o.exit_code, 1);
            assert!(!o.clear);
        }
    }
    match agent_browser_wasm::runtime::argv_input("[1]") {
        Ok(_) => panic!("numbers are not arguments"),
        Err(o) => assert!(o.stderr.starts_with("Invalid argv JSON: invalid type: integer `1`")),
    }
    match agent_browser_wasm::runtime::argv_step(Err("boom".to_string())) {
        Ok(_) => panic!("an error stays an error"),
        Err(o) => assert_eq!(o.stderr, "Invalid argv JSON: boom"),
    }
}

#[test]
fn small_action_decisions() {
    match constant_reply(&ActionKind::CdpUrl) {
        Some(JsonValue::Object(e)) => {
            assert_eq!(e.len(), 1);
            assert_eq!(e[0].0, "cdpUrl");
            assert!(matches!(&e[0].1, JsonValue::Str(u) if u == "in-page://icdp"));
        }
        _ => panic!("cdp_url answers with its URL"),
    }
    assert!(matches!(constant_reply(&ActionKind::Launch), Some(JsonValue::Object(e)) if e.is_empty()));
    assert!(matches!(constant_reply(&ActionKind::WaitForLoadState), Some(JsonValue::Object(e)) if e.is_empty()));
    assert!(constant_reply(&ActionKind::Snapshot).is_none());
    assert!(state_check_script("enabled").unwrap().contains("aria-disabled"));
    assert!(state_check_script("checked").unwrap().contains("aria-checked"));
    assert!(state_check_script("visible").unwrap().contains("getBoundingClientRect"));
    assert_eq!(state_check_script("hidden"), Err("Unsupported state check: hidden".to_string()));
    assert_eq!(keyboard_inserts(&obj(vec![("subaction", s("type"))])), Ok(()));
    assert_eq!(keyboard_inserts(&obj(vec![("subaction", s("insertText"))])), Ok(()));
    assert_eq!(
        keyboard_inserts(&obj(vec![("subaction", s("press"))])),
        Err("Unsupported keyboard subcommand".to_string())
    );
    assert_eq!(keyboard_inserts(&obj(vec![])), Err("Unsupported keyboard subcommand".to_string()));
    assert!(clears_first(&obj(vec![("clear", JsonValue::Bool(true))])));
    assert!(!clears_first(&obj(vec![("clear", JsonValue::Bool(false))])));
    assert!(!clears_first(&obj(vec![])));
    assert_eq!(click_duration(&obj(vec![("inputMode", s("smooth"))])), Some(200));
    assert_eq!(click_duration(&obj(vec![("inputMode", s("human"))])), None);
    assert_eq!(click_button(&obj(vec![("button", s("right"))])), "right");
    assert_eq!(click_button(&obj(vec![])), "left");
    assert_eq!(click_counts(2), vec![1, 2]);
    assert_eq!(click_counts(0), Vec::<i64>::new());
    let plan = drag_plan(&obj(vec![("inputMode", s("human")), ("seed", n(41))]));
    assert_eq!(plan.first_steps, None);
    assert_eq!(plan.second_duration, 250);
    assert_eq!(plan.second_steps, None);
    assert_eq!(plan.second_seed, 42);
    let plan = drag_plan(&obj(vec![("seed", n(u64::MAX))]));
    assert_eq!(plan.first_steps, Some(1));
    assert_eq!(plan.second_duration, 100);
    assert_eq!(plan.second_steps, Some(10));
    assert_eq!(plan.second_seed, 0);
    assert_eq!(requested_steps(Some(500), Some("human"), 0), Some(240));
    assert_eq!(requested_steps(Some(24), Some("human"), 0), Some(24));
    assert_eq!(requested_steps(None, Some("instant"), 0), Some(1));
    assert_eq!(requested_steps(None, None, 0), Some(1));
    assert_eq!(requested_steps(None, Some("instant"), 300), None);
    assert_eq!(requested_steps(None, Some("smooth"), 0), None);
    assert_eq!(single_select_value(&obj(vec![("values", s("a"))])), Some("a"));
    assert_eq!(single_select_value(&obj(vec![("values", JsonValue::Array(vec![s("a")]))])), None);
}
