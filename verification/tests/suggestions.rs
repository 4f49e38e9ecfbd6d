use cargo_vibe::json::Json;
use cargo_vibe::suggestion::{
    collect_suggestions_from_message, collect_suggestions_with_lint, parse_suggestion_from_span,
    suggestions_in_documents, suggestions_in_output, ClippySuggestion,
};

fn text(s: &str) -> Json {
    Json::Text(s.to_string())
}

fn number(n: u64) -> Json {
    Json::Number(Some(n))
}

fn object(members: Vec<(&str, Json)>) -> Json {
    Json::Object(members.into_iter().map(|(name, value)| (name.to_string(), value)).collect())
}

fn span(start: u64, end: u64, applicability: &str, replacement: &str) -> Json {
    object(vec![
        ("file_name", text("src/lib.rs")),
        ("byte_start", number(start)),
        ("byte_end", number(end)),
        ("suggestion_applicability", text(applicability)),
        ("suggested_replacement", text(replacement)),
    ])
}

fn collected(message: &Json) -> Vec<ClippySuggestion> {
    let mut suggestions = Vec::new();
    collect_suggestions_from_message(message, &mut suggestions);
    suggestions
}

#[test]
fn test_parse_suggestions() {
    let msg = object(vec![
        ("reason", text("compiler-message")),
        (
            "message",
            object(vec![
                ("message", text("use of a blacklisted word")),
                ("code", object(vec![("code", text("clippy::example_lint"))])),
                (
                    "spans",
                    Json::Array(vec![object(vec![
                        ("file_name", text("src/lib.rs")),
                        ("byte_start", number(10)),
                        ("byte_end", number(15)),
                        ("suggestion_applicability", text("MachineApplicable")),
                        ("suggested_replacement", text("hello")),
                    ])]),
                ),
                (
                    "children",
                    Json::Array(vec![object(vec![
                        ("message", text("try this instead")),
                        ("code", Json::Null),
                        (
                            "spans",
                            Json::Array(vec![
                                object(vec![
                                    ("file_name", text("src/lib.rs")),
                                    ("byte_start", number(20)),
                                    ("byte_end", number(25)),
                                    ("suggestion_applicability", text("MaybeIncorrect")),
                                    ("suggested_replacement", text("world")),
                                ]),
                                object(vec![
                                    ("file_name", text("src/lib.rs")),
                                    ("byte_start", number(30)),
                                    ("byte_end", number(35)),
                                    ("suggestion_applicability", text("MachineApplicable")),
                                    ("suggested_replacement", text("rust")),
                                ]),
                            ]),
                        ),
                    ])]),
                ),
            ]),
        ),
    ]);

    let mut suggestions = Vec::new();
    if let Some(m) = msg.get("message") {
        collect_suggestions_from_message(m, &mut suggestions);
    }

    assert_eq!(suggestions.len(), 2);
    assert_eq!(suggestions[0].replacement, "hello");
    assert_eq!(suggestions[0].byte_start, 10);
    assert_eq!(suggestions[0].byte_end, 15);
    assert_eq!(suggestions[0].lint.as_deref(), Some("clippy::example_lint"));
    assert_eq!(suggestions[1].replacement, "rust");
    assert_eq!(suggestions[1].byte_start, 30);
    assert_eq!(suggestions[1].byte_end, 35);
    // Child spans inherit the lint name from the parent diagnostic.
    assert_eq!(suggestions[1].lint.as_deref(), Some("clippy::example_lint"));
}

#[test]
fn suggestions_are_added_behind_those_that_are_there() {
    let message = object(vec![("spans", Json::Array(vec![span(1, 2, "MachineApplicable", "a")]))]);
    let mut suggestions = collected(&message);
    assert_eq!(suggestions[0].lint, None);
    collect_suggestions_from_message(
        &object(vec![("spans", Json::Array(vec![span(3, 4, "MachineApplicable", "b")]))]),
        &mut suggestions,
    );
    let starts: Vec<usize> = suggestions.iter().map(|s| s.byte_start).collect();
    assert_eq!(starts, vec![1, 3]);
}

#[test]
fn an_incomplete_span_suggests_nothing() {
    let names = [
        "file_name",
        "byte_start",
        "byte_end",
        "suggestion_applicability",
        "suggested_replacement",
    ];
    for missing in names {
        let mut members = vec![
            ("file_name", text("src/lib.rs")),
            ("byte_start", number(10)),
            ("byte_end", number(15)),
            ("suggestion_applicability", text("MachineApplicable")),
            ("suggested_replacement", text("hello")),
        ];
        members.retain(|(name, _)| *name != missing);
        let message = object(vec![("spans", Json::Array(vec![object(members)]))]);
        assert_eq!(collected(&message), Vec::new());
    }
    let negative = object(vec![
        ("file_name", text("src/lib.rs")),
        ("byte_start", Json::Number(None)),
        ("byte_end", number(15)),
        ("suggestion_applicability", text("MachineApplicable")),
        ("suggested_replacement", text("hello")),
    ]);
    assert_eq!(collected(&object(vec![("spans", Json::Array(vec![negative]))])), Vec::new());
}

#[test]
fn a_child_with_a_lint_of_its_own_keeps_it() {
    let child = |code: Json| {
        object(vec![
            ("code", code),
            ("spans", Json::Array(vec![span(1, 1, "MachineApplicable", "x")])),
            (
                "children",
                Json::Array(vec![object(vec![(
                    "spans",
                    Json::Array(vec![span(2, 2, "MachineApplicable", "y")]),
                )])]),
            ),
        ])
    };
    let message = object(vec![
        ("code", object(vec![("code", text("outer"))])),
        (
            "children",
            Json::Array(vec![
                child(object(vec![("code", text("inner"))])),
                child(text("no object")),
            ]),
        ),
    ]);
    let lints: Vec<Option<String>> = collected(&message).into_iter().map(|s| s.lint).collect();
    let expected = ["inner", "inner", "outer", "outer"].map(|name| Some(name.to_string()));
    assert_eq!(lints, expected.to_vec());
}

#[test]
fn own_spans_come_before_children() {
    let leaf = |start: u64| {
        object(vec![("spans", Json::Array(vec![span(start, start, "MachineApplicable", "x")]))])
    };
    let message = object(vec![
        ("children", Json::Array(vec![leaf(3), leaf(4)])),
        (
            "spans",
            Json::Array(vec![
                span(1, 1, "MachineApplicable", "x"),
                span(9, 9, "Unspecified", "x"),
                span(2, 2, "MachineApplicable", "x"),
            ]),
        ),
    ]);
    let mut suggestions = Vec::new();
    collect_suggestions_with_lint(&message, Some("outer"), &mut suggestions);
    let starts: Vec<usize> = suggestions.iter().map(|s| s.byte_start).collect();
    assert_eq!(starts, vec![1, 2, 3, 4]);
    assert!(suggestions.iter().all(|s| s.lint.as_deref() == Some("outer")));
    let alone = parse_suggestion_from_span(&span(1, 1, "MachineApplicable", "x"), Some("outer"));
    assert_eq!(alone, Some(suggestions[0].clone()));
    assert_eq!(parse_suggestion_from_span(&span(9, 9, "Unspecified", "x"), None), None);
}

#[test]
fn documents_other_than_diagnostics_are_skipped() {
    let message =
        || object(vec![("spans", Json::Array(vec![span(1, 2, "MachineApplicable", "a")]))]);
    let documents = vec![
        None,
        Some(Json::Null),
        Some(object(vec![("reason", text("compiler-artifact")), ("message", message())])),
        Some(object(vec![("message", message())])),
        Some(object(vec![("reason", text("compiler-message"))])),
        Some(object(vec![("reason", text("compiler-message")), ("message", message())])),
    ];
    let suggestions = suggestions_in_documents(&documents);
    assert_eq!(suggestions.len(), 1);
    assert_eq!(
        suggestions[0],
        ClippySuggestion {
            file_path: "src/lib.rs".to_string(),
            byte_start: 1,
            byte_end: 2,
            replacement: "a".to_string(),
            lint: None,
        }
    );
}

#[test]
fn suggestions_are_read_from_the_output_of_the_linter() {
    let output = concat_lines(&[
        r#"{"reason":"compiler-artifact","target":{"name":"a"}}"#,
        "not a document",
        r#"{"reason":"compiler-message","message":{"code":{"code":"clippy::needless_return"},"spans":[{"file_name":"src/ä.rs","byte_start":5,"byte_end":18446744073709551615,"suggestion_applicability":"MachineApplicable","suggested_replacement":"\"\n\u00e4"}],"children":[]}}"#,
        "",
        r#"{"reason":"compiler-message","message":{"code":null,"spans":[{"file_name":"src/b.rs","byte_start":1.0,"byte_end":2,"suggestion_applicability":"MachineApplicable","suggested_replacement":"x"},{"file_name":"src/b.rs","byte_start":1,"byte_end":-2,"suggestion_applicability":"MachineApplicable","suggested_replacement":"x"},{"file_name":"src/c.rs","byte_start":7,"byte_end":7,"suggestion_applicability":"MachineApplicable","suggested_replacement":""}]}}"#,
    ]);
    assert_eq!(
        suggestions_in_output(&output),
        vec![
            ClippySuggestion {
                file_path: "src/ä.rs".to_string(),
                byte_start: 5,
                byte_end: 18446744073709551615u64 as usize,
                replacement: "\"\nä".to_string(),
                lint: Some("clippy::needless_return".to_string()),
            },
            ClippySuggestion {
                file_path: "src/c.rs".to_string(),
                byte_start: 7,
                byte_end: 7,
                replacement: String::new(),
                lint: None,
            },
        ]
    );
    assert_eq!(suggestions_in_output(""), Vec::new());
}

fn concat_lines(lines: &[&str]) -> String {
    let mut output = String::new();
    for line in lines {
        output.push_str(line);
        output.push('\n');
    }
    output
}

#[test]
fn members_are_found_by_name() {
    let document = object(vec![
        ("a", number(1)),
        ("b", text("x")),
        ("c", Json::Array(vec![Json::Bool(true)])),
        ("d", Json::Number(None)),
    ]);
    assert_eq!(document.get("b"), Some(&text("x")));
    assert_eq!(document.get("e"), None);
    assert_eq!(document.get("a").and_then(|v| v.as_u64()), Some(1));
    assert_eq!(document.get("d").and_then(|v| v.as_u64()), None);
    assert_eq!(document.text_member("b"), Some("x"));
    assert_eq!(document.text_member("a"), None);
    assert_eq!(document.number_member("a"), Some(1));
    assert_eq!(document.number_member("b"), None);
    assert_eq!(document.items_member("c").map(|items| items.len()), Some(1));
    assert_eq!(document.items_member("b"), None);
    assert_eq!(text("x").get("b"), None);
    assert_eq!(text("x").as_str(), Some("x"));
    assert_eq!(Json::Null.as_array(), None);
}
