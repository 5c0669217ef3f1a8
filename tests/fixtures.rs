use dtsfmt::fixtures::{parse_specs, try_parse_specs, Spec};

#[test]
fn it_parses() {
    let specs = parse_specs(
        vec![
            "== message 1 ==",
            "start",
            "multiple",
            "",
            "[expect]",
            "expected",
            "multiple",
            "",
            "== message 2 (only) (skip) (skip-format-twice) ==",
            "start2",
            "",
            "[expect]",
            "expected2",
            "",
            "== message 3 (trace) ==",
            "test",
            "",
            "[expect]",
            "test",
            "",
        ]
        .join("\n"),
    );

    assert_eq!(specs.len(), 3);
    assert_eq!(
        specs[0],
        Spec {
            file_text: "start\nmultiple\n".into(),
            expected_text: "expected\nmultiple\n".into(),
            message: "message 1".into(),
            is_only: false,
        }
    );
    assert_eq!(
        specs[1],
        Spec {
            file_text: "start2\n".into(),
            expected_text: "expected2\n".into(),
            message: "message 2 (only) (skip) (skip-format-twice)".into(),
            is_only: true,
        }
    );
    assert_eq!(
        specs[2],
        Spec {
            file_text: "test\n".into(),
            expected_text: "test\n".into(),
            message: "message 3 (trace)".into(),
            is_only: false,
        }
    );
}

#[test]
fn only_mark_ignores_case() {
    let specs = parse_specs("==  Shout (ONLY)  ==\na\n[expect]\nb".to_string());
    assert_eq!(specs.len(), 1);
    assert_eq!(specs[0].message, "Shout (ONLY)");
    assert!(specs[0].is_only);
    assert_eq!(specs[0].file_text, "a");
    assert_eq!(specs[0].expected_text, "b");
}

#[test]
fn second_marker_ends_expected_text() {
    let specs = parse_specs("== m ==\nin\n[expect]\nout\n[expect]\nrest".to_string());
    assert_eq!(specs[0].file_text, "in");
    assert_eq!(specs[0].expected_text, "out\n");
}

#[test]
fn malformed_fixture_files_are_refused() {
    assert!(try_parse_specs("no header\n[expect]\nx".to_string()).is_none());
    assert!(try_parse_specs("== m ==\nno marker".to_string()).is_none());
    assert!(try_parse_specs("== m ==\n[expect]\nx".to_string()).is_none());
    assert!(try_parse_specs("===\na\n[expect]\nb".to_string()).is_none());
    let ok = try_parse_specs("== m ==\na\n[expect]\nb".to_string()).unwrap();
    assert_eq!(ok.len(), 1);
    assert_eq!(ok[0].message, "m");
}
