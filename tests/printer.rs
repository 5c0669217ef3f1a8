use dtsfmt::bindings::collect_bindings;
use dtsfmt::config::Config;
use dtsfmt::layouts::KeyboardLayout;
use dtsfmt::printer::{print, print_with_layout, print_with_report};
use dtsfmt::syntax::{NodeKind, SyntaxNode};

fn tok(kind: NodeKind, name: &str, text: &str) -> SyntaxNode {
    SyntaxNode::new(kind, name.to_string(), text.to_string(), Vec::new())
}

fn branch(kind: NodeKind, name: &str, children: Vec<SyntaxNode>) -> SyntaxNode {
    let text = children.iter().map(|c| c.text.clone()).collect::<Vec<_>>().join(" ");
    SyntaxNode::new(kind, name.to_string(), text, children)
}

fn doc(children: Vec<SyntaxNode>) -> SyntaxNode {
    branch(NodeKind::Document, "document", children)
}

fn ident(text: &str) -> SyntaxNode {
    tok(NodeKind::Identifier, "identifier", text)
}

fn comment(text: &str) -> SyntaxNode {
    tok(NodeKind::Comment, "comment", text)
}

fn cells(values: &[&str]) -> SyntaxNode {
    let mut ch = vec![tok(NodeKind::OpenAngle, "<", "<")];
    for v in values {
        let kind = if v.starts_with('&') { NodeKind::Reference } else { NodeKind::Identifier };
        ch.push(tok(kind, "cell", v));
    }
    ch.push(tok(NodeKind::CloseAngle, ">", ">"));
    branch(NodeKind::IntegerCells, "integer_cells", ch)
}

fn property(name: &str, value: SyntaxNode) -> SyntaxNode {
    branch(
        NodeKind::Property,
        "property",
        vec![ident(name), tok(NodeKind::Equals, "=", "="), value, tok(NodeKind::Semicolon, ";", ";")],
    )
}

fn node(name: &str, body: Vec<SyntaxNode>) -> SyntaxNode {
    let mut ch = vec![ident(name), tok(NodeKind::OpenBrace, "{", "{")];
    ch.extend(body);
    ch.push(tok(NodeKind::CloseBrace, "}", "}"));
    ch.push(tok(NodeKind::Semicolon, ";", ";"));
    branch(NodeKind::Node, "node", ch)
}

fn directive(path: &str) -> SyntaxNode {
    branch(
        NodeKind::PreprocInclude,
        "preproc_include",
        vec![tok(NodeKind::Other, "#include", "#include"), tok(NodeKind::Other, "system_lib_string", path)],
    )
}

fn keymap(bindings: &[&str]) -> SyntaxNode {
    doc(vec![node("keymap", vec![property("bindings", cells(bindings))])])
}

fn layout(cells: Vec<usize>, rows: usize) -> KeyboardLayout {
    KeyboardLayout::new(cells, rows).ok().unwrap()
}

#[test]
fn include_keeps_one_space() {
    let out = print(&doc(vec![directive("<hi.dtsi>")]), &Config::default());
    assert_eq!(out, "#include <hi.dtsi>\n");
}

#[test]
fn last_directive_of_a_run_is_followed_by_an_empty_line() {
    let out = print(
        &doc(vec![directive("<a.h>"), directive("<b.h>"), node("n", vec![])]),
        &Config::default(),
    );
    assert_eq!(out, "#include <a.h>\n#include <b.h>\n\nn {\n};\n");
}

#[test]
fn node_with_property() {
    let out = print(
        &doc(vec![node("child@0", vec![property("foo", cells(&["1", "2", "3"]))])]),
        &Config::default(),
    );
    assert_eq!(out, "child@0 {\n  foo = <1 2 3>;\n};\n");
}

#[test]
fn nested_nodes_and_labels() {
    let inner = branch(
        NodeKind::Node,
        "node",
        vec![
            ident("lbl"),
            tok(NodeKind::Colon, ":", ":"),
            ident("inner"),
            tok(NodeKind::OpenBrace, "{", "{"),
            property("status", tok(NodeKind::StringLiteral, "string_literal", "\"okay\"")),
            tok(NodeKind::CloseBrace, "}", "}"),
            tok(NodeKind::Semicolon, ";", ";"),
        ],
    );
    let out = print(
        &doc(vec![node("/", vec![property("a", cells(&["&x", "1"])), inner])]),
        &Config::default(),
    );
    assert_eq!(out, "/ {\n  a = <&x 1>;\n\n  lbl: inner {\n    status = \"okay\";\n  };\n};\n");
}

#[test]
fn binding_table_holds_as_many_bindings_as_the_grid_has_keys() {
    let out = print_with_layout(
        &keymap(&["&kp", "A", "&kp", "B", "&trans"]),
        &Config::default(),
        &layout(vec![1, 1], 1),
    );
    assert_eq!(out, "keymap {\n  bindings = <\n    &kp A   &kp B\n  >;\n};\n");
}

#[test]
fn binding_table_leaves_gaps_empty() {
    let out = print_with_layout(
        &keymap(&["&kp", "A", "&kp", "B"]),
        &Config::default(),
        &layout(vec![1, 0, 1], 1),
    );
    assert_eq!(out, "keymap {\n  bindings = <\n    &kp A      &kp B\n  >;\n};\n");
}

#[test]
fn binding_columns_align_across_rows() {
    let out = print_with_layout(
        &keymap(&["&kp", "Q", "&mt", "LSHIFT", "B", "&trans", "&kp", "ENTER", "&none"]),
        &Config::default(),
        &layout(vec![1, 1, 1, 0, 1, 1], 2),
    );
    assert_eq!(
        out,
        "keymap {\n  bindings = <\n    &kp Q   &mt LSHIFT B   &trans\n            &kp ENTER      &none\n  >;\n};\n"
    );
}

#[test]
fn binding_count_is_bounded_by_keys_and_bindings() {
    let n = cells(&["&a", "&b", "&c", "&d", "&e"]);
    let placed = collect_bindings(&n, &layout(vec![1, 0, 1, 1], 1));
    assert_eq!(placed, vec!["&a", "", "&b", "&c"]);
    let placed = collect_bindings(&cells(&["&a", "1"]), &layout(vec![1, 1, 0, 1], 2));
    assert_eq!(placed, vec!["&a 1", "", "", ""]);
}

#[test]
fn bindings_outside_a_keymap_stay_on_one_line() {
    let out = print(
        &doc(vec![node("combos", vec![property("bindings", cells(&["&kp", "A"]))])]),
        &Config::default(),
    );
    assert_eq!(out, "combos {\n  bindings = <&kp A>;\n};\n");
}

#[test]
fn adjacent_comments_stay_together() {
    let out = print(&doc(vec![comment("// a"), comment("// b")]), &Config::default());
    assert_eq!(out, "// a\n// b\n");
}

#[test]
fn comment_after_other_content_is_set_off() {
    let out = print(
        &doc(vec![node("n", vec![property("a", cells(&["1"])), comment("//x  ")])]),
        &Config::default(),
    );
    assert_eq!(out, "n {\n  a = <1>;\n\n  // x\n};\n");
}

#[test]
fn line_comments_are_normalised_and_block_comments_kept() {
    let out = print(
        &doc(vec![comment("////   spaced out   "), comment("/*  keep\n   me */")]),
        &Config::default(),
    );
    assert_eq!(out, "// spaced out\n/*  keep\n   me */\n");
}

fn byte_string(n: usize) -> SyntaxNode {
    let mut ch = vec![tok(NodeKind::OpenBracket, "[", "[")];
    for i in 0..n {
        ch.push(tok(NodeKind::Other, "hex_byte", &format!("{:02x}", i)));
    }
    ch.push(tok(NodeKind::CloseBracket, "]", "]"));
    branch(NodeKind::ByteString, "byte_string_literal", ch)
}

#[test]
fn short_byte_string_stays_inline() {
    let out = print(&doc(vec![property("b", byte_string(3))]), &Config::default());
    assert_eq!(out, "b = [00 01 02];\n");
}

#[test]
fn long_byte_string_wraps() {
    let out = print(&doc(vec![property("b", byte_string(20))]), &Config::default());
    assert_eq!(
        out,
        "b = [\n  00 01 02 03 04 05 06 07 08 09 0a 0b 0c 0d 0e 0f\n  10 11 12 13\n];\n"
    );
}

#[test]
fn define_and_ifdef() {
    let def = branch(
        NodeKind::PreprocDef,
        "preproc_def",
        vec![tok(NodeKind::Other, "#define", "#define"), ident("FOO"), tok(NodeKind::Other, "preproc_arg", "1")],
    );
    let ifdef = branch(
        NodeKind::PreprocIfdef,
        "preproc_ifdef",
        vec![
            tok(NodeKind::Other, "#ifdef", "#ifdef"),
            ident("FOO"),
            property("x", cells(&["1"])),
            tok(NodeKind::Other, "#endif", "#endif"),
        ],
    );
    let out = print(&doc(vec![def, ifdef, node("n", vec![])]), &Config::default());
    assert_eq!(out, "#define FOO 1\n#ifdef FOO\nx = <1>;\n#endif\n\nn {\n};\n");
}

#[test]
fn unknown_kinds_walk_their_children() {
    let wrapper = branch(NodeKind::Other, "mystery", vec![ident("a"), ident("b")]);
    let out = print(&doc(vec![wrapper]), &Config::default());
    assert_eq!(out, "ab");
}

#[test]
fn empty_document() {
    assert_eq!(print(&doc(vec![]), &Config::default()), "");
}

#[test]
fn unhandled_kinds_are_reported_when_asked() {
    let wrapper = branch(NodeKind::Other, "mystery", vec![ident("a"), ident("b")]);
    let single = branch(NodeKind::Other, "lone", vec![ident("c")]);
    let root = doc(vec![wrapper, node("n", vec![single])]);
    let quiet = Config::default();
    let (text, reports) = print_with_report(&root, &quiet, &layout(vec![1], 1));
    assert_eq!(text, "abn {\nc};\n");
    assert!(reports.is_empty());
    let loud = Config { warn_on_unhandled_tokens: true, ..Config::default() };
    let (text2, reports) = print_with_report(&root, &loud, &layout(vec![1], 1));
    assert_eq!(text2, text);
    assert_eq!(
        reports,
        vec![
            "unhandled type 'mystery' (2 children): a b".to_string(),
            "unhandled type '{' (0 children): {".to_string(),
            "unhandled type 'lone' (1 child): c".to_string(),
        ]
    );
}

#[test]
fn any_non_zero_grid_value_is_a_key() {
    let placed = collect_bindings(&cells(&["&a", "&b", "&c"]), &layout(vec![2, 0, 6, 1], 2));
    assert_eq!(placed, vec!["&a", "", "&b", "&c"]);
}

#[test]
fn unicode_white_space_is_trimmed_from_comments() {
    let out = print(&doc(vec![comment("//\u{3000}x\u{a0}\u{2009}")]), &Config::default());
    assert_eq!(out, "// x\n");
}
