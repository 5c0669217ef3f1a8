use dtsfmt::config::Config;
use dtsfmt::context::Context;
use dtsfmt::utils::{pad_right, print_indent, sep};

#[test]
fn context_steps_are_values() {
    let config = Config::default();
    let root = Context::root(&config);
    let deeper = root.inc(2);
    assert_eq!(deeper.indent, 2);
    assert_eq!(root.indent, 0);
    assert_eq!(deeper.dec(1).indent, 1);
    assert_eq!(deeper.with_indent(0).indent, 0);
    let km = root.keymap();
    assert!(km.keymap && !km.bindings);
    assert!(!km.has_zephyr_syntax());
    assert!(km.bindings().has_zephyr_syntax());
    assert!(!root.bindings().has_zephyr_syntax());
    assert!(!root.keymap);
}

#[test]
fn default_indent_is_two_spaces() {
    assert_eq!(Config::default_indent_str(), "  ");
    let config = Config::default();
    assert_eq!(config.indent_str, "  ");
    assert!(!config.warn_on_unhandled_tokens);
}

#[test]
fn indent_repeats_the_unit() {
    let config = Config::default();
    let ctx = Context::root(&config).inc(3);
    let mut w = String::from("x");
    print_indent(&mut w, &ctx);
    assert_eq!(w, "x      ");

    let tabs = Config { indent_str: "\t".to_string(), ..Config::default() };
    let mut w = String::new();
    print_indent(&mut w, &Context::root(&tabs).inc(2));
    assert_eq!(w, "\t\t");
}

#[test]
fn sep_adds_at_most_one_line_feed() {
    let mut w = String::from("a\n");
    sep(&mut w);
    assert_eq!(w, "a\n\n");
    sep(&mut w);
    assert_eq!(w, "a\n\n");
    let mut w = String::from("a");
    sep(&mut w);
    assert_eq!(w, "a\n");
}

#[test]
fn pad_right_fills_with_spaces() {
    assert_eq!(pad_right("ab", 5), "ab   ");
    assert_eq!(pad_right("abcdef", 3), "abcdef");
    assert_eq!(pad_right("", 2), "  ");
    assert_eq!(pad_right("é", 3), "é  ");
}
