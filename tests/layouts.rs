use dtsfmt::bindings::calculate_sizes;
use dtsfmt::emitter::{emit_action, EmitAction, FormattingStatus};
use dtsfmt::filename::Filename;
use dtsfmt::layouts::{get_layout, KeyboardLayout, KeyboardLayoutType, LayoutError};

#[test]
fn layout_rejects_bad_grids() {
    assert_eq!(KeyboardLayout::new(vec![1, 1], 0).err(), Some(LayoutError::NoRows));
    assert_eq!(KeyboardLayout::new(vec![1, 1, 1], 2).err(), Some(LayoutError::RaggedRows));
    let ok = KeyboardLayout::new(vec![1, 0, 1, 1], 2).ok().unwrap();
    assert_eq!(ok.row_size(), 2);
}

#[test]
fn adv360_grid() {
    let layout = get_layout(&KeyboardLayoutType::Adv360);
    assert_eq!(layout.row_count, 5);
    assert_eq!(layout.row_size(), 20);
    assert_eq!(layout.bindings.iter().filter(|v| **v == 1).count(), 76);
}

#[test]
fn column_sizes_take_the_longest_cell() {
    let buf: Vec<String> =
        vec!["a".into(), "bbb".into(), "cc".into(), "dddd".into(), "".into(), "e".into()];
    assert_eq!(calculate_sizes(&buf, 3), vec![4, 3, 2]);
    assert_eq!(calculate_sizes(&buf, 2), vec![2, 4]);
    assert_eq!(calculate_sizes(&buf, 0), Vec::<usize>::new());
    assert_eq!(calculate_sizes(&Vec::new(), 2), vec![0, 0]);
}

#[test]
fn filename_names() {
    assert_eq!(Filename::Real("a/b.keymap".to_string()).to_string(), "a/b.keymap");
    assert_eq!(Filename::Stdin.to_string(), "<stdin>");
}

#[test]
fn emit_actions() {
    let a = "x".to_string();
    let b = "y".to_string();
    assert_eq!(emit_action(false, &a, &a), (EmitAction::Write, FormattingStatus::Changed));
    assert_eq!(emit_action(true, &a, &b), (EmitAction::ReportDiff, FormattingStatus::Changed));
    assert_eq!(emit_action(true, &a, &a), (EmitAction::Skip, FormattingStatus::Unchanged));
}
