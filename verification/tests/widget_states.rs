// The widget state models: the edit-box cursor, the toggle, the radio
// group, and the expandable tree node.

use reflect_inspector::edit_box::EditBox;
use reflect_inspector::widgets::check_box;
use reflect_inspector::widgets::radio_button;
use reflect_inspector::widgets::tree_node;

fn chars(s: &str) -> Vec<char> {
    s.chars().collect()
}

fn string_of(v: &Vec<char>) -> String {
    v.iter().collect()
}

#[test]
fn edit_box_focus_and_type() {
    let mut eb = EditBox::new('|');
    let mut text = chars("hi");
    assert!(!eb.is_editing());

    eb.focus(&mut text);
    assert!(eb.is_editing());
    assert_eq!(string_of(&text), "hi|");

    eb.insert_character(&mut text, '!');
    assert_eq!(string_of(&text), "hi!|");

    eb.remove_character_before(&mut text);
    assert_eq!(string_of(&text), "hi|");

    eb.unfocus(&mut text);
    assert!(!eb.is_editing());
    assert_eq!(string_of(&text), "hi");
}

#[test]
fn edit_box_cursor_movement() {
    let mut eb = EditBox::new('|');
    let mut text = chars("abc");
    eb.focus_at(&mut text, 1);
    assert_eq!(string_of(&text), "a|bc");

    eb.move_cursor_left(&mut text);
    assert_eq!(string_of(&text), "|abc");
    // At the start, moving left is a no-op.
    eb.move_cursor_left(&mut text);
    assert_eq!(string_of(&text), "|abc");

    eb.move_cursor_right(&mut text);
    assert_eq!(string_of(&text), "a|bc");
    eb.move_cursor_right(&mut text);
    eb.move_cursor_right(&mut text);
    assert_eq!(string_of(&text), "abc|");
    // At the end, moving right is a no-op.
    eb.move_cursor_right(&mut text);
    assert_eq!(string_of(&text), "abc|");

    eb.remove_character_before(&mut text);
    assert_eq!(string_of(&text), "ab|");
    eb.move_cursor_left(&mut text);
    eb.move_cursor_left(&mut text);
    eb.remove_character_after(&mut text);
    assert_eq!(string_of(&text), "|b");

    eb.set_pos(&mut text, 2);
    assert_eq!(string_of(&text), "b|");
    eb.unfocus(&mut text);
    assert_eq!(string_of(&text), "b");
}

#[test]
fn check_box_toggles() {
    let mut w = check_box::Widget::new(false);
    assert!(!w.is_checked());
    assert!(w.toggle());
    assert!(w.is_checked());
    assert!(!w.toggle());
    w.set(true);
    assert!(w.is_checked());
}

#[test]
fn radio_selects_one() {
    let mut w = radio_button::Widget::new(vec![100, 101, 102], None);
    assert!(!w.is_selected(101));
    assert_eq!(w.select(101), None);
    assert!(w.is_selected(101));
    assert!(!w.is_selected(100));

    // Selecting another button moves the selection and reports the old one.
    assert_eq!(w.select(102), Some((1, 101)));
    assert!(w.is_selected(102));

    // Clicking the selected button deselects it.
    assert_eq!(w.select(102), Some((2, 102)));
    assert!(!w.is_selected(102));

    // A handle outside the group selects nothing; with no selection,
    // its (absent) position compares equal to the (absent) selection.
    assert_eq!(w.select(999), None);
    assert!(w.is_selected(999));
    assert_eq!(w.select(100), None);
    assert!(!w.is_selected(999));
}

#[test]
fn tree_node_expands_and_collapses() {
    let mut w = tree_node::Widget::new();
    assert!(!w.is_expanded());
    assert_eq!(w.get_children_container(), None);

    assert_eq!(w.toggle_expand(55), None);
    assert!(w.is_expanded());
    assert_eq!(w.get_children_container(), Some(55));

    assert_eq!(w.toggle_expand(56), Some(55));
    assert!(!w.is_expanded());
    assert_eq!(w.get_children_container(), None);
}
