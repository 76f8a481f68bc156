// Scenario tests for the reconciliation engine: entry creation, identity
// stability, liveness sweeping, lazy expansion, and the edit round trip.

use reflect_inspector::keys::Key;
use reflect_inspector::keys::Step;
use reflect_inspector::protocol::update_checkbox;
use reflect_inspector::protocol::sync_checkbox;
use reflect_inspector::protocol::update_inputbox;
use reflect_inspector::protocol::update_inputbox_display;
use reflect_inspector::protocol::EditOutcome;
use reflect_inspector::reconcile::reconcile;
use reflect_inspector::reconcile::Command;
use reflect_inspector::reconcile::Root;
use reflect_inspector::table::ExpandToggle;
use reflect_inspector::table::State;
use reflect_inspector::table::WidgetCtor;
use reflect_inspector::values::Field;
use reflect_inspector::values::MapPair;
use reflect_inspector::values::LeafValue;
use reflect_inspector::values::Shape;
use reflect_inspector::values::Value;

const BOOL_TAG: u64 = 1;
const STRING_TAG: u64 = 2;
const INT_TAG: u64 = 3;
const STRUCT_TAG: u64 = 10;
const LIST_TAG: u64 = 11;

fn leaf(tag: u64, name: &str, v: LeafValue) -> Value {
    Value {
        type_tag: tag,
        full_name: format!("core::{}", name),
        short_name: Some(name.to_string()),
        repr: None,
        shape: Shape::Leaf { value: v },
    }
}

fn bool_leaf(b: bool) -> Value {
    leaf(BOOL_TAG, "bool", LeafValue::Bool(b))
}

fn string_leaf(s: &str) -> Value {
    leaf(STRING_TAG, "String", LeafValue::Text(s.to_string()))
}

fn int_leaf(n: i64) -> Value {
    leaf(INT_TAG, "i64", LeafValue::Int(n))
}

fn demo_struct(a: bool, b: &str) -> Value {
    Value {
        type_tag: STRUCT_TAG,
        full_name: "demo::Config".to_string(),
        short_name: Some("Config".to_string()),
        repr: None,
        shape: Shape::Struct {
            fields: vec![
                Field { name: "a".to_string(), value: bool_leaf(a) },
                Field { name: "b".to_string(), value: string_leaf(b) },
            ],
        },
    }
}

fn roots_of(value: Value) -> Vec<Root> {
    vec![Root { seed: 7, label: "root".to_string(), value }]
}

fn new_state() -> State {
    // Booleans get the toggle widget; every other primitive leaf falls
    // back to the generic text box without any registration.
    State::new(BOOL_TAG)
}

fn create_count(cmds: &[Command]) -> usize {
    cmds.iter()
        .filter(|c| !matches!(c, Command::Destroy { .. }))
        .count()
}

fn destroy_count(cmds: &[Command]) -> usize {
    cmds.iter().filter(|c| matches!(c, Command::Destroy { .. })).count()
}

fn key_a() -> Key {
    Key::root(7).child(Step::Field("a".to_string()), false).as_leaf()
}

fn key_b() -> Key {
    Key::root(7).child(Step::Field("b".to_string()), false).as_leaf()
}

// A struct { a: bool = true, b: "hi" } over three ticks, with the
// toggle widget on `a` and the generic text-box fallback on `b`.
#[test]
fn struct_scenario_three_ticks() {
    let mut st = new_state();

    // Tick 0: the root appears collapsed; only its node entry exists.
    let mut roots = roots_of(demo_struct(true, "hi"));
    let out0 = reconcile(&mut st, &mut roots);
    assert_eq!(create_count(&out0.cmds), 1);
    assert_eq!(destroy_count(&out0.cmds), 0);
    assert_eq!(st.entry_count(), 1);
    assert!(out0.mutated.is_empty());

    // The user expands the root.
    match st.toggle_expand(&Key::root(7)) {
        ExpandToggle::Expanded(_) => {}
        other => panic!("expected expansion, got {:?}", other),
    }

    // Tick 1: both fields become leaf entries, `a` with the toggle
    // widget, `b` with the text box seeded from "hi".
    let mut roots = roots_of(demo_struct(true, "hi"));
    let out1 = reconcile(&mut st, &mut roots);
    assert_eq!(create_count(&out1.cmds), 2);
    assert_eq!(st.entry_count(), 3);
    let mut saw_toggle = false;
    let mut saw_text = false;
    for c in &out1.cmds {
        if let Command::CreateLeaf { ctor, initial, .. } = c {
            match ctor {
                WidgetCtor::Toggle => {
                    saw_toggle = true;
                    assert!(matches!(initial, LeafValue::Bool(true)));
                }
                WidgetCtor::TextBox => {
                    saw_text = true;
                    assert!(matches!(initial, LeafValue::Text(s) if s == "hi"));
                }
            }
        }
    }
    assert!(saw_toggle && saw_text);
    // The fresh text box syncs to the rendered value text.
    assert_eq!(
        update_inputbox_display(&mut st, &key_b(), false).as_deref(),
        Some("\"hi\"")
    );
    assert_eq!(sync_checkbox(&mut st, &key_a()), Some(true));

    // Tick 2: external code sets a = false; after the pass the toggle
    // syncs to false without any widget-originated edit recorded.
    let mut roots = roots_of(demo_struct(false, "hi"));
    let out2 = reconcile(&mut st, &mut roots);
    assert!(out2.mutated.is_empty());
    assert_eq!(destroy_count(&out2.cmds), 0);
    assert_eq!(sync_checkbox(&mut st, &key_a()), Some(false));

    // Tick 3: the user edits b's text to "bye" and unfocuses; the pass
    // reports the root mutated and writes the value into the source.
    assert_eq!(
        update_inputbox(&mut st, &key_b(), "\"bye\"", false),
        EditOutcome::Recorded
    );
    let mut roots = roots_of(demo_struct(false, "hi"));
    let out3 = reconcile(&mut st, &mut roots);
    assert_eq!(out3.mutated, vec![7]);
    match &roots[0].value.shape {
        Shape::Struct { fields } => match &fields[1].value.shape {
            Shape::Leaf { value: LeafValue::Text(s) } => assert_eq!(s, "bye"),
            other => panic!("unexpected shape {:?}", other),
        },
        other => panic!("unexpected shape {:?}", other),
    }
}

fn list_value(items: Vec<Value>) -> Value {
    Value {
        type_tag: LIST_TAG,
        full_name: "alloc::vec::Vec<i64>".to_string(),
        short_name: Some("Vec<i64>".to_string()),
        repr: None,
        shape: Shape::List { items },
    }
}

// Liveness: a list of length 3 shrinking to length 1
// destroys exactly the two subtrees of the vanished indices.
#[test]
fn list_shrink_destroys_exactly_two() {
    let mut st = new_state();

    let mut roots = roots_of(list_value(vec![int_leaf(10), int_leaf(20), int_leaf(30)]));
    reconcile(&mut st, &mut roots);
    match st.toggle_expand(&Key::root(7)) {
        ExpandToggle::Expanded(_) => {}
        other => panic!("expected expansion, got {:?}", other),
    }
    let mut roots = roots_of(list_value(vec![int_leaf(10), int_leaf(20), int_leaf(30)]));
    reconcile(&mut st, &mut roots);
    assert_eq!(st.entry_count(), 4);

    let mut roots = roots_of(list_value(vec![int_leaf(10)]));
    let out = reconcile(&mut st, &mut roots);
    assert_eq!(destroy_count(&out.cmds), 2);
    assert_eq!(st.entry_count(), 2);
    // The destroyed handles are exactly those of indices 1 and 2.
    let w1 = Key::root(7).child(Step::Index(1), false).as_leaf();
    let w2 = Key::root(7).child(Step::Index(2), false).as_leaf();
    assert!(st.widget_of(&w1).is_none());
    assert!(st.widget_of(&w2).is_none());
    assert!(st.widget_of(&Key::root(7).child(Step::Index(0), false).as_leaf()).is_some());
}

// Identity stability: unchanged values across ticks keep every widget handle.
#[test]
fn identity_stable_across_ticks() {
    let mut st = new_state();
    let mut roots = roots_of(demo_struct(true, "hi"));
    reconcile(&mut st, &mut roots);
    st.toggle_expand(&Key::root(7));
    let mut roots = roots_of(demo_struct(true, "hi"));
    reconcile(&mut st, &mut roots);

    let wa = st.widget_of(&key_a()).unwrap();
    let wb = st.widget_of(&key_b()).unwrap();
    let wroot = st.widget_of(&Key::root(7)).unwrap();

    let mut roots = roots_of(demo_struct(true, "hi"));
    let out = reconcile(&mut st, &mut roots);
    assert_eq!(destroy_count(&out.cmds), 0);
    assert_eq!(create_count(&out.cmds), 0);
    assert_eq!(st.widget_of(&key_a()), Some(wa));
    assert_eq!(st.widget_of(&key_b()), Some(wb));
    assert_eq!(st.widget_of(&Key::root(7)), Some(wroot));
}

// Lazy expansion: a collapsed node's children never enter the table;
// expanding creates exactly the children visible at that tick.
#[test]
fn lazy_expansion() {
    let mut st = new_state();
    let mut roots = roots_of(list_value(vec![int_leaf(1), int_leaf(2)]));
    reconcile(&mut st, &mut roots);
    assert_eq!(st.entry_count(), 1);
    assert!(!st.has_entry(&Key::root(7).child(Step::Index(0), false).as_leaf()));

    st.toggle_expand(&Key::root(7));
    let mut roots = roots_of(list_value(vec![int_leaf(1), int_leaf(2)]));
    let out = reconcile(&mut st, &mut roots);
    assert_eq!(create_count(&out.cmds), 2);
    assert!(st.has_entry(&Key::root(7).child(Step::Index(0), false).as_leaf()));
    assert!(st.has_entry(&Key::root(7).child(Step::Index(1), false).as_leaf()));

    // Collapsing orphans the children; the next sweep removes them.
    match st.toggle_expand(&Key::root(7)) {
        ExpandToggle::Collapsed(_) => {}
        other => panic!("expected collapse, got {:?}", other),
    }
    let mut roots = roots_of(list_value(vec![int_leaf(1), int_leaf(2)]));
    let out = reconcile(&mut st, &mut roots);
    assert_eq!(destroy_count(&out.cmds), 2);
    assert_eq!(st.entry_count(), 1);
}

// No clobber: an external field change does not overwrite a text box
// that is actively being edited.
#[test]
fn no_clobber_while_editing() {
    let mut st = new_state();
    let mut roots = roots_of(demo_struct(true, "hi"));
    reconcile(&mut st, &mut roots);
    st.toggle_expand(&Key::root(7));
    let mut roots = roots_of(demo_struct(true, "hi"));
    reconcile(&mut st, &mut roots);
    // Consume the initial sync.
    update_inputbox_display(&mut st, &key_b(), false);

    // External change arrives while the user is mid-edit.
    let mut roots = roots_of(demo_struct(true, "elsewhere"));
    reconcile(&mut st, &mut roots);
    // While focused, the sync step must not touch the display.
    assert_eq!(update_inputbox_display(&mut st, &key_b(), true), None);
    assert_eq!(update_inputbox_display(&mut st, &key_b(), true), None);
    // Once the box is unfocused, the new value comes through.
    assert_eq!(
        update_inputbox_display(&mut st, &key_b(), false).as_deref(),
        Some("\"elsewhere\"")
    );
}

// Editing the text to the same rendered text and
// unfocusing leaves the source value unchanged.
#[test]
fn edit_to_same_text_keeps_value() {
    let mut st = new_state();
    let mut roots = roots_of(demo_struct(true, "hi"));
    reconcile(&mut st, &mut roots);
    st.toggle_expand(&Key::root(7));
    let mut roots = roots_of(demo_struct(true, "hi"));
    reconcile(&mut st, &mut roots);

    assert_eq!(
        update_inputbox(&mut st, &key_b(), "\"hi\"", false),
        EditOutcome::Recorded
    );
    let mut roots = roots_of(demo_struct(true, "hi"));
    reconcile(&mut st, &mut roots);
    match &roots[0].value.shape {
        Shape::Struct { fields } => match &fields[1].value.shape {
            Shape::Leaf { value: LeafValue::Text(s) } => assert_eq!(s, "hi"),
            other => panic!("unexpected shape {:?}", other),
        },
        other => panic!("unexpected shape {:?}", other),
    }
}

// A failed parse discards the edit and leaves the field unchanged.
#[test]
fn bad_edit_is_discarded() {
    let mut st = new_state();
    let mut roots = roots_of(demo_struct(true, "hi"));
    reconcile(&mut st, &mut roots);
    st.toggle_expand(&Key::root(7));
    let mut roots = roots_of(demo_struct(true, "hi"));
    reconcile(&mut st, &mut roots);

    // A bare identifier is not a RON string.
    assert_eq!(
        update_inputbox(&mut st, &key_b(), "oops", false),
        EditOutcome::Discarded
    );
    let mut roots = roots_of(demo_struct(true, "hi"));
    let out = reconcile(&mut st, &mut roots);
    assert!(out.mutated.is_empty());
    match &roots[0].value.shape {
        Shape::Struct { fields } => match &fields[1].value.shape {
            Shape::Leaf { value: LeafValue::Text(s) } => assert_eq!(s, "hi"),
            other => panic!("unexpected shape {:?}", other),
        },
        other => panic!("unexpected shape {:?}", other),
    }
}

// A cancelled edit restores the displayed text from the cached value.
#[test]
fn cancelled_edit_restores_text() {
    let mut st = new_state();
    let mut roots = roots_of(demo_struct(true, "hi"));
    reconcile(&mut st, &mut roots);
    st.toggle_expand(&Key::root(7));
    let mut roots = roots_of(demo_struct(true, "hi"));
    reconcile(&mut st, &mut roots);
    update_inputbox_display(&mut st, &key_b(), false);

    assert_eq!(
        update_inputbox(&mut st, &key_b(), "\"garbage", true),
        EditOutcome::Cancelled
    );
    assert_eq!(
        update_inputbox_display(&mut st, &key_b(), false).as_deref(),
        Some("\"hi\"")
    );
}

// A toggle click flows back into the source value on the next pass.
#[test]
fn toggle_writes_back() {
    let mut st = new_state();
    let mut roots = roots_of(demo_struct(true, "hi"));
    reconcile(&mut st, &mut roots);
    st.toggle_expand(&Key::root(7));
    let mut roots = roots_of(demo_struct(true, "hi"));
    reconcile(&mut st, &mut roots);

    assert!(update_checkbox(&mut st, &key_a(), false));
    let mut roots = roots_of(demo_struct(true, "hi"));
    let out = reconcile(&mut st, &mut roots);
    assert_eq!(out.mutated, vec![7]);
    match &roots[0].value.shape {
        Shape::Struct { fields } => match &fields[0].value.shape {
            Shape::Leaf { value: LeafValue::Bool(b) } => assert_eq!(*b, false),
            other => panic!("unexpected shape {:?}", other),
        },
        other => panic!("unexpected shape {:?}", other),
    }
}

// An unregistered type is shown as a disabled error node carrying the raw
// type name, and is never recursed into.
#[test]
fn unregistered_type_is_error_node() {
    let mut st = new_state();
    let mut value = demo_struct(true, "hi");
    value.short_name = None;
    let mut roots = roots_of(value);
    let out = reconcile(&mut st, &mut roots);
    assert_eq!(st.entry_count(), 1);
    match &out.cmds[0] {
        Command::CreateNode { label, disabled, .. } => {
            assert!(*disabled);
            assert_eq!(label, "rootdemo::Config (unregistered)");
        }
        other => panic!("unexpected command {:?}", other),
    }
    // Even "expanded", an error node's children never materialize.
    st.toggle_expand(&Key::root(7));
    let mut value = demo_struct(true, "hi");
    value.short_name = None;
    let mut roots = roots_of(value);
    reconcile(&mut st, &mut roots);
    assert_eq!(st.entry_count(), 1);
}

// An enum shows one node per declared variant: the active variant
// recurses, the others are disabled placeholders, and switching the
// active variant keeps the whole subtree alive.
#[test]
fn enum_variants_stay_alive() {
    // The payload is itself a branch value, so both variant rows are
    // plain nodes and survive the switch untouched.
    let mut st = new_state();
    let make = |active: usize| Value {
        type_tag: 20,
        full_name: "demo::Mode".to_string(),
        short_name: Some("Mode".to_string()),
        repr: None,
        shape: Shape::Enum {
            variants: vec!["Off".to_string(), "Level".to_string()],
            active,
            payload: Box::new(Value {
                type_tag: 21,
                full_name: "demo::Level".to_string(),
                short_name: Some("Level".to_string()),
                repr: None,
                shape: Shape::Tuple { fields: vec![int_leaf(3)] },
            }),
        },
    };
    let mut roots = roots_of(make(1));
    reconcile(&mut st, &mut roots);
    st.toggle_expand(&Key::root(7));
    let mut roots = roots_of(make(1));
    reconcile(&mut st, &mut roots);
    // Root, the inactive variant's placeholder node, and the active
    // variant's payload node.
    assert_eq!(st.entry_count(), 3);
    let v0 = Key::root(7).child(Step::Variant(0), false);
    let v1 = Key::root(7).child(Step::Variant(1), false);
    let w0 = st.widget_of(&v0).unwrap();
    let w1 = st.widget_of(&v1).unwrap();

    // Switching the active variant destroys nothing.
    let mut roots = roots_of(make(0));
    let out = reconcile(&mut st, &mut roots);
    assert_eq!(destroy_count(&out.cmds), 0);
    assert_eq!(st.widget_of(&v0), Some(w0));
    assert_eq!(st.widget_of(&v1), Some(w1));
}

// Map entries are labeled with their serialized keys.
#[test]
fn map_entry_labels() {
    let mut st = new_state();
    let make = || Value {
        type_tag: 30,
        full_name: "std::collections::BTreeMap".to_string(),
        short_name: Some("BTreeMap".to_string()),
        repr: None,
        shape: Shape::Dict {
            pairs: vec![MapPair {
                key: LeafValue::Text("speed".to_string()),
                value: int_leaf(9),
            }],
        },
    };
    let mut roots = roots_of(make());
    reconcile(&mut st, &mut roots);
    st.toggle_expand(&Key::root(7));
    let mut roots = roots_of(make());
    let out = reconcile(&mut st, &mut roots);
    let mut labels: Vec<String> = Vec::new();
    for c in &out.cmds {
        if let Command::CreateLeaf { label, .. } = c {
            labels.push(label.clone());
        }
    }
    assert_eq!(labels, vec!["\"speed\": ".to_string()]);
}

// Children appear level by level: expanding an inner node materializes
// its own children only, labeled by position.
#[test]
fn nested_expansion_two_levels() {
    let mut st = new_state();
    let make = || Value {
        type_tag: 40,
        full_name: "demo::Pair".to_string(),
        short_name: Some("Pair".to_string()),
        repr: None,
        shape: Shape::Tuple {
            fields: vec![int_leaf(1), list_value(vec![int_leaf(2), int_leaf(3)])],
        },
    };
    let mut roots = roots_of(make());
    reconcile(&mut st, &mut roots);
    st.toggle_expand(&Key::root(7));
    let mut roots = roots_of(make());
    let out = reconcile(&mut st, &mut roots);
    // The int leaf and the inner list's node, not the list's elements.
    assert_eq!(create_count(&out.cmds), 2);
    assert_eq!(st.entry_count(), 3);
    let mut labels: Vec<String> = Vec::new();
    for c in &out.cmds {
        match c {
            Command::CreateLeaf { label, .. } | Command::CreateNode { label, .. } => {
                labels.push(label.clone())
            }
            Command::Destroy { .. } => {}
        }
    }
    assert_eq!(labels, vec!["0: ".to_string(), "1: Vec<i64>".to_string()]);

    // Expanding the inner list materializes its two elements.
    let inner = Key::root(7).child(Step::Index(1), false);
    st.toggle_expand(&inner);
    let mut roots = roots_of(make());
    let out = reconcile(&mut st, &mut roots);
    assert_eq!(create_count(&out.cmds), 2);
    assert_eq!(st.entry_count(), 5);
    let mut labels: Vec<String> = Vec::new();
    for c in &out.cmds {
        if let Command::CreateLeaf { label, .. } = c {
            labels.push(label.clone());
        }
    }
    assert_eq!(labels, vec!["[0]:".to_string(), "[1]:".to_string()]);
}

// Interaction on keys without entries changes nothing and says so.
#[test]
fn interaction_without_entry() {
    let mut st = new_state();
    let missing = Key::root(99).child(Step::Index(0), false).as_leaf();
    assert!(!update_checkbox(&mut st, &missing, true));
    assert_eq!(sync_checkbox(&mut st, &missing), None);
    assert_eq!(
        update_inputbox(&mut st, &missing, "1", false),
        EditOutcome::NoEntry
    );
    assert_eq!(
        update_inputbox(&mut st, &missing, "1", true),
        EditOutcome::NoEntry
    );
    assert_eq!(update_inputbox_display(&mut st, &missing, false), None);
    assert_eq!(
        st.toggle_expand(&missing),
        reflect_inspector::table::ExpandToggle::NotANode
    );
}

// The cached value tracks the field across passes.
#[test]
fn cached_value_follows_field() {
    let mut st = new_state();
    let mut roots = roots_of(demo_struct(true, "hi"));
    reconcile(&mut st, &mut roots);
    st.toggle_expand(&Key::root(7));
    let mut roots = roots_of(demo_struct(true, "hi"));
    reconcile(&mut st, &mut roots);
    assert!(matches!(
        st.cached_of(&key_b()),
        Some(LeafValue::Text(s)) if s == "hi"
    ));
    let mut roots = roots_of(demo_struct(true, "later"));
    reconcile(&mut st, &mut roots);
    assert!(matches!(
        st.cached_of(&key_b()),
        Some(LeafValue::Text(s)) if s == "later"
    ));
}

// A dead subtree is destroyed as one unit: the subtree root alone is
// reported, even when it contains leaves whose own node position never
// existed (specialized widgets hang directly under the parent).
#[test]
fn dead_subtree_destroyed_once() {
    let mut st = new_state();
    let make = || Value {
        type_tag: 50,
        full_name: "demo::Flag".to_string(),
        short_name: Some("Flag".to_string()),
        repr: None,
        shape: Shape::Struct {
            fields: vec![Field { name: "a".to_string(), value: bool_leaf(true) }],
        },
    };
    let mut roots = roots_of(make());
    reconcile(&mut st, &mut roots);
    st.toggle_expand(&Key::root(7));
    let mut roots = roots_of(make());
    reconcile(&mut st, &mut roots);
    assert_eq!(st.entry_count(), 2);

    // The root list is replaced entirely: the whole subtree dies, and
    // exactly one destroy is issued, for the root's widget.
    let root_widget = st.widget_of(&Key::root(7)).unwrap();
    let mut roots: Vec<Root> = Vec::new();
    let out = reconcile(&mut st, &mut roots);
    assert_eq!(destroy_count(&out.cmds), 1);
    assert!(matches!(out.cmds[0], Command::Destroy { widget } if widget == root_widget));
    assert_eq!(st.entry_count(), 0);
}


// A registered type delegates entirely to the leaf protocol whatever its
// category: a struct-shaped value whose type has the toggle registered is
// shown as one toggle (through its host-supplied representation), never
// as an expandable node, and edits land in that representation.
#[test]
fn specialized_widget_on_branch_value() {
    const FANCY_TAG: u64 = 60;
    let mut st = new_state();
    st.register(FANCY_TAG, WidgetCtor::Toggle);
    let make = |on: bool| Value {
        type_tag: FANCY_TAG,
        full_name: "demo::Switch".to_string(),
        short_name: Some("Switch".to_string()),
        repr: Some(LeafValue::Bool(on)),
        shape: Shape::Struct {
            fields: vec![Field { name: "on".to_string(), value: bool_leaf(on) }],
        },
    };
    let mut roots = roots_of(make(true));
    let out = reconcile(&mut st, &mut roots);
    assert_eq!(st.entry_count(), 1);
    match &out.cmds[0] {
        Command::CreateLeaf { ctor, initial, .. } => {
            assert_eq!(*ctor, WidgetCtor::Toggle);
            assert!(matches!(initial, LeafValue::Bool(true)));
        }
        other => panic!("unexpected command {:?}", other),
    }
    // There is no node entry to expand: the whole position is the widget.
    let leaf_root = Key::root(7).as_leaf();
    assert!(st.has_entry(&leaf_root));
    assert_eq!(st.toggle_expand(&Key::root(7)), ExpandToggle::NotANode);

    // A click flows back into the representation on the next pass.
    assert!(update_checkbox(&mut st, &leaf_root, false));
    let mut roots = roots_of(make(true));
    let out = reconcile(&mut st, &mut roots);
    assert_eq!(out.mutated, vec![7]);
    assert!(matches!(roots[0].value.repr, Some(LeafValue::Bool(false))));
    assert!(matches!(roots[0].value.shape, Shape::Struct { .. }));
}
