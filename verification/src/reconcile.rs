//! The executable reconciler: once per tick the host hands it the current
//! root values; it walks them top-down, looks up or creates entries,
//! recurses into expanded nodes only, runs the leaf edit protocol, and
//! after the full pass sweeps the entries it did not reach. Every function
//! here is proved equal to the corresponding spec function of the model.

use vstd::prelude::*;

use crate::keys::Key;
use crate::keys::Step;
use crate::keys::StepV;
use crate::model::CmdV;
use crate::model::RootV;
use crate::model::child_key;
use crate::model::dispatch_m;
use crate::model::error_label;
use crate::model::field_label;
use crate::model::list_label;
use crate::model::map_label;
use crate::model::node_label;
use crate::model::reconcile_m;
use crate::model::root_key;
use crate::model::tuple_label;
use crate::model::visit_fields_m;
use crate::model::visit_leaf_m;
use crate::model::visit_list_m;
use crate::model::visit_node_m;
use crate::model::visit_opaque_m;
use crate::model::visit_pairs_m;
use crate::model::visit_roots_m;
use crate::model::visit_tuple_m;
use crate::model::visit_variants_m;
use crate::model::weight;
use crate::model::wsum_fields;
use crate::model::wsum_pairs;
use crate::model::wsum_roots;
use crate::model::wsum_vals;
use crate::model::lemma_fields_frame;
use crate::model::lemma_list_frame;
use crate::model::lemma_pairs_frame;
use crate::model::lemma_roots_frame;
use crate::model::lemma_tuple_frame;
use crate::model::lemma_variants_frame;
use crate::model::lemma_wsum_fields_mono;
use crate::model::lemma_wsum_pairs_mono;
use crate::model::lemma_wsum_roots_mono;
use crate::model::lemma_wsum_vals_mono;
use crate::table::State;
use crate::table::StateV;
use crate::table::reset_m;
use crate::table::WidgetCtor;
use crate::text::to_text;
use crate::text::leaf_text;
use crate::text::fmt_u64;
use crate::values::Field;
use crate::values::FieldV;
use crate::values::PairV;
use crate::values::LeafValue;
use crate::values::MapPair;
use crate::values::Shape;
use crate::values::ShapeV;
use crate::values::Value;
use crate::values::lemma_view_field_seq;
use crate::values::lemma_view_pair_seq;
use crate::values::lemma_view_value_seq;
use crate::values::view_field_seq;
use crate::values::view_pair_seq;
use crate::values::view_value;
use crate::values::view_value_seq;
use crate::values::leaf_repr;

verus! {

/// A widget command issued to the host: what to create where, and which
/// widget subtrees to destroy. The host applies them in order.
#[derive(Debug)]
pub enum Command {
    /// Spawn an expandable node row. `container` is the parent children
    /// container, `None` for the presentation root. A disabled node is an
    /// inert placeholder: an unregistered type or an inactive enum variant.
    CreateNode { widget: u64, key: Key, label: String, container: Option<u64>, disabled: bool },
    /// Spawn an editable leaf widget with the given constructor, seeded
    /// with the leaf's current value.
    CreateLeaf {
        widget: u64,
        key: Key,
        label: String,
        container: Option<u64>,
        ctor: WidgetCtor,
        initial: LeafValue,
    },
    /// Despawn the widget's whole subtree.
    Destroy { widget: u64 },
}

impl View for Command {
    type V = CmdV;

    open spec fn view(&self) -> CmdV {
        match self {
            Command::CreateNode { widget, key, label, container, disabled } => CmdV::CreateNode {
                widget: *widget,
                key: key@,
                label: label@,
                container: *container,
                disabled: *disabled,
            },
            Command::CreateLeaf { widget, key, label, container, ctor, initial } => CmdV::CreateLeaf {
                widget: *widget,
                key: key@,
                label: label@,
                container: *container,
                ctor: *ctor,
                initial: initial@,
            },
            Command::Destroy { widget } => CmdV::Destroy { widget: *widget },
        }
    }
}

/// The model of a command list.
pub open spec fn cmds_view(s: Seq<Command>) -> Seq<CmdV> {
    s.map_values(|c: Command| c@)
}

/// One root to reconcile this tick: a host-stable identity seed (the same
/// logical object must keep the same seed across ticks), a rendered label,
/// and the root's current value. The engine writes pending leaf edits back
/// into `value`; the host carries them into its own data.
#[derive(Debug)]
pub struct Root {
    pub seed: u64,
    pub label: String,
    pub value: Value,
}

impl View for Root {
    type V = RootV;

    open spec fn view(&self) -> RootV {
        RootV { seed: self.seed, label: self.label@, value: view_value(self.value) }
    }
}

/// The model of a root list.
pub open spec fn roots_view(s: Seq<Root>) -> Seq<RootV> {
    s.map_values(|r: Root| r@)
}

proof fn lemma_cmds_view_push(s: Seq<Command>, c: Command)
    ensures
        cmds_view(s.push(c)) == cmds_view(s).push(c@),
{
    assert forall|i: int| 0 <= i < s.len() + 1 implies cmds_view(s.push(c))[i] == cmds_view(
        s,
    ).push(c@)[i] by {
        assert(cmds_view(s.push(c))[i] == s.push(c)[i]@);
        if i < s.len() {
            assert(cmds_view(s)[i] == s[i]@);
        }
    }
    assert(cmds_view(s.push(c)) =~= cmds_view(s).push(c@));
}

/// Spawns the generic text-box editor for a leaf position and creates its
/// entry; the fallback constructor for every leaf type.
pub fn spawn_widget_default(
    st: &mut State,
    key: &Key,
    value: &LeafValue,
    label: String,
    container: Option<u64>,
    cmds: &mut Vec<Command>,
) -> (w: u64)
    requires
        old(st).wf(),
        !old(st)@.entries.contains_key(key@),
        key@.leaf,
        old(st)@.next_widget < u64::MAX,
    ensures
        final(st).wf(),
        ({
            let out = visit_leaf_m(
                old(st)@,
                value@,
                key@,
                WidgetCtor::TextBox,
                label@,
                container,
            );
            &&& final(st)@ == out.st
            &&& cmds_view(final(cmds)@) == cmds_view(old(cmds)@) + out.cmds
            &&& w == old(st)@.next_widget
        }),
{
    let ghost label0 = label@;
    let w = st.create_leaf(key, value.clone());
    let cmd = Command::CreateLeaf {
        widget: w,
        key: key.clone(),
        label,
        container,
        ctor: WidgetCtor::TextBox,
        initial: value.clone(),
    };
    proof {
        lemma_cmds_view_push(cmds@, cmd);
    }
    cmds.push(cmd);
    proof {
        let out = visit_leaf_m(old(st)@, value@, key@, WidgetCtor::TextBox, label0, container);
        assert(st@ =~= out.st);
        assert(cmds_view(cmds@) =~= cmds_view(old(cmds)@) + out.cmds);
    }
    w
}

/// Spawns the toggle widget for a boolean leaf position and creates its
/// entry; the reference example of a specialized, non-textual leaf widget.
pub fn spawn_widget_bool(
    st: &mut State,
    key: &Key,
    value: &LeafValue,
    label: String,
    container: Option<u64>,
    cmds: &mut Vec<Command>,
) -> (w: u64)
    requires
        old(st).wf(),
        !old(st)@.entries.contains_key(key@),
        key@.leaf,
        old(st)@.next_widget < u64::MAX,
    ensures
        final(st).wf(),
        ({
            let out = visit_leaf_m(old(st)@, value@, key@, WidgetCtor::Toggle, label@, container);
            &&& final(st)@ == out.st
            &&& cmds_view(final(cmds)@) == cmds_view(old(cmds)@) + out.cmds
            &&& w == old(st)@.next_widget
        }),
{
    let ghost label0 = label@;
    let w = st.create_leaf(key, value.clone());
    let cmd = Command::CreateLeaf {
        widget: w,
        key: key.clone(),
        label,
        container,
        ctor: WidgetCtor::Toggle,
        initial: value.clone(),
    };
    proof {
        lemma_cmds_view_push(cmds@, cmd);
    }
    cmds.push(cmd);
    proof {
        let out = visit_leaf_m(old(st)@, value@, key@, WidgetCtor::Toggle, label0, container);
        assert(st@ =~= out.st);
        assert(cmds_view(cmds@) =~= cmds_view(old(cmds)@) + out.cmds);
    }
    w
}

/// Visits one leaf position: creates its widget and entry on first visit,
/// else runs one step of the edit protocol against the field's value.
pub fn visit_reflect_leaf(
    st: &mut State,
    value: &mut LeafValue,
    key: &Key,
    ctor: WidgetCtor,
    label: String,
    container: Option<u64>,
    cmds: &mut Vec<Command>,
) -> (mutated: bool)
    requires
        old(st).wf(),
        key@.leaf,
        old(st)@.next_widget < u64::MAX,
    ensures
        final(st).wf(),
        ({
            let out = visit_leaf_m(old(st)@, old(value)@, key@, ctor, label@, container);
            &&& final(st)@ == out.st
            &&& final(value)@ == out.lv
            &&& cmds_view(final(cmds)@) == cmds_view(old(cmds)@) + out.cmds
            &&& mutated == out.mutated
        }),
{
    if st.has_entry(key) {
        let mutated = st.revisit_leaf(key, value);
        proof {
            let out = visit_leaf_m(old(st)@, old(value)@, key@, ctor, label@, container);
            assert(st@ =~= out.st);
            assert(cmds_view(cmds@) =~= cmds_view(old(cmds)@) + out.cmds);
        }
        mutated
    } else {
        match ctor {
            WidgetCtor::TextBox => {
                spawn_widget_default(st, key, value, label, container, cmds);
            },
            WidgetCtor::Toggle => {
                spawn_widget_bool(st, key, value, label, container, cmds);
            },
        }
        false
    }
}

/// Visits a node position that is never recursed into: an unregistered
/// value's error node, or an inactive enum variant's placeholder.
fn visit_opaque(
    st: &mut State,
    key: &Key,
    label: String,
    container: Option<u64>,
    cmds: &mut Vec<Command>,
)
    requires
        old(st).wf(),
        !key@.leaf,
        old(st)@.next_widget < u64::MAX,
    ensures
        final(st).wf(),
        ({
            let out = visit_opaque_m(old(st)@, key@, label@, container);
            &&& final(st)@ == out.0
            &&& cmds_view(final(cmds)@) == cmds_view(old(cmds)@) + out.1
        }),
{
    let ghost label0 = label@;
    if st.has_entry(key) {
        st.revisit_node(key);
        proof {
            let out = visit_opaque_m(old(st)@, key@, label0, container);
            assert(st@ =~= out.0);
            assert(cmds_view(cmds@) =~= cmds_view(old(cmds)@) + out.1);
        }
    } else {
        let w = st.create_node(key);
        let cmd = Command::CreateNode {
            widget: w,
            key: key.clone(),
            label,
            container,
            disabled: true,
        };
        proof {
            lemma_cmds_view_push(cmds@, cmd);
        }
        cmds.push(cmd);
        proof {
            let out = visit_opaque_m(old(st)@, key@, label0, container);
            assert(st@ =~= out.0);
            assert(cmds_view(cmds@) =~= cmds_view(old(cmds)@) + out.1);
        }
    }
}

/// Visits one value at a node position (see `visit_node_m`): a registered
/// specialized widget takes the whole position as a leaf, whatever the
/// value's category (a non-primitive edits through its host-supplied
/// `repr`); an unregistered type becomes an inert error node; a primitive
/// leaf with no specialized widget goes straight to the leaf protocol
/// with the generic text box; otherwise the node entry is looked up or
/// created, and the pass recurses only into an existing children
/// container.
pub fn visit_reflect_node(
    st: &mut State,
    v: &mut Value,
    key: &Key,
    label: String,
    container: Option<u64>,
    cmds: &mut Vec<Command>,
) -> (mutated: bool)
    requires
        old(st).wf(),
        !key@.leaf,
        old(st)@.next_widget + weight(view_value(*old(v))) <= u64::MAX,
    ensures
        final(st).wf(),
        ({
            let out = visit_node_m(old(st)@, view_value(*old(v)), key@, label@, container);
            &&& final(st)@ == out.st
            &&& view_value(*final(v)) == out.v
            &&& cmds_view(final(cmds)@) == cmds_view(old(cmds)@) + out.cmds
            &&& mutated == out.mutated
        }),
    decreases *old(v), 3int, 0int,
{
    let ghost label0 = label@;
    let ghost v0 = view_value(*old(v));
    let ctor_opt = st.lookup(v.type_tag);
    let is_leaf_shape = match &v.shape {
        Shape::Leaf { .. } => true,
        _ => false,
    };
    let has_repr = is_leaf_shape || v.repr.is_some();
    proof {
        assert(has_repr == (leaf_repr(v0) is Some));
        assert(weight(v0) >= 2);
    }
    if ctor_opt.is_some() && has_repr {
        let ctor = match ctor_opt {
            Some(ctor) => ctor,
            None => unreached(),
        };
        let lkey = key.as_leaf();
        if is_leaf_shape {
            match &mut v.shape {
                Shape::Leaf { value } => {
                    let m = visit_reflect_leaf(st, value, &lkey, ctor, label, container, cmds);
                    proof {
                        let out = visit_node_m(old(st)@, v0, key@, label0, container);
                        assert(view_value(*v) =~= out.v);
                    }
                    m
                },
                _ => unreached(),
            }
        } else {
            match &mut v.repr {
                Some(r) => {
                    let m = visit_reflect_leaf(st, r, &lkey, ctor, label, container, cmds);
                    proof {
                        let out = visit_node_m(old(st)@, v0, key@, label0, container);
                        assert(view_value(*v) =~= out.v);
                    }
                    m
                },
                None => unreached(),
            }
        }
    } else {
        match &v.short_name {
            None => {
                let mut l = label;
                l.append(v.full_name.as_str());
                l.append(" (unregistered)");
                proof {
                    assert(l@ =~= error_label(label0, v0.full_name));
                    assert(weight(v0) >= 2);
                }
                visit_opaque(st, key, l, container, cmds);
                proof {
                    let out = visit_node_m(old(st)@, v0, key@, label0, container);
                    assert(st@ == out.st);
                    assert(view_value(*v) == out.v);
                }
                false
            },
            Some(short) => if is_leaf_shape {
                let lkey = key.as_leaf();
                match &mut v.shape {
                    Shape::Leaf { value } => {
                        let m = visit_reflect_leaf(
                            st,
                            value,
                            &lkey,
                            WidgetCtor::TextBox,
                            label,
                            container,
                            cmds,
                        );
                        proof {
                            let out = visit_node_m(old(st)@, v0, key@, label0, container);
                            assert(view_value(*v) =~= out.v);
                        }
                        m
                    },
                    _ => unreached(),
                }
            } else {
                let mut l2 = label;
                l2.append(short.as_str());
                if st.has_entry(key) {
                    match st.revisit_node(key) {
                        Some(c) => {
                            let m = dispatch_reflect(st, v, key, c, cmds);
                            proof {
                                let out = visit_node_m(old(st)@, v0, key@, label0, container);
                                assert(st@ == out.st);
                                assert(view_value(*v) == out.v);
                            }
                            m
                        },
                        None => {
                            proof {
                                let out = visit_node_m(old(st)@, v0, key@, label0, container);
                                assert(st@ =~= out.st);
                                assert(view_value(*v) == out.v);
                                assert(cmds_view(cmds@) =~= cmds_view(old(cmds)@) + out.cmds);
                            }
                            false
                        },
                    }
                } else {
                    proof {
                        assert(weight(v0) >= 2);
                    }
                    let w = st.create_node(key);
                    let cmd = Command::CreateNode {
                        widget: w,
                        key: key.clone(),
                        label: l2,
                        container,
                        disabled: false,
                    };
                    proof {
                        lemma_cmds_view_push(cmds@, cmd);
                    }
                    cmds.push(cmd);
                    proof {
                        let out = visit_node_m(old(st)@, v0, key@, label0, container);
                        assert(cmd@->CreateNode_label =~= node_label(label0, v0.short_name.unwrap()));
                        assert(st@ =~= out.st);
                        assert(cmds_view(cmds@) =~= cmds_view(old(cmds)@) + out.cmds);
                    }
                    false
                }
            },
        }
    }
}

/// Visits an expanded node's children, dispatching on the value's
/// structural category (see `dispatch_m`).
pub fn dispatch_reflect(
    st: &mut State,
    v: &mut Value,
    key: &Key,
    c: u64,
    cmds: &mut Vec<Command>,
) -> (mutated: bool)
    requires
        old(st).wf(),
        !key@.leaf,
        old(st)@.next_widget + weight(view_value(*old(v))) <= u64::MAX,
    ensures
        final(st).wf(),
        ({
            let out = dispatch_m(old(st)@, view_value(*old(v)), key@, c);
            &&& final(st)@ == out.st
            &&& view_value(*final(v)) == out.v
            &&& cmds_view(final(cmds)@) == cmds_view(old(cmds)@) + out.cmds
            &&& mutated == out.mutated
        }),
    decreases *old(v), 2int, 0int,
{
    let ghost v0 = view_value(*old(v));
    match &mut v.shape {
        Shape::Struct { fields } => {
            proof {
                assert(v0.shape == ShapeV::Struct { fields: view_field_seq(fields@) });
                assert(weight(v0) == 2 + wsum_fields(
                    view_field_seq(fields@),
                    view_field_seq(fields@).len() as int,
                ));
                lemma_view_field_seq(fields@);
            }
            let m = visit_struct_children(st, fields, key, c, cmds);
            proof {
                let out = dispatch_m(old(st)@, v0, key@, c);
                assert(view_value(*v) =~= out.v);
            }
            m
        },
        Shape::Tuple { fields } => {
            proof {
                assert(v0.shape == ShapeV::Tuple { fields: view_value_seq(fields@) });
                assert(weight(v0) == 2 + wsum_vals(
                    view_value_seq(fields@),
                    view_value_seq(fields@).len() as int,
                ));
                lemma_view_value_seq(fields@);
            }
            let m = visit_tuple_children(st, fields, key, c, cmds);
            proof {
                let out = dispatch_m(old(st)@, v0, key@, c);
                assert(view_value(*v) =~= out.v);
            }
            m
        },
        Shape::List { items } => {
            proof {
                assert(v0.shape == ShapeV::List { items: view_value_seq(items@) });
                assert(weight(v0) == 2 + wsum_vals(
                    view_value_seq(items@),
                    view_value_seq(items@).len() as int,
                ));
                lemma_view_value_seq(items@);
            }
            let m = visit_list_children(st, items, key, c, cmds);
            proof {
                let out = dispatch_m(old(st)@, v0, key@, c);
                assert(view_value(*v) =~= out.v);
            }
            m
        },
        Shape::Dict { pairs } => {
            proof {
                assert(v0.shape == ShapeV::Dict { pairs: view_pair_seq(pairs@) });
                assert(weight(v0) == 2 + wsum_pairs(
                    view_pair_seq(pairs@),
                    view_pair_seq(pairs@).len() as int,
                ));
                lemma_view_pair_seq(pairs@);
            }
            let m = visit_dict_children(st, pairs, key, c, cmds);
            proof {
                let out = dispatch_m(old(st)@, v0, key@, c);
                assert(view_value(*v) =~= out.v);
            }
            m
        },
        Shape::Enum { variants, active, payload } => {
            proof {
                assert(v0.shape == ShapeV::Enum {
                    variants: variants@.map_values(|s: String| s@),
                    active: *active as int,
                    payload: Box::new(view_value(**payload)),
                });
                assert(weight(v0) == 2 + variants@.map_values(|s: String| s@).len() + weight(
                    view_value(**payload),
                ));
            }
            let m = visit_variant_children(st, variants, *active, &mut *payload, key, c, cmds);
            proof {
                let out = dispatch_m(old(st)@, v0, key@, c);
                assert(view_value(*v) =~= out.v);
            }
            m
        },
        Shape::Leaf { value } => {
            let lkey = key.as_leaf();
            let m = visit_reflect_leaf(
                st,
                value,
                &lkey,
                WidgetCtor::TextBox,
                String::new(),
                Some(c),
                cmds,
            );
            proof {
                let out = dispatch_m(old(st)@, v0, key@, c);
                assert(view_value(*v) =~= out.v);
            }
            m
        },
    }
}

/// Visits the fields of a struct, in declared order.
fn visit_struct_children(
    st: &mut State,
    fields: &mut Vec<Field>,
    key: &Key,
    c: u64,
    cmds: &mut Vec<Command>,
) -> (mutated: bool)
    requires
        old(st).wf(),
        !key@.leaf,
        old(st)@.next_widget + wsum_fields(
            view_field_seq(old(fields)@),
            old(fields)@.len() as int,
        ) <= u64::MAX,
    ensures
        final(st).wf(),
        ({
            let fs = view_field_seq(old(fields)@);
            let out = visit_fields_m(old(st)@, fs, fs.len() as int, key@, c);
            &&& final(st)@ == out.st
            &&& view_field_seq(final(fields)@) == Seq::new(
                fs.len(),
                |i: int| FieldV { name: fs[i].name, value: out.items[i] },
            )
            &&& cmds_view(final(cmds)@) == cmds_view(old(cmds)@) + out.cmds
            &&& mutated == out.mutated
        }),
    decreases *old(fields), 9int, 0int,
{
    let ghost fs = view_field_seq(old(fields)@);
    proof {
        lemma_view_field_seq(old(fields)@);
    }
    let mut mutated = false;
    let mut i: usize = 0;
    while i < fields.len()
        invariant
            old(st).wf(),
            !key@.leaf,
            fields@.len() == old(fields)@.len(),
            fs == view_field_seq(old(fields)@),
            fs.len() == old(fields)@.len(),
            forall|j: int|
                0 <= j < fs.len() ==> #[trigger] fs[j] == (FieldV {
                    name: old(fields)@[j].name@,
                    value: view_value(old(fields)@[j].value),
                }),
            old(st)@.next_widget + wsum_fields(fs, fs.len() as int) <= u64::MAX,
            i <= fields@.len(),
            st.wf(),
            forall|j: int| i <= j < fields@.len() ==> fields@[j] == old(fields)@[j],
            ({
                let out = visit_fields_m(old(st)@, fs, i as int, key@, c);
                &&& st@ == out.st
                &&& cmds_view(cmds@) == cmds_view(old(cmds)@) + out.cmds
                &&& mutated == out.mutated
                &&& out.items.len() == i
                &&& forall|j: int|
                    0 <= j < i ==> (fields@[j].name == old(fields)@[j].name && view_value(
                        fields@[j].value,
                    ) == out.items[j])
            }),
        decreases fields@.len() - i,
    {
        let ghost pre = visit_fields_m(old(st)@, fs, i as int, key@, c);
        let mut lab = fields[i].name.clone();
        lab.append(": ");
        let ck = key.child(Step::Field(fields[i].name.clone()), false);
        proof {
            lemma_wsum_fields_mono(fs, i as int + 1, fs.len() as int);
            lemma_fields_frame(old(st)@, fs, i as int, key@, c);
            assert(st@.next_widget + weight(fs[i as int].value) <= u64::MAX);
            assert(view_value(fields@[i as int].value) == fs[i as int].value);
            assert(lab@ =~= field_label(fs[i as int].name));
            assert(ck@ =~= child_key(key@, StepV::Field(fs[i as int].name)));
            assert(decreases_to!(*old(fields) => old(fields)@));
            assert(decreases_to!(old(fields)@ => old(fields)@[i as int]));
            assert(decreases_to!(old(fields)@[i as int] => old(fields)@[i as int].value));
        }
        let m = visit_reflect_node(st, &mut fields[i].value, &ck, lab, Some(c), cmds);
        mutated = mutated || m;
        proof {
            assert(fields@[i as int].name == old(fields)@[i as int].name);
            assert(forall|j: int| 0 <= j < fields@.len() && j != i ==> fields@[j] == old(
                fields,
            )@[j] || view_value(fields@[j].value) == visit_fields_m(
                old(st)@,
                fs,
                i as int,
                key@,
                c,
            ).items[j]);
            let step = visit_fields_m(old(st)@, fs, i as int + 1, key@, c);
            assert(step.st == st@);
            assert(step.items[i as int] == view_value(fields@[i as int].value));
            assert(cmds_view(cmds@) =~= cmds_view(old(cmds)@) + step.cmds);
        }
        i = i + 1;
    }
    proof {
        lemma_view_field_seq(fields@);
        let out = visit_fields_m(old(st)@, fs, fs.len() as int, key@, c);
        assert(view_field_seq(fields@) =~= Seq::new(
            fs.len(),
            |j: int| FieldV { name: fs[j].name, value: out.items[j] },
        ));
    }
    mutated
}

/// Visits the fields of a tuple, in positional order.
fn visit_tuple_children(
    st: &mut State,
    fields: &mut Vec<Value>,
    key: &Key,
    c: u64,
    cmds: &mut Vec<Command>,
) -> (mutated: bool)
    requires
        old(st).wf(),
        !key@.leaf,
        old(st)@.next_widget + wsum_vals(
            view_value_seq(old(fields)@),
            old(fields)@.len() as int,
        ) <= u64::MAX,
    ensures
        final(st).wf(),
        ({
            let fs = view_value_seq(old(fields)@);
            let out = visit_tuple_m(old(st)@, fs, fs.len() as int, key@, c);
            &&& final(st)@ == out.st
            &&& view_value_seq(final(fields)@) == out.items
            &&& cmds_view(final(cmds)@) == cmds_view(old(cmds)@) + out.cmds
            &&& mutated == out.mutated
        }),
    decreases *old(fields), 9int, 0int,
{
    let ghost fs = view_value_seq(old(fields)@);
    proof {
        lemma_view_value_seq(old(fields)@);
    }
    let mut mutated = false;
    let mut i: usize = 0;
    while i < fields.len()
        invariant
            old(st).wf(),
            !key@.leaf,
            fields@.len() == old(fields)@.len(),
            fs == view_value_seq(old(fields)@),
            fs.len() == old(fields)@.len(),
            forall|j: int|
                0 <= j < fs.len() ==> #[trigger] fs[j] == view_value(old(fields)@[j]),
            old(st)@.next_widget + wsum_vals(fs, fs.len() as int) <= u64::MAX,
            i <= fields@.len(),
            st.wf(),
            forall|j: int| i <= j < fields@.len() ==> fields@[j] == old(fields)@[j],
            ({
                let out = visit_tuple_m(old(st)@, fs, i as int, key@, c);
                &&& st@ == out.st
                &&& cmds_view(cmds@) == cmds_view(old(cmds)@) + out.cmds
                &&& mutated == out.mutated
                &&& out.items.len() == i
                &&& forall|j: int| 0 <= j < i ==> view_value(fields@[j]) == out.items[j]
            }),
        decreases fields@.len() - i,
    {
        let mut lab = fmt_u64(i as u64);
        lab.append(": ");
        let ck = key.child(Step::Index(i), false);
        proof {
            lemma_wsum_vals_mono(fs, i as int + 1, fs.len() as int);
            lemma_tuple_frame(old(st)@, fs, i as int, key@, c);
            assert(st@.next_widget + weight(fs[i as int]) <= u64::MAX);
            assert(view_value(fields@[i as int]) == fs[i as int]);
            assert(lab@ =~= tuple_label(i as int));
            assert(ck@ =~= child_key(key@, StepV::Index(i as int)));
            assert(decreases_to!(*old(fields) => old(fields)@));
            assert(decreases_to!(old(fields)@ => old(fields)@[i as int]));
        }
        let m = visit_reflect_node(st, &mut fields[i], &ck, lab, Some(c), cmds);
        mutated = mutated || m;
        proof {
            let step = visit_tuple_m(old(st)@, fs, i as int + 1, key@, c);
            assert(step.st == st@);
            assert(cmds_view(cmds@) =~= cmds_view(old(cmds)@) + step.cmds);
        }
        i = i + 1;
    }
    proof {
        lemma_view_value_seq(fields@);
        let out = visit_tuple_m(old(st)@, fs, fs.len() as int, key@, c);
        assert(view_value_seq(fields@) =~= out.items);
    }
    mutated
}

/// Visits the elements of a list, in positional order.
fn visit_list_children(
    st: &mut State,
    items: &mut Vec<Value>,
    key: &Key,
    c: u64,
    cmds: &mut Vec<Command>,
) -> (mutated: bool)
    requires
        old(st).wf(),
        !key@.leaf,
        old(st)@.next_widget + wsum_vals(view_value_seq(old(items)@), old(items)@.len() as int)
            <= u64::MAX,
    ensures
        final(st).wf(),
        ({
            let vs = view_value_seq(old(items)@);
            let out = visit_list_m(old(st)@, vs, vs.len() as int, key@, c);
            &&& final(st)@ == out.st
            &&& view_value_seq(final(items)@) == out.items
            &&& cmds_view(final(cmds)@) == cmds_view(old(cmds)@) + out.cmds
            &&& mutated == out.mutated
        }),
    decreases *old(items), 9int, 0int,
{
    let ghost vs = view_value_seq(old(items)@);
    proof {
        lemma_view_value_seq(old(items)@);
    }
    let mut mutated = false;
    let mut i: usize = 0;
    while i < items.len()
        invariant
            old(st).wf(),
            !key@.leaf,
            items@.len() == old(items)@.len(),
            vs == view_value_seq(old(items)@),
            vs.len() == old(items)@.len(),
            forall|j: int| 0 <= j < vs.len() ==> #[trigger] vs[j] == view_value(old(items)@[j]),
            old(st)@.next_widget + wsum_vals(vs, vs.len() as int) <= u64::MAX,
            i <= items@.len(),
            st.wf(),
            forall|j: int| i <= j < items@.len() ==> items@[j] == old(items)@[j],
            ({
                let out = visit_list_m(old(st)@, vs, i as int, key@, c);
                &&& st@ == out.st
                &&& cmds_view(cmds@) == cmds_view(old(cmds)@) + out.cmds
                &&& mutated == out.mutated
                &&& out.items.len() == i
                &&& forall|j: int| 0 <= j < i ==> view_value(items@[j]) == out.items[j]
            }),
        decreases items@.len() - i,
    {
        let mut lab = String::new();
        lab.append("[");
        let num = fmt_u64(i as u64);
        lab.append(num.as_str());
        lab.append("]:");
        let ck = key.child(Step::Index(i), false);
        proof {
            lemma_wsum_vals_mono(vs, i as int + 1, vs.len() as int);
            lemma_list_frame(old(st)@, vs, i as int, key@, c);
            assert(st@.next_widget + weight(vs[i as int]) <= u64::MAX);
            assert(view_value(items@[i as int]) == vs[i as int]);
            assert(lab@ =~= list_label(i as int));
            assert(ck@ =~= child_key(key@, StepV::Index(i as int)));
            assert(decreases_to!(*old(items) => old(items)@));
            assert(decreases_to!(old(items)@ => old(items)@[i as int]));
        }
        let m = visit_reflect_node(st, &mut items[i], &ck, lab, Some(c), cmds);
        mutated = mutated || m;
        proof {
            let step = visit_list_m(old(st)@, vs, i as int + 1, key@, c);
            assert(step.st == st@);
            assert(cmds_view(cmds@) =~= cmds_view(old(cmds)@) + step.cmds);
        }
        i = i + 1;
    }
    proof {
        lemma_view_value_seq(items@);
        let out = visit_list_m(old(st)@, vs, vs.len() as int, key@, c);
        assert(view_value_seq(items@) =~= out.items);
    }
    mutated
}

/// Visits the entries of a map, labeling each with its rendered key.
#[verifier::rlimit(60)]
fn visit_dict_children(
    st: &mut State,
    pairs: &mut Vec<MapPair>,
    key: &Key,
    c: u64,
    cmds: &mut Vec<Command>,
) -> (mutated: bool)
    requires
        old(st).wf(),
        !key@.leaf,
        old(st)@.next_widget + wsum_pairs(view_pair_seq(old(pairs)@), old(pairs)@.len() as int)
            <= u64::MAX,
    ensures
        final(st).wf(),
        ({
            let ps = view_pair_seq(old(pairs)@);
            let out = visit_pairs_m(old(st)@, ps, ps.len() as int, key@, c);
            &&& final(st)@ == out.st
            &&& view_pair_seq(final(pairs)@) == Seq::new(
                ps.len(),
                |i: int| PairV { key: ps[i].key, value: out.items[i] },
            )
            &&& cmds_view(final(cmds)@) == cmds_view(old(cmds)@) + out.cmds
            &&& mutated == out.mutated
        }),
    decreases *old(pairs), 9int, 0int,
{
    let ghost ps = view_pair_seq(old(pairs)@);
    proof {
        lemma_view_pair_seq(old(pairs)@);
    }
    let mut mutated = false;
    let mut i: usize = 0;
    while i < pairs.len()
        invariant
            old(st).wf(),
            !key@.leaf,
            pairs@.len() == old(pairs)@.len(),
            ps == view_pair_seq(old(pairs)@),
            ps.len() == old(pairs)@.len(),
            forall|j: int|
                0 <= j < ps.len() ==> #[trigger] ps[j] == (PairV {
                    key: old(pairs)@[j].key@,
                    value: view_value(old(pairs)@[j].value),
                }),
            old(st)@.next_widget + wsum_pairs(ps, ps.len() as int) <= u64::MAX,
            i <= pairs@.len(),
            st.wf(),
            forall|j: int| i <= j < pairs@.len() ==> pairs@[j] == old(pairs)@[j],
            st@ == visit_pairs_m(old(st)@, ps, i as int, key@, c).st,
            cmds_view(cmds@) == cmds_view(old(cmds)@) + visit_pairs_m(
                old(st)@,
                ps,
                i as int,
                key@,
                c,
            ).cmds,
            mutated == visit_pairs_m(old(st)@, ps, i as int, key@, c).mutated,
            visit_pairs_m(old(st)@, ps, i as int, key@, c).items.len() == i,
            forall|j: int| #![trigger pairs@[j]]
                0 <= j < i ==> (pairs@[j].key == old(pairs)@[j].key && view_value(
                    pairs@[j].value,
                ) == visit_pairs_m(old(st)@, ps, i as int, key@, c).items[j]),
        decreases pairs@.len() - i,
    {
        let mut lab = to_text(&pairs[i].key);
        lab.append(": ");
        let ck = key.child(Step::MapKey(to_text(&pairs[i].key)), false);
        proof {
            lemma_wsum_pairs_mono(ps, i as int + 1, ps.len() as int);
            lemma_pairs_frame(old(st)@, ps, i as int, key@, c);
            assert(st@.next_widget + weight(ps[i as int].value) <= u64::MAX);
            assert(view_value(pairs@[i as int].value) == ps[i as int].value);
            assert(lab@ =~= map_label(ps[i as int].key));
            assert(ck@ =~= child_key(key@, StepV::MapKey(leaf_text(ps[i as int].key))));
            assert(decreases_to!(*old(pairs) => old(pairs)@));
            assert(decreases_to!(old(pairs)@ => old(pairs)@[i as int]));
            assert(decreases_to!(old(pairs)@[i as int] => old(pairs)@[i as int].value));
        }
        let m = visit_reflect_node(st, &mut pairs[i].value, &ck, lab, Some(c), cmds);
        mutated = mutated || m;
        proof {
            assert(pairs@[i as int].key == old(pairs)@[i as int].key);
            let pre = visit_pairs_m(old(st)@, ps, i as int, key@, c);
            let step = visit_pairs_m(old(st)@, ps, i as int + 1, key@, c);
            assert(step.st == st@);
            assert(step.items[i as int] == view_value(pairs@[i as int].value));
            assert(cmds_view(cmds@) =~= cmds_view(old(cmds)@) + step.cmds);
            assert forall|j: int| #![trigger pairs@[j]] 0 <= j < i + 1 implies (pairs@[j].key
                == old(pairs)@[j].key && view_value(pairs@[j].value) == step.items[j]) by {
                if j < i {
                    let itm = pre.items[j];
                    assert(view_value(pairs@[j].value) == itm);
                    assert(pairs@[j].key == old(pairs)@[j].key);
                    assert(step.items[j] == itm);
                }
            }
            assert(mutated == step.mutated);
            assert(step.items.len() == i + 1);
            assert(pairs@.len() == old(pairs)@.len());
            assert(forall|j: int| i + 1 <= j < pairs@.len() ==> pairs@[j] == old(pairs)@[j]);
            assert(st.wf());
        }
        i = i + 1;
    }
    proof {
        lemma_view_pair_seq(pairs@);
        let out = visit_pairs_m(old(st)@, ps, ps.len() as int, key@, c);
        assert(view_pair_seq(pairs@) =~= Seq::new(
            ps.len(),
            |j: int| PairV { key: ps[j].key, value: out.items[j] },
        ));
    }
    mutated
}

/// Visits the declared variants of an enum: the active variant's payload
/// is visited as a node; every other variant is a disabled placeholder,
/// visited and kept alive but never recursed.
fn visit_variant_children(
    st: &mut State,
    variants: &Vec<String>,
    active: usize,
    payload: &mut Value,
    key: &Key,
    c: u64,
    cmds: &mut Vec<Command>,
) -> (mutated: bool)
    requires
        old(st).wf(),
        !key@.leaf,
        old(st)@.next_widget + variants@.len() + weight(view_value(*old(payload))) <= u64::MAX,
    ensures
        final(st).wf(),
        ({
            let vs = variants@.map_values(|s: String| s@);
            let p0 = view_value(*old(payload));
            let out = visit_variants_m(
                old(st)@,
                vs,
                p0,
                active as int,
                vs.len() as int,
                key@,
                c,
            );
            &&& final(st)@ == out.st
            &&& view_value(*final(payload)) == (if 0 <= active < vs.len() {
                out.items[active as int]
            } else {
                p0
            })
            &&& cmds_view(final(cmds)@) == cmds_view(old(cmds)@) + out.cmds
            &&& mutated == out.mutated
        }),
    decreases *old(payload), 9int, 0int,
{
    let ghost vs = variants@.map_values(|s: String| s@);
    let ghost p0 = view_value(*old(payload));
    let mut mutated = false;
    let mut i: usize = 0;
    while i < variants.len()
        invariant
            old(st).wf(),
            !key@.leaf,
            vs == variants@.map_values(|s: String| s@),
            vs.len() == variants@.len(),
            forall|j: int| 0 <= j < vs.len() ==> #[trigger] vs[j] == variants@[j]@,
            p0 == view_value(*old(payload)),
            old(st)@.next_widget + variants@.len() + weight(p0) <= u64::MAX,
            i <= variants@.len(),
            st.wf(),
            if active < i {
                view_value(*payload) == visit_variants_m(
                    old(st)@,
                    vs,
                    p0,
                    active as int,
                    i as int,
                    key@,
                    c,
                ).items[active as int]
            } else {
                *payload == *old(payload)
            },
            ({
                let out = visit_variants_m(old(st)@, vs, p0, active as int, i as int, key@, c);
                &&& st@ == out.st
                &&& cmds_view(cmds@) == cmds_view(old(cmds)@) + out.cmds
                &&& mutated == out.mutated
                &&& out.items.len() == i
            }),
        decreases variants@.len() - i,
    {
        let lab = variants[i].clone();
        let ck = key.child(Step::Variant(i), false);
        proof {
            lemma_variants_frame(old(st)@, vs, p0, active as int, i as int, key@, c);
        }
        if i == active {
            let m = visit_reflect_node(st, payload, &ck, lab, Some(c), cmds);
            mutated = mutated || m;
            proof {
                let step = visit_variants_m(
                    old(st)@,
                    vs,
                    p0,
                    active as int,
                    i as int + 1,
                    key@,
                    c,
                );
                assert(step.st == st@);
                assert(cmds_view(cmds@) =~= cmds_view(old(cmds)@) + step.cmds);
                assert(step.items[active as int] == view_value(*payload));
            }
        } else {
            visit_opaque(st, &ck, lab, Some(c), cmds);
            proof {
                let step = visit_variants_m(
                    old(st)@,
                    vs,
                    p0,
                    active as int,
                    i as int + 1,
                    key@,
                    c,
                );
                assert(step.st == st@);
                assert(cmds_view(cmds@) =~= cmds_view(old(cmds)@) + step.cmds);
            }
        }
        i = i + 1;
    }
    mutated
}

/// What one reconciliation pass asks of the host: the widget commands (in
/// order: creations as visited, then destroys), and the seeds of the roots
/// whose source values were written from pending edits.
pub struct ReconcileOutput {
    pub cmds: Vec<Command>,
    pub mutated: Vec<u64>,
}

/// Runs one reconciliation pass over the given roots, in list order (see
/// `reconcile_m`): lowers every liveness flag, visits every root top-down
/// recursing only into expanded nodes, runs the leaf edit protocol at
/// every visited leaf (writing pending edits back into `roots`), and
/// sweeps the entries the pass did not reach. The returned commands hold
/// the creations in visit order followed by one destroy per dead widget
/// subtree root.
pub fn reconcile(st: &mut State, roots: &mut Vec<Root>) -> (r: ReconcileOutput)
    requires
        old(st).wf(),
        old(st)@.next_widget + wsum_roots(
            roots_view(old(roots)@),
            old(roots)@.len() as int,
        ) <= u64::MAX,
    ensures
        final(st).wf(),
        ({
            let out = reconcile_m(old(st)@, roots_view(old(roots)@));
            &&& final(st)@ == out.st
            &&& roots_view(final(roots)@) == out.roots
            &&& r.mutated@ == out.muts
            &&& out.cmds.len() <= r.cmds@.len()
            &&& cmds_view(r.cmds@).subrange(0, out.cmds.len() as int) == out.cmds
            &&& forall|i: int|
                out.cmds.len() <= i < r.cmds@.len() ==> (#[trigger] r.cmds@[i]@ matches
                CmdV::Destroy { .. })
            &&& forall|w: u64|
                out.destroyed.contains(w) <==> exists|i: int|
                    out.cmds.len() <= i < r.cmds@.len() && r.cmds@[i]@ == (CmdV::Destroy {
                        widget: w,
                    })
            &&& forall|i: int, j: int|
                out.cmds.len() <= i < j < r.cmds@.len() ==> r.cmds@[i]@ != r.cmds@[j]@
        }),
{
    let ghost roots0 = roots_view(old(roots)@);
    let ghost st_in = old(st)@;
    st.reset_alive();
    let ghost st0 = st@;
    proof {
        lemma_roots_view_index(old(roots)@);
    }
    let mut cmds: Vec<Command> = Vec::new();
    let mut muts: Vec<u64> = Vec::new();
    let mut i: usize = 0;
    while i < roots.len()
        invariant
            old(st).wf(),
            st0 == (StateV { entries: reset_m(st_in.entries), ..st_in }),
            st_in == old(st)@,
            roots0 == roots_view(old(roots)@),
            roots0.len() == old(roots)@.len(),
            roots@.len() == old(roots)@.len(),
            forall|j: int|
                0 <= j < roots0.len() ==> #[trigger] roots0[j] == (RootV {
                    seed: old(roots)@[j].seed,
                    label: old(roots)@[j].label@,
                    value: view_value(old(roots)@[j].value),
                }),
            st_in.next_widget + wsum_roots(roots0, roots0.len() as int) <= u64::MAX,
            i <= roots@.len(),
            st.wf(),
            forall|j: int| i <= j < roots@.len() ==> roots@[j] == old(roots)@[j],
            st@ == visit_roots_m(st0, roots0, i as int).st,
            cmds_view(cmds@) == visit_roots_m(st0, roots0, i as int).cmds,
            muts@ == visit_roots_m(st0, roots0, i as int).muts,
            visit_roots_m(st0, roots0, i as int).roots.len() == i,
            forall|j: int| #![trigger roots@[j]]
                0 <= j < i ==> roots@[j]@ == visit_roots_m(st0, roots0, i as int).roots[j],
        decreases roots@.len() - i,
    {
        let ghost pre = visit_roots_m(st0, roots0, i as int);
        let rk = Key::root(roots[i].seed);
        let lab = roots[i].label.clone();
        proof {
            lemma_wsum_roots_mono(roots0, i as int + 1, roots0.len() as int);
            lemma_roots_frame(st0, roots0, i as int);
            assert(st@.next_widget + weight(roots0[i as int].value) <= u64::MAX);
            assert(view_value(roots@[i as int].value) == roots0[i as int].value);
            assert(rk@ =~= root_key(roots0[i as int].seed));
        }
        let m = visit_reflect_node(st, &mut roots[i].value, &rk, lab, None, &mut cmds);
        if m {
            muts.push(roots[i].seed);
        }
        proof {
            assert(roots@[i as int].seed == old(roots)@[i as int].seed);
            assert(roots@[i as int].label == old(roots)@[i as int].label);
            let step = visit_roots_m(st0, roots0, i as int + 1);
            assert(step.st == st@);
            assert(step.roots[i as int].value == view_value(roots@[i as int].value));
            assert(cmds_view(cmds@) =~= step.cmds);
            assert(muts@ =~= step.muts);
            assert(roots@[i as int]@ =~= step.roots[i as int]);
            assert forall|j: int| #![trigger roots@[j]]
                0 <= j < i + 1 implies roots@[j]@ == step.roots[j] by {
                if j < i {
                    let itm = pre.roots[j];
                    assert(roots@[j]@ == itm);
                    assert(step.roots[j] == itm);
                }
            }
        }
        i = i + 1;
    }
    let ghost visited = visit_roots_m(st0, roots0, roots0.len() as int);
    let destroys = st.sweep();
    let ghost ncreate = cmds@.len();
    let mut d: usize = 0;
    while d < destroys.len()
        invariant
            d <= destroys@.len(),
            cmds@.len() == ncreate + d,
            cmds_view(cmds@).subrange(0, ncreate as int) == visited.cmds,
            ncreate == visited.cmds.len(),
            forall|j: int|
                ncreate <= j < cmds@.len() ==> #[trigger] cmds@[j]@ == (CmdV::Destroy {
                    widget: destroys@[j - ncreate],
                }),
            destroys@.no_duplicates(),
        decreases destroys@.len() - d,
    {
        let cmd = Command::Destroy { widget: destroys[d] };
        proof {
            lemma_cmds_view_push(cmds@, cmd);
            assert(cmds_view(cmds@.push(cmd)).subrange(0, ncreate as int) =~= cmds_view(
                cmds@,
            ).subrange(0, ncreate as int));
        }
        cmds.push(cmd);
        d = d + 1;
    }
    proof {
        let out = reconcile_m(st_in, roots0);
        assert(st@ =~= out.st);
        assert forall|j: int| 0 <= j < roots@.len() implies roots_view(roots@)[j] == out.roots[j] by {
            assert(roots_view(roots@)[j] == roots@[j]@);
        }
        assert(roots_view(roots@) =~= out.roots);
        assert forall|w: u64|
            out.destroyed.contains(w) implies exists|j: int|
            ncreate <= j < cmds@.len() && cmds@[j]@ == (CmdV::Destroy { widget: w }) by {
            assert(destroys@.contains(w));
            let k = choose|k: int| 0 <= k < destroys@.len() && destroys@[k] == w;
            assert(cmds@[ncreate + k]@ == CmdV::Destroy { widget: w });
        }
        assert forall|w: u64| #![trigger out.destroyed.contains(w)]
            (exists|j: int|
                ncreate <= j < cmds@.len() && cmds@[j]@ == (CmdV::Destroy { widget: w }))
            implies out.destroyed.contains(w) by {
            let j = choose|j: int|
                ncreate <= j < cmds@.len() && cmds@[j]@ == (CmdV::Destroy { widget: w });
            assert(cmds@[j]@ == CmdV::Destroy { widget: destroys@[j - ncreate] });
            assert(destroys@.contains(destroys@[j - ncreate]));
        }
        assert forall|x: int, y: int|
            ncreate <= x < y < cmds@.len() implies cmds@[x]@ != cmds@[y]@ by {
            assert(cmds@[x]@ == CmdV::Destroy { widget: destroys@[x - ncreate] });
            assert(cmds@[y]@ == CmdV::Destroy { widget: destroys@[y - ncreate] });
        }
    }
    ReconcileOutput { cmds, mutated: muts }
}

proof fn lemma_roots_view_index(s: Seq<Root>)
    ensures
        roots_view(s).len() == s.len(),
        forall|j: int|
            0 <= j < s.len() ==> #[trigger] roots_view(s)[j] == (RootV {
                seed: s[j].seed,
                label: s[j].label@,
                value: view_value(s[j].value),
            }),
{
    assert forall|j: int| 0 <= j < s.len() implies #[trigger] roots_view(s)[j] == (RootV {
        seed: s[j].seed,
        label: s[j].label@,
        value: view_value(s[j].value),
    }) by {
        assert(roots_view(s)[j] == s[j]@);
    }
}

} // verus!
