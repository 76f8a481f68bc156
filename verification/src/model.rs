//! The mathematical model of one reconciliation pass: a family of spec
//! functions that compute, from the state and the root values, the new
//! state, the edited values, the commands issued, and the mutation
//! reports. The executable reconciler is proved equal to this model, and
//! the engine's laws are proved about it.

use vstd::prelude::*;

use crate::keys::KeyV;
use crate::keys::StepV;
use crate::table::EntryV;
use crate::table::InnerV;
use crate::table::StateV;
use crate::table::WidgetCtor;
use crate::table::dead_root_widgets;
use crate::table::leaf_revisit_m;
use crate::table::node_container;
use crate::table::reset_m;
use crate::table::swept_m;
use crate::text::dec_digits;
use crate::text::leaf_text;
use crate::values::FieldV;
use crate::values::LeafV;
use crate::values::PairV;
use crate::values::ShapeV;
use crate::values::ValueV;
use crate::values::leaf_repr;
use crate::values::with_leaf_repr;

verus! {

/// A widget command of the model.
#[verifier::ext_equal]
pub enum CmdV {
    CreateNode {
        widget: u64,
        key: KeyV,
        label: Seq<char>,
        container: Option<u64>,
        disabled: bool,
    },
    CreateLeaf {
        widget: u64,
        key: KeyV,
        label: Seq<char>,
        container: Option<u64>,
        ctor: WidgetCtor,
        initial: LeafV,
    },
    Destroy { widget: u64 },
}

/// One root of the model: a host-stable identity seed, a rendered label,
/// and the root's current value.
#[verifier::ext_equal]
pub struct RootV {
    pub seed: u64,
    pub label: Seq<char>,
    pub value: ValueV,
}

/// Outcome of visiting one value.
#[verifier::ext_equal]
pub struct VisitOut {
    pub st: StateV,
    pub v: ValueV,
    pub cmds: Seq<CmdV>,
    pub mutated: bool,
}

/// Outcome of visiting the first `i` children of a node.
#[verifier::ext_equal]
pub struct FoldOut {
    pub st: StateV,
    pub items: Seq<ValueV>,
    pub cmds: Seq<CmdV>,
    pub mutated: bool,
}

/// Outcome of visiting one leaf position.
#[verifier::ext_equal]
pub struct LeafOut {
    pub st: StateV,
    pub lv: LeafV,
    pub cmds: Seq<CmdV>,
    pub mutated: bool,
}

/// The key of the node position at a root.
pub open spec fn root_key(seed: u64) -> KeyV {
    KeyV { slot: seed, path: Seq::empty(), leaf: false }
}

/// The key one step below a node position.
pub open spec fn child_key(k: KeyV, step: StepV) -> KeyV {
    KeyV { slot: k.slot, path: k.path.push(step), leaf: false }
}

/// The leaf position at the same path as a node position.
pub open spec fn leaf_key(k: KeyV) -> KeyV {
    KeyV { slot: k.slot, path: k.path, leaf: true }
}

/// The label of a struct field child.
pub open spec fn field_label(name: Seq<char>) -> Seq<char> {
    name + ": "@
}

/// The label of a positional tuple child.
pub open spec fn tuple_label(i: int) -> Seq<char> {
    dec_digits(i as nat) + ": "@
}

/// The label of a list element child.
pub open spec fn list_label(i: int) -> Seq<char> {
    "["@ + dec_digits(i as nat) + "]:"@
}

/// The label of a map entry child: the rendered key.
pub open spec fn map_label(key: LeafV) -> Seq<char> {
    leaf_text(key) + ": "@
}

/// The full label of a registered node: the child prefix, then the type's
/// short display name.
pub open spec fn node_label(prefix: Seq<char>, short_name: Seq<char>) -> Seq<char> {
    prefix + short_name
}

/// The label of an unregistered value's error node: the raw type name.
pub open spec fn error_label(prefix: Seq<char>, full_name: Seq<char>) -> Seq<char> {
    prefix + full_name + " (unregistered)"@
}

/// Visiting one leaf position of the edit protocol: revisit performs one
/// protocol step (see `leaf_revisit_m`); first visit creates the entry and
/// the widget, seeded with the field's current value.
pub open spec fn visit_leaf_m(
    st: StateV,
    lv: LeafV,
    lkey: KeyV,
    ctor: WidgetCtor,
    label: Seq<char>,
    container: Option<u64>,
) -> LeafOut {
    if st.entries.contains_key(lkey) {
        let (e2, v2, m2) = leaf_revisit_m(st.entries[lkey], lv);
        LeafOut {
            st: StateV { entries: st.entries.insert(lkey, e2), ..st },
            lv: v2,
            cmds: Seq::empty(),
            mutated: m2,
        }
    } else {
        let w = st.next_widget;
        LeafOut {
            st: StateV {
                entries: st.entries.insert(
                    lkey,
                    EntryV {
                        widget: w,
                        alive: true,
                        inner: InnerV::Leaf { cached: lv, field_mutated: true, pending: None },
                    },
                ),
                next_widget: (w + 1) as u64,
                ..st
            },
            lv,
            cmds: seq![
                CmdV::CreateLeaf { widget: w, key: lkey, label, container, ctor, initial: lv },
            ],
            mutated: false,
        }
    }
}

/// Visiting a node position that is never recursed into: an unregistered
/// value's error node, or an inactive enum variant's placeholder.
pub open spec fn visit_opaque_m(
    st: StateV,
    key: KeyV,
    label: Seq<char>,
    container: Option<u64>,
) -> (StateV, Seq<CmdV>) {
    if st.entries.contains_key(key) {
        (
            StateV {
                entries: st.entries.insert(key, EntryV { alive: true, ..st.entries[key] }),
                ..st
            },
            Seq::empty(),
        )
    } else {
        let w = st.next_widget;
        (
            StateV {
                entries: st.entries.insert(
                    key,
                    EntryV { widget: w, alive: true, inner: InnerV::Node { container: None } },
                ),
                next_widget: (w + 1) as u64,
                ..st
            },
            seq![CmdV::CreateNode { widget: w, key, label, container, disabled: true }],
        )
    }
}

/// Visiting one value at a node position: a registered specialized widget
/// takes the whole position as a leaf, whatever the value's category (its
/// typed leaf representation carries the edit); an unregistered type
/// becomes an inert error node; a primitive leaf with no specialized
/// widget delegates to the leaf protocol with the generic text box;
/// otherwise the node entry is looked up or created and, only if its
/// children container exists, the pass recurses.
pub open spec fn visit_node_m(
    st: StateV,
    v: ValueV,
    key: KeyV,
    label: Seq<char>,
    container: Option<u64>,
) -> VisitOut
    decreases v, 3int, 0int,
{
    if st.registry.contains_key(v.type_tag) && leaf_repr(v) is Some {
        let out = visit_leaf_m(
            st,
            leaf_repr(v).unwrap(),
            leaf_key(key),
            st.registry[v.type_tag],
            label,
            container,
        );
        VisitOut {
            st: out.st,
            v: with_leaf_repr(v, out.lv),
            cmds: out.cmds,
            mutated: out.mutated,
        }
    } else if v.short_name is None {
        let (st2, cmds) = visit_opaque_m(st, key, error_label(label, v.full_name), container);
        VisitOut { st: st2, v, cmds, mutated: false }
    } else if v.shape matches ShapeV::Leaf { .. } {
        let out = visit_leaf_m(
            st,
            v.shape->value,
            leaf_key(key),
            WidgetCtor::TextBox,
            label,
            container,
        );
        VisitOut {
            st: out.st,
            v: ValueV { shape: ShapeV::Leaf { value: out.lv }, ..v },
            cmds: out.cmds,
            mutated: out.mutated,
        }
    } else {
        let label2 = node_label(label, v.short_name.unwrap());
        if st.entries.contains_key(key) {
            let st1 = StateV {
                entries: st.entries.insert(key, EntryV { alive: true, ..st.entries[key] }),
                ..st
            };
            match node_container(st.entries[key]) {
                Some(c) => dispatch_m(st1, v, key, c),
                None => VisitOut { st: st1, v, cmds: Seq::empty(), mutated: false },
            }
        } else {
            let w = st.next_widget;
            let st1 = StateV {
                entries: st.entries.insert(
                    key,
                    EntryV { widget: w, alive: true, inner: InnerV::Node { container: None } },
                ),
                next_widget: (w + 1) as u64,
                ..st
            };
            VisitOut {
                st: st1,
                v,
                cmds: seq![
                    CmdV::CreateNode {
                        widget: w,
                        key,
                        label: label2,
                        container,
                        disabled: false,
                    },
                ],
                mutated: false,
            }
        }
    }
}

/// Visiting an expanded node's children, by structural category.
pub open spec fn dispatch_m(st: StateV, v: ValueV, key: KeyV, c: u64) -> VisitOut
    decreases v, 2int, 0int,
{
    match v.shape {
        ShapeV::Struct { fields } => {
            let out = visit_fields_m(st, fields, fields.len() as int, key, c);
            VisitOut {
                st: out.st,
                v: ValueV {
                    shape: ShapeV::Struct {
                        fields: Seq::new(
                            fields.len(),
                            |i: int| FieldV { name: fields[i].name, value: out.items[i] },
                        ),
                    },
                    ..v
                },
                cmds: out.cmds,
                mutated: out.mutated,
            }
        },
        ShapeV::Tuple { fields } => {
            let out = visit_tuple_m(st, fields, fields.len() as int, key, c);
            VisitOut {
                st: out.st,
                v: ValueV { shape: ShapeV::Tuple { fields: out.items }, ..v },
                cmds: out.cmds,
                mutated: out.mutated,
            }
        },
        ShapeV::List { items } => {
            let out = visit_list_m(st, items, items.len() as int, key, c);
            VisitOut {
                st: out.st,
                v: ValueV { shape: ShapeV::List { items: out.items }, ..v },
                cmds: out.cmds,
                mutated: out.mutated,
            }
        },
        ShapeV::Dict { pairs } => {
            let out = visit_pairs_m(st, pairs, pairs.len() as int, key, c);
            VisitOut {
                st: out.st,
                v: ValueV {
                    shape: ShapeV::Dict {
                        pairs: Seq::new(
                            pairs.len(),
                            |i: int| PairV { key: pairs[i].key, value: out.items[i] },
                        ),
                    },
                    ..v
                },
                cmds: out.cmds,
                mutated: out.mutated,
            }
        },
        ShapeV::Enum { variants, active, payload } => {
            let out = visit_variants_m(
                st,
                variants,
                *payload,
                active,
                variants.len() as int,
                key,
                c,
            );
            VisitOut {
                st: out.st,
                v: ValueV {
                    shape: ShapeV::Enum {
                        variants,
                        active,
                        payload: Box::new(
                            if 0 <= active < variants.len() {
                                out.items[active]
                            } else {
                                *payload
                            },
                        ),
                    },
                    ..v
                },
                cmds: out.cmds,
                mutated: out.mutated,
            }
        },
        ShapeV::Leaf { value } => {
            let out = visit_leaf_m(
                st,
                value,
                leaf_key(key),
                WidgetCtor::TextBox,
                Seq::empty(),
                Some(c),
            );
            VisitOut {
                st: out.st,
                v: ValueV { shape: ShapeV::Leaf { value: out.lv }, ..v },
                cmds: out.cmds,
                mutated: out.mutated,
            }
        },
    }
}

/// Visits the first `i` fields of a struct.
pub open spec fn visit_fields_m(
    st: StateV,
    fields: Seq<FieldV>,
    i: int,
    key: KeyV,
    c: u64,
) -> FoldOut
    decreases fields, 9int, i,
{
    if i <= 0 || i > fields.len() {
        FoldOut { st, items: Seq::empty(), cmds: Seq::empty(), mutated: false }
    } else {
        let prev = visit_fields_m(st, fields, i - 1, key, c);
        let f = fields[i - 1];
        proof {
            assert(decreases_to!(fields => fields[i - 1]));
            assert(decreases_to!(fields[i - 1] => fields[i - 1].value));
        }
        let out = visit_node_m(
            prev.st,
            f.value,
            child_key(key, StepV::Field(f.name)),
            field_label(f.name),
            Some(c),
        );
        FoldOut {
            st: out.st,
            items: prev.items.push(out.v),
            cmds: prev.cmds + out.cmds,
            mutated: prev.mutated || out.mutated,
        }
    }
}

/// Visits the first `i` fields of a tuple.
pub open spec fn visit_tuple_m(
    st: StateV,
    fields: Seq<ValueV>,
    i: int,
    key: KeyV,
    c: u64,
) -> FoldOut
    decreases fields, 9int, i,
{
    if i <= 0 || i > fields.len() {
        FoldOut { st, items: Seq::empty(), cmds: Seq::empty(), mutated: false }
    } else {
        let prev = visit_tuple_m(st, fields, i - 1, key, c);
        proof {
            assert(decreases_to!(fields => fields[i - 1]));
        }
        let out = visit_node_m(
            prev.st,
            fields[i - 1],
            child_key(key, StepV::Index(i - 1)),
            tuple_label(i - 1),
            Some(c),
        );
        FoldOut {
            st: out.st,
            items: prev.items.push(out.v),
            cmds: prev.cmds + out.cmds,
            mutated: prev.mutated || out.mutated,
        }
    }
}

/// Visits the first `i` elements of a list.
pub open spec fn visit_list_m(
    st: StateV,
    items: Seq<ValueV>,
    i: int,
    key: KeyV,
    c: u64,
) -> FoldOut
    decreases items, 9int, i,
{
    if i <= 0 || i > items.len() {
        FoldOut { st, items: Seq::empty(), cmds: Seq::empty(), mutated: false }
    } else {
        let prev = visit_list_m(st, items, i - 1, key, c);
        proof {
            assert(decreases_to!(items => items[i - 1]));
        }
        let out = visit_node_m(
            prev.st,
            items[i - 1],
            child_key(key, StepV::Index(i - 1)),
            list_label(i - 1),
            Some(c),
        );
        FoldOut {
            st: out.st,
            items: prev.items.push(out.v),
            cmds: prev.cmds + out.cmds,
            mutated: prev.mutated || out.mutated,
        }
    }
}

/// Visits the first `i` entries of a map.
pub open spec fn visit_pairs_m(
    st: StateV,
    pairs: Seq<PairV>,
    i: int,
    key: KeyV,
    c: u64,
) -> FoldOut
    decreases pairs, 9int, i,
{
    if i <= 0 || i > pairs.len() {
        FoldOut { st, items: Seq::empty(), cmds: Seq::empty(), mutated: false }
    } else {
        let prev = visit_pairs_m(st, pairs, i - 1, key, c);
        let p = pairs[i - 1];
        proof {
            assert(decreases_to!(pairs => pairs[i - 1]));
            assert(decreases_to!(pairs[i - 1] => pairs[i - 1].value));
        }
        let out = visit_node_m(
            prev.st,
            p.value,
            child_key(key, StepV::MapKey(leaf_text(p.key))),
            map_label(p.key),
            Some(c),
        );
        FoldOut {
            st: out.st,
            items: prev.items.push(out.v),
            cmds: prev.cmds + out.cmds,
            mutated: prev.mutated || out.mutated,
        }
    }
}

/// Visits the first `i` declared variants of an enum: the active variant's
/// payload is visited as a node; every other variant is a disabled
/// placeholder, visited and kept alive but never recursed. The items seq
/// carries the payload at the active index (and the payload unchanged at
/// inactive indices) so the caller can rebuild the value.
pub open spec fn visit_variants_m(
    st: StateV,
    variants: Seq<Seq<char>>,
    payload: ValueV,
    active: int,
    i: int,
    key: KeyV,
    c: u64,
) -> FoldOut
    decreases payload, 9int, i,
{
    if i <= 0 {
        FoldOut { st, items: Seq::empty(), cmds: Seq::empty(), mutated: false }
    } else {
        let prev = visit_variants_m(st, variants, payload, active, i - 1, key, c);
        if i - 1 == active {
            let out = visit_node_m(
                prev.st,
                payload,
                child_key(key, StepV::Variant(i - 1)),
                variants[i - 1],
                Some(c),
            );
            FoldOut {
                st: out.st,
                items: prev.items.push(out.v),
                cmds: prev.cmds + out.cmds,
                mutated: prev.mutated || out.mutated,
            }
        } else {
            let (st2, cmds) = visit_opaque_m(
                prev.st,
                child_key(key, StepV::Variant(i - 1)),
                variants[i - 1],
                Some(c),
            );
            FoldOut {
                st: st2,
                items: prev.items.push(payload),
                cmds: prev.cmds + cmds,
                mutated: prev.mutated,
            }
        }
    }
}

/// Outcome of visiting the first `i` roots.
#[verifier::ext_equal]
pub struct RootsOut {
    pub st: StateV,
    pub roots: Seq<RootV>,
    pub cmds: Seq<CmdV>,
    pub muts: Seq<u64>,
}

/// Visits the first `i` roots, in list order; `muts` collects the seeds of
/// roots whose source values were written from pending edits.
pub open spec fn visit_roots_m(st: StateV, roots: Seq<RootV>, i: int) -> RootsOut
    decreases roots.map_values(|r: RootV| r.value), 9int, i,
{
    if i <= 0 || i > roots.len() {
        RootsOut { st, roots: Seq::empty(), cmds: Seq::empty(), muts: Seq::empty() }
    } else {
        let prev = visit_roots_m(st, roots, i - 1);
        let r = roots[i - 1];
        proof {
            let vals = roots.map_values(|x: RootV| x.value);
            assert(vals[i - 1] == roots[i - 1].value);
            assert(decreases_to!(vals => vals[i - 1]));
        }
        let out = visit_node_m(prev.st, r.value, root_key(r.seed), r.label, None);
        RootsOut {
            st: out.st,
            roots: prev.roots.push(RootV { value: out.v, ..r }),
            cmds: prev.cmds + out.cmds,
            muts: if out.mutated {
                prev.muts.push(r.seed)
            } else {
                prev.muts
            },
        }
    }
}

/// An upper bound on how many widget handles one visit of the value can
/// allocate; the reconciler asks callers for this much allocator headroom.
pub open spec fn weight(v: ValueV) -> nat
    decreases v, 3int, 0int,
{
    2 + match v.shape {
        ShapeV::Struct { fields } => wsum_fields(fields, fields.len() as int),
        ShapeV::Tuple { fields } => wsum_vals(fields, fields.len() as int),
        ShapeV::List { items } => wsum_vals(items, items.len() as int),
        ShapeV::Dict { pairs } => wsum_pairs(pairs, pairs.len() as int),
        ShapeV::Enum { variants, active, payload } => variants.len() + weight(*payload),
        ShapeV::Leaf { .. } => 0nat,
    }
}

/// The weight of the first `i` fields of a struct.
pub open spec fn wsum_fields(fields: Seq<FieldV>, i: int) -> nat
    decreases fields, 9int, i,
{
    if i <= 0 || i > fields.len() {
        0
    } else {
        proof {
            assert(decreases_to!(fields => fields[i - 1]));
            assert(decreases_to!(fields[i - 1] => fields[i - 1].value));
        }
        wsum_fields(fields, i - 1) + weight(fields[i - 1].value)
    }
}

/// The weight of the first `i` values of a tuple or list.
pub open spec fn wsum_vals(vs: Seq<ValueV>, i: int) -> nat
    decreases vs, 9int, i,
{
    if i <= 0 || i > vs.len() {
        0
    } else {
        proof {
            assert(decreases_to!(vs => vs[i - 1]));
        }
        wsum_vals(vs, i - 1) + weight(vs[i - 1])
    }
}

/// The weight of the first `i` entries of a map.
pub open spec fn wsum_pairs(ps: Seq<PairV>, i: int) -> nat
    decreases ps, 9int, i,
{
    if i <= 0 || i > ps.len() {
        0
    } else {
        proof {
            assert(decreases_to!(ps => ps[i - 1]));
            assert(decreases_to!(ps[i - 1] => ps[i - 1].value));
        }
        wsum_pairs(ps, i - 1) + weight(ps[i - 1].value)
    }
}

/// The weight of the first `i` roots.
pub open spec fn wsum_roots(roots: Seq<RootV>, i: int) -> nat
    decreases roots.map_values(|r: RootV| r.value), 9int, i,
{
    if i <= 0 || i > roots.len() {
        0
    } else {
        proof {
            let vals = roots.map_values(|x: RootV| x.value);
            assert(vals[i - 1] == roots[i - 1].value);
            assert(decreases_to!(vals => vals[i - 1]));
        }
        wsum_roots(roots, i - 1) + weight(roots[i - 1].value)
    }
}

/// Visiting a value moves only the entry table and the allocator: the
/// registry stays, and the allocator advances by at most the weight.
pub proof fn lemma_visit_node_frame(
    st: StateV,
    v: ValueV,
    key: KeyV,
    label: Seq<char>,
    container: Option<u64>,
)
    requires
        st.next_widget + weight(v) <= u64::MAX,
    ensures
        ({
            let out = visit_node_m(st, v, key, label, container);
            &&& out.st.next_widget >= st.next_widget
            &&& out.st.next_widget <= st.next_widget + weight(v)
            &&& out.st.registry == st.registry
        }),
    decreases v, 3int, 0int,
{
    if st.registry.contains_key(v.type_tag) && leaf_repr(v) is Some {
    } else if v.short_name is None {
    } else if v.shape matches ShapeV::Leaf { .. } {
    } else {
        if st.entries.contains_key(key) {
            let st1 = StateV {
                entries: st.entries.insert(key, EntryV { alive: true, ..st.entries[key] }),
                ..st
            };
            match node_container(st.entries[key]) {
                Some(c) => {
                    lemma_dispatch_frame(st1, v, key, c);
                },
                None => {},
            }
        }
    }
}

/// The same frame facts for visiting an expanded node's children.
pub proof fn lemma_dispatch_frame(st: StateV, v: ValueV, key: KeyV, c: u64)
    requires
        st.next_widget + weight(v) <= u64::MAX,
    ensures
        ({
            let out = dispatch_m(st, v, key, c);
            &&& out.st.next_widget >= st.next_widget
            &&& out.st.next_widget <= st.next_widget + weight(v)
            &&& out.st.registry == st.registry
        }),
    decreases v, 2int, 0int,
{
    match v.shape {
        ShapeV::Struct { fields } => {
            lemma_fields_frame(st, fields, fields.len() as int, key, c);
        },
        ShapeV::Tuple { fields } => {
            lemma_tuple_frame(st, fields, fields.len() as int, key, c);
        },
        ShapeV::List { items } => {
            lemma_list_frame(st, items, items.len() as int, key, c);
        },
        ShapeV::Dict { pairs } => {
            lemma_pairs_frame(st, pairs, pairs.len() as int, key, c);
        },
        ShapeV::Enum { variants, active, payload } => {
            lemma_variants_frame(st, variants, *payload, active, variants.len() as int, key, c);
        },
        ShapeV::Leaf { value } => {},
    }
}

pub proof fn lemma_fields_frame(st: StateV, fields: Seq<FieldV>, i: int, key: KeyV, c: u64)
    requires
        st.next_widget + wsum_fields(fields, i) <= u64::MAX,
    ensures
        ({
            let out = visit_fields_m(st, fields, i, key, c);
            &&& out.st.next_widget >= st.next_widget
            &&& out.st.next_widget <= st.next_widget + wsum_fields(fields, i)
            &&& out.st.registry == st.registry
        }),
    decreases fields, 9int, i,
{
    if 0 < i <= fields.len() {
        assert(decreases_to!(fields => fields[i - 1]));
        assert(decreases_to!(fields[i - 1] => fields[i - 1].value));
        lemma_fields_frame(st, fields, i - 1, key, c);
        let prev = visit_fields_m(st, fields, i - 1, key, c);
        let f = fields[i - 1];
        lemma_visit_node_frame(
            prev.st,
            f.value,
            child_key(key, StepV::Field(f.name)),
            field_label(f.name),
            Some(c),
        );
    }
}

pub proof fn lemma_tuple_frame(st: StateV, fields: Seq<ValueV>, i: int, key: KeyV, c: u64)
    requires
        st.next_widget + wsum_vals(fields, i) <= u64::MAX,
    ensures
        ({
            let out = visit_tuple_m(st, fields, i, key, c);
            &&& out.st.next_widget >= st.next_widget
            &&& out.st.next_widget <= st.next_widget + wsum_vals(fields, i)
            &&& out.st.registry == st.registry
        }),
    decreases fields, 9int, i,
{
    if 0 < i <= fields.len() {
        assert(decreases_to!(fields => fields[i - 1]));
        lemma_tuple_frame(st, fields, i - 1, key, c);
        let prev = visit_tuple_m(st, fields, i - 1, key, c);
        lemma_visit_node_frame(
            prev.st,
            fields[i - 1],
            child_key(key, StepV::Index(i - 1)),
            tuple_label(i - 1),
            Some(c),
        );
    }
}

pub proof fn lemma_list_frame(st: StateV, items: Seq<ValueV>, i: int, key: KeyV, c: u64)
    requires
        st.next_widget + wsum_vals(items, i) <= u64::MAX,
    ensures
        ({
            let out = visit_list_m(st, items, i, key, c);
            &&& out.st.next_widget >= st.next_widget
            &&& out.st.next_widget <= st.next_widget + wsum_vals(items, i)
            &&& out.st.registry == st.registry
        }),
    decreases items, 9int, i,
{
    if 0 < i <= items.len() {
        assert(decreases_to!(items => items[i - 1]));
        lemma_list_frame(st, items, i - 1, key, c);
        let prev = visit_list_m(st, items, i - 1, key, c);
        lemma_visit_node_frame(
            prev.st,
            items[i - 1],
            child_key(key, StepV::Index(i - 1)),
            list_label(i - 1),
            Some(c),
        );
    }
}

pub proof fn lemma_pairs_frame(st: StateV, pairs: Seq<PairV>, i: int, key: KeyV, c: u64)
    requires
        st.next_widget + wsum_pairs(pairs, i) <= u64::MAX,
    ensures
        ({
            let out = visit_pairs_m(st, pairs, i, key, c);
            &&& out.st.next_widget >= st.next_widget
            &&& out.st.next_widget <= st.next_widget + wsum_pairs(pairs, i)
            &&& out.st.registry == st.registry
        }),
    decreases pairs, 9int, i,
{
    if 0 < i <= pairs.len() {
        assert(decreases_to!(pairs => pairs[i - 1]));
        assert(decreases_to!(pairs[i - 1] => pairs[i - 1].value));
        lemma_pairs_frame(st, pairs, i - 1, key, c);
        let prev = visit_pairs_m(st, pairs, i - 1, key, c);
        let p = pairs[i - 1];
        lemma_visit_node_frame(
            prev.st,
            p.value,
            child_key(key, StepV::MapKey(leaf_text(p.key))),
            map_label(p.key),
            Some(c),
        );
    }
}

pub proof fn lemma_variants_frame(
    st: StateV,
    variants: Seq<Seq<char>>,
    payload: ValueV,
    active: int,
    i: int,
    key: KeyV,
    c: u64,
)
    requires
        st.next_widget + i + weight(payload) <= u64::MAX,
        0 <= i <= variants.len(),
    ensures
        ({
            let out = visit_variants_m(st, variants, payload, active, i, key, c);
            &&& out.st.next_widget >= st.next_widget
            &&& out.st.next_widget <= st.next_widget + i + (if 0 <= active < i {
                weight(payload)
            } else {
                0nat
            })
            &&& out.st.registry == st.registry
        }),
    decreases payload, 9int, i,
{
    if 0 < i {
        lemma_variants_frame(st, variants, payload, active, i - 1, key, c);
        let prev = visit_variants_m(st, variants, payload, active, i - 1, key, c);
        if i - 1 == active {
            lemma_visit_node_frame(
                prev.st,
                payload,
                child_key(key, StepV::Variant(i - 1)),
                variants[i - 1],
                Some(c),
            );
        }
    }
}

pub proof fn lemma_roots_frame(st: StateV, roots: Seq<RootV>, i: int)
    requires
        st.next_widget + wsum_roots(roots, i) <= u64::MAX,
    ensures
        ({
            let out = visit_roots_m(st, roots, i);
            &&& out.st.next_widget >= st.next_widget
            &&& out.st.next_widget <= st.next_widget + wsum_roots(roots, i)
            &&& out.st.registry == st.registry
        }),
    decreases roots.map_values(|r: RootV| r.value), 9int, i,
{
    if 0 < i <= roots.len() {
        let vals = roots.map_values(|x: RootV| x.value);
        assert(vals[i - 1] == roots[i - 1].value);
        assert(decreases_to!(vals => vals[i - 1]));
        lemma_roots_frame(st, roots, i - 1);
        let prev = visit_roots_m(st, roots, i - 1);
        let r = roots[i - 1];
        lemma_visit_node_frame(prev.st, r.value, root_key(r.seed), r.label, None);
    }
}

/// Prefix weights grow with the prefix.
pub proof fn lemma_wsum_fields_mono(fields: Seq<FieldV>, i: int, j: int)
    requires
        0 <= i <= j <= fields.len(),
    ensures
        wsum_fields(fields, i) <= wsum_fields(fields, j),
    decreases j,
{
    if i < j {
        lemma_wsum_fields_mono(fields, i, j - 1);
    }
}

pub proof fn lemma_wsum_vals_mono(vs: Seq<ValueV>, i: int, j: int)
    requires
        0 <= i <= j <= vs.len(),
    ensures
        wsum_vals(vs, i) <= wsum_vals(vs, j),
    decreases j,
{
    if i < j {
        lemma_wsum_vals_mono(vs, i, j - 1);
    }
}

pub proof fn lemma_wsum_pairs_mono(ps: Seq<PairV>, i: int, j: int)
    requires
        0 <= i <= j <= ps.len(),
    ensures
        wsum_pairs(ps, i) <= wsum_pairs(ps, j),
    decreases j,
{
    if i < j {
        lemma_wsum_pairs_mono(ps, i, j - 1);
    }
}

pub proof fn lemma_wsum_roots_mono(roots: Seq<RootV>, i: int, j: int)
    requires
        0 <= i <= j <= roots.len(),
    ensures
        wsum_roots(roots, i) <= wsum_roots(roots, j),
    decreases j,
{
    if i < j {
        lemma_wsum_roots_mono(roots, i, j - 1);
    }
}

/// Outcome of one whole reconciliation pass.
#[verifier::ext_equal]
pub struct ReconOut {
    pub st: StateV,
    pub roots: Seq<RootV>,
    pub cmds: Seq<CmdV>,
    pub muts: Seq<u64>,
    pub destroyed: Set<u64>,
}

/// One whole reconciliation pass: lower every liveness flag, visit all
/// roots in order, then sweep the entries the pass did not reach.
/// `destroyed` is the set of widget subtree roots the host must despawn.
pub open spec fn reconcile_m(st: StateV, roots: Seq<RootV>) -> ReconOut {
    let st0 = StateV { entries: reset_m(st.entries), ..st };
    let out = visit_roots_m(st0, roots, roots.len() as int);
    ReconOut {
        st: StateV { entries: swept_m(out.st.entries), ..out.st },
        roots: out.roots,
        cmds: out.cmds,
        muts: out.muts,
        destroyed: dead_root_widgets(out.st.entries),
    }
}

} // verus!
