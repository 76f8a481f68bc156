//! The engine's laws, proved about the model that the executable
//! reconciler is equal to: identity stability (surviving entries keep
//! their widget handles and expansion, and a pass over unchanged values
//! destroys nothing), liveness correctness (destroyed handles are never
//! referenced afterwards and never reissued, every dead entry falls
//! inside a destroyed subtree, and a shrinking root list destroys
//! exactly one subtree per removed root), and lazy expansion (a
//! collapsed node's children never enter the entry table, and a fresh
//! expansion materializes exactly one entry per immediate child).

use vstd::prelude::*;

use crate::keys::KeyV;
use crate::table::above;
use crate::table::WidgetCtor;
use crate::keys::StepV;
use crate::model::RootV;
use crate::model::child_key;
use crate::model::dispatch_m;
use crate::model::leaf_key;
use crate::model::reconcile_m;
use crate::model::visit_fields_m;
use crate::model::visit_leaf_m;
use crate::model::visit_list_m;
use crate::model::visit_node_m;
use crate::model::visit_opaque_m;
use crate::model::visit_pairs_m;
use crate::model::visit_roots_m;
use crate::model::visit_tuple_m;
use crate::model::visit_variants_m;
use crate::model::weight;
use crate::model::wsum_fields;
use crate::model::wsum_pairs;
use crate::model::wsum_roots;
use crate::model::wsum_vals;
use crate::model::field_label;
use crate::model::lemma_fields_frame;
use crate::model::lemma_list_frame;
use crate::model::lemma_pairs_frame;
use crate::model::lemma_roots_frame;
use crate::model::lemma_tuple_frame;
use crate::model::lemma_variants_frame;
use crate::model::lemma_wsum_fields_mono;
use crate::model::lemma_wsum_pairs_mono;
use crate::model::lemma_wsum_roots_mono;
use crate::model::lemma_wsum_vals_mono;
use crate::table::EntryV;
use crate::table::InnerV;
use crate::table::StateV;
use crate::table::dead_root;
use crate::table::dead_root_widgets;
use crate::table::node_container;
use crate::table::reset_m;
use crate::table::state_inv;
use crate::values::FieldV;
use crate::values::PairV;
use crate::values::ShapeV;
use crate::values::ValueV;
use crate::values::leaf_repr;

verus! {

/// Entries the pass creates take handles at or above the allocator mark
/// it started from: a handle destroyed in an earlier pass is never
/// reissued.
pub open spec fn fresh_widgets(st: StateV, out: StateV) -> bool {
    forall|k: KeyV|
        !st.entries.contains_key(k) && #[trigger] out.entries.contains_key(k)
            ==> out.entries[k].widget >= st.next_widget
}

/// Entries a visit creates are born alive and stay alive for the rest of
/// the pass.
pub open spec fn created_alive(st: StateV, out: StateV) -> bool {
    forall|k: KeyV|
        !st.entries.contains_key(k) && #[trigger] out.entries.contains_key(k)
            ==> out.entries[k].alive
}

/// What every visit step leaves intact of the entries that already exist:
/// their presence, their widget handle, their kind, their children
/// container, and (monotonically) their liveness.
pub open spec fn entries_preserved(m1: Map<KeyV, EntryV>, m2: Map<KeyV, EntryV>) -> bool {
    forall|k: KeyV| #[trigger]
        m1.contains_key(k) ==> m2.contains_key(k) && m2[k].widget == m1[k].widget
            && node_container(m2[k]) == node_container(m1[k]) && ((m2[k].inner matches
        InnerV::Leaf { .. }) <==> (m1[k].inner matches InnerV::Leaf { .. })) && (m1[k].alive
            ==> m2[k].alive)
}

proof fn lemma_leaf_keep(st: StateV, lv: crate::values::LeafV, lkey: KeyV, ctor: crate::table::WidgetCtor, label: Seq<char>, container: Option<u64>)
    requires
        st.next_widget < u64::MAX,
        state_inv(st),
        lkey.leaf,
    ensures
        ({
            let out = visit_leaf_m(st, lv, lkey, ctor, label, container);
            &&& entries_preserved(st.entries, out.st.entries)
            &&& state_inv(out.st)
            &&& fresh_widgets(st, out.st)
            &&& created_alive(st, out.st)
        }),
{
}

proof fn lemma_opaque_keep(st: StateV, key: KeyV, label: Seq<char>, container: Option<u64>)
    requires
        st.next_widget < u64::MAX,
        state_inv(st),
        !key.leaf,
    ensures
        ({
            let out = visit_opaque_m(st, key, label, container);
            &&& entries_preserved(st.entries, out.0.entries)
            &&& state_inv(out.0)
            &&& fresh_widgets(st, out.0)
            &&& created_alive(st, out.0)
        }),
{
}

pub proof fn lemma_visit_node_keep(
    st: StateV,
    v: ValueV,
    key: KeyV,
    label: Seq<char>,
    container: Option<u64>,
)
    requires
        st.next_widget + weight(v) <= u64::MAX,
        state_inv(st),
        !key.leaf,
    ensures
        ({
            let out = visit_node_m(st, v, key, label, container);
            &&& entries_preserved(st.entries, out.st.entries)
            &&& state_inv(out.st)
            &&& fresh_widgets(st, out.st)
            &&& created_alive(st, out.st)
        }),
    decreases v, 3int, 0int,
{
    if st.registry.contains_key(v.type_tag) && leaf_repr(v) is Some {
        lemma_leaf_keep(
            st,
            leaf_repr(v).unwrap(),
            leaf_key(key),
            st.registry[v.type_tag],
            label,
            container,
        );
    } else if v.short_name is None {
        lemma_opaque_keep(st, key, crate::model::error_label(label, v.full_name), container);
    } else if v.shape matches ShapeV::Leaf { .. } {
        lemma_leaf_keep(
            st,
            v.shape->value,
            leaf_key(key),
            WidgetCtor::TextBox,
            label,
            container,
        );
    } else {
        if st.entries.contains_key(key) {
            let st1 = StateV {
                entries: st.entries.insert(key, EntryV { alive: true, ..st.entries[key] }),
                ..st
            };
            match node_container(st.entries[key]) {
                Some(c) => {
                    lemma_dispatch_keep(st1, v, key, c);
                    assert(entries_preserved(st.entries, st1.entries));
                },
                None => {},
            }
        }
    }
}

pub proof fn lemma_dispatch_keep(st: StateV, v: ValueV, key: KeyV, c: u64)
    requires
        st.next_widget + weight(v) <= u64::MAX,
        state_inv(st),
        !key.leaf,
    ensures
        ({
            let out = dispatch_m(st, v, key, c);
            &&& entries_preserved(st.entries, out.st.entries)
            &&& state_inv(out.st)
            &&& fresh_widgets(st, out.st)
            &&& created_alive(st, out.st)
        }),
    decreases v, 2int, 0int,
{
    match v.shape {
        ShapeV::Struct { fields } => {
            lemma_fields_keep(st, fields, fields.len() as int, key, c);
        },
        ShapeV::Tuple { fields } => {
            lemma_tuple_keep(st, fields, fields.len() as int, key, c);
        },
        ShapeV::List { items } => {
            lemma_list_keep(st, items, items.len() as int, key, c);
        },
        ShapeV::Dict { pairs } => {
            lemma_pairs_keep(st, pairs, pairs.len() as int, key, c);
        },
        ShapeV::Enum { variants, active, payload } => {
            lemma_variants_keep(st, variants, *payload, active, variants.len() as int, key, c);
        },
        ShapeV::Leaf { value } => {
            lemma_leaf_keep(st, value, leaf_key(key), crate::table::WidgetCtor::TextBox, Seq::empty(), Some(c));
        },
    }
}

proof fn lemma_fields_keep(st: StateV, fields: Seq<FieldV>, i: int, key: KeyV, c: u64)
    requires
        st.next_widget + wsum_fields(fields, i) <= u64::MAX,
        state_inv(st),
        !key.leaf,
    ensures
        ({
            let out = visit_fields_m(st, fields, i, key, c);
            &&& entries_preserved(st.entries, out.st.entries)
            &&& state_inv(out.st)
            &&& fresh_widgets(st, out.st)
            &&& created_alive(st, out.st)
        }),
    decreases fields, 9int, i,
{
    if 0 < i <= fields.len() {
        assert(decreases_to!(fields => fields[i - 1]));
        assert(decreases_to!(fields[i - 1] => fields[i - 1].value));
        lemma_fields_keep(st, fields, i - 1, key, c);
        lemma_fields_frame(st, fields, i - 1, key, c);
        let prev = visit_fields_m(st, fields, i - 1, key, c);
        let f = fields[i - 1];
        lemma_visit_node_keep(
            prev.st,
            f.value,
            child_key(key, StepV::Field(f.name)),
            field_label(f.name),
            Some(c),
        );
    }
}

proof fn lemma_tuple_keep(st: StateV, fields: Seq<ValueV>, i: int, key: KeyV, c: u64)
    requires
        st.next_widget + wsum_vals(fields, i) <= u64::MAX,
        state_inv(st),
        !key.leaf,
    ensures
        ({
            let out = visit_tuple_m(st, fields, i, key, c);
            &&& entries_preserved(st.entries, out.st.entries)
            &&& state_inv(out.st)
            &&& fresh_widgets(st, out.st)
            &&& created_alive(st, out.st)
        }),
    decreases fields, 9int, i,
{
    if 0 < i <= fields.len() {
        assert(decreases_to!(fields => fields[i - 1]));
        lemma_tuple_keep(st, fields, i - 1, key, c);
        lemma_tuple_frame(st, fields, i - 1, key, c);
        let prev = visit_tuple_m(st, fields, i - 1, key, c);
        lemma_visit_node_keep(
            prev.st,
            fields[i - 1],
            child_key(key, StepV::Index(i - 1)),
            crate::model::tuple_label(i - 1),
            Some(c),
        );
    }
}

proof fn lemma_list_keep(st: StateV, items: Seq<ValueV>, i: int, key: KeyV, c: u64)
    requires
        st.next_widget + wsum_vals(items, i) <= u64::MAX,
        state_inv(st),
        !key.leaf,
    ensures
        ({
            let out = visit_list_m(st, items, i, key, c);
            &&& entries_preserved(st.entries, out.st.entries)
            &&& state_inv(out.st)
            &&& fresh_widgets(st, out.st)
            &&& created_alive(st, out.st)
        }),
    decreases items, 9int, i,
{
    if 0 < i <= items.len() {
        assert(decreases_to!(items => items[i - 1]));
        lemma_list_keep(st, items, i - 1, key, c);
        lemma_list_frame(st, items, i - 1, key, c);
        let prev = visit_list_m(st, items, i - 1, key, c);
        lemma_visit_node_keep(
            prev.st,
            items[i - 1],
            child_key(key, StepV::Index(i - 1)),
            crate::model::list_label(i - 1),
            Some(c),
        );
    }
}

proof fn lemma_pairs_keep(st: StateV, pairs: Seq<PairV>, i: int, key: KeyV, c: u64)
    requires
        st.next_widget + wsum_pairs(pairs, i) <= u64::MAX,
        state_inv(st),
        !key.leaf,
    ensures
        ({
            let out = visit_pairs_m(st, pairs, i, key, c);
            &&& entries_preserved(st.entries, out.st.entries)
            &&& state_inv(out.st)
            &&& fresh_widgets(st, out.st)
            &&& created_alive(st, out.st)
        }),
    decreases pairs, 9int, i,
{
    if 0 < i <= pairs.len() {
        assert(decreases_to!(pairs => pairs[i - 1]));
        assert(decreases_to!(pairs[i - 1] => pairs[i - 1].value));
        lemma_pairs_keep(st, pairs, i - 1, key, c);
        lemma_pairs_frame(st, pairs, i - 1, key, c);
        let prev = visit_pairs_m(st, pairs, i - 1, key, c);
        let p = pairs[i - 1];
        lemma_visit_node_keep(
            prev.st,
            p.value,
            child_key(key, StepV::MapKey(crate::text::leaf_text(p.key))),
            crate::model::map_label(p.key),
            Some(c),
        );
    }
}

proof fn lemma_variants_keep(
    st: StateV,
    variants: Seq<Seq<char>>,
    payload: ValueV,
    active: int,
    i: int,
    key: KeyV,
    c: u64,
)
    requires
        st.next_widget + i + weight(payload) <= u64::MAX,
        0 <= i <= variants.len(),
        state_inv(st),
        !key.leaf,
    ensures
        ({
            let out = visit_variants_m(st, variants, payload, active, i, key, c);
            &&& entries_preserved(st.entries, out.st.entries)
            &&& state_inv(out.st)
            &&& fresh_widgets(st, out.st)
            &&& created_alive(st, out.st)
        }),
    decreases payload, 9int, i,
{
    if 0 < i {
        lemma_variants_keep(st, variants, payload, active, i - 1, key, c);
        lemma_variants_frame(st, variants, payload, active, i - 1, key, c);
        let prev = visit_variants_m(st, variants, payload, active, i - 1, key, c);
        if i - 1 == active {
            lemma_visit_node_keep(
                prev.st,
                payload,
                child_key(key, StepV::Variant(i - 1)),
                variants[i - 1],
                Some(c),
            );
        } else {
            lemma_opaque_keep(prev.st, child_key(key, StepV::Variant(i - 1)), variants[i - 1], Some(c));
        }
    }
}

pub proof fn lemma_roots_keep(st: StateV, roots: Seq<RootV>, i: int)
    requires
        st.next_widget + wsum_roots(roots, i) <= u64::MAX,
        state_inv(st),
    ensures
        ({
            let out = visit_roots_m(st, roots, i);
            &&& entries_preserved(st.entries, out.st.entries)
            &&& state_inv(out.st)
            &&& fresh_widgets(st, out.st)
            &&& created_alive(st, out.st)
        }),
    decreases roots.map_values(|r: RootV| r.value), 9int, i,
{
    if 0 < i <= roots.len() {
        let vals = roots.map_values(|x: RootV| x.value);
        assert(vals[i - 1] == roots[i - 1].value);
        assert(decreases_to!(vals => vals[i - 1]));
        lemma_roots_keep(st, roots, i - 1);
        lemma_roots_frame(st, roots, i - 1);
        let prev = visit_roots_m(st, roots, i - 1);
        let r = roots[i - 1];
        lemma_visit_node_keep(prev.st, r.value, crate::model::root_key(r.seed), r.label, None);
    }
}

/// IDENTITY STABILITY. Across one reconciliation pass, every identity key
/// that exists both before and after maps to the same widget handle and
/// keeps its children container: unchanged positions are never destroyed
/// and recreated, and expansion state survives the pass.
pub proof fn lemma_identity_stability(st: StateV, roots: Seq<RootV>, k: KeyV)
    requires
        state_inv(st),
        st.next_widget + wsum_roots(roots, roots.len() as int) <= u64::MAX,
        st.entries.contains_key(k),
        reconcile_m(st, roots).st.entries.contains_key(k),
    ensures
        reconcile_m(st, roots).st.entries[k].widget == st.entries[k].widget,
        node_container(reconcile_m(st, roots).st.entries[k]) == node_container(st.entries[k]),
{
    let st0 = StateV { entries: reset_m(st.entries), ..st };
    assert(state_inv(st0));
    lemma_roots_keep(st0, roots, roots.len() as int);
    let visited = visit_roots_m(st0, roots, roots.len() as int);
    assert(st0.entries.contains_key(k) && st0.entries[k].widget == st.entries[k].widget
        && node_container(st0.entries[k]) == node_container(st.entries[k]));
    let out = reconcile_m(st, roots);
    assert(out.st.entries[k] == visited.st.entries[k]);
}

/// The full state invariant still holds after a pass; in particular
/// widget handles stay unique.
pub proof fn lemma_reconcile_inv(st: StateV, roots: Seq<RootV>)
    requires
        state_inv(st),
        st.next_widget + wsum_roots(roots, roots.len() as int) <= u64::MAX,
    ensures
        state_inv(reconcile_m(st, roots).st),
{
    let st0 = StateV { entries: reset_m(st.entries), ..st };
    assert(state_inv(st0));
    lemma_roots_keep(st0, roots, roots.len() as int);
}

/// LIVENESS CORRECTNESS. A widget handle the sweep destroys is never
/// referenced again: no entry that survives the pass holds a destroyed
/// handle.
pub proof fn lemma_no_destroyed_handle_referenced(st: StateV, roots: Seq<RootV>, w: u64)
    requires
        state_inv(st),
        st.next_widget + wsum_roots(roots, roots.len() as int) <= u64::MAX,
        reconcile_m(st, roots).destroyed.contains(w),
    ensures
        forall|k: KeyV| #[trigger]
            reconcile_m(st, roots).st.entries.contains_key(k) ==> reconcile_m(
                st,
                roots,
            ).st.entries[k].widget != w,
{
    let st0 = StateV { entries: reset_m(st.entries), ..st };
    assert(state_inv(st0));
    lemma_roots_keep(st0, roots, roots.len() as int);
    let visited = visit_roots_m(st0, roots, roots.len() as int);
    let out = reconcile_m(st, roots);
    let k0 = choose|k0: KeyV| dead_root(visited.st.entries, k0) && visited.st.entries[k0].widget == w;
    assert forall|k: KeyV| #[trigger] out.st.entries.contains_key(k) implies out.st.entries[k].widget
        != w by {
        assert(visited.st.entries.contains_key(k) && visited.st.entries[k].alive);
        assert(!visited.st.entries[k0].alive);
        assert(k != k0);
    }
}

/// Whether position `k` lies in the widget subtree rooted at position
/// `r`: it is `r` itself, or `r` is a node position on the path above it.
pub open spec fn within_subtree(r: KeyV, k: KeyV) -> bool {
    r == k || (!r.leaf && r.slot == k.slot && r.path.len() <= k.path.len() && k.path.subrange(
        0,
        r.path.len() as int,
    ) == r.path)
}

/// LIVENESS CORRECTNESS, the subtree half. Every entry the sweep removes
/// lies within a dead subtree root that the sweep reports for
/// destruction: destroying exactly the reported widget subtrees takes
/// every dead entry's widget down with them, descendants included.
pub proof fn lemma_swept_under_destroyed_root(m: Map<KeyV, EntryV>, k: KeyV)
    requires
        m.contains_key(k),
        !m[k].alive,
    ensures
        exists|r: KeyV|
            dead_root(m, r) && #[trigger] within_subtree(r, k) && dead_root_widgets(m).contains(
                m[r].widget,
            ),
    decreases k.path.len(), (if k.leaf {
        1int
    } else {
        0int
    }),
{
    if dead_root(m, k) {
        assert(within_subtree(k, k));
        assert(dead_root_widgets(m).contains(m[k].widget));
    } else {
        let a = choose|a: KeyV| above(a, k) && #[trigger] m.contains_key(a) && !m[a].alive;
        if a.path.len() == k.path.len() {
            assert(a.path =~= k.path);
            assert(k.leaf);
        }
        lemma_swept_under_destroyed_root(m, a);
        let r = choose|r: KeyV|
            dead_root(m, r) && #[trigger] within_subtree(r, a) && dead_root_widgets(m).contains(
                m[r].widget,
            );
        if r == a {
            assert(within_subtree(r, k));
        } else {
            assert(k.path.subrange(0, r.path.len() as int) =~= a.path.subrange(
                0,
                r.path.len() as int,
            ));
            assert(within_subtree(r, k));
        }
    }
}

/// Every entry that survives a pass was visited and marked alive during
/// it; entries the pass did not reach are gone.
pub proof fn lemma_survivors_were_visited(st: StateV, roots: Seq<RootV>, k: KeyV)
    requires
        reconcile_m(st, roots).st.entries.contains_key(k),
    ensures
        reconcile_m(st, roots).st.entries[k].alive,
{
}

/// Handles allocated by a pass are fresh, and every handle it destroys
/// lies below the allocator mark afterwards: since the mark never moves
/// backwards, a destroyed handle is never issued again.
pub proof fn lemma_no_handle_reuse(st: StateV, roots: Seq<RootV>)
    requires
        state_inv(st),
        st.next_widget + wsum_roots(roots, roots.len() as int) <= u64::MAX,
    ensures
        fresh_widgets(st, reconcile_m(st, roots).st),
        reconcile_m(st, roots).st.next_widget >= st.next_widget,
        forall|w: u64|
            #[trigger] reconcile_m(st, roots).destroyed.contains(w) ==> w < reconcile_m(
                st,
                roots,
            ).st.next_widget,
{
    let st0 = StateV { entries: reset_m(st.entries), ..st };
    assert(state_inv(st0));
    lemma_roots_keep(st0, roots, roots.len() as int);
    lemma_roots_frame(st0, roots, roots.len() as int);
    let visited = visit_roots_m(st0, roots, roots.len() as int);
    let out = reconcile_m(st, roots);
    assert forall|k: KeyV|
        !st.entries.contains_key(k) && #[trigger] out.st.entries.contains_key(k) implies out.st.entries[k].widget
        >= st.next_widget by {
        assert(!st0.entries.contains_key(k));
        assert(visited.st.entries.contains_key(k));
    }
    assert forall|w: u64| #[trigger] out.destroyed.contains(w) implies w
        < out.st.next_widget by {
        let k = choose|k: KeyV| dead_root(visited.st.entries, k) && visited.st.entries[k].widget == w;
        assert(visited.st.entries[k].widget < visited.st.next_widget);
    }
}

/// Whether the entry table holds an expanded node at the key. Which keys
/// a pass visits depends on the table only through this.
pub open spec fn expanded_in(m: Map<KeyV, EntryV>, k: KeyV) -> bool {
    m.contains_key(k) && node_container(m[k]) is Some
}

/// Two tables agree on expansion everywhere.
pub open spec fn exp_eq(m1: Map<KeyV, EntryV>, m2: Map<KeyV, EntryV>) -> bool {
    forall|k: KeyV| (#[trigger] expanded_in(m1, k)) == expanded_in(m2, k)
}

/// The keys one visit of the value marks alive, as a function of the
/// expansion state alone (containers never change during a pass, so the
/// pre-pass table decides the whole traversal).
pub open spec fn marks_node(
    m0: Map<KeyV, EntryV>,
    reg: Map<u64, WidgetCtor>,
    v: ValueV,
    key: KeyV,
) -> Set<KeyV>
    decreases v, 3int, 0int,
{
    if reg.contains_key(v.type_tag) && leaf_repr(v) is Some {
        set![leaf_key(key)]
    } else if v.short_name is None {
        set![key]
    } else if v.shape matches ShapeV::Leaf { .. } {
        set![leaf_key(key)]
    } else if expanded_in(m0, key) {
        marks_dispatch(m0, reg, v, key).insert(key)
    } else {
        set![key]
    }
}

pub open spec fn marks_dispatch(
    m0: Map<KeyV, EntryV>,
    reg: Map<u64, WidgetCtor>,
    v: ValueV,
    key: KeyV,
) -> Set<KeyV>
    decreases v, 2int, 0int,
{
    match v.shape {
        ShapeV::Struct { fields } => marks_fields(m0, reg, fields, fields.len() as int, key),
        ShapeV::Tuple { fields } => marks_tuple(m0, reg, fields, fields.len() as int, key),
        ShapeV::List { items } => marks_list(m0, reg, items, items.len() as int, key),
        ShapeV::Dict { pairs } => marks_pairs(m0, reg, pairs, pairs.len() as int, key),
        ShapeV::Enum { variants, active, payload } => marks_variants(
            m0,
            reg,
            variants,
            *payload,
            active,
            variants.len() as int,
            key,
        ),
        ShapeV::Leaf { value } => set![leaf_key(key)],
    }
}

pub open spec fn marks_fields(
    m0: Map<KeyV, EntryV>,
    reg: Map<u64, WidgetCtor>,
    fields: Seq<FieldV>,
    i: int,
    key: KeyV,
) -> Set<KeyV>
    decreases fields, 9int, i,
{
    if i <= 0 || i > fields.len() {
        Set::empty()
    } else {
        proof {
            assert(decreases_to!(fields => fields[i - 1]));
            assert(decreases_to!(fields[i - 1] => fields[i - 1].value));
        }
        marks_fields(m0, reg, fields, i - 1, key).union(
            marks_node(m0, reg, fields[i - 1].value, child_key(key, StepV::Field(fields[i - 1].name))),
        )
    }
}

pub open spec fn marks_tuple(
    m0: Map<KeyV, EntryV>,
    reg: Map<u64, WidgetCtor>,
    fields: Seq<ValueV>,
    i: int,
    key: KeyV,
) -> Set<KeyV>
    decreases fields, 9int, i,
{
    if i <= 0 || i > fields.len() {
        Set::empty()
    } else {
        proof {
            assert(decreases_to!(fields => fields[i - 1]));
        }
        marks_tuple(m0, reg, fields, i - 1, key).union(
            marks_node(m0, reg, fields[i - 1], child_key(key, StepV::Index(i - 1))),
        )
    }
}

pub open spec fn marks_list(
    m0: Map<KeyV, EntryV>,
    reg: Map<u64, WidgetCtor>,
    items: Seq<ValueV>,
    i: int,
    key: KeyV,
) -> Set<KeyV>
    decreases items, 9int, i,
{
    if i <= 0 || i > items.len() {
        Set::empty()
    } else {
        proof {
            assert(decreases_to!(items => items[i - 1]));
        }
        marks_list(m0, reg, items, i - 1, key).union(
            marks_node(m0, reg, items[i - 1], child_key(key, StepV::Index(i - 1))),
        )
    }
}

pub open spec fn marks_pairs(
    m0: Map<KeyV, EntryV>,
    reg: Map<u64, WidgetCtor>,
    pairs: Seq<PairV>,
    i: int,
    key: KeyV,
) -> Set<KeyV>
    decreases pairs, 9int, i,
{
    if i <= 0 || i > pairs.len() {
        Set::empty()
    } else {
        proof {
            assert(decreases_to!(pairs => pairs[i - 1]));
            assert(decreases_to!(pairs[i - 1] => pairs[i - 1].value));
        }
        marks_pairs(m0, reg, pairs, i - 1, key).union(
            marks_node(
                m0,
                reg,
                pairs[i - 1].value,
                child_key(key, StepV::MapKey(crate::text::leaf_text(pairs[i - 1].key))),
            ),
        )
    }
}

pub open spec fn marks_variants(
    m0: Map<KeyV, EntryV>,
    reg: Map<u64, WidgetCtor>,
    variants: Seq<Seq<char>>,
    payload: ValueV,
    active: int,
    i: int,
    key: KeyV,
) -> Set<KeyV>
    decreases payload, 9int, i,
{
    if i <= 0 {
        Set::empty()
    } else {
        let prev = marks_variants(m0, reg, variants, payload, active, i - 1, key);
        if i - 1 == active {
            prev.union(marks_node(m0, reg, payload, child_key(key, StepV::Variant(i - 1))))
        } else {
            prev.insert(child_key(key, StepV::Variant(i - 1)))
        }
    }
}

pub open spec fn marks_roots(
    m0: Map<KeyV, EntryV>,
    reg: Map<u64, WidgetCtor>,
    roots: Seq<RootV>,
    i: int,
) -> Set<KeyV>
    decreases roots.map_values(|r: RootV| r.value), 9int, i,
{
    if i <= 0 || i > roots.len() {
        Set::empty()
    } else {
        proof {
            let vals = roots.map_values(|x: RootV| x.value);
            assert(vals[i - 1] == roots[i - 1].value);
            assert(decreases_to!(vals => vals[i - 1]));
        }
        marks_roots(m0, reg, roots, i - 1).union(
            marks_node(m0, reg, roots[i - 1].value, crate::model::root_key(roots[i - 1].seed)),
        )
    }
}

proof fn lemma_exp_preserving_insert(m0: Map<KeyV, EntryV>, m: Map<KeyV, EntryV>, k: KeyV, e: EntryV)
    requires
        exp_eq(m0, m),
        m.contains_key(k) ==> node_container(e) == node_container(m[k]),
        !m.contains_key(k) ==> node_container(e) is None,
    ensures
        exp_eq(m0, m.insert(k, e)),
{
    assert forall|k2: KeyV| (#[trigger] expanded_in(m0, k2)) == expanded_in(m.insert(k, e), k2) by {
        assert(expanded_in(m0, k2) == expanded_in(m, k2));
    }
}

proof fn lemma_alive_insert(m: Map<KeyV, EntryV>, k: KeyV, e: EntryV)
    requires
        e.alive,
    ensures
        crate::table::alive_set(m.insert(k, e)) == crate::table::alive_set(m).insert(k),
{
    assert(crate::table::alive_set(m.insert(k, e)) =~= crate::table::alive_set(m).insert(k));
}

/// The alive set a visit produces is exactly the old alive set joined
/// with `marks_node` of the pre-pass expansion state, and expansion
/// itself never moves during a pass.
pub proof fn lemma_marks_node(
    m0: Map<KeyV, EntryV>,
    st: StateV,
    v: ValueV,
    key: KeyV,
    label: Seq<char>,
    container: Option<u64>,
)
    requires
        st.next_widget + weight(v) <= u64::MAX,
        state_inv(st),
        exp_eq(m0, st.entries),
        !key.leaf,
    ensures
        ({
            let out = visit_node_m(st, v, key, label, container);
            &&& exp_eq(m0, out.st.entries)
            &&& crate::table::alive_set(out.st.entries) == crate::table::alive_set(
                st.entries,
            ).union(marks_node(m0, st.registry, v, key))
        }),
    decreases v, 3int, 0int,
{
    let out = visit_node_m(st, v, key, label, container);
    let al = crate::table::alive_set(st.entries);
    if st.registry.contains_key(v.type_tag) && leaf_repr(v) is Some {
        let lkey = leaf_key(key);
        if st.entries.contains_key(lkey) {
            let (e2, _v2, _m2) = crate::table::leaf_revisit_m(
                st.entries[lkey],
                leaf_repr(v).unwrap(),
            );
            lemma_exp_preserving_insert(m0, st.entries, lkey, e2);
            lemma_alive_insert(st.entries, lkey, e2);
        } else {
            let e2 = out.st.entries[lkey];
            lemma_exp_preserving_insert(m0, st.entries, lkey, e2);
            lemma_alive_insert(st.entries, lkey, e2);
        }
        assert(al.insert(lkey) =~= al.union(set![lkey]));
    } else if v.shape matches ShapeV::Leaf { .. } && v.short_name is Some {
        let lkey = leaf_key(key);
        if st.entries.contains_key(lkey) {
            let (e2, _v2, _m2) = crate::table::leaf_revisit_m(
                st.entries[lkey],
                v.shape->value,
            );
            lemma_exp_preserving_insert(m0, st.entries, lkey, e2);
            lemma_alive_insert(st.entries, lkey, e2);
        } else {
            let e2 = out.st.entries[lkey];
            lemma_exp_preserving_insert(m0, st.entries, lkey, e2);
            lemma_alive_insert(st.entries, lkey, e2);
        }
        assert(al.insert(lkey) =~= al.union(set![lkey]));
    } else if v.short_name is None {
        if st.entries.contains_key(key) {
            let e2 = EntryV { alive: true, ..st.entries[key] };
            lemma_exp_preserving_insert(m0, st.entries, key, e2);
            lemma_alive_insert(st.entries, key, e2);
        } else {
            let e2 = EntryV {
                widget: st.next_widget,
                alive: true,
                inner: InnerV::Node { container: None },
            };
            lemma_exp_preserving_insert(m0, st.entries, key, e2);
            lemma_alive_insert(st.entries, key, e2);
        }
        assert(al.insert(key) =~= al.union(set![key]));
    } else {
        if st.entries.contains_key(key) {
            let e2 = EntryV { alive: true, ..st.entries[key] };
            let st1 = StateV { entries: st.entries.insert(key, e2), ..st };
            lemma_exp_preserving_insert(m0, st.entries, key, e2);
            lemma_alive_insert(st.entries, key, e2);
            match node_container(st.entries[key]) {
                Some(c) => {
                    assert(expanded_in(st.entries, key));
                    assert(expanded_in(m0, key));
                    lemma_visit_node_keep(st, v, key, label, container);
                    assert(state_inv(st1));
                    lemma_marks_dispatch(m0, st1, v, key, c);
                    assert(crate::table::alive_set(out.st.entries) =~= al.union(
                        marks_node(m0, st.registry, v, key),
                    ));
                },
                None => {
                    assert(!expanded_in(st.entries, key));
                    assert(!expanded_in(m0, key));
                    assert(al.insert(key) =~= al.union(set![key]));
                },
            }
        } else {
            let e2 = EntryV {
                widget: st.next_widget,
                alive: true,
                inner: InnerV::Node { container: None },
            };
            lemma_exp_preserving_insert(m0, st.entries, key, e2);
            lemma_alive_insert(st.entries, key, e2);
            assert(!expanded_in(st.entries, key));
            assert(!expanded_in(m0, key));
            assert(al.insert(key) =~= al.union(set![key]));
        }
    }
}

pub proof fn lemma_marks_dispatch(m0: Map<KeyV, EntryV>, st: StateV, v: ValueV, key: KeyV, c: u64)
    requires
        st.next_widget + weight(v) <= u64::MAX,
        state_inv(st),
        exp_eq(m0, st.entries),
        !key.leaf,
    ensures
        ({
            let out = dispatch_m(st, v, key, c);
            &&& exp_eq(m0, out.st.entries)
            &&& crate::table::alive_set(out.st.entries) == crate::table::alive_set(
                st.entries,
            ).union(marks_dispatch(m0, st.registry, v, key))
        }),
    decreases v, 2int, 0int,
{
    let al = crate::table::alive_set(st.entries);
    match v.shape {
        ShapeV::Struct { fields } => {
            lemma_marks_fields(m0, st, fields, fields.len() as int, key, c);
        },
        ShapeV::Tuple { fields } => {
            lemma_marks_tuple(m0, st, fields, fields.len() as int, key, c);
        },
        ShapeV::List { items } => {
            lemma_marks_list(m0, st, items, items.len() as int, key, c);
        },
        ShapeV::Dict { pairs } => {
            lemma_marks_pairs(m0, st, pairs, pairs.len() as int, key, c);
        },
        ShapeV::Enum { variants, active, payload } => {
            lemma_marks_variants(m0, st, variants, *payload, active, variants.len() as int, key, c);
        },
        ShapeV::Leaf { value } => {
            let lkey = leaf_key(key);
            let out = dispatch_m(st, v, key, c);
            if st.entries.contains_key(lkey) {
                let (e2, _v2, _m2) = crate::table::leaf_revisit_m(st.entries[lkey], value);
                lemma_exp_preserving_insert(m0, st.entries, lkey, e2);
                lemma_alive_insert(st.entries, lkey, e2);
            } else {
                let e2 = out.st.entries[lkey];
                lemma_exp_preserving_insert(m0, st.entries, lkey, e2);
                lemma_alive_insert(st.entries, lkey, e2);
            }
            assert(al.insert(lkey) =~= al.union(set![lkey]));
        },
    }
}

proof fn lemma_marks_fields(
    m0: Map<KeyV, EntryV>,
    st: StateV,
    fields: Seq<FieldV>,
    i: int,
    key: KeyV,
    c: u64,
)
    requires
        st.next_widget + wsum_fields(fields, i) <= u64::MAX,
        state_inv(st),
        exp_eq(m0, st.entries),
        !key.leaf,
    ensures
        ({
            let out = visit_fields_m(st, fields, i, key, c);
            &&& exp_eq(m0, out.st.entries)
            &&& crate::table::alive_set(out.st.entries) == crate::table::alive_set(
                st.entries,
            ).union(marks_fields(m0, st.registry, fields, i, key))
        }),
    decreases fields, 9int, i,
{
    let al = crate::table::alive_set(st.entries);
    if 0 < i <= fields.len() {
        assert(decreases_to!(fields => fields[i - 1]));
        assert(decreases_to!(fields[i - 1] => fields[i - 1].value));
        lemma_marks_fields(m0, st, fields, i - 1, key, c);
        lemma_fields_keep(st, fields, i - 1, key, c);
        lemma_fields_frame(st, fields, i - 1, key, c);
        let prev = visit_fields_m(st, fields, i - 1, key, c);
        let f = fields[i - 1];
        lemma_marks_node(
            m0,
            prev.st,
            f.value,
            child_key(key, StepV::Field(f.name)),
            field_label(f.name),
            Some(c),
        );
        assert(crate::table::alive_set(visit_fields_m(st, fields, i, key, c).st.entries)
            =~= al.union(marks_fields(m0, st.registry, fields, i, key)));
    } else {
        assert(al.union(Set::empty()) =~= al);
    }
}

proof fn lemma_marks_tuple(
    m0: Map<KeyV, EntryV>,
    st: StateV,
    fields: Seq<ValueV>,
    i: int,
    key: KeyV,
    c: u64,
)
    requires
        st.next_widget + wsum_vals(fields, i) <= u64::MAX,
        state_inv(st),
        exp_eq(m0, st.entries),
        !key.leaf,
    ensures
        ({
            let out = visit_tuple_m(st, fields, i, key, c);
            &&& exp_eq(m0, out.st.entries)
            &&& crate::table::alive_set(out.st.entries) == crate::table::alive_set(
                st.entries,
            ).union(marks_tuple(m0, st.registry, fields, i, key))
        }),
    decreases fields, 9int, i,
{
    let al = crate::table::alive_set(st.entries);
    if 0 < i <= fields.len() {
        assert(decreases_to!(fields => fields[i - 1]));
        lemma_marks_tuple(m0, st, fields, i - 1, key, c);
        lemma_tuple_keep(st, fields, i - 1, key, c);
        lemma_tuple_frame(st, fields, i - 1, key, c);
        let prev = visit_tuple_m(st, fields, i - 1, key, c);
        lemma_marks_node(
            m0,
            prev.st,
            fields[i - 1],
            child_key(key, StepV::Index(i - 1)),
            crate::model::tuple_label(i - 1),
            Some(c),
        );
        assert(crate::table::alive_set(visit_tuple_m(st, fields, i, key, c).st.entries)
            =~= al.union(marks_tuple(m0, st.registry, fields, i, key)));
    } else {
        assert(al.union(Set::empty()) =~= al);
    }
}

proof fn lemma_marks_list(
    m0: Map<KeyV, EntryV>,
    st: StateV,
    items: Seq<ValueV>,
    i: int,
    key: KeyV,
    c: u64,
)
    requires
        st.next_widget + wsum_vals(items, i) <= u64::MAX,
        state_inv(st),
        exp_eq(m0, st.entries),
        !key.leaf,
    ensures
        ({
            let out = visit_list_m(st, items, i, key, c);
            &&& exp_eq(m0, out.st.entries)
            &&& crate::table::alive_set(out.st.entries) == crate::table::alive_set(
                st.entries,
            ).union(marks_list(m0, st.registry, items, i, key))
        }),
    decreases items, 9int, i,
{
    let al = crate::table::alive_set(st.entries);
    if 0 < i <= items.len() {
        assert(decreases_to!(items => items[i - 1]));
        lemma_marks_list(m0, st, items, i - 1, key, c);
        lemma_list_keep(st, items, i - 1, key, c);
        lemma_list_frame(st, items, i - 1, key, c);
        let prev = visit_list_m(st, items, i - 1, key, c);
        lemma_marks_node(
            m0,
            prev.st,
            items[i - 1],
            child_key(key, StepV::Index(i - 1)),
            crate::model::list_label(i - 1),
            Some(c),
        );
        assert(crate::table::alive_set(visit_list_m(st, items, i, key, c).st.entries)
            =~= al.union(marks_list(m0, st.registry, items, i, key)));
    } else {
        assert(al.union(Set::empty()) =~= al);
    }
}

proof fn lemma_marks_pairs(
    m0: Map<KeyV, EntryV>,
    st: StateV,
    pairs: Seq<PairV>,
    i: int,
    key: KeyV,
    c: u64,
)
    requires
        st.next_widget + wsum_pairs(pairs, i) <= u64::MAX,
        state_inv(st),
        exp_eq(m0, st.entries),
        !key.leaf,
    ensures
        ({
            let out = visit_pairs_m(st, pairs, i, key, c);
            &&& exp_eq(m0, out.st.entries)
            &&& crate::table::alive_set(out.st.entries) == crate::table::alive_set(
                st.entries,
            ).union(marks_pairs(m0, st.registry, pairs, i, key))
        }),
    decreases pairs, 9int, i,
{
    let al = crate::table::alive_set(st.entries);
    if 0 < i <= pairs.len() {
        assert(decreases_to!(pairs => pairs[i - 1]));
        assert(decreases_to!(pairs[i - 1] => pairs[i - 1].value));
        lemma_marks_pairs(m0, st, pairs, i - 1, key, c);
        lemma_pairs_keep(st, pairs, i - 1, key, c);
        lemma_pairs_frame(st, pairs, i - 1, key, c);
        let prev = visit_pairs_m(st, pairs, i - 1, key, c);
        let p = pairs[i - 1];
        lemma_marks_node(
            m0,
            prev.st,
            p.value,
            child_key(key, StepV::MapKey(crate::text::leaf_text(p.key))),
            crate::model::map_label(p.key),
            Some(c),
        );
        assert(crate::table::alive_set(visit_pairs_m(st, pairs, i, key, c).st.entries)
            =~= al.union(marks_pairs(m0, st.registry, pairs, i, key)));
    } else {
        assert(al.union(Set::empty()) =~= al);
    }
}

proof fn lemma_marks_variants(
    m0: Map<KeyV, EntryV>,
    st: StateV,
    variants: Seq<Seq<char>>,
    payload: ValueV,
    active: int,
    i: int,
    key: KeyV,
    c: u64,
)
    requires
        st.next_widget + i + weight(payload) <= u64::MAX,
        0 <= i <= variants.len(),
        state_inv(st),
        exp_eq(m0, st.entries),
        !key.leaf,
    ensures
        ({
            let out = visit_variants_m(st, variants, payload, active, i, key, c);
            &&& exp_eq(m0, out.st.entries)
            &&& crate::table::alive_set(out.st.entries) == crate::table::alive_set(
                st.entries,
            ).union(marks_variants(m0, st.registry, variants, payload, active, i, key))
        }),
    decreases payload, 9int, i,
{
    let al = crate::table::alive_set(st.entries);
    if 0 < i {
        lemma_marks_variants(m0, st, variants, payload, active, i - 1, key, c);
        lemma_variants_keep(st, variants, payload, active, i - 1, key, c);
        lemma_variants_frame(st, variants, payload, active, i - 1, key, c);
        let prev = visit_variants_m(st, variants, payload, active, i - 1, key, c);
        let ck = child_key(key, StepV::Variant(i - 1));
        if i - 1 == active {
            lemma_marks_node(m0, prev.st, payload, ck, variants[i - 1], Some(c));
        } else {
            if prev.st.entries.contains_key(ck) {
                let e2 = EntryV { alive: true, ..prev.st.entries[ck] };
                lemma_exp_preserving_insert(m0, prev.st.entries, ck, e2);
                lemma_alive_insert(prev.st.entries, ck, e2);
            } else {
                let e2 = EntryV {
                    widget: prev.st.next_widget,
                    alive: true,
                    inner: InnerV::Node { container: None },
                };
                lemma_exp_preserving_insert(m0, prev.st.entries, ck, e2);
                lemma_alive_insert(prev.st.entries, ck, e2);
            }
        }
        assert(crate::table::alive_set(
            visit_variants_m(st, variants, payload, active, i, key, c).st.entries,
        ) =~= al.union(marks_variants(m0, st.registry, variants, payload, active, i, key)));
    } else {
        assert(al.union(Set::empty()) =~= al);
    }
}

pub proof fn lemma_marks_roots(m0: Map<KeyV, EntryV>, st: StateV, roots: Seq<RootV>, i: int)
    requires
        st.next_widget + wsum_roots(roots, i) <= u64::MAX,
        state_inv(st),
        exp_eq(m0, st.entries),
    ensures
        ({
            let out = visit_roots_m(st, roots, i);
            &&& exp_eq(m0, out.st.entries)
            &&& crate::table::alive_set(out.st.entries) == crate::table::alive_set(
                st.entries,
            ).union(marks_roots(m0, st.registry, roots, i))
        }),
    decreases roots.map_values(|r: RootV| r.value), 9int, i,
{
    let al = crate::table::alive_set(st.entries);
    if 0 < i <= roots.len() {
        let vals = roots.map_values(|x: RootV| x.value);
        assert(vals[i - 1] == roots[i - 1].value);
        assert(decreases_to!(vals => vals[i - 1]));
        lemma_marks_roots(m0, st, roots, i - 1);
        lemma_roots_keep(st, roots, i - 1);
        lemma_roots_frame(st, roots, i - 1);
        let prev = visit_roots_m(st, roots, i - 1);
        let r = roots[i - 1];
        lemma_marks_node(
            m0,
            prev.st,
            r.value,
            crate::model::root_key(r.seed),
            r.label,
            None,
        );
        assert(crate::table::alive_set(visit_roots_m(st, roots, i).st.entries) =~= al.union(
            marks_roots(m0, st.registry, roots, i),
        ));
    } else {
        assert(al.union(Set::empty()) =~= al);
    }
}

/// The traversal consults expansion only at the keys it marks: two
/// tables that agree on expansion there are walked identically.
pub proof fn lemma_marks_node_congruent(
    ma: Map<KeyV, EntryV>,
    mb: Map<KeyV, EntryV>,
    reg: Map<u64, WidgetCtor>,
    v: ValueV,
    key: KeyV,
)
    requires
        forall|k: KeyV|
            #[trigger] marks_node(ma, reg, v, key).contains(k) ==> expanded_in(ma, k)
                == expanded_in(mb, k),
    ensures
        marks_node(mb, reg, v, key) == marks_node(ma, reg, v, key),
    decreases v, 3int, 0int,
{
    if reg.contains_key(v.type_tag) && leaf_repr(v) is Some {
    } else if v.short_name is None {
    } else if v.shape matches ShapeV::Leaf { .. } {
    } else {
        assert(marks_node(ma, reg, v, key).contains(key));
        if expanded_in(ma, key) {
            assert forall|k: KeyV|
                #[trigger] marks_dispatch(ma, reg, v, key).contains(k) implies expanded_in(ma, k)
                == expanded_in(mb, k) by {
                assert(marks_node(ma, reg, v, key).contains(k));
            }
            lemma_marks_dispatch_congruent(ma, mb, reg, v, key);
        }
    }
}

pub proof fn lemma_marks_dispatch_congruent(
    ma: Map<KeyV, EntryV>,
    mb: Map<KeyV, EntryV>,
    reg: Map<u64, WidgetCtor>,
    v: ValueV,
    key: KeyV,
)
    requires
        forall|k: KeyV|
            #[trigger] marks_dispatch(ma, reg, v, key).contains(k) ==> expanded_in(ma, k)
                == expanded_in(mb, k),
    ensures
        marks_dispatch(mb, reg, v, key) == marks_dispatch(ma, reg, v, key),
    decreases v, 2int, 0int,
{
    match v.shape {
        ShapeV::Struct { fields } => {
            assert forall|k: KeyV|
                #[trigger] marks_fields(ma, reg, fields, fields.len() as int, key).contains(
                k,
            ) implies expanded_in(ma, k) == expanded_in(mb, k) by {
                assert(marks_dispatch(ma, reg, v, key).contains(k));
            }
            lemma_marks_fields_congruent(ma, mb, reg, fields, fields.len() as int, key);
        },
        ShapeV::Tuple { fields } => {
            assert forall|k: KeyV|
                #[trigger] marks_tuple(ma, reg, fields, fields.len() as int, key).contains(
                k,
            ) implies expanded_in(ma, k) == expanded_in(mb, k) by {
                assert(marks_dispatch(ma, reg, v, key).contains(k));
            }
            lemma_marks_tuple_congruent(ma, mb, reg, fields, fields.len() as int, key);
        },
        ShapeV::List { items } => {
            assert forall|k: KeyV|
                #[trigger] marks_list(ma, reg, items, items.len() as int, key).contains(
                k,
            ) implies expanded_in(ma, k) == expanded_in(mb, k) by {
                assert(marks_dispatch(ma, reg, v, key).contains(k));
            }
            lemma_marks_list_congruent(ma, mb, reg, items, items.len() as int, key);
        },
        ShapeV::Dict { pairs } => {
            assert forall|k: KeyV|
                #[trigger] marks_pairs(ma, reg, pairs, pairs.len() as int, key).contains(
                k,
            ) implies expanded_in(ma, k) == expanded_in(mb, k) by {
                assert(marks_dispatch(ma, reg, v, key).contains(k));
            }
            lemma_marks_pairs_congruent(ma, mb, reg, pairs, pairs.len() as int, key);
        },
        ShapeV::Enum { variants, active, payload } => {
            assert forall|k: KeyV|
                #[trigger] marks_variants(
                    ma,
                    reg,
                    variants,
                    *payload,
                    active,
                    variants.len() as int,
                    key,
                ).contains(k) implies expanded_in(ma, k) == expanded_in(mb, k) by {
                assert(marks_dispatch(ma, reg, v, key).contains(k));
            }
            lemma_marks_variants_congruent(
                ma,
                mb,
                reg,
                variants,
                *payload,
                active,
                variants.len() as int,
                key,
            );
        },
        ShapeV::Leaf { value } => {},
    }
}

proof fn lemma_marks_fields_congruent(
    ma: Map<KeyV, EntryV>,
    mb: Map<KeyV, EntryV>,
    reg: Map<u64, WidgetCtor>,
    fields: Seq<FieldV>,
    i: int,
    key: KeyV,
)
    requires
        forall|k: KeyV|
            #[trigger] marks_fields(ma, reg, fields, i, key).contains(k) ==> expanded_in(ma, k)
                == expanded_in(mb, k),
    ensures
        marks_fields(mb, reg, fields, i, key) == marks_fields(ma, reg, fields, i, key),
    decreases fields, 9int, i,
{
    if 0 < i <= fields.len() {
        assert(decreases_to!(fields => fields[i - 1]));
        assert(decreases_to!(fields[i - 1] => fields[i - 1].value));
        assert forall|k: KeyV|
            #[trigger] marks_fields(ma, reg, fields, i - 1, key).contains(k) implies expanded_in(
            ma,
            k,
        ) == expanded_in(mb, k) by {
            assert(marks_fields(ma, reg, fields, i, key).contains(k));
        }
        lemma_marks_fields_congruent(ma, mb, reg, fields, i - 1, key);
        let ck = child_key(key, StepV::Field(fields[i - 1].name));
        assert forall|k: KeyV|
            #[trigger] marks_node(ma, reg, fields[i - 1].value, ck).contains(k) implies expanded_in(
            ma,
            k,
        ) == expanded_in(mb, k) by {
            assert(marks_fields(ma, reg, fields, i, key).contains(k));
        }
        lemma_marks_node_congruent(ma, mb, reg, fields[i - 1].value, ck);
    }
}

proof fn lemma_marks_tuple_congruent(
    ma: Map<KeyV, EntryV>,
    mb: Map<KeyV, EntryV>,
    reg: Map<u64, WidgetCtor>,
    fields: Seq<ValueV>,
    i: int,
    key: KeyV,
)
    requires
        forall|k: KeyV|
            #[trigger] marks_tuple(ma, reg, fields, i, key).contains(k) ==> expanded_in(ma, k)
                == expanded_in(mb, k),
    ensures
        marks_tuple(mb, reg, fields, i, key) == marks_tuple(ma, reg, fields, i, key),
    decreases fields, 9int, i,
{
    if 0 < i <= fields.len() {
        assert(decreases_to!(fields => fields[i - 1]));
        assert forall|k: KeyV|
            #[trigger] marks_tuple(ma, reg, fields, i - 1, key).contains(k) implies expanded_in(
            ma,
            k,
        ) == expanded_in(mb, k) by {
            assert(marks_tuple(ma, reg, fields, i, key).contains(k));
        }
        lemma_marks_tuple_congruent(ma, mb, reg, fields, i - 1, key);
        let ck = child_key(key, StepV::Index(i - 1));
        assert forall|k: KeyV|
            #[trigger] marks_node(ma, reg, fields[i - 1], ck).contains(k) implies expanded_in(
            ma,
            k,
        ) == expanded_in(mb, k) by {
            assert(marks_tuple(ma, reg, fields, i, key).contains(k));
        }
        lemma_marks_node_congruent(ma, mb, reg, fields[i - 1], ck);
    }
}

proof fn lemma_marks_list_congruent(
    ma: Map<KeyV, EntryV>,
    mb: Map<KeyV, EntryV>,
    reg: Map<u64, WidgetCtor>,
    items: Seq<ValueV>,
    i: int,
    key: KeyV,
)
    requires
        forall|k: KeyV|
            #[trigger] marks_list(ma, reg, items, i, key).contains(k) ==> expanded_in(ma, k)
                == expanded_in(mb, k),
    ensures
        marks_list(mb, reg, items, i, key) == marks_list(ma, reg, items, i, key),
    decreases items, 9int, i,
{
    if 0 < i <= items.len() {
        assert(decreases_to!(items => items[i - 1]));
        assert forall|k: KeyV|
            #[trigger] marks_list(ma, reg, items, i - 1, key).contains(k) implies expanded_in(
            ma,
            k,
        ) == expanded_in(mb, k) by {
            assert(marks_list(ma, reg, items, i, key).contains(k));
        }
        lemma_marks_list_congruent(ma, mb, reg, items, i - 1, key);
        let ck = child_key(key, StepV::Index(i - 1));
        assert forall|k: KeyV|
            #[trigger] marks_node(ma, reg, items[i - 1], ck).contains(k) implies expanded_in(ma, k)
                == expanded_in(mb, k) by {
            assert(marks_list(ma, reg, items, i, key).contains(k));
        }
        lemma_marks_node_congruent(ma, mb, reg, items[i - 1], ck);
    }
}

proof fn lemma_marks_pairs_congruent(
    ma: Map<KeyV, EntryV>,
    mb: Map<KeyV, EntryV>,
    reg: Map<u64, WidgetCtor>,
    pairs: Seq<PairV>,
    i: int,
    key: KeyV,
)
    requires
        forall|k: KeyV|
            #[trigger] marks_pairs(ma, reg, pairs, i, key).contains(k) ==> expanded_in(ma, k)
                == expanded_in(mb, k),
    ensures
        marks_pairs(mb, reg, pairs, i, key) == marks_pairs(ma, reg, pairs, i, key),
    decreases pairs, 9int, i,
{
    if 0 < i <= pairs.len() {
        assert(decreases_to!(pairs => pairs[i - 1]));
        assert(decreases_to!(pairs[i - 1] => pairs[i - 1].value));
        assert forall|k: KeyV|
            #[trigger] marks_pairs(ma, reg, pairs, i - 1, key).contains(k) implies expanded_in(
            ma,
            k,
        ) == expanded_in(mb, k) by {
            assert(marks_pairs(ma, reg, pairs, i, key).contains(k));
        }
        lemma_marks_pairs_congruent(ma, mb, reg, pairs, i - 1, key);
        let ck = child_key(key, StepV::MapKey(crate::text::leaf_text(pairs[i - 1].key)));
        assert forall|k: KeyV|
            #[trigger] marks_node(ma, reg, pairs[i - 1].value, ck).contains(k) implies expanded_in(
            ma,
            k,
        ) == expanded_in(mb, k) by {
            assert(marks_pairs(ma, reg, pairs, i, key).contains(k));
        }
        lemma_marks_node_congruent(ma, mb, reg, pairs[i - 1].value, ck);
    }
}

proof fn lemma_marks_variants_congruent(
    ma: Map<KeyV, EntryV>,
    mb: Map<KeyV, EntryV>,
    reg: Map<u64, WidgetCtor>,
    variants: Seq<Seq<char>>,
    payload: ValueV,
    active: int,
    i: int,
    key: KeyV,
)
    requires
        forall|k: KeyV|
            #[trigger] marks_variants(ma, reg, variants, payload, active, i, key).contains(k)
                ==> expanded_in(ma, k) == expanded_in(mb, k),
    ensures
        marks_variants(mb, reg, variants, payload, active, i, key) == marks_variants(
            ma,
            reg,
            variants,
            payload,
            active,
            i,
            key,
        ),
    decreases payload, 9int, i,
{
    if 0 < i {
        assert forall|k: KeyV|
            #[trigger] marks_variants(ma, reg, variants, payload, active, i - 1, key).contains(
            k,
        ) implies expanded_in(ma, k) == expanded_in(mb, k) by {
            assert(marks_variants(ma, reg, variants, payload, active, i, key).contains(k));
        }
        lemma_marks_variants_congruent(ma, mb, reg, variants, payload, active, i - 1, key);
        if i - 1 == active {
            let ck = child_key(key, StepV::Variant(i - 1));
            assert forall|k: KeyV|
                #[trigger] marks_node(ma, reg, payload, ck).contains(k) implies expanded_in(ma, k)
                    == expanded_in(mb, k) by {
                assert(marks_variants(ma, reg, variants, payload, active, i, key).contains(k));
            }
            lemma_marks_node_congruent(ma, mb, reg, payload, ck);
        }
    }
}

pub proof fn lemma_marks_roots_congruent(
    ma: Map<KeyV, EntryV>,
    mb: Map<KeyV, EntryV>,
    reg: Map<u64, WidgetCtor>,
    roots: Seq<RootV>,
    i: int,
)
    requires
        forall|k: KeyV|
            #[trigger] marks_roots(ma, reg, roots, i).contains(k) ==> expanded_in(ma, k)
                == expanded_in(mb, k),
    ensures
        marks_roots(mb, reg, roots, i) == marks_roots(ma, reg, roots, i),
    decreases roots.map_values(|r: RootV| r.value), 9int, i,
{
    if 0 < i <= roots.len() {
        let vals = roots.map_values(|x: RootV| x.value);
        assert(vals[i - 1] == roots[i - 1].value);
        assert(decreases_to!(vals => vals[i - 1]));
        assert forall|k: KeyV|
            #[trigger] marks_roots(ma, reg, roots, i - 1).contains(k) implies expanded_in(ma, k)
                == expanded_in(mb, k) by {
            assert(marks_roots(ma, reg, roots, i).contains(k));
        }
        lemma_marks_roots_congruent(ma, mb, reg, roots, i - 1);
        let rk = crate::model::root_key(roots[i - 1].seed);
        assert forall|k: KeyV|
            #[trigger] marks_node(ma, reg, roots[i - 1].value, rk).contains(k) implies expanded_in(
            ma,
            k,
        ) == expanded_in(mb, k) by {
            assert(marks_roots(ma, reg, roots, i).contains(k));
        }
        lemma_marks_node_congruent(ma, mb, reg, roots[i - 1].value, rk);
    }
}

/// `within_subtree` composes along the tree.
proof fn lemma_within_trans(a: KeyV, b: KeyV, k: KeyV)
    requires
        within_subtree(a, b),
        within_subtree(b, k),
    ensures
        within_subtree(a, k),
{
    if a == b || b == k {
    } else {
        assert(k.path.subrange(0, a.path.len() as int) =~= k.path.subrange(
            0,
            b.path.len() as int,
        ).subrange(0, a.path.len() as int));
        assert(b.path.subrange(0, a.path.len() as int) =~= a.path);
    }
}

/// Everything a visit marks lies inside the visited position's subtree.
proof fn lemma_marks_node_subtree(
    m0: Map<KeyV, EntryV>,
    reg: Map<u64, WidgetCtor>,
    v: ValueV,
    key: KeyV,
)
    requires
        !key.leaf,
    ensures
        forall|k: KeyV|
            #[trigger] marks_node(m0, reg, v, key).contains(k) ==> within_subtree(key, k),
    decreases v, 3int, 0int,
{
    assert(key.path.subrange(0, key.path.len() as int) =~= key.path);
    assert(within_subtree(key, leaf_key(key)));
    if expanded_in(m0, key) {
        lemma_marks_dispatch_subtree(m0, reg, v, key);
    }
    assert forall|k: KeyV|
        #[trigger] marks_node(m0, reg, v, key).contains(k) implies within_subtree(key, k) by {
        if reg.contains_key(v.type_tag) && leaf_repr(v) is Some {
            assert(k == leaf_key(key));
        } else if v.short_name is None {
            assert(k == key);
        } else if v.shape matches ShapeV::Leaf { .. } {
            assert(k == leaf_key(key));
        } else if expanded_in(m0, key) {
            if k != key {
                assert(marks_dispatch(m0, reg, v, key).contains(k));
            }
        } else {
            assert(k == key);
        }
    }
}

proof fn lemma_marks_dispatch_subtree(
    m0: Map<KeyV, EntryV>,
    reg: Map<u64, WidgetCtor>,
    v: ValueV,
    key: KeyV,
)
    requires
        !key.leaf,
    ensures
        forall|k: KeyV|
            #[trigger] marks_dispatch(m0, reg, v, key).contains(k) ==> within_subtree(key, k),
    decreases v, 2int, 0int,
{
    assert(key.path.subrange(0, key.path.len() as int) =~= key.path);
    assert(within_subtree(key, leaf_key(key)));
    match v.shape {
        ShapeV::Struct { fields } => {
            lemma_marks_fields_subtree(m0, reg, fields, fields.len() as int, key);
            assert forall|k: KeyV|
                #[trigger] marks_dispatch(m0, reg, v, key).contains(k) implies within_subtree(
                key,
                k,
            ) by {
                assert(marks_fields(m0, reg, fields, fields.len() as int, key).contains(k));
            }
        },
        ShapeV::Tuple { fields } => {
            lemma_marks_tuple_subtree(m0, reg, fields, fields.len() as int, key);
            assert forall|k: KeyV|
                #[trigger] marks_dispatch(m0, reg, v, key).contains(k) implies within_subtree(
                key,
                k,
            ) by {
                assert(marks_tuple(m0, reg, fields, fields.len() as int, key).contains(k));
            }
        },
        ShapeV::List { items } => {
            lemma_marks_list_subtree(m0, reg, items, items.len() as int, key);
            assert forall|k: KeyV|
                #[trigger] marks_dispatch(m0, reg, v, key).contains(k) implies within_subtree(
                key,
                k,
            ) by {
                assert(marks_list(m0, reg, items, items.len() as int, key).contains(k));
            }
        },
        ShapeV::Dict { pairs } => {
            lemma_marks_pairs_subtree(m0, reg, pairs, pairs.len() as int, key);
            assert forall|k: KeyV|
                #[trigger] marks_dispatch(m0, reg, v, key).contains(k) implies within_subtree(
                key,
                k,
            ) by {
                assert(marks_pairs(m0, reg, pairs, pairs.len() as int, key).contains(k));
            }
        },
        ShapeV::Enum { variants, active, payload } => {
            lemma_marks_variants_subtree(
                m0,
                reg,
                variants,
                *payload,
                active,
                variants.len() as int,
                key,
            );
            assert forall|k: KeyV|
                #[trigger] marks_dispatch(m0, reg, v, key).contains(k) implies within_subtree(
                key,
                k,
            ) by {
                assert(marks_variants(
                    m0,
                    reg,
                    variants,
                    *payload,
                    active,
                    variants.len() as int,
                    key,
                ).contains(k));
            }
        },
        ShapeV::Leaf { value } => {
            assert forall|k: KeyV|
                #[trigger] marks_dispatch(m0, reg, v, key).contains(k) implies within_subtree(
                key,
                k,
            ) by {
                assert(k == leaf_key(key));
            }
        },
    }
}

proof fn lemma_child_within(key: KeyV, step: StepV)
    requires
        !key.leaf,
    ensures
        within_subtree(key, child_key(key, step)),
{
    assert(child_key(key, step).path.subrange(0, key.path.len() as int) =~= key.path);
}

proof fn lemma_marks_fields_subtree(
    m0: Map<KeyV, EntryV>,
    reg: Map<u64, WidgetCtor>,
    fields: Seq<FieldV>,
    i: int,
    key: KeyV,
)
    requires
        !key.leaf,
    ensures
        forall|k: KeyV|
            #[trigger] marks_fields(m0, reg, fields, i, key).contains(k) ==> within_subtree(
                key,
                k,
            ),
    decreases fields, 9int, i,
{
    if 0 < i <= fields.len() {
        assert(decreases_to!(fields => fields[i - 1]));
        assert(decreases_to!(fields[i - 1] => fields[i - 1].value));
        lemma_marks_fields_subtree(m0, reg, fields, i - 1, key);
        let ck = child_key(key, StepV::Field(fields[i - 1].name));
        lemma_child_within(key, StepV::Field(fields[i - 1].name));
        lemma_marks_node_subtree(m0, reg, fields[i - 1].value, ck);
        assert forall|k: KeyV|
            #[trigger] marks_fields(m0, reg, fields, i, key).contains(k) implies within_subtree(
            key,
            k,
        ) by {
            if marks_node(m0, reg, fields[i - 1].value, ck).contains(k) {
                lemma_within_trans(key, ck, k);
            } else {
                assert(marks_fields(m0, reg, fields, i - 1, key).contains(k));
            }
        }
    }
}

proof fn lemma_marks_tuple_subtree(
    m0: Map<KeyV, EntryV>,
    reg: Map<u64, WidgetCtor>,
    fields: Seq<ValueV>,
    i: int,
    key: KeyV,
)
    requires
        !key.leaf,
    ensures
        forall|k: KeyV|
            #[trigger] marks_tuple(m0, reg, fields, i, key).contains(k) ==> within_subtree(key, k),
    decreases fields, 9int, i,
{
    if 0 < i <= fields.len() {
        assert(decreases_to!(fields => fields[i - 1]));
        lemma_marks_tuple_subtree(m0, reg, fields, i - 1, key);
        let ck = child_key(key, StepV::Index(i - 1));
        lemma_child_within(key, StepV::Index(i - 1));
        lemma_marks_node_subtree(m0, reg, fields[i - 1], ck);
        assert forall|k: KeyV|
            #[trigger] marks_tuple(m0, reg, fields, i, key).contains(k) implies within_subtree(
            key,
            k,
        ) by {
            if marks_node(m0, reg, fields[i - 1], ck).contains(k) {
                lemma_within_trans(key, ck, k);
            } else {
                assert(marks_tuple(m0, reg, fields, i - 1, key).contains(k));
            }
        }
    }
}

proof fn lemma_marks_list_subtree(
    m0: Map<KeyV, EntryV>,
    reg: Map<u64, WidgetCtor>,
    items: Seq<ValueV>,
    i: int,
    key: KeyV,
)
    requires
        !key.leaf,
    ensures
        forall|k: KeyV|
            #[trigger] marks_list(m0, reg, items, i, key).contains(k) ==> within_subtree(key, k),
    decreases items, 9int, i,
{
    if 0 < i <= items.len() {
        assert(decreases_to!(items => items[i - 1]));
        lemma_marks_list_subtree(m0, reg, items, i - 1, key);
        let ck = child_key(key, StepV::Index(i - 1));
        lemma_child_within(key, StepV::Index(i - 1));
        lemma_marks_node_subtree(m0, reg, items[i - 1], ck);
        assert forall|k: KeyV|
            #[trigger] marks_list(m0, reg, items, i, key).contains(k) implies within_subtree(
            key,
            k,
        ) by {
            if marks_node(m0, reg, items[i - 1], ck).contains(k) {
                lemma_within_trans(key, ck, k);
            } else {
                assert(marks_list(m0, reg, items, i - 1, key).contains(k));
            }
        }
    }
}

proof fn lemma_marks_pairs_subtree(
    m0: Map<KeyV, EntryV>,
    reg: Map<u64, WidgetCtor>,
    pairs: Seq<PairV>,
    i: int,
    key: KeyV,
)
    requires
        !key.leaf,
    ensures
        forall|k: KeyV|
            #[trigger] marks_pairs(m0, reg, pairs, i, key).contains(k) ==> within_subtree(key, k),
    decreases pairs, 9int, i,
{
    if 0 < i <= pairs.len() {
        assert(decreases_to!(pairs => pairs[i - 1]));
        assert(decreases_to!(pairs[i - 1] => pairs[i - 1].value));
        lemma_marks_pairs_subtree(m0, reg, pairs, i - 1, key);
        let step = StepV::MapKey(crate::text::leaf_text(pairs[i - 1].key));
        let ck = child_key(key, step);
        lemma_child_within(key, step);
        lemma_marks_node_subtree(m0, reg, pairs[i - 1].value, ck);
        assert forall|k: KeyV|
            #[trigger] marks_pairs(m0, reg, pairs, i, key).contains(k) implies within_subtree(
            key,
            k,
        ) by {
            if marks_node(m0, reg, pairs[i - 1].value, ck).contains(k) {
                lemma_within_trans(key, ck, k);
            } else {
                assert(marks_pairs(m0, reg, pairs, i - 1, key).contains(k));
            }
        }
    }
}

proof fn lemma_marks_variants_subtree(
    m0: Map<KeyV, EntryV>,
    reg: Map<u64, WidgetCtor>,
    variants: Seq<Seq<char>>,
    payload: ValueV,
    active: int,
    i: int,
    key: KeyV,
)
    requires
        !key.leaf,
    ensures
        forall|k: KeyV|
            #[trigger] marks_variants(m0, reg, variants, payload, active, i, key).contains(k)
                ==> within_subtree(key, k),
    decreases payload, 9int, i,
{
    if 0 < i {
        lemma_marks_variants_subtree(m0, reg, variants, payload, active, i - 1, key);
        let ck = child_key(key, StepV::Variant(i - 1));
        lemma_child_within(key, StepV::Variant(i - 1));
        if i - 1 == active {
            lemma_marks_node_subtree(m0, reg, payload, ck);
        }
        assert forall|k: KeyV|
            #[trigger] marks_variants(m0, reg, variants, payload, active, i, key).contains(
            k,
        ) implies within_subtree(key, k) by {
            if i - 1 == active && marks_node(m0, reg, payload, ck).contains(k) {
                lemma_within_trans(key, ck, k);
            } else if k != ck {
                assert(marks_variants(m0, reg, variants, payload, active, i - 1, key).contains(
                    k,
                ));
            }
        }
    }
}

/// Truncating the root list does not change how its remaining prefix is
/// walked.
proof fn lemma_marks_roots_take(
    m0: Map<KeyV, EntryV>,
    reg: Map<u64, WidgetCtor>,
    roots: Seq<RootV>,
    kcount: int,
    i: int,
)
    requires
        0 <= i <= kcount <= roots.len(),
    ensures
        marks_roots(m0, reg, roots.take(kcount), i) == marks_roots(m0, reg, roots, i),
    decreases i,
{
    if 0 < i {
        lemma_marks_roots_take(m0, reg, roots, kcount, i - 1);
        assert(roots.take(kcount)[i - 1] == roots[i - 1]);
    }
}

proof fn lemma_wsum_roots_take(roots: Seq<RootV>, kcount: int, i: int)
    requires
        0 <= i <= kcount <= roots.len(),
    ensures
        wsum_roots(roots.take(kcount), i) == wsum_roots(roots, i),
    decreases i,
{
    if 0 < i {
        lemma_wsum_roots_take(roots, kcount, i - 1);
        assert(roots.take(kcount)[i - 1] == roots[i - 1]);
    }
}

/// What the roots after `base` contribute to the walk: the marked keys
/// split into the first `base` roots' share and one share per later root.
proof fn lemma_marks_roots_split(
    m0: Map<KeyV, EntryV>,
    reg: Map<u64, WidgetCtor>,
    roots: Seq<RootV>,
    base: int,
    i: int,
)
    requires
        0 <= base <= i <= roots.len(),
    ensures
        forall|k: KeyV|
            #[trigger] marks_roots(m0, reg, roots, i).contains(k) <==> (marks_roots(
                m0,
                reg,
                roots,
                base,
            ).contains(k) || exists|j: int|
                base <= j < i && marks_node(
                    m0,
                    reg,
                    roots[j].value,
                    crate::model::root_key(roots[j].seed),
                ).contains(k)),
    decreases i,
{
    if base < i {
        lemma_marks_roots_split(m0, reg, roots, base, i - 1);
        assert forall|k: KeyV|
            #[trigger] marks_roots(m0, reg, roots, i).contains(k) <==> (marks_roots(
                m0,
                reg,
                roots,
                base,
            ).contains(k) || exists|j: int|
                base <= j < i && marks_node(
                    m0,
                    reg,
                    roots[j].value,
                    crate::model::root_key(roots[j].seed),
                ).contains(k)) by {
            let last = marks_node(
                m0,
                reg,
                roots[i - 1].value,
                crate::model::root_key(roots[i - 1].seed),
            );
            if marks_roots(m0, reg, roots, i).contains(k) {
                if last.contains(k) {
                } else {
                    assert(marks_roots(m0, reg, roots, i - 1).contains(k));
                }
            }
            if marks_roots(m0, reg, roots, base).contains(k) {
                assert(marks_roots(m0, reg, roots, i - 1).contains(k));
            }
            if exists|j: int|
                base <= j < i && marks_node(
                    m0,
                    reg,
                    roots[j].value,
                    crate::model::root_key(roots[j].seed),
                ).contains(k) {
                let j = choose|j: int|
                    base <= j < i && marks_node(
                        m0,
                        reg,
                        roots[j].value,
                        crate::model::root_key(roots[j].seed),
                    ).contains(k);
                if j == i - 1 {
                    assert(marks_roots(m0, reg, roots, i).contains(k));
                } else {
                    assert(marks_roots(m0, reg, roots, i - 1).contains(k));
                }
            }
        }
    }
}

/// A visit's marked set either contains the visited node key itself, or
/// is exactly the leaf position at the same path (a delegated or
/// primitive leaf).
proof fn lemma_marks_node_top(
    m0: Map<KeyV, EntryV>,
    reg: Map<u64, WidgetCtor>,
    v: ValueV,
    key: KeyV,
)
    ensures
        marks_node(m0, reg, v, key).contains(key) || marks_node(m0, reg, v, key) == set![
            leaf_key(key),
        ],
{
}

/// The widget handle of a root's top entry: the root's node entry when
/// one exists, else its leaf entry (a root whose whole position is a
/// delegated or primitive leaf).
pub open spec fn root_entry_widget(m: Map<KeyV, EntryV>, seed: u64) -> u64 {
    if m.contains_key(crate::model::root_key(seed)) {
        m[crate::model::root_key(seed)].widget
    } else {
        m[leaf_key(crate::model::root_key(seed))].widget
    }
}

/// The values an integer-indexed family takes on a range.
spec fn image_range<T>(f: spec_fn(int) -> T, lo: int, hi: int) -> Set<T> {
    Set::new(|w: T| exists|i: int| lo <= i < hi && w == #[trigger] f(i))
}

/// The image of an injective function on an integer range has the range's
/// size.
proof fn lemma_image_range_len<T>(f: spec_fn(int) -> T, lo: int, hi: int)
    requires
        lo <= hi,
        forall|i: int, j: int| lo <= i < j < hi ==> #[trigger] f(i) != #[trigger] f(j),
    ensures
        image_range(f, lo, hi).finite(),
        image_range(f, lo, hi).len() == hi - lo,
    decreases hi - lo,
{
    let full = image_range(f, lo, hi);
    if lo < hi {
        lemma_image_range_len(f, lo, hi - 1);
        let prev = image_range(f, lo, hi - 1);
        assert forall|w: T| #[trigger] full.contains(w) implies prev.insert(f(hi - 1)).contains(
            w,
        ) by {
            let i = choose|i: int| lo <= i < hi && w == #[trigger] f(i);
            if i < hi - 1 {
                assert(prev.contains(w));
            }
        }
        assert(full =~= prev.insert(f(hi - 1)));
        assert(!prev.contains(f(hi - 1)));
        vstd::set::axiom_set_insert_finite(prev, f(hi - 1));
        vstd::set::axiom_set_insert_len(prev, f(hi - 1));
    } else {
        assert(full =~= Set::<T>::empty());
    }
}

/// The one key an unexpanded position's visit marks: the node key itself,
/// or the leaf position where the widget is the whole position.
pub open spec fn marks_top(
    m0: Map<KeyV, EntryV>,
    reg: Map<u64, WidgetCtor>,
    v: ValueV,
    key: KeyV,
) -> KeyV {
    if marks_node(m0, reg, v, key).contains(key) {
        key
    } else {
        leaf_key(key)
    }
}

/// An unexpanded position marks exactly one key.
proof fn lemma_marks_node_unexpanded(
    m0: Map<KeyV, EntryV>,
    reg: Map<u64, WidgetCtor>,
    v: ValueV,
    key: KeyV,
)
    requires
        !key.leaf,
        !expanded_in(m0, key),
    ensures
        marks_node(m0, reg, v, key) == set![marks_top(m0, reg, v, key)],
{
    if reg.contains_key(v.type_tag) && leaf_repr(v) is Some {
        assert(marks_node(m0, reg, v, key) =~= set![marks_top(m0, reg, v, key)]);
    } else if v.short_name is None {
        assert(marks_node(m0, reg, v, key) =~= set![marks_top(m0, reg, v, key)]);
    } else if v.shape matches ShapeV::Leaf { .. } {
        assert(marks_node(m0, reg, v, key) =~= set![marks_top(m0, reg, v, key)]);
    } else {
        assert(marks_node(m0, reg, v, key) =~= set![marks_top(m0, reg, v, key)]);
    }
}

/// LIVENESS CORRECTNESS, the count. When the root list shrinks to its
/// first `kcount` entries between two ticks (values unchanged, no
/// interaction in between, root seeds distinct), the pass destroys
/// exactly one widget subtree per removed root — each removed root's top
/// entry — and nothing else: exactly `roots.len() - kcount` subtrees.
pub proof fn lemma_shrink_destroys_removed_roots(st: StateV, roots: Seq<RootV>, kcount: int)
    requires
        state_inv(st),
        st.next_widget + 2 * wsum_roots(roots, roots.len() as int) <= u64::MAX,
        0 <= kcount <= roots.len(),
        forall|i: int, j: int|
            0 <= i < j < roots.len() ==> roots[i].seed != roots[j].seed,
    ensures
        ({
            let st2 = reconcile_m(st, roots).st;
            let out2 = reconcile_m(st2, roots.take(kcount));
            &&& forall|w: u64|
                #[trigger] out2.destroyed.contains(w) <==> exists|i: int|
                    kcount <= i < roots.len() && w == root_entry_widget(
                        st2.entries,
                        roots[i].seed,
                    )
            &&& out2.destroyed.finite()
            &&& out2.destroyed.len() == roots.len() - kcount
        }),
{
    let n = roots.len() as int;
    let reg = st.registry;
    let roots2 = roots.take(kcount);
    lemma_wsum_roots_mono(roots, kcount, n);
    lemma_wsum_roots_take(roots, kcount, kcount);

    // First pass over the full list.
    let st_a = StateV { entries: reset_m(st.entries), ..st };
    assert(state_inv(st_a));
    lemma_marks_roots(st_a.entries, st_a, roots, n);
    lemma_roots_keep(st_a, roots, n);
    lemma_roots_frame(st_a, roots, n);
    let vis1 = visit_roots_m(st_a, roots, n);
    let mfull = marks_roots(st_a.entries, reg, roots, n);
    assert(crate::table::alive_set(st_a.entries) =~= Set::<KeyV>::empty());
    assert(crate::table::alive_set(vis1.st.entries) =~= mfull);
    let st2 = reconcile_m(st, roots).st;
    assert(st2.entries.dom() =~= mfull);
    assert(st2.registry == reg);
    lemma_reconcile_inv(st, roots);

    // Second pass over the shrunken prefix.
    let st_b = StateV { entries: reset_m(st2.entries), ..st2 };
    assert(state_inv(st_b));
    assert(st_b.next_widget + wsum_roots(roots2, kcount) <= u64::MAX);
    lemma_marks_roots(st_b.entries, st_b, roots2, kcount);
    lemma_roots_keep(st_b, roots2, kcount);
    let vis2 = visit_roots_m(st_b, roots2, kcount);
    let out2 = reconcile_m(st2, roots2);
    let m2 = vis2.st.entries;

    lemma_marks_roots_take(st_a.entries, reg, roots, kcount, kcount);
    let mk = marks_roots(st_a.entries, reg, roots, kcount);
    lemma_marks_roots_split(st_a.entries, reg, roots, kcount, n);
    lemma_marks_roots_split(st_a.entries, reg, roots, 0, kcount);
    assert(marks_roots(st_a.entries, reg, roots, 0) =~= Set::<KeyV>::empty());

    // The prefix pass walks the same keys as the prefix of the first.
    assert forall|k: KeyV| #[trigger] mk.contains(k) implies expanded_in(st_a.entries, k)
        == expanded_in(st_b.entries, k) by {
        assert(marks_roots(st_a.entries, reg, roots, n).contains(k));
        assert(crate::table::alive_set(vis1.st.entries).contains(k));
        assert(vis1.st.entries.contains_key(k));
        assert(expanded_in(st_a.entries, k) == expanded_in(vis1.st.entries, k));
        assert(st2.entries.contains_key(k));
        assert(node_container(st2.entries[k]) == node_container(vis1.st.entries[k]));
        assert(st_b.entries.contains_key(k));
        assert(node_container(st_b.entries[k]) == node_container(st2.entries[k]));
    }
    assert forall|k: KeyV|
        #[trigger] marks_roots(st_a.entries, reg, roots2, kcount).contains(k) implies expanded_in(
        st_a.entries,
        k,
    ) == expanded_in(st_b.entries, k) by {
        assert(mk.contains(k));
    }
    lemma_marks_roots_congruent(st_a.entries, st_b.entries, reg, roots2, kcount);
    assert(crate::table::alive_set(st_b.entries) =~= Set::<KeyV>::empty());
    assert(crate::table::alive_set(m2) =~= mk);

    // After the prefix visit the table still holds exactly the old keys.
    assert forall|k: KeyV| #[trigger] m2.contains_key(k) implies mfull.contains(k) by {
        if !st_b.entries.contains_key(k) {
            assert(m2[k].alive);
            assert(crate::table::alive_set(m2).contains(k));
            assert(marks_roots(st_a.entries, reg, roots, n).contains(k));
        }
    }

    // Subtree and slot facts for each root's marked share.
    assert forall|i: int, k: KeyV|
        0 <= i < n && #[trigger] marks_node(
            st_a.entries,
            reg,
            roots[i].value,
            crate::model::root_key(roots[i].seed),
        ).contains(k) implies k.slot == roots[i].seed by {
        let rk = crate::model::root_key(roots[i].seed);
        lemma_marks_node_subtree(st_a.entries, reg, roots[i].value, rk);
        assert(within_subtree(rk, k));
    }

    // A dead key belongs to exactly one removed root's share.
    assert forall|k: KeyV| m2.contains_key(k) && !(#[trigger] m2[k].alive) implies (exists|i: int|
        kcount <= i < n && marks_node(
            st_a.entries,
            reg,
            roots[i].value,
            crate::model::root_key(roots[i].seed),
        ).contains(k)) by {
        assert(mfull.contains(k));
        assert(marks_roots(st_a.entries, reg, roots, n).contains(k));
        assert(!crate::table::alive_set(m2).contains(k));
        assert(!mk.contains(k));
        assert(!marks_roots(st_a.entries, reg, roots, kcount).contains(k));
    }

    // Conversely, every removed root's share is dead.
    assert forall|i: int, k: KeyV|
        kcount <= i < n && #[trigger] marks_node(
            st_a.entries,
            reg,
            roots[i].value,
            crate::model::root_key(roots[i].seed),
        ).contains(k) implies m2.contains_key(k) && !m2[k].alive by {
        assert(marks_roots(st_a.entries, reg, roots, n).contains(k));
        assert(mfull.contains(k));
        assert(st_b.entries.contains_key(k));
        assert(m2.contains_key(k));
        if mk.contains(k) {
            let j = choose|j: int|
                0 <= j < kcount && marks_node(
                    st_a.entries,
                    reg,
                    roots[j].value,
                    crate::model::root_key(roots[j].seed),
                ).contains(k);
            assert(k.slot == roots[j].seed);
            assert(k.slot == roots[i].seed);
            assert(false);
        }
        assert(!crate::table::alive_set(m2).contains(k));
    }

    // The dead roots are exactly the removed roots' top entries.
    let fw = |i: int| root_entry_widget(st2.entries, roots[i].seed);
    assert forall|w: u64| #[trigger] out2.destroyed.contains(w) implies exists|i: int|
        kcount <= i < n && w == root_entry_widget(st2.entries, roots[i].seed) by {
        let k = choose|k: KeyV| dead_root(m2, k) && m2[k].widget == w;
        let i = choose|i: int|
            kcount <= i < n && marks_node(
                st_a.entries,
                reg,
                roots[i].value,
                crate::model::root_key(roots[i].seed),
            ).contains(k);
        let rk = crate::model::root_key(roots[i].seed);
        let mi = marks_node(st_a.entries, reg, roots[i].value, rk);
        lemma_marks_node_subtree(st_a.entries, reg, roots[i].value, rk);
        lemma_marks_node_top(st_a.entries, reg, roots[i].value, rk);
        if mi.contains(rk) {
            if k != rk {
                assert(within_subtree(rk, k));
                assert(above(rk, k));
                assert(m2.contains_key(rk) && !m2[rk].alive);
                assert(false);
            }
            assert(st2.entries.contains_key(rk));
            assert(st_b.entries[rk].widget == st2.entries[rk].widget);
            assert(m2[rk].widget == st_b.entries[rk].widget);
            assert(w == root_entry_widget(st2.entries, roots[i].seed));
        } else {
            assert(mi =~= set![leaf_key(rk)]);
            assert(k == leaf_key(rk));
            if st2.entries.contains_key(rk) {
                assert(mfull.contains(rk));
                let j = choose|j: int|
                    kcount <= j < n && marks_node(
                        st_a.entries,
                        reg,
                        roots[j].value,
                        crate::model::root_key(roots[j].seed),
                    ).contains(rk);
                assert(rk.slot == roots[j].seed);
                assert(j == i);
                assert(false);
            }
            assert(st_b.entries[k].widget == st2.entries[k].widget);
            assert(m2[k].widget == st_b.entries[k].widget);
            assert(w == root_entry_widget(st2.entries, roots[i].seed));
        }
    }
    assert forall|i: int| kcount <= i < n implies #[trigger] out2.destroyed.contains(
        root_entry_widget(st2.entries, roots[i].seed),
    ) by {
        let rk = crate::model::root_key(roots[i].seed);
        let mi = marks_node(st_a.entries, reg, roots[i].value, rk);
        lemma_marks_node_subtree(st_a.entries, reg, roots[i].value, rk);
        lemma_marks_node_top(st_a.entries, reg, roots[i].value, rk);
        let top = if mi.contains(rk) {
            rk
        } else {
            leaf_key(rk)
        };
        assert(mi.contains(top));
        assert(m2.contains_key(top) && !m2[top].alive);
        assert forall|a: KeyV|
            above(a, top) implies !(#[trigger] m2.contains_key(a) && !m2[a].alive) by {
            if m2.contains_key(a) && !m2[a].alive {
                let j = choose|j: int|
                    kcount <= j < n && marks_node(
                        st_a.entries,
                        reg,
                        roots[j].value,
                        crate::model::root_key(roots[j].seed),
                    ).contains(a);
                assert(a.slot == roots[j].seed);
                assert(a.slot == top.slot);
                assert(top.slot == roots[i].seed);
                assert(j == i);
                let mj = marks_node(
                    st_a.entries,
                    reg,
                    roots[j].value,
                    crate::model::root_key(roots[j].seed),
                );
                if mi.contains(rk) {
                    assert(a.path.len() <= rk.path.len());
                    assert(a.path =~= rk.path);
                    assert(a =~= rk);
                    assert(false);
                } else {
                    assert(mj =~= set![leaf_key(rk)]);
                    assert(a == leaf_key(rk));
                    assert(a.leaf);
                    assert(false);
                }
            }
        }
        assert(dead_root(m2, top));
        assert(dead_root_widgets(m2).contains(m2[top].widget));
        if mi.contains(rk) {
            assert(st2.entries.contains_key(rk));
            assert(m2[top].widget == st2.entries[rk].widget);
        } else {
            if st2.entries.contains_key(rk) {
                assert(mfull.contains(rk));
                let j = choose|j: int|
                    kcount <= j < n && marks_node(
                        st_a.entries,
                        reg,
                        roots[j].value,
                        crate::model::root_key(roots[j].seed),
                    ).contains(rk);
                assert(rk.slot == roots[j].seed);
                assert(j == i);
                assert(false);
            }
            assert(m2[top].widget == st2.entries[leaf_key(rk)].widget);
        }
        assert(m2[top].widget == root_entry_widget(st2.entries, roots[i].seed));
    }

    // Count: the removed roots' top widgets are pairwise distinct.
    assert forall|i: int, j: int| kcount <= i < j < n implies #[trigger] fw(i) != #[trigger] fw(
        j,
    ) by {
        let rki = crate::model::root_key(roots[i].seed);
        let rkj = crate::model::root_key(roots[j].seed);
        let ti = if st2.entries.contains_key(rki) {
            rki
        } else {
            leaf_key(rki)
        };
        let tj = if st2.entries.contains_key(rkj) {
            rkj
        } else {
            leaf_key(rkj)
        };
        assert(out2.destroyed.contains(fw(i)));
        assert(out2.destroyed.contains(fw(j)));
        assert(ti.slot == roots[i].seed && tj.slot == roots[j].seed);
        assert(ti != tj);
        if st2.entries.contains_key(ti) && st2.entries.contains_key(tj) {
            assert(st2.entries[ti].widget != st2.entries[tj].widget);
        }
        assert(fw(i) == st2.entries[ti].widget);
        assert(fw(j) == st2.entries[tj].widget);
    }
    lemma_image_range_len(fw, kcount, n);
    assert forall|w: u64| #[trigger] out2.destroyed.contains(w) implies image_range(
        fw,
        kcount,
        n,
    ).contains(w) by {
        let i = choose|i: int|
            kcount <= i < n && w == root_entry_widget(st2.entries, roots[i].seed);
        assert(fw(i) == root_entry_widget(st2.entries, roots[i].seed));
        assert(w == fw(i));
    }
    assert forall|w: u64| #[trigger] image_range(fw, kcount, n).contains(w) implies out2.destroyed.contains(
        w,
    ) by {
        let i = choose|i: int| kcount <= i < n && w == #[trigger] fw(i);
        assert(out2.destroyed.contains(root_entry_widget(st2.entries, roots[i].seed)));
        assert(fw(i) == root_entry_widget(st2.entries, roots[i].seed));
    }
    assert(out2.destroyed =~= image_range(fw, kcount, n));
}

/// How many immediate children a value shows when expanded.
pub open spec fn child_count(v: ValueV) -> int {
    match v.shape {
        ShapeV::Struct { fields } => fields.len() as int,
        ShapeV::Tuple { fields } => fields.len() as int,
        ShapeV::List { items } => items.len() as int,
        ShapeV::Dict { pairs } => pairs.len() as int,
        ShapeV::Enum { variants, .. } => variants.len() as int,
        ShapeV::Leaf { .. } => 1,
    }
}

/// Whether the value's children have pairwise distinct identities: field
/// names for a struct, rendered key texts for a map (not guaranteed by
/// the serializer in general; positional and variant children always
/// qualify).
pub open spec fn distinct_children(v: ValueV) -> bool {
    match v.shape {
        ShapeV::Struct { fields } => forall|a: int, b: int|
            0 <= a < b < fields.len() ==> (#[trigger] fields[a]).name != (#[trigger] fields[b]).name,
        ShapeV::Dict { pairs } => forall|a: int, b: int|
            0 <= a < b < pairs.len() ==> crate::text::leaf_text((#[trigger] pairs[a]).key)
                != crate::text::leaf_text((#[trigger] pairs[b]).key),
        _ => true,
    }
}

spec fn fields_top(
    m0: Map<KeyV, EntryV>,
    reg: Map<u64, WidgetCtor>,
    fields: Seq<FieldV>,
    key: KeyV,
) -> spec_fn(int) -> KeyV {
    |j: int|
        marks_top(m0, reg, fields[j].value, child_key(key, StepV::Field(fields[j].name)))
}

proof fn lemma_marks_fields_fresh(
    m0: Map<KeyV, EntryV>,
    reg: Map<u64, WidgetCtor>,
    fields: Seq<FieldV>,
    i: int,
    key: KeyV,
)
    requires
        !key.leaf,
        0 <= i <= fields.len(),
        forall|step: StepV| !expanded_in(m0, #[trigger] child_key(key, step)),
    ensures
        marks_fields(m0, reg, fields, i, key) == image_range(
            fields_top(m0, reg, fields, key),
            0,
            i,
        ),
    decreases i,
{
    let f = fields_top(m0, reg, fields, key);
    if 0 < i {
        lemma_marks_fields_fresh(m0, reg, fields, i - 1, key);
        let ck = child_key(key, StepV::Field(fields[i - 1].name));
        lemma_marks_node_unexpanded(m0, reg, fields[i - 1].value, ck);
        assert(f(i - 1) == marks_top(m0, reg, fields[i - 1].value, ck));
        assert forall|k: KeyV| #[trigger] image_range(f, 0, i).contains(k) implies marks_fields(
            m0,
            reg,
            fields,
            i,
            key,
        ).contains(k) by {
            let j = choose|j: int| 0 <= j < i && k == #[trigger] f(j);
            if j < i - 1 {
                assert(image_range(f, 0, i - 1).contains(k));
            }
        }
        assert forall|k: KeyV|
            #[trigger] marks_fields(m0, reg, fields, i, key).contains(k) implies image_range(
            f,
            0,
            i,
        ).contains(k) by {
            if marks_node(m0, reg, fields[i - 1].value, ck).contains(k) {
                assert(k == f(i - 1));
            } else {
                assert(marks_fields(m0, reg, fields, i - 1, key).contains(k));
                let j = choose|j: int| 0 <= j < i - 1 && k == #[trigger] f(j);
            }
        }
        assert(marks_fields(m0, reg, fields, i, key) =~= image_range(f, 0, i));
    } else {
        assert(marks_fields(m0, reg, fields, i, key) =~= image_range(f, 0, i));
    }
}

spec fn vals_top(
    m0: Map<KeyV, EntryV>,
    reg: Map<u64, WidgetCtor>,
    vs: Seq<ValueV>,
    key: KeyV,
) -> spec_fn(int) -> KeyV {
    |j: int| marks_top(m0, reg, vs[j], child_key(key, StepV::Index(j)))
}

proof fn lemma_marks_tuple_fresh(
    m0: Map<KeyV, EntryV>,
    reg: Map<u64, WidgetCtor>,
    fields: Seq<ValueV>,
    i: int,
    key: KeyV,
)
    requires
        !key.leaf,
        0 <= i <= fields.len(),
        forall|step: StepV| !expanded_in(m0, #[trigger] child_key(key, step)),
    ensures
        marks_tuple(m0, reg, fields, i, key) == image_range(
            vals_top(m0, reg, fields, key),
            0,
            i,
        ),
    decreases i,
{
    let f = vals_top(m0, reg, fields, key);
    if 0 < i {
        lemma_marks_tuple_fresh(m0, reg, fields, i - 1, key);
        let ck = child_key(key, StepV::Index(i - 1));
        lemma_marks_node_unexpanded(m0, reg, fields[i - 1], ck);
        assert(f(i - 1) == marks_top(m0, reg, fields[i - 1], ck));
        assert forall|k: KeyV| #[trigger] image_range(f, 0, i).contains(k) implies marks_tuple(
            m0,
            reg,
            fields,
            i,
            key,
        ).contains(k) by {
            let j = choose|j: int| 0 <= j < i && k == #[trigger] f(j);
            if j < i - 1 {
                assert(image_range(f, 0, i - 1).contains(k));
            }
        }
        assert forall|k: KeyV|
            #[trigger] marks_tuple(m0, reg, fields, i, key).contains(k) implies image_range(
            f,
            0,
            i,
        ).contains(k) by {
            if marks_node(m0, reg, fields[i - 1], ck).contains(k) {
                assert(k == f(i - 1));
            } else {
                assert(marks_tuple(m0, reg, fields, i - 1, key).contains(k));
                let j = choose|j: int| 0 <= j < i - 1 && k == #[trigger] f(j);
            }
        }
        assert(marks_tuple(m0, reg, fields, i, key) =~= image_range(f, 0, i));
    } else {
        assert(marks_tuple(m0, reg, fields, i, key) =~= image_range(f, 0, i));
    }
}

proof fn lemma_marks_list_fresh(
    m0: Map<KeyV, EntryV>,
    reg: Map<u64, WidgetCtor>,
    items: Seq<ValueV>,
    i: int,
    key: KeyV,
)
    requires
        !key.leaf,
        0 <= i <= items.len(),
        forall|step: StepV| !expanded_in(m0, #[trigger] child_key(key, step)),
    ensures
        marks_list(m0, reg, items, i, key) == image_range(vals_top(m0, reg, items, key), 0, i),
    decreases i,
{
    let f = vals_top(m0, reg, items, key);
    if 0 < i {
        lemma_marks_list_fresh(m0, reg, items, i - 1, key);
        let ck = child_key(key, StepV::Index(i - 1));
        lemma_marks_node_unexpanded(m0, reg, items[i - 1], ck);
        assert(f(i - 1) == marks_top(m0, reg, items[i - 1], ck));
        assert forall|k: KeyV| #[trigger] image_range(f, 0, i).contains(k) implies marks_list(
            m0,
            reg,
            items,
            i,
            key,
        ).contains(k) by {
            let j = choose|j: int| 0 <= j < i && k == #[trigger] f(j);
            if j < i - 1 {
                assert(image_range(f, 0, i - 1).contains(k));
            }
        }
        assert forall|k: KeyV|
            #[trigger] marks_list(m0, reg, items, i, key).contains(k) implies image_range(
            f,
            0,
            i,
        ).contains(k) by {
            if marks_node(m0, reg, items[i - 1], ck).contains(k) {
                assert(k == f(i - 1));
            } else {
                assert(marks_list(m0, reg, items, i - 1, key).contains(k));
                let j = choose|j: int| 0 <= j < i - 1 && k == #[trigger] f(j);
            }
        }
        assert(marks_list(m0, reg, items, i, key) =~= image_range(f, 0, i));
    } else {
        assert(marks_list(m0, reg, items, i, key) =~= image_range(f, 0, i));
    }
}

spec fn pairs_top(
    m0: Map<KeyV, EntryV>,
    reg: Map<u64, WidgetCtor>,
    pairs: Seq<PairV>,
    key: KeyV,
) -> spec_fn(int) -> KeyV {
    |j: int|
        marks_top(
            m0,
            reg,
            pairs[j].value,
            child_key(key, StepV::MapKey(crate::text::leaf_text(pairs[j].key))),
        )
}

proof fn lemma_marks_pairs_fresh(
    m0: Map<KeyV, EntryV>,
    reg: Map<u64, WidgetCtor>,
    pairs: Seq<PairV>,
    i: int,
    key: KeyV,
)
    requires
        !key.leaf,
        0 <= i <= pairs.len(),
        forall|step: StepV| !expanded_in(m0, #[trigger] child_key(key, step)),
    ensures
        marks_pairs(m0, reg, pairs, i, key) == image_range(
            pairs_top(m0, reg, pairs, key),
            0,
            i,
        ),
    decreases i,
{
    let f = pairs_top(m0, reg, pairs, key);
    if 0 < i {
        lemma_marks_pairs_fresh(m0, reg, pairs, i - 1, key);
        let ck = child_key(key, StepV::MapKey(crate::text::leaf_text(pairs[i - 1].key)));
        lemma_marks_node_unexpanded(m0, reg, pairs[i - 1].value, ck);
        assert(f(i - 1) == marks_top(m0, reg, pairs[i - 1].value, ck));
        assert forall|k: KeyV| #[trigger] image_range(f, 0, i).contains(k) implies marks_pairs(
            m0,
            reg,
            pairs,
            i,
            key,
        ).contains(k) by {
            let j = choose|j: int| 0 <= j < i && k == #[trigger] f(j);
            if j < i - 1 {
                assert(image_range(f, 0, i - 1).contains(k));
            }
        }
        assert forall|k: KeyV|
            #[trigger] marks_pairs(m0, reg, pairs, i, key).contains(k) implies image_range(
            f,
            0,
            i,
        ).contains(k) by {
            if marks_node(m0, reg, pairs[i - 1].value, ck).contains(k) {
                assert(k == f(i - 1));
            } else {
                assert(marks_pairs(m0, reg, pairs, i - 1, key).contains(k));
                let j = choose|j: int| 0 <= j < i - 1 && k == #[trigger] f(j);
            }
        }
        assert(marks_pairs(m0, reg, pairs, i, key) =~= image_range(f, 0, i));
    } else {
        assert(marks_pairs(m0, reg, pairs, i, key) =~= image_range(f, 0, i));
    }
}

spec fn variants_top(
    m0: Map<KeyV, EntryV>,
    reg: Map<u64, WidgetCtor>,
    payload: ValueV,
    active: int,
    key: KeyV,
) -> spec_fn(int) -> KeyV {
    |j: int|
        if j == active {
            marks_top(m0, reg, payload, child_key(key, StepV::Variant(j)))
        } else {
            child_key(key, StepV::Variant(j))
        }
}

proof fn lemma_marks_variants_fresh(
    m0: Map<KeyV, EntryV>,
    reg: Map<u64, WidgetCtor>,
    variants: Seq<Seq<char>>,
    payload: ValueV,
    active: int,
    i: int,
    key: KeyV,
)
    requires
        !key.leaf,
        0 <= i,
        forall|step: StepV| !expanded_in(m0, #[trigger] child_key(key, step)),
    ensures
        marks_variants(m0, reg, variants, payload, active, i, key) == image_range(
            variants_top(m0, reg, payload, active, key),
            0,
            i,
        ),
    decreases i,
{
    let f = variants_top(m0, reg, payload, active, key);
    if 0 < i {
        lemma_marks_variants_fresh(m0, reg, variants, payload, active, i - 1, key);
        let ck = child_key(key, StepV::Variant(i - 1));
        if i - 1 == active {
            lemma_marks_node_unexpanded(m0, reg, payload, ck);
        }
        assert forall|k: KeyV| #[trigger] image_range(f, 0, i).contains(k) implies marks_variants(
            m0,
            reg,
            variants,
            payload,
            active,
            i,
            key,
        ).contains(k) by {
            let j = choose|j: int| 0 <= j < i && k == #[trigger] f(j);
            if j < i - 1 {
                assert(image_range(f, 0, i - 1).contains(k));
            }
        }
        assert forall|k: KeyV|
            #[trigger] marks_variants(m0, reg, variants, payload, active, i, key).contains(
            k,
        ) implies image_range(f, 0, i).contains(k) by {
            if i - 1 == active {
                if marks_node(m0, reg, payload, ck).contains(k) {
                    assert(k == f(i - 1));
                } else {
                    assert(marks_variants(m0, reg, variants, payload, active, i - 1, key).contains(
                        k,
                    ));
                    let j = choose|j: int| 0 <= j < i - 1 && k == #[trigger] f(j);
                }
            } else {
                if k == ck {
                    assert(k == f(i - 1));
                } else {
                    assert(marks_variants(m0, reg, variants, payload, active, i - 1, key).contains(
                        k,
                    ));
                    let j = choose|j: int| 0 <= j < i - 1 && k == #[trigger] f(j);
                }
            }
        }
        assert(marks_variants(m0, reg, variants, payload, active, i, key) =~= image_range(
            f,
            0,
            i,
        ));
    } else {
        assert(marks_variants(m0, reg, variants, payload, active, i, key) =~= image_range(
            f,
            0,
            i,
        ));
    }
}

/// LAZY EXPANSION, the count. Visiting the children of a node none of
/// whose children is itself expanded — a node the user just expanded —
/// marks exactly one key per immediate child, provided the children have
/// distinct identities: exactly the children visible at that tick are
/// created, one entry each, and no grandchild entry. Together with the
/// alive-set equation (`lemma_marks_dispatch`) this pins the expansion
/// tick's entry-table growth.
pub proof fn lemma_fresh_expansion_count(
    m0: Map<KeyV, EntryV>,
    reg: Map<u64, WidgetCtor>,
    v: ValueV,
    key: KeyV,
)
    requires
        !key.leaf,
        forall|step: StepV| !expanded_in(m0, #[trigger] child_key(key, step)),
        distinct_children(v),
    ensures
        marks_dispatch(m0, reg, v, key).finite(),
        marks_dispatch(m0, reg, v, key).len() == child_count(v),
{
    match v.shape {
        ShapeV::Struct { fields } => {
            let f = fields_top(m0, reg, fields, key);
            lemma_marks_fields_fresh(m0, reg, fields, fields.len() as int, key);
            assert forall|a: int, b: int|
                0 <= a < b < fields.len() implies #[trigger] f(a) != #[trigger] f(b) by {
                assert(f(a).path == key.path.push(StepV::Field(fields[a].name)));
                assert(f(b).path == key.path.push(StepV::Field(fields[b].name)));
                assert(key.path.push(StepV::Field(fields[a].name)).last() == StepV::Field(
                    fields[a].name,
                ));
                assert(key.path.push(StepV::Field(fields[b].name)).last() == StepV::Field(
                    fields[b].name,
                ));
            }
            lemma_image_range_len(f, 0, fields.len() as int);
        },
        ShapeV::Tuple { fields } => {
            let f = vals_top(m0, reg, fields, key);
            lemma_marks_tuple_fresh(m0, reg, fields, fields.len() as int, key);
            assert forall|a: int, b: int|
                0 <= a < b < fields.len() implies #[trigger] f(a) != #[trigger] f(b) by {
                assert(f(a).path == key.path.push(StepV::Index(a)));
                assert(f(b).path == key.path.push(StepV::Index(b)));
                assert(key.path.push(StepV::Index(a)).last() == StepV::Index(a));
                assert(key.path.push(StepV::Index(b)).last() == StepV::Index(b));
            }
            lemma_image_range_len(f, 0, fields.len() as int);
        },
        ShapeV::List { items } => {
            let f = vals_top(m0, reg, items, key);
            lemma_marks_list_fresh(m0, reg, items, items.len() as int, key);
            assert forall|a: int, b: int|
                0 <= a < b < items.len() implies #[trigger] f(a) != #[trigger] f(b) by {
                assert(f(a).path == key.path.push(StepV::Index(a)));
                assert(f(b).path == key.path.push(StepV::Index(b)));
                assert(key.path.push(StepV::Index(a)).last() == StepV::Index(a));
                assert(key.path.push(StepV::Index(b)).last() == StepV::Index(b));
            }
            lemma_image_range_len(f, 0, items.len() as int);
        },
        ShapeV::Dict { pairs } => {
            let f = pairs_top(m0, reg, pairs, key);
            lemma_marks_pairs_fresh(m0, reg, pairs, pairs.len() as int, key);
            assert forall|a: int, b: int|
                0 <= a < b < pairs.len() implies #[trigger] f(a) != #[trigger] f(b) by {
                let sa = StepV::MapKey(crate::text::leaf_text(pairs[a].key));
                let sb = StepV::MapKey(crate::text::leaf_text(pairs[b].key));
                assert(f(a).path == key.path.push(sa));
                assert(f(b).path == key.path.push(sb));
                assert(key.path.push(sa).last() == sa);
                assert(key.path.push(sb).last() == sb);
            }
            lemma_image_range_len(f, 0, pairs.len() as int);
        },
        ShapeV::Enum { variants, active, payload } => {
            let f = variants_top(m0, reg, *payload, active, key);
            lemma_marks_variants_fresh(
                m0,
                reg,
                variants,
                *payload,
                active,
                variants.len() as int,
                key,
            );
            assert forall|a: int, b: int|
                0 <= a < b < variants.len() implies #[trigger] f(a) != #[trigger] f(b) by {
                assert(f(a).path == key.path.push(StepV::Variant(a)));
                assert(f(b).path == key.path.push(StepV::Variant(b)));
                assert(key.path.push(StepV::Variant(a)).last() == StepV::Variant(a));
                assert(key.path.push(StepV::Variant(b)).last() == StepV::Variant(b));
            }
            lemma_image_range_len(f, 0, variants.len() as int);
        },
        ShapeV::Leaf { value } => {
            let single = set![leaf_key(key)];
            assert(marks_dispatch(m0, reg, v, key) =~= Set::empty().insert(leaf_key(key)));
            vstd::set::axiom_set_insert_finite(Set::<KeyV>::empty(), leaf_key(key));
            vstd::set::axiom_set_insert_len(Set::<KeyV>::empty(), leaf_key(key));
        },
    }
}

/// IDENTITY STABILITY, across ticks. If the host re-supplies the same
/// root values on the next tick and no interaction arrives in between,
/// the second pass destroys nothing: the table keeps exactly the same
/// keys, each with the same widget handle and the same children
/// container. No widget is ever spuriously destroyed and recreated.
pub proof fn lemma_two_tick_stability(st: StateV, roots: Seq<RootV>)
    requires
        state_inv(st),
        st.next_widget + 2 * wsum_roots(roots, roots.len() as int) <= u64::MAX,
    ensures
        ({
            let st2 = reconcile_m(st, roots).st;
            let out2 = reconcile_m(st2, roots);
            &&& out2.destroyed == Set::<u64>::empty()
            &&& out2.st.entries.dom() == st2.entries.dom()
            &&& forall|k: KeyV|
                #[trigger] st2.entries.contains_key(k) ==> out2.st.entries.contains_key(k)
                    && out2.st.entries[k].widget == st2.entries[k].widget && node_container(
                    out2.st.entries[k],
                ) == node_container(st2.entries[k])
        }),
{
    let n = roots.len() as int;
    let reg = st.registry;
    lemma_wsum_roots_mono(roots, 0, n);

    // First pass.
    let st_a = StateV { entries: reset_m(st.entries), ..st };
    assert(state_inv(st_a));
    lemma_marks_roots(st_a.entries, st_a, roots, n);
    lemma_roots_keep(st_a, roots, n);
    lemma_roots_frame(st_a, roots, n);
    let vis1 = visit_roots_m(st_a, roots, n);
    let marked = marks_roots(st_a.entries, reg, roots, n);
    assert(crate::table::alive_set(st_a.entries) =~= Set::<KeyV>::empty());
    assert(crate::table::alive_set(vis1.st.entries) =~= marked);
    let st2 = reconcile_m(st, roots).st;
    assert(st2.entries.dom() =~= marked);
    assert(st2.registry == reg);

    // Second pass.
    lemma_reconcile_inv(st, roots);
    let st_b = StateV { entries: reset_m(st2.entries), ..st2 };
    assert(state_inv(st_b));
    assert(st_b.next_widget + wsum_roots(roots, n) <= u64::MAX);
    lemma_marks_roots(st_b.entries, st_b, roots, n);
    lemma_roots_keep(st_b, roots, n);
    let vis2 = visit_roots_m(st_b, roots, n);

    // The second pass walks the same keys: expansion agrees wherever the
    // first pass looked.
    assert forall|k: KeyV| #[trigger] marked.contains(k) implies expanded_in(st_a.entries, k)
        == expanded_in(st_b.entries, k) by {
        assert(crate::table::alive_set(vis1.st.entries).contains(k));
        assert(vis1.st.entries.contains_key(k));
        assert(expanded_in(st_a.entries, k) == expanded_in(vis1.st.entries, k));
        assert(st2.entries.contains_key(k));
        assert(node_container(st2.entries[k]) == node_container(vis1.st.entries[k]));
        assert(st_b.entries.contains_key(k));
        assert(node_container(st_b.entries[k]) == node_container(st2.entries[k]));
    }
    lemma_marks_roots_congruent(st_a.entries, st_b.entries, reg, roots, n);
    assert(crate::table::alive_set(st_b.entries) =~= Set::<KeyV>::empty());
    assert(crate::table::alive_set(vis2.st.entries) =~= marked);

    // Everything in the table after the second visit phase is alive, so
    // the sweep removes nothing and destroys nothing.
    assert forall|k: KeyV| #[trigger] vis2.st.entries.contains_key(k) implies vis2.st.entries[k].alive by {
        if st_b.entries.contains_key(k) {
            assert(marked.contains(k));
            assert(crate::table::alive_set(vis2.st.entries).contains(k));
        }
    }
    let out2 = reconcile_m(st2, roots);
    assert forall|w: u64| !(#[trigger] out2.destroyed.contains(w)) by {
        if out2.destroyed.contains(w) {
            let k = choose|k: KeyV|
                dead_root(vis2.st.entries, k) && vis2.st.entries[k].widget == w;
        }
    }
    assert(out2.destroyed =~= Set::<u64>::empty());
    assert(out2.st.entries.dom() =~= st2.entries.dom());
    assert forall|k: KeyV| #[trigger] st2.entries.contains_key(k) implies out2.st.entries.contains_key(
        k,
    ) && out2.st.entries[k].widget == st2.entries[k].widget && node_container(out2.st.entries[k])
        == node_container(st2.entries[k]) by {
        assert(st_b.entries.contains_key(k));
        assert(st_b.entries[k].widget == st2.entries[k].widget);
        assert(vis2.st.entries.contains_key(k));
        assert(vis2.st.entries[k].widget == st_b.entries[k].widget);
        assert(marked.contains(k));
        assert(crate::table::alive_set(vis2.st.entries).contains(k));
    }
}

/// LAZY EXPANSION. Visiting a branch value whose node entry has no
/// children container (a collapsed node; not a leaf position, which has
/// no children and is its own widget) adds no entry at all: in
/// particular, the children's identity keys never appear in the entry
/// table until the node is expanded.
pub proof fn lemma_lazy_expansion(
    st: StateV,
    v: ValueV,
    key: KeyV,
    label: Seq<char>,
    container: Option<u64>,
)
    requires
        !key.leaf,
        st.entries.contains_key(key),
        node_container(st.entries[key]) is None,
        v.short_name is Some,
        !(st.registry.contains_key(v.type_tag) && leaf_repr(v) is Some),
        !(v.shape matches ShapeV::Leaf { .. }),
    ensures
        visit_node_m(st, v, key, label, container).st.entries.dom() == st.entries.dom(),
{
    let out = visit_node_m(st, v, key, label, container);
    assert(out.st.entries.dom() =~= st.entries.dom());
}

} // verus!
