//! The persistent entry table: one record per live identity key, holding the
//! created widget handle and per-kind state (a node's children container, a
//! leaf's cached value and edit bookkeeping), together with the per-tick
//! liveness flag and the specialized-widget registry.

use vstd::prelude::*;

use crate::keys::Key;
use crate::keys::KeyV;
use crate::keys::clone_prefix;
use crate::values::LeafV;
use crate::values::LeafValue;

verus! {

/// Which widget constructor a leaf position uses.
#[derive(Debug, Clone, Copy, PartialEq, Eq, Structural)]
pub enum WidgetCtor {
    /// The generic text-box editor (the fallback for every leaf).
    TextBox,
    /// The toggle widget for booleans.
    Toggle,
}

/// Kind-specific state of an entry.
#[derive(Debug)]
pub enum EntryInner {
    /// An expandable row. `container` is the children container widget,
    /// present exactly while the user keeps the node expanded.
    Node { container: Option<u64> },
    /// An editable leaf. `cached` is the last value observed in the source
    /// field; `field_mutated` says the widget display is stale against it;
    /// `pending` is a widget-originated value awaiting write-back.
    Leaf { cached: LeafValue, field_mutated: bool, pending: Option<LeafValue> },
}

/// Bookkeeping for one identity key.
#[derive(Debug)]
pub struct Entry {
    pub widget: u64,
    pub alive: bool,
    pub inner: EntryInner,
}

/// Mathematical model of `EntryInner`.
pub enum InnerV {
    Node { container: Option<u64> },
    Leaf { cached: LeafV, field_mutated: bool, pending: Option<LeafV> },
}

/// Mathematical model of an `Entry`.
#[verifier::ext_equal]
pub struct EntryV {
    pub widget: u64,
    pub alive: bool,
    pub inner: InnerV,
}

impl View for EntryInner {
    type V = InnerV;

    open spec fn view(&self) -> InnerV {
        match self {
            EntryInner::Node { container } => InnerV::Node { container: *container },
            EntryInner::Leaf { cached, field_mutated, pending } => InnerV::Leaf {
                cached: cached@,
                field_mutated: *field_mutated,
                pending: match pending {
                    Some(p) => Some(p@),
                    None => None,
                },
            },
        }
    }
}

impl View for Entry {
    type V = EntryV;

    open spec fn view(&self) -> EntryV {
        EntryV { widget: self.widget, alive: self.alive, inner: self.inner@ }
    }
}

struct EntrySlot {
    key: Key,
    entry: Entry,
}

/// The reconciler's persistent state: the entry table, the registry of
/// specialized widget constructors by type tag, and the widget handle
/// allocator.
pub struct State {
    entries: Vec<EntrySlot>,
    registry: Vec<(u64, WidgetCtor)>,
    next_widget: u64,
}

/// Mathematical model of the whole `State`.
#[verifier::ext_equal]
pub struct StateV {
    pub entries: Map<KeyV, EntryV>,
    pub registry: Map<u64, WidgetCtor>,
    pub next_widget: u64,
}

spec fn slots_map(s: Seq<EntrySlot>) -> Map<KeyV, EntryV>
    decreases s,
{
    if s.len() == 0 {
        Map::empty()
    } else {
        slots_map(s.drop_last()).insert(s.last().key@, s.last().entry@)
    }
}

spec fn regs_map(s: Seq<(u64, WidgetCtor)>) -> Map<u64, WidgetCtor>
    decreases s,
{
    if s.len() == 0 {
        Map::empty()
    } else {
        regs_map(s.drop_last()).insert(s.last().0, s.last().1)
    }
}

spec fn slots_distinct(s: Seq<EntrySlot>) -> bool {
    forall|i: int, j: int| 0 <= i < j < s.len() ==> s[i].key@ != s[j].key@
}

spec fn regs_distinct(s: Seq<(u64, WidgetCtor)>) -> bool {
    forall|i: int, j: int| 0 <= i < j < s.len() ==> s[i].0 != s[j].0
}

/// Invariants of the model state that every operation preserves: widget
/// handles are unique, below the allocator mark, and each entry's kind
/// agrees with its key's kind.
pub open spec fn state_inv(st: StateV) -> bool {
    &&& forall|k1: KeyV, k2: KeyV|
        st.entries.contains_key(k1) && st.entries.contains_key(k2) && k1 != k2
            ==> #[trigger] st.entries[k1].widget != #[trigger] st.entries[k2].widget
    &&& forall|k: KeyV|
        st.entries.contains_key(k) ==> #[trigger] st.entries[k].widget < st.next_widget
    &&& forall|k: KeyV|
        st.entries.contains_key(k) ==> ((#[trigger] st.entries[k].inner matches InnerV::Leaf {
            ..
        }) <==> k.leaf)
}

impl View for State {
    type V = StateV;

    closed spec fn view(&self) -> StateV {
        StateV {
            entries: slots_map(self.entries@),
            registry: regs_map(self.registry@),
            next_widget: self.next_widget,
        }
    }
}

proof fn lemma_slots_map_index(s: Seq<EntrySlot>, i: int)
    requires
        slots_distinct(s),
        0 <= i < s.len(),
    ensures
        slots_map(s).contains_key(s[i].key@),
        slots_map(s)[s[i].key@] == s[i].entry@,
    decreases s,
{
    if i < s.len() - 1 {
        lemma_slots_map_index(s.drop_last(), i);
    }
}

proof fn lemma_slots_map_absent(s: Seq<EntrySlot>, k: KeyV)
    requires
        forall|i: int| 0 <= i < s.len() ==> s[i].key@ != k,
    ensures
        !slots_map(s).contains_key(k),
    decreases s,
{
    if s.len() > 0 {
        lemma_slots_map_absent(s.drop_last(), k);
    }
}

proof fn lemma_slots_map_dom(s: Seq<EntrySlot>)
    ensures
        forall|k: KeyV|
            #[trigger] slots_map(s).contains_key(k) ==> exists|i: int|
                0 <= i < s.len() && s[i].key@ == k,
    decreases s,
{
    if s.len() > 0 {
        lemma_slots_map_dom(s.drop_last());
        assert forall|k: KeyV| #[trigger] slots_map(s).contains_key(k) implies exists|i: int|
            0 <= i < s.len() && s[i].key@ == k by {
            if k == s.last().key@ {
                assert(s[s.len() - 1].key@ == k);
            } else {
                assert(slots_map(s.drop_last()).contains_key(k));
                let i = choose|i: int| 0 <= i < s.drop_last().len() && s.drop_last()[i].key@ == k;
                assert(s[i].key@ == k);
            }
        }
    }
}

proof fn lemma_slots_map_update(s: Seq<EntrySlot>, i: int, slot: EntrySlot)
    requires
        slots_distinct(s),
        0 <= i < s.len(),
        slot.key@ == s[i].key@,
    ensures
        slots_map(s.update(i, slot)) == slots_map(s).insert(slot.key@, slot.entry@),
        slots_distinct(s.update(i, slot)),
    decreases s,
{
    let s2 = s.update(i, slot);
    if i == s.len() - 1 {
        assert(s2.drop_last() =~= s.drop_last());
        assert(s2.last() == slot);
        assert(slots_map(s2) =~= slots_map(s).insert(slot.key@, slot.entry@));
    } else {
        lemma_slots_map_update(s.drop_last(), i, slot);
        assert(s2.drop_last() =~= s.drop_last().update(i, slot));
        assert(s2.last() == s.last());
        assert(slots_map(s2) == slots_map(s.drop_last()).insert(slot.key@, slot.entry@).insert(
            s.last().key@,
            s.last().entry@,
        ));
        assert(slot.key@ != s.last().key@);
        assert(slots_map(s.drop_last()).insert(slot.key@, slot.entry@).insert(
            s.last().key@,
            s.last().entry@,
        ) =~= slots_map(s).insert(slot.key@, slot.entry@));
    }
}

proof fn lemma_slots_map_push(s: Seq<EntrySlot>, slot: EntrySlot)
    ensures
        slots_map(s.push(slot)) == slots_map(s).insert(slot.key@, slot.entry@),
{
    assert(s.push(slot).drop_last() =~= s);
    assert(s.push(slot).last() == slot);
}

proof fn lemma_slots_map_remove(s: Seq<EntrySlot>, i: int)
    requires
        slots_distinct(s),
        0 <= i < s.len(),
    ensures
        slots_map(s.remove(i)) == slots_map(s).remove(s[i].key@),
        slots_distinct(s.remove(i)),
    decreases s,
{
    let k = s[i].key@;
    let s2 = s.remove(i);
    if i == s.len() - 1 {
        assert(s2 =~= s.drop_last());
        assert forall|j: int| 0 <= j < s.drop_last().len() implies s.drop_last()[j].key@ != k by {}
        lemma_slots_map_absent(s.drop_last(), k);
        assert(slots_map(s.drop_last()).insert(k, s.last().entry@).remove(k) =~= slots_map(
            s.drop_last(),
        ));
    } else {
        lemma_slots_map_remove(s.drop_last(), i);
        assert(s2.drop_last() =~= s.drop_last().remove(i));
        assert(s2.last() == s.last());
        assert(k != s.last().key@);
        assert(slots_map(s.drop_last()).remove(k).insert(s.last().key@, s.last().entry@)
            =~= slots_map(s).remove(k));
    }
}

proof fn lemma_slots_map_len(s: Seq<EntrySlot>)
    requires
        slots_distinct(s),
    ensures
        slots_map(s).dom().finite(),
        slots_map(s).dom().len() == s.len(),
    decreases s,
{
    if s.len() > 0 {
        lemma_slots_map_len(s.drop_last());
        assert forall|j: int| 0 <= j < s.drop_last().len() implies s.drop_last()[j].key@
            != s.last().key@ by {}
        lemma_slots_map_absent(s.drop_last(), s.last().key@);
        vstd::set::axiom_set_insert_finite(slots_map(s.drop_last()).dom(), s.last().key@);
        vstd::set::axiom_set_insert_len(slots_map(s.drop_last()).dom(), s.last().key@);
        assert(slots_map(s).dom() =~= slots_map(s.drop_last()).dom().insert(s.last().key@));
    }
}

proof fn lemma_regs_map_index(s: Seq<(u64, WidgetCtor)>, i: int)
    requires
        regs_distinct(s),
        0 <= i < s.len(),
    ensures
        regs_map(s).contains_key(s[i].0),
        regs_map(s)[s[i].0] == s[i].1,
    decreases s,
{
    if i < s.len() - 1 {
        lemma_regs_map_index(s.drop_last(), i);
    }
}

proof fn lemma_regs_map_absent(s: Seq<(u64, WidgetCtor)>, t: u64)
    requires
        forall|i: int| 0 <= i < s.len() ==> s[i].0 != t,
    ensures
        !regs_map(s).contains_key(t),
    decreases s,
{
    if s.len() > 0 {
        lemma_regs_map_absent(s.drop_last(), t);
    }
}

proof fn lemma_regs_map_update(s: Seq<(u64, WidgetCtor)>, i: int, p: (u64, WidgetCtor))
    requires
        regs_distinct(s),
        0 <= i < s.len(),
        p.0 == s[i].0,
    ensures
        regs_map(s.update(i, p)) == regs_map(s).insert(p.0, p.1),
        regs_distinct(s.update(i, p)),
    decreases s,
{
    let s2 = s.update(i, p);
    if i == s.len() - 1 {
        assert(s2.drop_last() =~= s.drop_last());
        assert(s2.last() == p);
        assert(slots_distinct(Seq::<EntrySlot>::empty()));
        assert(regs_map(s2) =~= regs_map(s).insert(p.0, p.1));
    } else {
        lemma_regs_map_update(s.drop_last(), i, p);
        assert(s2.drop_last() =~= s.drop_last().update(i, p));
        assert(s2.last() == s.last());
        assert(p.0 != s.last().0);
        assert(regs_map(s.drop_last()).insert(p.0, p.1).insert(s.last().0, s.last().1)
            =~= regs_map(s).insert(p.0, p.1));
    }
}

proof fn lemma_regs_map_push(s: Seq<(u64, WidgetCtor)>, p: (u64, WidgetCtor))
    ensures
        regs_map(s.push(p)) == regs_map(s).insert(p.0, p.1),
{
    assert(s.push(p).drop_last() =~= s);
    assert(s.push(p).last() == p);
}

impl State {
    /// Holds of every `State` the library hands out; operations keep it.
    pub closed spec fn wf(&self) -> bool {
        &&& slots_distinct(self.entries@)
        &&& regs_distinct(self.registry@)
        &&& state_inv(self@)
    }

    /// A fresh state with no entries. The toggle widget is registered for
    /// `bool_tag`, the host's type tag for `bool`; everything else falls
    /// back to the text editor.
    pub fn new(bool_tag: u64) -> (r: State)
        ensures
            r.wf(),
            r@.entries == Map::<KeyV, EntryV>::empty(),
            r@.registry == Map::<u64, WidgetCtor>::empty().insert(bool_tag, WidgetCtor::Toggle),
            r@.next_widget == 0,
    {
        let mut registry: Vec<(u64, WidgetCtor)> = Vec::new();
        registry.push((bool_tag, WidgetCtor::Toggle));
        let r = State { entries: Vec::new(), registry, next_widget: 0 };
        proof {
            reveal_with_fuel(regs_map, 3);
            assert(r.registry@.drop_last() =~= Seq::<(u64, WidgetCtor)>::empty());
            assert(r@.registry =~= Map::<u64, WidgetCtor>::empty().insert(
                bool_tag,
                WidgetCtor::Toggle,
            ));
        }
        r
    }

    fn find(&self, key: &Key) -> (r: Option<usize>)
        ensures
            match r {
                Some(i) => i < self.entries@.len() && self.entries@[i as int].key@ == key@,
                None => forall|i: int| 0 <= i < self.entries@.len() ==> self.entries@[i].key@ != key@,
            },
    {
        let mut i: usize = 0;
        while i < self.entries.len()
            invariant
                i <= self.entries@.len(),
                forall|j: int| 0 <= j < i ==> self.entries@[j].key@ != key@,
            decreases self.entries@.len() - i,
        {
            if self.entries[i].key.key_eq(key) {
                return Some(i);
            }
            i = i + 1;
        }
        None
    }

    /// Whether an entry exists for this key.
    pub fn has_entry(&self, key: &Key) -> (r: bool)
        requires
            self.wf(),
        ensures
            r == self@.entries.contains_key(key@),
    {
        let r = self.find(key);
        proof {
            match r {
                Some(i) => lemma_slots_map_index(self.entries@, i as int),
                None => lemma_slots_map_absent(self.entries@, key@),
            }
        }
        r.is_some()
    }

    /// The widget handle of the entry at this key, if there is one.
    pub fn widget_of(&self, key: &Key) -> (r: Option<u64>)
        requires
            self.wf(),
        ensures
            match r {
                Some(w) => self@.entries.contains_key(key@) && self@.entries[key@].widget == w,
                None => !self@.entries.contains_key(key@),
            },
    {
        match self.find(key) {
            Some(i) => {
                proof {
                    lemma_slots_map_index(self.entries@, i as int);
                }
                Some(self.entries[i].entry.widget)
            },
            None => {
                proof {
                    lemma_slots_map_absent(self.entries@, key@);
                }
                None
            },
        }
    }

    /// The constructor registered for this type tag, if any.
    pub fn lookup(&self, tag: u64) -> (r: Option<WidgetCtor>)
        requires
            self.wf(),
        ensures
            match r {
                Some(c) => self@.registry.contains_key(tag) && self@.registry[tag] == c,
                None => !self@.registry.contains_key(tag),
            },
    {
        let mut i: usize = 0;
        while i < self.registry.len()
            invariant
                i <= self.registry@.len(),
                forall|j: int| 0 <= j < i ==> self.registry@[j].0 != tag,
                self.wf(),
            decreases self.registry@.len() - i,
        {
            if self.registry[i].0 == tag {
                proof {
                    lemma_regs_map_index(self.registry@, i as int);
                }
                return Some(self.registry[i].1);
            }
            i = i + 1;
        }
        proof {
            lemma_regs_map_absent(self.registry@, tag);
        }
        None
    }

    /// Registers (or replaces) the specialized constructor for a type tag.
    pub fn register(&mut self, tag: u64, ctor: WidgetCtor)
        requires
            old(self).wf(),
        ensures
            final(self).wf(),
            final(self)@ == (StateV {
                registry: old(self)@.registry.insert(tag, ctor),
                ..old(self)@
            }),
    {
        let ghost regs0 = self.registry@;
        let mut i: usize = 0;
        while i < self.registry.len()
            invariant
                i <= self.registry@.len(),
                forall|j: int| 0 <= j < i ==> self.registry@[j].0 != tag,
                self.registry@ == regs0,
                *self == *old(self),
                old(self).wf(),
            decreases self.registry@.len() - i,
        {
            if self.registry[i].0 == tag {
                proof {
                    lemma_regs_map_update(self.registry@, i as int, (tag, ctor));
                }
                self.registry[i] = (tag, ctor);
                proof {
                    assert(self@ =~= StateV {
                        registry: old(self)@.registry.insert(tag, ctor),
                        ..old(self)@
                    });
                }
                return ;
            }
            i = i + 1;
        }
        proof {
            lemma_regs_map_push(self.registry@, (tag, ctor));
        }
        self.registry.push((tag, ctor));
        proof {
            assert(self@ =~= StateV { registry: old(self)@.registry.insert(tag, ctor), ..old(
                self,
            )@ });
        }
    }
}

impl Clone for EntryInner {
    fn clone(&self) -> (r: Self)
        ensures
            r@ == self@,
    {
        match self {
            EntryInner::Node { container } => EntryInner::Node { container: *container },
            EntryInner::Leaf { cached, field_mutated, pending } => EntryInner::Leaf {
                cached: cached.clone(),
                field_mutated: *field_mutated,
                pending: match pending {
                    Some(p) => Some(p.clone()),
                    None => None,
                },
            },
        }
    }
}

impl Clone for Entry {
    fn clone(&self) -> (r: Self)
        ensures
            r@ == self@,
    {
        Entry { widget: self.widget, alive: self.alive, inner: self.inner.clone() }
    }
}

/// What `toggle_expand` did.
#[derive(Debug, Clone, Copy, PartialEq, Eq, Structural)]
pub enum ExpandToggle {
    /// The node was collapsed; a children container with this handle was
    /// created and the host should spawn it under the node's widget.
    Expanded(u64),
    /// The node was expanded; this container should be destroyed together
    /// with everything in it. Its former contents are swept on the next
    /// reconciliation pass.
    Collapsed(u64),
    /// No node entry exists at the key.
    NotANode,
}

/// The cached value's primitive type at a leaf entry of the model state.
pub open spec fn leaf_cached_kind(st: StateV, k: KeyV) -> Option<crate::values::LeafKind> {
    if st.entries.contains_key(k) {
        match st.entries[k].inner {
            InnerV::Leaf { cached, .. } => Some(crate::values::leaf_kind_of(cached)),
            InnerV::Node { .. } => None,
        }
    } else {
        None
    }
}

/// The children container of a node entry, `None` for a collapsed node.
pub open spec fn node_container(e: EntryV) -> Option<u64> {
    match e.inner {
        InnerV::Node { container } => container,
        InnerV::Leaf { .. } => None,
    }
}

/// One leaf visit of the edit protocol, as a function of the old entry and
/// the field's current value: the new entry, the new field value, and
/// whether the source field was written from a pending widget edit.
pub open spec fn leaf_revisit_m(e: EntryV, cur: LeafV) -> (EntryV, LeafV, bool) {
    match e.inner {
        InnerV::Leaf { cached, field_mutated, pending } => match pending {
            Some(p) => (
                EntryV {
                    alive: true,
                    inner: InnerV::Leaf { cached: p, field_mutated, pending: None },
                    ..e
                },
                p,
                true,
            ),
            None => if cur != cached {
                (
                    EntryV {
                        alive: true,
                        inner: InnerV::Leaf { cached: cur, field_mutated: true, pending: None },
                        ..e
                    },
                    cur,
                    false,
                )
            } else {
                (EntryV { alive: true, ..e }, cur, false)
            },
        },
        InnerV::Node { .. } => (e, cur, false),
    }
}

/// Every entry with its liveness flag lowered: the state of the table at
/// the start of a reconciliation pass.
pub open spec fn reset_m(m: Map<KeyV, EntryV>) -> Map<KeyV, EntryV> {
    Map::new(|k: KeyV| m.contains_key(k), |k: KeyV| EntryV { alive: false, ..m[k] })
}

/// The keys whose entries were visited this tick.
pub open spec fn alive_set(m: Map<KeyV, EntryV>) -> Set<KeyV> {
    Set::new(|k: KeyV| m.contains_key(k) && m[k].alive)
}

/// The table after the sweep: only the entries visited this tick remain.
pub open spec fn swept_m(m: Map<KeyV, EntryV>) -> Map<KeyV, EntryV> {
    m.restrict(alive_set(m))
}

/// A node position strictly above `k` in the presentation tree: at the
/// same root, on a prefix of its path (including the node position over
/// a leaf position).
pub open spec fn above(a: KeyV, k: KeyV) -> bool {
    &&& a.slot == k.slot
    &&& !a.leaf
    &&& a != k
    &&& a.path.len() <= k.path.len()
    &&& k.path.subrange(0, a.path.len() as int) == a.path
}

/// A dead entry none of whose ancestors is itself dead: the root of a
/// dead subtree. Destroying its widget subtree takes all its descendants'
/// widgets with it, so the sweep reports exactly these, one per subtree.
pub open spec fn dead_root(m: Map<KeyV, EntryV>, k: KeyV) -> bool {
    &&& m.contains_key(k)
    &&& !m[k].alive
    &&& !(exists|a: KeyV| above(a, k) && #[trigger] m.contains_key(a) && !m[a].alive)
}

/// The widget handles whose subtrees the sweep destroys.
pub open spec fn dead_root_widgets(m: Map<KeyV, EntryV>) -> Set<u64> {
    Set::new(|w: u64| exists|k: KeyV| dead_root(m, k) && m[k].widget == w)
}

/// `toggle_expand` as a function: flips the node's children container,
/// allocating the container handle from the widget allocator on expansion.
pub open spec fn toggle_expand_m(st: StateV, k: KeyV) -> (StateV, ExpandToggle) {
    if st.entries.contains_key(k) && !k.leaf && st.next_widget < u64::MAX {
        match node_container(st.entries[k]) {
            None => (
                StateV {
                    entries: st.entries.insert(
                        k,
                        EntryV {
                            inner: InnerV::Node { container: Some(st.next_widget) },
                            ..st.entries[k]
                        },
                    ),
                    next_widget: (st.next_widget + 1) as u64,
                    ..st
                },
                ExpandToggle::Expanded(st.next_widget),
            ),
            Some(c) => (
                StateV {
                    entries: st.entries.insert(
                        k,
                        EntryV { inner: InnerV::Node { container: None }, ..st.entries[k] },
                    ),
                    ..st
                },
                ExpandToggle::Collapsed(c),
            ),
        }
    } else {
        (st, ExpandToggle::NotANode)
    }
}

/// `record_pending` as a function: stores a widget-originated value on the
/// leaf entry, to be written back on the entry's next visit.
pub open spec fn record_pending_m(st: StateV, k: KeyV, v: LeafV) -> (StateV, bool) {
    if st.entries.contains_key(k) && k.leaf {
        match st.entries[k].inner {
            InnerV::Leaf { cached, field_mutated, pending } => (
                StateV {
                    entries: st.entries.insert(
                        k,
                        EntryV {
                            inner: InnerV::Leaf { cached, field_mutated, pending: Some(v) },
                            ..st.entries[k]
                        },
                    ),
                    ..st
                },
                true,
            ),
            InnerV::Node { .. } => (st, false),
        }
    } else {
        (st, false)
    }
}

/// `request_refresh` as a function: marks the leaf's display stale so the
/// next sync step rewrites it from the cached value.
pub open spec fn request_refresh_m(st: StateV, k: KeyV) -> (StateV, bool) {
    if st.entries.contains_key(k) && k.leaf {
        match st.entries[k].inner {
            InnerV::Leaf { cached, field_mutated, pending } => (
                StateV {
                    entries: st.entries.insert(
                        k,
                        EntryV {
                            inner: InnerV::Leaf { cached, field_mutated: true, pending },
                            ..st.entries[k]
                        },
                    ),
                    ..st
                },
                true,
            ),
            InnerV::Node { .. } => (st, false),
        }
    } else {
        (st, false)
    }
}

/// `take_refresh` as a function: if the leaf's display is stale, hands out
/// the cached value to show and lowers the stale flag.
pub open spec fn take_refresh_m(st: StateV, k: KeyV) -> (StateV, Option<LeafV>) {
    if st.entries.contains_key(k) && k.leaf {
        match st.entries[k].inner {
            InnerV::Leaf { cached, field_mutated, pending } => if field_mutated {
                (
                    StateV {
                        entries: st.entries.insert(
                            k,
                            EntryV {
                                inner: InnerV::Leaf { cached, field_mutated: false, pending },
                                ..st.entries[k]
                            },
                        ),
                        ..st
                    },
                    Some(cached),
                )
            } else {
                (st, None)
            },
            InnerV::Node { .. } => (st, None),
        }
    } else {
        (st, None)
    }
}

/// `State::wf` keeps each entry's kind in step with its key: what `wf`
/// guarantees about a single key, for callers outside this module.
pub proof fn lemma_wf_leaf_kinds(st: State, k: KeyV)
    requires
        st.wf(),
        st@.entries.contains_key(k),
    ensures
        (st@.entries[k].inner matches InnerV::Leaf { .. }) <==> k.leaf,
{
}

impl State {
    /// How many entries the table holds.
    pub fn entry_count(&self) -> (r: usize)
        requires
            self.wf(),
        ensures
            self@.entries.dom().finite(),
            r == self@.entries.dom().len(),
    {
        proof {
            lemma_slots_map_len(self.entries@);
        }
        self.entries.len()
    }

    /// Allocates the widget handle for a new entry.
    fn alloc_widget(&mut self) -> (w: u64)
        requires
            old(self).wf(),
            old(self)@.next_widget < u64::MAX,
        ensures
            final(self).wf(),
            w == old(self)@.next_widget,
            final(self)@ == (StateV { next_widget: (w + 1) as u64, ..old(self)@ }),
    {
        let w = self.next_widget;
        self.next_widget = w + 1;
        proof {
            assert(self@ =~= StateV { next_widget: (w + 1) as u64, ..old(self)@ });
        }
        w
    }

    /// Creates the entry for a node position on its first visit: a fresh
    /// widget handle, marked alive, with no children container yet.
    pub fn create_node(&mut self, key: &Key) -> (w: u64)
        requires
            old(self).wf(),
            !old(self)@.entries.contains_key(key@),
            !key@.leaf,
            old(self)@.next_widget < u64::MAX,
        ensures
            final(self).wf(),
            w == old(self)@.next_widget,
            final(self)@ == (StateV {
                entries: old(self)@.entries.insert(
                    key@,
                    EntryV { widget: w, alive: true, inner: InnerV::Node { container: None } },
                ),
                next_widget: (w + 1) as u64,
                ..old(self)@
            }),
    {
        let w = self.alloc_widget();
        let entry = Entry { widget: w, alive: true, inner: EntryInner::Node { container: None } };
        self.push_fresh(key, entry);
        w
    }

    /// Creates the entry for a leaf position on its first visit: a fresh
    /// widget handle, the cached value seeded from the field, and the
    /// display marked stale so the widget syncs on the next pass.
    pub fn create_leaf(&mut self, key: &Key, cached: LeafValue) -> (w: u64)
        requires
            old(self).wf(),
            !old(self)@.entries.contains_key(key@),
            key@.leaf,
            old(self)@.next_widget < u64::MAX,
        ensures
            final(self).wf(),
            w == old(self)@.next_widget,
            final(self)@ == (StateV {
                entries: old(self)@.entries.insert(
                    key@,
                    EntryV {
                        widget: w,
                        alive: true,
                        inner: InnerV::Leaf {
                            cached: cached@,
                            field_mutated: true,
                            pending: None,
                        },
                    },
                ),
                next_widget: (w + 1) as u64,
                ..old(self)@
            }),
    {
        let w = self.alloc_widget();
        let entry = Entry {
            widget: w,
            alive: true,
            inner: EntryInner::Leaf { cached, field_mutated: true, pending: None },
        };
        self.push_fresh(key, entry);
        w
    }

    /// Appends an entry whose key is not in the table and whose widget is
    /// the one handle just below the allocator mark.
    fn push_fresh(&mut self, key: &Key, entry: Entry)
        requires
            old(self).wf(),
            !old(self)@.entries.contains_key(key@),
            entry@.widget + 1 == old(self)@.next_widget,
            forall|k: KeyV|
                old(self)@.entries.contains_key(k) ==> #[trigger] old(
                    self,
                )@.entries[k].widget < entry@.widget,
            (entry@.inner matches InnerV::Leaf { .. }) <==> key@.leaf,
        ensures
            final(self).wf(),
            final(self)@ == (StateV {
                entries: old(self)@.entries.insert(key@, entry@),
                ..old(self)@
            }),
    {
        let ghost s0 = self.entries@;
        let ghost ev = entry@;
        let slot = EntrySlot { key: key.clone(), entry };
        proof {
            lemma_slots_map_push(s0, slot);
            lemma_slots_map_dom(s0);
            assert forall|i: int| 0 <= i < s0.len() implies s0[i].key@ != key@ by {
                lemma_slots_map_index(s0, i);
            }
        }
        self.entries.push(slot);
        proof {
            let m0 = old(self)@.entries;
            let m1 = self@.entries;
            assert(m1 == m0.insert(key@, ev));
            assert(self@ =~= StateV { entries: m0.insert(key@, ev), ..old(self)@ });
            assert forall|k1: KeyV, k2: KeyV|
                m1.contains_key(k1) && m1.contains_key(k2) && k1 != k2 implies #[trigger] m1[k1].widget
                != #[trigger] m1[k2].widget by {}
            assert(self.wf());
        }
    }

    /// Revisits an existing node entry: marks it alive and hands back its
    /// children container, which decides whether the pass recurses.
    pub fn revisit_node(&mut self, key: &Key) -> (c: Option<u64>)
        requires
            old(self).wf(),
            old(self)@.entries.contains_key(key@),
            !key@.leaf,
        ensures
            final(self).wf(),
            c == node_container(old(self)@.entries[key@]),
            final(self)@ == (StateV {
                entries: old(self)@.entries.insert(
                    key@,
                    EntryV { alive: true, ..old(self)@.entries[key@] },
                ),
                ..old(self)@
            }),
    {
        let ghost s0 = self.entries@;
        proof {
            lemma_slots_map_dom(s0);
        }
        let i = match self.find(key) {
            Some(i) => i,
            None => {
                proof {
                    lemma_slots_map_absent(s0, key@);
                }
                unreached()
            },
        };
        proof {
            lemma_slots_map_index(s0, i as int);
            lemma_slots_map_remove(s0, i as int);
        }
        let mut slot = self.entries.remove(i);
        let c = match &slot.entry.inner {
            EntryInner::Node { container } => *container,
            EntryInner::Leaf { .. } => None,
        };
        slot.entry.alive = true;
        proof {
            lemma_slots_map_push(self.entries@, slot);
            lemma_slots_map_dom(self.entries@);
            assert forall|j: int| 0 <= j < self.entries@.len() implies self.entries@[j].key@
                != key@ by {}
        }
        self.entries.push(slot);
        proof {
            let m0 = old(self)@.entries;
            let m1 = self@.entries;
            assert(m1 =~= m0.insert(key@, EntryV { alive: true, ..m0[key@] }));
            assert(self@ =~= StateV {
                entries: m0.insert(key@, EntryV { alive: true, ..m0[key@] }),
                ..old(self)@
            });
            assert(self.wf());
        }
        c
    }

    /// Revisits an existing leaf entry, performing one step of the edit
    /// protocol against the field's current value (see `leaf_revisit_m`):
    /// a pending widget edit is written into the field; otherwise an
    /// external field change refreshes the cache and marks the display
    /// stale; otherwise nothing is touched. Returns whether the field was
    /// written.
    pub fn revisit_leaf(&mut self, key: &Key, current: &mut LeafValue) -> (mutated: bool)
        requires
            old(self).wf(),
            old(self)@.entries.contains_key(key@),
            key@.leaf,
        ensures
            final(self).wf(),
            ({
                let (e2, v2, m2) = leaf_revisit_m(
                    old(self)@.entries[key@],
                    old(current)@,
                );
                &&& final(self)@ == (StateV {
                    entries: old(self)@.entries.insert(key@, e2),
                    ..old(self)@
                })
                &&& final(current)@ == v2
                &&& mutated == m2
            }),
    {
        let ghost s0 = self.entries@;
        proof {
            lemma_slots_map_dom(s0);
        }
        let i = match self.find(key) {
            Some(i) => i,
            None => {
                proof {
                    lemma_slots_map_absent(s0, key@);
                }
                unreached()
            },
        };
        proof {
            lemma_slots_map_index(s0, i as int);
            lemma_slots_map_remove(s0, i as int);
        }
        let slot = self.entries.remove(i);
        let skey = slot.key;
        let widget = slot.entry.widget;
        let mut mutated = false;
        let new_inner = match slot.entry.inner {
            EntryInner::Leaf { cached, field_mutated, pending } => match pending {
                Some(p) => {
                    *current = p;
                    mutated = true;
                    EntryInner::Leaf {
                        cached: current.clone(),
                        field_mutated,
                        pending: None,
                    }
                },
                None => {
                    if !crate::values::leaf_eq(current, &cached) {
                        EntryInner::Leaf {
                            cached: current.clone(),
                            field_mutated: true,
                            pending: None,
                        }
                    } else {
                        EntryInner::Leaf { cached, field_mutated, pending: None }
                    }
                },
            },
            EntryInner::Node { container } => EntryInner::Node { container },
        };
        let slot2 = EntrySlot {
            key: skey,
            entry: Entry { widget, alive: true, inner: new_inner },
        };
        proof {
            lemma_slots_map_push(self.entries@, slot2);
            lemma_slots_map_dom(self.entries@);
            assert forall|j: int| 0 <= j < self.entries@.len() implies self.entries@[j].key@
                != key@ by {}
        }
        self.entries.push(slot2);
        proof {
            let m0 = old(self)@.entries;
            let m1 = self@.entries;
            let (e2, v2, m2) = leaf_revisit_m(m0[key@], old(current)@);
            assert(m1 =~= m0.insert(key@, e2));
            assert(self@ =~= StateV { entries: m0.insert(key@, e2), ..old(self)@ });
            assert(self.wf());
        }
        mutated
    }

    /// Lowers every entry's liveness flag; reconciliation starts here, and
    /// whatever the pass does not mark alive again is swept afterwards.
    pub fn reset_alive(&mut self)
        requires
            old(self).wf(),
        ensures
            final(self).wf(),
            final(self)@ == (StateV { entries: reset_m(old(self)@.entries), ..old(self)@ }),
    {
        let ghost s0 = self.entries@;
        let mut i: usize = 0;
        while i < self.entries.len()
            invariant
                i <= s0.len(),
                self.entries@.len() == s0.len(),
                self.registry@ == old(self).registry@,
                self.next_widget == old(self).next_widget,
                old(self).wf(),
                s0 == old(self).entries@,
                forall|j: int|
                    0 <= j < i ==> #[trigger] self.entries@[j] == (EntrySlot {
                        entry: Entry { alive: false, ..s0[j].entry },
                        ..s0[j]
                    }),
                forall|j: int| i <= j < s0.len() ==> #[trigger] self.entries@[j] == s0[j],
            decreases s0.len() - i,
        {
            self.entries[i].entry.alive = false;
            i = i + 1;
        }
        proof {
            lemma_slots_map_reset(s0, self.entries@);
            assert(self@ =~= StateV { entries: reset_m(old(self)@.entries), ..old(self)@ });
            assert(self.wf());
        }
    }

    /// Whether some node position strictly above the key currently holds
    /// a dead entry; such a key's widget goes down with that ancestor's
    /// subtree and needs no destroy of its own.
    fn has_dead_ancestor(&self, key: &Key) -> (r: bool)
        requires
            self.wf(),
        ensures
            r == exists|a: KeyV|
                above(a, key@) && #[trigger] self@.entries.contains_key(a) && !self@.entries[a].alive,
    {
        let n = key.path.len();
        let mut plen: usize = 0;
        while plen < n
            invariant
                self.wf(),
                n == key.path@.len(),
                n == key@.path.len(),
                plen <= n,
                forall|a: KeyV|
                    above(a, key@) && a.path.len() < plen ==> !(#[trigger] self@.entries.contains_key(
                        a,
                    ) && !self@.entries[a].alive),
            decreases n - plen,
        {
            let ghost candv = KeyV {
                slot: key@.slot,
                path: key@.path.subrange(0, plen as int),
                leaf: false,
            };
            let cand = Key { slot: key.slot, path: clone_prefix(&key.path, plen), leaf: false };
            proof {
                assert(cand@ =~= candv);
                assert(above(candv, key@));
            }
            match self.find(&cand) {
                Some(j) => {
                    proof {
                        lemma_slots_map_index(self.entries@, j as int);
                    }
                    if !self.entries[j].entry.alive {
                        return true;
                    }
                },
                None => {
                    proof {
                        lemma_slots_map_absent(self.entries@, candv);
                    }
                },
            }
            proof {
                assert forall|a: KeyV| above(a, key@) && a.path.len() == plen implies !(
                #[trigger] self@.entries.contains_key(a) && !self@.entries[a].alive) by {
                    assert(a.path =~= candv.path);
                    assert(a =~= candv);
                }
            }
            plen = plen + 1;
        }
        if key.leaf {
            let ghost candv = KeyV { slot: key@.slot, path: key@.path, leaf: false };
            let cand = Key { slot: key.slot, path: clone_prefix(&key.path, n), leaf: false };
            proof {
                assert(key@.path.subrange(0, n as int) =~= key@.path);
                assert(cand@ =~= candv);
                assert(above(candv, key@));
            }
            match self.find(&cand) {
                Some(j) => {
                    proof {
                        lemma_slots_map_index(self.entries@, j as int);
                    }
                    if !self.entries[j].entry.alive {
                        return true;
                    }
                },
                None => {
                    proof {
                        lemma_slots_map_absent(self.entries@, candv);
                    }
                },
            }
        }
        proof {
            assert forall|a: KeyV|
                above(a, key@) implies !(#[trigger] self@.entries.contains_key(a)
                && !self@.entries[a].alive) by {
                if a.path.len() == n {
                    assert(a.path =~= key@.path.subrange(0, n as int));
                    assert(key@.path.subrange(0, n as int) =~= key@.path);
                    if !key@.leaf {
                        assert(a =~= key@);
                    } else {
                        assert(a =~= KeyV { slot: key@.slot, path: key@.path, leaf: false });
                    }
                }
            }
        }
        false
    }

    /// Removes every entry not marked alive and returns the widget handles
    /// whose subtrees must be destroyed: one per dead subtree root, each
    /// destroyed exactly once (see `dead_root_widgets`).
    pub fn sweep(&mut self) -> (d: Vec<u64>)
        requires
            old(self).wf(),
        ensures
            final(self).wf(),
            final(self)@ == (StateV { entries: swept_m(old(self)@.entries), ..old(self)@ }),
            d@.no_duplicates(),
            forall|w: u64|
                #[trigger] d@.contains(w) <==> dead_root_widgets(old(self)@.entries).contains(w),
    {
        let ghost s0 = self.entries@;
        let ghost m0 = self@.entries;
        proof {
            lemma_slots_map_dom(s0);
        }

        let mut d: Vec<u64> = Vec::new();
        let mut i: usize = 0;
        while i < self.entries.len()
            invariant
                i <= s0.len(),
                *self == *old(self),
                old(self).wf(),
                s0 == self.entries@,
                m0 == self@.entries,
                d@ == droots_prefix(s0, m0, i as int),
            decreases s0.len() - i,
        {
            proof {
                lemma_slots_map_index(s0, i as int);
            }
            if !self.entries[i].entry.alive {
                if !self.has_dead_ancestor(&self.entries[i].key) {
                    d.push(self.entries[i].entry.widget);
                }
            }
            i = i + 1;
        }
        proof {
            lemma_droots_prefix(s0, m0, s0.len() as int);
        }

        let mut kept: Vec<EntrySlot> = Vec::new();
        let mut j: usize = 0;
        while j < self.entries.len()
            invariant
                j <= s0.len(),
                *self == *old(self),
                old(self).wf(),
                s0 == self.entries@,
                m0 == self@.entries,
                slots_distinct(kept@),
                slots_map(kept@) == swept_m(slots_map(s0.subrange(0, j as int))),
            decreases s0.len() - j,
        {
            proof {
                lemma_slots_map_index(s0, j as int);
                assert(s0.subrange(0, j + 1) =~= s0.subrange(0, j as int).push(s0[j as int]));
                lemma_slots_map_push(s0.subrange(0, j as int), s0[j as int]);
                assert(slots_distinct(s0.subrange(0, j as int)));
                lemma_slots_map_dom(s0.subrange(0, j as int));
                assert forall|x: int| 0 <= x < j implies s0[x].key@ != s0[j as int].key@ by {}
                lemma_slots_map_absent(s0.subrange(0, j as int), s0[j as int].key@);
            }
            if self.entries[j].entry.alive {
                let slot = EntrySlot {
                    key: self.entries[j].key.clone(),
                    entry: self.entries[j].entry.clone(),
                };
                proof {
                    lemma_slots_map_push(kept@, slot);
                    lemma_slots_map_dom(kept@);
                    assert forall|x: int| 0 <= x < kept@.len() implies kept@[x].key@
                        != s0[j as int].key@ by {
                        lemma_slots_map_index(kept@, x);
                    }
                }
                kept.push(slot);
                proof {
                    assert(slots_map(kept@) =~= swept_m(slots_map(s0.subrange(0, j + 1))));
                }
            } else {
                proof {
                    assert(slots_map(kept@) =~= swept_m(slots_map(s0.subrange(0, j + 1))));
                }
            }
            j = j + 1;
        }
        proof {
            assert(s0.subrange(0, s0.len() as int) =~= s0);
        }
        self.entries = kept;
        proof {
            assert(self@ =~= StateV { entries: swept_m(m0), ..old(self)@ });
            assert forall|k: KeyV| self@.entries.contains_key(k) implies m0.contains_key(k)
                && self@.entries[k] == m0[k] by {}
            assert(self.wf());
            lemma_droots_no_dup(s0, m0, s0.len() as int);
            lemma_droots_complete(s0, m0);
        }
        d
    }

    /// Flips a node's expansion: a collapsed node gets a fresh children
    /// container handle (the host spawns it and the next pass fills it); an
    /// expanded node loses its container (the host destroys that subtree,
    /// and the orphaned descendant entries die on the next sweep).
    pub fn toggle_expand(&mut self, key: &Key) -> (r: ExpandToggle)
        requires
            old(self).wf(),
        ensures
            final(self).wf(),
            (final(self)@, r) == toggle_expand_m(old(self)@, key@),
    {
        let ghost s0 = self.entries@;
        proof {
            lemma_slots_map_dom(s0);
        }
        if key.leaf || self.next_widget == u64::MAX {
            return ExpandToggle::NotANode;
        }
        let i = match self.find(key) {
            Some(i) => i,
            None => {
                proof {
                    lemma_slots_map_absent(s0, key@);
                }
                return ExpandToggle::NotANode;
            },
        };
        proof {
            lemma_slots_map_index(s0, i as int);
            lemma_slots_map_remove(s0, i as int);
        }
        let mut slot = self.entries.remove(i);
        let r;
        match slot.entry.inner {
            EntryInner::Node { container: None } => {
                let c = self.next_widget;
                self.next_widget = c + 1;
                slot.entry.inner = EntryInner::Node { container: Some(c) };
                r = ExpandToggle::Expanded(c);
            },
            EntryInner::Node { container: Some(c) } => {
                slot.entry.inner = EntryInner::Node { container: None };
                r = ExpandToggle::Collapsed(c);
            },
            EntryInner::Leaf { cached, field_mutated, pending } => {
                slot.entry.inner = EntryInner::Leaf { cached, field_mutated, pending };
                r = ExpandToggle::NotANode;
            },
        }
        proof {
            lemma_slots_map_push(self.entries@, slot);
            lemma_slots_map_dom(self.entries@);
            assert forall|x: int| 0 <= x < self.entries@.len() implies self.entries@[x].key@
                != key@ by {}
        }
        self.entries.push(slot);
        proof {
            let (st2, r2) = toggle_expand_m(old(self)@, key@);
            assert(self@.entries =~= st2.entries);
            assert(self@ =~= st2);
            assert(self.wf());
        }
        r
    }

    /// Records a widget-originated value on a leaf entry; the value is
    /// written into the source field on the entry's next visit. Returns
    /// false (and changes nothing) when no leaf entry exists at the key.
    pub fn record_pending(&mut self, key: &Key, v: LeafValue) -> (r: bool)
        requires
            old(self).wf(),
        ensures
            final(self).wf(),
            (final(self)@, r) == record_pending_m(old(self)@, key@, v@),
    {
        let ghost s0 = self.entries@;
        proof {
            lemma_slots_map_dom(s0);
        }
        if !key.leaf {
            return false;
        }
        let i = match self.find(key) {
            Some(i) => i,
            None => {
                proof {
                    lemma_slots_map_absent(s0, key@);
                }
                return false;
            },
        };
        proof {
            lemma_slots_map_index(s0, i as int);
            lemma_slots_map_remove(s0, i as int);
        }
        let mut slot = self.entries.remove(i);
        let r;
        match slot.entry.inner {
            EntryInner::Leaf { cached, field_mutated, pending: _ } => {
                slot.entry.inner = EntryInner::Leaf { cached, field_mutated, pending: Some(v) };
                r = true;
            },
            EntryInner::Node { container } => {
                slot.entry.inner = EntryInner::Node { container };
                r = false;
            },
        }
        proof {
            lemma_slots_map_push(self.entries@, slot);
            lemma_slots_map_dom(self.entries@);
            assert forall|x: int| 0 <= x < self.entries@.len() implies self.entries@[x].key@
                != key@ by {}
        }
        self.entries.push(slot);
        proof {
            let (st2, r2) = record_pending_m(old(self)@, key@, v@);
            assert(self@.entries =~= st2.entries);
            assert(self@ =~= st2);
            assert(self.wf());
        }
        r
    }

    /// Marks a leaf's display stale so the next sync step rewrites it from
    /// the cached value; the discard path of a cancelled edit.
    pub fn request_refresh(&mut self, key: &Key) -> (r: bool)
        requires
            old(self).wf(),
        ensures
            final(self).wf(),
            (final(self)@, r) == request_refresh_m(old(self)@, key@),
    {
        let ghost s0 = self.entries@;
        proof {
            lemma_slots_map_dom(s0);
        }
        if !key.leaf {
            return false;
        }
        let i = match self.find(key) {
            Some(i) => i,
            None => {
                proof {
                    lemma_slots_map_absent(s0, key@);
                }
                return false;
            },
        };
        proof {
            lemma_slots_map_index(s0, i as int);
            lemma_slots_map_remove(s0, i as int);
        }
        let mut slot = self.entries.remove(i);
        let r;
        match slot.entry.inner {
            EntryInner::Leaf { cached, field_mutated: _, pending } => {
                slot.entry.inner = EntryInner::Leaf { cached, field_mutated: true, pending };
                r = true;
            },
            EntryInner::Node { container } => {
                slot.entry.inner = EntryInner::Node { container };
                r = false;
            },
        }
        proof {
            lemma_slots_map_push(self.entries@, slot);
            lemma_slots_map_dom(self.entries@);
            assert forall|x: int| 0 <= x < self.entries@.len() implies self.entries@[x].key@
                != key@ by {}
        }
        self.entries.push(slot);
        proof {
            let (st2, r2) = request_refresh_m(old(self)@, key@);
            assert(self@.entries =~= st2.entries);
            assert(self@ =~= st2);
            assert(self.wf());
        }
        r
    }

    /// If the leaf's display is stale, hands out the value it should show
    /// and lowers the stale flag; otherwise `None` and nothing changes.
    pub fn take_refresh(&mut self, key: &Key) -> (r: Option<LeafValue>)
        requires
            old(self).wf(),
        ensures
            final(self).wf(),
            ({
                let (st2, r2) = take_refresh_m(old(self)@, key@);
                &&& final(self)@ == st2
                &&& match r {
                    Some(v) => r2 == Some(v@),
                    None => r2 == None::<LeafV>,
                }
            }),
    {
        let ghost s0 = self.entries@;
        proof {
            lemma_slots_map_dom(s0);
        }
        if !key.leaf {
            return None;
        }
        let i = match self.find(key) {
            Some(i) => i,
            None => {
                proof {
                    lemma_slots_map_absent(s0, key@);
                }
                return None;
            },
        };
        proof {
            lemma_slots_map_index(s0, i as int);
            lemma_slots_map_remove(s0, i as int);
        }
        let mut slot = self.entries.remove(i);
        let r;
        match slot.entry.inner {
            EntryInner::Leaf { cached, field_mutated, pending } => {
                if field_mutated {
                    r = Some(cached.clone());
                    slot.entry.inner = EntryInner::Leaf {
                        cached,
                        field_mutated: false,
                        pending,
                    };
                } else {
                    r = None;
                    slot.entry.inner = EntryInner::Leaf { cached, field_mutated, pending };
                }
            },
            EntryInner::Node { container } => {
                slot.entry.inner = EntryInner::Node { container };
                r = None;
            },
        }
        proof {
            lemma_slots_map_push(self.entries@, slot);
            lemma_slots_map_dom(self.entries@);
            assert forall|x: int| 0 <= x < self.entries@.len() implies self.entries@[x].key@
                != key@ by {}
        }
        self.entries.push(slot);
        proof {
            let (st2, r2) = take_refresh_m(old(self)@, key@);
            assert(self@.entries =~= st2.entries);
            assert(self@ =~= st2);
            assert(self.wf());
        }
        r
    }
}

impl State {
    /// The cached value's primitive type at a leaf entry, if one exists:
    /// the type hint under which edited text for that leaf is parsed.
    pub fn cached_kind(&self, key: &Key) -> (r: Option<crate::values::LeafKind>)
        requires
            self.wf(),
        ensures
            match r {
                Some(k) => self@.entries.contains_key(key@)
                    && (self@.entries[key@].inner matches InnerV::Leaf { cached, .. }
                    && crate::values::leaf_kind_of(cached) == k),
                None => !self@.entries.contains_key(key@) || (self@.entries[key@].inner matches
                InnerV::Node { .. }),
            },
    {
        let i = match self.find(key) {
            Some(i) => i,
            None => {
                proof {
                    lemma_slots_map_absent(self.entries@, key@);
                }
                return None;
            },
        };
        proof {
            lemma_slots_map_index(self.entries@, i as int);
        }
        match &self.entries[i].entry.inner {
            EntryInner::Leaf { cached, .. } => Some(cached.kind()),
            EntryInner::Node { .. } => None,
        }
    }

    /// A copy of the cached value at a leaf entry, if one exists.
    pub fn cached_of(&self, key: &Key) -> (r: Option<LeafValue>)
        requires
            self.wf(),
        ensures
            match r {
                Some(v) => self@.entries.contains_key(key@)
                    && (self@.entries[key@].inner matches InnerV::Leaf { cached, .. }
                    && cached == v@),
                None => !self@.entries.contains_key(key@) || (self@.entries[key@].inner matches
                InnerV::Node { .. }),
            },
    {
        let i = match self.find(key) {
            Some(i) => i,
            None => {
                proof {
                    lemma_slots_map_absent(self.entries@, key@);
                }
                return None;
            },
        };
        proof {
            lemma_slots_map_index(self.entries@, i as int);
        }
        match &self.entries[i].entry.inner {
            EntryInner::Leaf { cached, .. } => Some(cached.clone()),
            EntryInner::Node { .. } => None,
        }
    }

    /// How many widget handles have been allocated so far; handles are
    /// consumed by entry creation and by expansion containers.
    pub fn allocated(&self) -> (r: u64)
        ensures
            r == self@.next_widget,
    {
        self.next_widget
    }

    /// Whether the node entry at the key currently has a children
    /// container (is expanded).
    pub fn is_expanded(&self, key: &Key) -> (r: bool)
        requires
            self.wf(),
        ensures
            r == (self@.entries.contains_key(key@) && node_container(self@.entries[key@]) is
            Some),
    {
        let i = match self.find(key) {
            Some(i) => i,
            None => {
                proof {
                    lemma_slots_map_absent(self.entries@, key@);
                }
                return false;
            },
        };
        proof {
            lemma_slots_map_index(self.entries@, i as int);
        }
        match &self.entries[i].entry.inner {
            EntryInner::Node { container } => container.is_some(),
            EntryInner::Leaf { .. } => false,
        }
    }
}

spec fn droots_prefix(s: Seq<EntrySlot>, m: Map<KeyV, EntryV>, n: int) -> Seq<u64>
    decreases n,
{
    if n <= 0 {
        Seq::empty()
    } else {
        let rest = droots_prefix(s, m, n - 1);
        if dead_root(m, s[n - 1].key@) {
            rest.push(s[n - 1].entry@.widget)
        } else {
            rest
        }
    }
}

proof fn lemma_droots_prefix(s: Seq<EntrySlot>, m: Map<KeyV, EntryV>, n: int)
    requires
        slots_distinct(s),
        m == slots_map(s),
        0 <= n <= s.len(),
    ensures
        forall|w: u64|
            #[trigger] droots_prefix(s, m, n).contains(w) ==> exists|ki: int|
                0 <= ki < n && dead_root(m, s[ki].key@) && s[ki].entry@.widget == w,
        forall|ki: int|
            0 <= ki < n && dead_root(m, s[ki].key@) ==> droots_prefix(s, m, n).contains(
                s[ki].entry@.widget,
            ),
    decreases n,
{
    if n > 0 {
        lemma_droots_prefix(s, m, n - 1);
        assert forall|w: u64| #[trigger] droots_prefix(s, m, n).contains(w) implies exists|ki: int|
            0 <= ki < n && dead_root(m, s[ki].key@) && s[ki].entry@.widget == w by {
            let prev = droots_prefix(s, m, n - 1);
            if prev.contains(w) {
            } else {
                assert(dead_root(m, s[n - 1].key@) && s[n - 1].entry@.widget == w);
            }
        }
        assert forall|ki: int|
            0 <= ki < n && dead_root(m, s[ki].key@) implies droots_prefix(s, m, n).contains(
            s[ki].entry@.widget,
        ) by {
            let prev = droots_prefix(s, m, n - 1);
            if ki < n - 1 {
                let wi = choose|wi: int| 0 <= wi < prev.len() && prev[wi] == s[ki].entry@.widget;
                if dead_root(m, s[n - 1].key@) {
                    assert(droots_prefix(s, m, n)[wi] == s[ki].entry@.widget);
                } else {
                    assert(droots_prefix(s, m, n)[wi] == s[ki].entry@.widget);
                }
            } else {
                assert(droots_prefix(s, m, n).last() == s[ki].entry@.widget);
            }
        }
    }
}

proof fn lemma_droots_no_dup(s: Seq<EntrySlot>, m: Map<KeyV, EntryV>, n: int)
    requires
        slots_distinct(s),
        m == slots_map(s),
        state_inv(StateV { entries: m, registry: Map::empty(), next_widget: u64::MAX }),
        0 <= n <= s.len(),
    ensures
        droots_prefix(s, m, n).no_duplicates(),
    decreases n,
{
    if n > 0 {
        lemma_droots_no_dup(s, m, n - 1);
        if dead_root(m, s[n - 1].key@) {
            lemma_droots_prefix(s, m, n - 1);
            let w = s[n - 1].entry@.widget;
            if droots_prefix(s, m, n - 1).contains(w) {
                let ki = choose|ki: int|
                    0 <= ki < n - 1 && dead_root(m, s[ki].key@) && s[ki].entry@.widget == w;
                lemma_slots_map_index(s, ki);
                lemma_slots_map_index(s, n - 1);
                assert(false);
            }
        }
    }
}

proof fn lemma_droots_complete(s: Seq<EntrySlot>, m: Map<KeyV, EntryV>)
    requires
        slots_distinct(s),
        m == slots_map(s),
    ensures
        forall|w: u64|
            #[trigger] droots_prefix(s, m, s.len() as int).contains(w) <==> dead_root_widgets(
                m,
            ).contains(w),
{
    lemma_droots_prefix(s, m, s.len() as int);
    lemma_slots_map_dom(s);
    assert forall|w: u64| dead_root_widgets(m).contains(w) implies droots_prefix(
        s,
        m,
        s.len() as int,
    ).contains(w) by {
        let k = choose|k: KeyV| dead_root(m, k) && m[k].widget == w;
        let ki = choose|ki: int| 0 <= ki < s.len() && s[ki].key@ == k;
        lemma_slots_map_index(s, ki);
    }
    assert forall|w: u64| droots_prefix(s, m, s.len() as int).contains(w) implies dead_root_widgets(
        m,
    ).contains(w) by {
        let ki = choose|ki: int|
            0 <= ki < s.len() && dead_root(m, s[ki].key@) && s[ki].entry@.widget == w;
        lemma_slots_map_index(s, ki);
    }
}

proof fn lemma_slots_map_reset(s1: Seq<EntrySlot>, s2: Seq<EntrySlot>)
    requires
        slots_distinct(s1),
        s1.len() == s2.len(),
        forall|j: int|
            0 <= j < s1.len() ==> #[trigger] s2[j] == (EntrySlot {
                entry: Entry { alive: false, ..s1[j].entry },
                ..s1[j]
            }),
    ensures
        slots_distinct(s2),
        slots_map(s2) == reset_m(slots_map(s1)),
    decreases s1,
{
    if s1.len() == 0 {
        assert(slots_map(s2) =~= reset_m(slots_map(s1)));
    } else {
        lemma_slots_map_reset(s1.drop_last(), s2.drop_last());
        assert(s2.last() == EntrySlot {
            entry: Entry { alive: false, ..s1.last().entry },
            ..s1.last()
        });
        assert(slots_map(s2) == slots_map(s2.drop_last()).insert(
            s2.last().key@,
            s2.last().entry@,
        ));
        assert(slots_map(s2) =~= reset_m(slots_map(s1)));
    }
}

} // verus!
