//! The owned model of a reflected value graph. The host converts whatever
//! runtime-introspectable values it wants inspected into this shape once per
//! tick; the engine works on it and writes leaf edits back into it.

use vstd::prelude::*;

verus! {

/// An editable primitive at a leaf position.
#[derive(Debug)]
pub enum LeafValue {
    Bool(bool),
    Int(i64),
    Text(String),
}

/// Mathematical model of a `LeafValue`.
pub enum LeafV {
    Bool(bool),
    Int(i64),
    Text(Seq<char>),
}

impl View for LeafValue {
    type V = LeafV;

    open spec fn view(&self) -> LeafV {
        match self {
            LeafValue::Bool(b) => LeafV::Bool(*b),
            LeafValue::Int(n) => LeafV::Int(*n),
            LeafValue::Text(s) => LeafV::Text(s@),
        }
    }
}

/// The primitive type of a leaf: the type hint under which edited text is
/// parsed back.
#[derive(Debug, Clone, Copy, PartialEq, Eq, Structural)]
pub enum LeafKind {
    Bool,
    Int,
    Text,
}

/// The type of the given leaf value.
pub open spec fn leaf_kind_of(v: LeafV) -> LeafKind {
    match v {
        LeafV::Bool(_) => LeafKind::Bool,
        LeafV::Int(_) => LeafKind::Int,
        LeafV::Text(_) => LeafKind::Text,
    }
}

impl LeafValue {
    pub fn kind(&self) -> (r: LeafKind)
        ensures
            r == leaf_kind_of(self@),
    {
        match self {
            LeafValue::Bool(_) => LeafKind::Bool,
            LeafValue::Int(_) => LeafKind::Int,
            LeafValue::Text(_) => LeafKind::Text,
        }
    }
}

impl Clone for LeafValue {
    fn clone(&self) -> (r: Self)
        ensures
            r@ == self@,
    {
        match self {
            LeafValue::Bool(b) => LeafValue::Bool(*b),
            LeafValue::Int(n) => LeafValue::Int(*n),
            LeafValue::Text(s) => LeafValue::Text(s.clone()),
        }
    }
}

/// Deep semantic equality of two leaf values.
pub fn leaf_eq(a: &LeafValue, b: &LeafValue) -> (r: bool)
    ensures
        r == (a@ == b@),
{
    match (a, b) {
        (LeafValue::Bool(x), LeafValue::Bool(y)) => x == y,
        (LeafValue::Int(x), LeafValue::Int(y)) => x == y,
        (LeafValue::Text(x), LeafValue::Text(y)) => x.eq(y),
        _ => false,
    }
}

/// A named field of a struct value.
#[derive(Debug)]
pub struct Field {
    pub name: String,
    pub value: Value,
}

/// One entry of a map value. The key is kept as a primitive so that it can
/// be rendered as the entry's label and identity.
#[derive(Debug)]
pub struct MapPair {
    pub key: LeafValue,
    pub value: Value,
}

/// One reflected value: its runtime type, the names under which that type is
/// displayed, and its structural shape. `short_name` is `None` when the type
/// is not registered for introspection; such values are shown as inert
/// error nodes carrying the raw `full_name` and are never recursed into.
///
/// `repr` is the value as a registered specialized widget sees it: a typed
/// leaf representation the host supplies for a value whose type has a
/// specialized constructor registered but whose category is not itself a
/// primitive leaf. Such a position delegates entirely to the leaf edit
/// protocol; a widget-originated edit is written back into `repr`, and the
/// mutation report tells the host to carry it into its own data. For
/// primitive leaves the payload itself is the representation and `repr`
/// stays `None`.
#[derive(Debug)]
pub struct Value {
    pub type_tag: u64,
    pub full_name: String,
    pub short_name: Option<String>,
    pub repr: Option<LeafValue>,
    pub shape: Shape,
}

/// The structural category of a value, with its children.
#[derive(Debug)]
pub enum Shape {
    /// Named fields in declared order.
    Struct { fields: Vec<Field> },
    /// Ordered fields of a tuple or tuple struct.
    Tuple { fields: Vec<Value> },
    /// Ordered elements of a list.
    List { items: Vec<Value> },
    /// Key-value pairs of a map, in iteration order.
    Dict { pairs: Vec<MapPair> },
    /// A tagged union: all declared variant names, the index of the active
    /// variant, and the active variant's payload.
    Enum { variants: Vec<String>, active: usize, payload: Box<Value> },
    /// An editable primitive.
    Leaf { value: LeafValue },
}

/// Mathematical model of a `Value`.
#[verifier::ext_equal]
pub struct ValueV {
    pub type_tag: u64,
    pub full_name: Seq<char>,
    pub short_name: Option<Seq<char>>,
    pub repr: Option<LeafV>,
    pub shape: ShapeV,
}

#[verifier::ext_equal]
pub struct FieldV {
    pub name: Seq<char>,
    pub value: ValueV,
}

#[verifier::ext_equal]
pub struct PairV {
    pub key: LeafV,
    pub value: ValueV,
}

#[verifier::ext_equal]
pub enum ShapeV {
    Struct { fields: Seq<FieldV> },
    Tuple { fields: Seq<ValueV> },
    List { items: Seq<ValueV> },
    Dict { pairs: Seq<PairV> },
    Enum { variants: Seq<Seq<char>>, active: int, payload: Box<ValueV> },
    Leaf { value: LeafV },
}

pub open spec fn view_value(v: Value) -> ValueV
    decreases v,
{
    ValueV {
        type_tag: v.type_tag,
        full_name: v.full_name@,
        short_name: match v.short_name {
            Some(s) => Some(s@),
            None => None,
        },
        repr: match v.repr {
            Some(r) => Some(r@),
            None => None,
        },
        shape: view_shape(v.shape),
    }
}

pub open spec fn view_shape(s: Shape) -> ShapeV
    decreases s,
{
    match s {
        Shape::Struct { fields } => ShapeV::Struct { fields: view_field_seq(fields@) },
        Shape::Tuple { fields } => ShapeV::Tuple { fields: view_value_seq(fields@) },
        Shape::List { items } => ShapeV::List { items: view_value_seq(items@) },
        Shape::Dict { pairs } => ShapeV::Dict { pairs: view_pair_seq(pairs@) },
        Shape::Enum { variants, active, payload } => ShapeV::Enum {
            variants: variants@.map_values(|n: String| n@),
            active: active as int,
            payload: Box::new(view_value(*payload)),
        },
        Shape::Leaf { value } => ShapeV::Leaf { value: value@ },
    }
}

pub open spec fn view_field_seq(fs: Seq<Field>) -> Seq<FieldV>
    decreases fs,
{
    if fs.len() == 0 {
        Seq::empty()
    } else {
        view_field_seq(fs.drop_last()).push(
            FieldV { name: fs.last().name@, value: view_value(fs.last().value) },
        )
    }
}

pub open spec fn view_value_seq(vs: Seq<Value>) -> Seq<ValueV>
    decreases vs,
{
    if vs.len() == 0 {
        Seq::empty()
    } else {
        view_value_seq(vs.drop_last()).push(view_value(vs.last()))
    }
}

pub open spec fn view_pair_seq(ps: Seq<MapPair>) -> Seq<PairV>
    decreases ps,
{
    if ps.len() == 0 {
        Seq::empty()
    } else {
        view_pair_seq(ps.drop_last()).push(
            PairV { key: ps.last().key@, value: view_value(ps.last().value) },
        )
    }
}

impl View for Value {
    type V = ValueV;

    open spec fn view(&self) -> ValueV {
        view_value(*self)
    }
}

/// The typed leaf representation a position's widget edits: a primitive
/// leaf's own payload, else the host-supplied `repr`.
pub open spec fn leaf_repr(v: ValueV) -> Option<LeafV> {
    match v.shape {
        ShapeV::Leaf { value } => Some(value),
        _ => v.repr,
    }
}

/// The value with its leaf representation replaced: a write-back lands in
/// a primitive leaf's payload, else in `repr`.
pub open spec fn with_leaf_repr(v: ValueV, lv: LeafV) -> ValueV {
    match v.shape {
        ShapeV::Leaf { .. } => ValueV { shape: ShapeV::Leaf { value: lv }, ..v },
        _ => ValueV { repr: Some(lv), ..v },
    }
}

pub proof fn lemma_view_field_seq(fs: Seq<Field>)
    ensures
        view_field_seq(fs).len() == fs.len(),
        forall|i: int|
            0 <= i < fs.len() ==> #[trigger] view_field_seq(fs)[i] == (FieldV {
                name: fs[i].name@,
                value: view_value(fs[i].value),
            }),
    decreases fs,
{
    if fs.len() > 0 {
        lemma_view_field_seq(fs.drop_last());
    }
}

pub proof fn lemma_view_value_seq(vs: Seq<Value>)
    ensures
        view_value_seq(vs).len() == vs.len(),
        forall|i: int|
            0 <= i < vs.len() ==> #[trigger] view_value_seq(vs)[i] == view_value(vs[i]),
    decreases vs,
{
    if vs.len() > 0 {
        lemma_view_value_seq(vs.drop_last());
    }
}

pub proof fn lemma_view_pair_seq(ps: Seq<MapPair>)
    ensures
        view_pair_seq(ps).len() == ps.len(),
        forall|i: int|
            0 <= i < ps.len() ==> #[trigger] view_pair_seq(ps)[i] == (PairV {
                key: ps[i].key@,
                value: view_value(ps[i].value),
            }),
    decreases ps,
{
    if ps.len() > 0 {
        lemma_view_pair_seq(ps.drop_last());
    }
}

} // verus!
