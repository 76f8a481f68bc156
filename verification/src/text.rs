//! Leaf text: the canonical textual form of primitive leaf values, the
//! typed parse of edited text, and the envelope utilities that cut the
//! editable value text out of a serializer's fixed wrapper.
//!
//! Serialization of primitives goes through the `ron` crate; what its
//! calls return is stated per primitive type below.

use vstd::prelude::*;

use crate::values::LeafKind;
use crate::values::LeafV;
use crate::values::LeafValue;
use crate::values::leaf_kind_of;

verus! {

/// The decimal digits of `n`, most significant first.
pub open spec fn dec_digits(n: nat) -> Seq<char>
    decreases n,
{
    if n < 10 {
        seq![digit_char(n)]
    } else {
        dec_digits(n / 10).push(digit_char(n % 10))
    }
}

/// The character for one decimal digit.
pub open spec fn digit_char(d: nat) -> char {
    if d == 0 {
        '0'
    } else if d == 1 {
        '1'
    } else if d == 2 {
        '2'
    } else if d == 3 {
        '3'
    } else if d == 4 {
        '4'
    } else if d == 5 {
        '5'
    } else if d == 6 {
        '6'
    } else if d == 7 {
        '7'
    } else if d == 8 {
        '8'
    } else {
        '9'
    }
}

/// The canonical decimal text of an integer: minimal digits, a leading
/// `-` for negative values.
pub open spec fn int_text(n: int) -> Seq<char> {
    if n < 0 {
        seq!['-'] + dec_digits((-n) as nat)
    } else {
        dec_digits(n as nat)
    }
}

/// The text of a boolean.
pub open spec fn bool_text(b: bool) -> Seq<char> {
    if b {
        "true"@
    } else {
        "false"@
    }
}

/// The serialized form of a string value: quoted, with the serializer's
/// escaping applied. It depends on the characters alone.
pub uninterp spec fn text_repr(s: Seq<char>) -> Seq<char>;

/// The canonical text of a leaf value.
pub open spec fn leaf_text(v: LeafV) -> Seq<char> {
    match v {
        LeafV::Bool(b) => bool_text(b),
        LeafV::Int(n) => int_text(n as int),
        LeafV::Text(s) => text_repr(s),
    }
}

/// Relies on String::push: appends one character.
#[verifier::external_body]
fn push_char(s: &mut String, c: char)
    ensures
        final(s)@ == old(s)@.push(c),
{
    s.push(c)
}

fn digit_exec(d: u64) -> (c: char)
    requires
        d < 10,
    ensures
        c == digit_char(d as nat),
{
    if d == 0 {
        '0'
    } else if d == 1 {
        '1'
    } else if d == 2 {
        '2'
    } else if d == 3 {
        '3'
    } else if d == 4 {
        '4'
    } else if d == 5 {
        '5'
    } else if d == 6 {
        '6'
    } else if d == 7 {
        '7'
    } else if d == 8 {
        '8'
    } else {
        '9'
    }
}

/// Renders an index or count in decimal, for positional labels.
pub fn fmt_u64(n: u64) -> (r: String)
    ensures
        r@ == dec_digits(n as nat),
    decreases n,
{
    if n < 10 {
        let mut s = String::new();
        push_char(&mut s, digit_exec(n));
        proof {
            assert(s@ =~= dec_digits(n as nat));
        }
        s
    } else {
        let mut s = fmt_u64(n / 10);
        push_char(&mut s, digit_exec(n % 10));
        s
    }
}

/// Relies on ron::to_string: a bool serializes as `true` or `false`.
#[verifier::external_body]
fn ron_bool_to_text(b: bool) -> (r: String)
    ensures
        r@ == bool_text(b),
{
    ron::to_string(&b).unwrap()
}

/// Relies on ron::from_str: the identifiers `true` and `false` parse as
/// the two bool values.
#[verifier::external_body]
fn ron_bool_from_text(s: &str) -> (r: Option<bool>)
    ensures
        s@ == bool_text(true) ==> r == Some(true),
        s@ == bool_text(false) ==> r == Some(false),
{
    ron::from_str::<bool>(s).ok()
}

/// Relies on ron::to_string: an i64 serializes as its plain decimal text.
#[verifier::external_body]
fn ron_i64_to_text(n: i64) -> (r: String)
    ensures
        r@ == int_text(n as int),
{
    ron::to_string(&n).unwrap()
}

/// Relies on ron::from_str: the canonical decimal text of any i64 parses
/// back to that value (the parser accumulates with checked arithmetic, so
/// the full i64 range round-trips).
#[verifier::external_body]
fn ron_i64_from_text(s: &str) -> (r: Option<i64>)
    ensures
        forall|n: i64| s@ == int_text(n as int) ==> r == Some(n),
{
    ron::from_str::<i64>(s).ok()
}

/// Relies on ron::to_string: a string serializes to its quoted, escaped
/// literal, a function of the characters alone (named `text_repr`).
#[verifier::external_body]
fn ron_str_to_text(s: &str) -> (r: String)
    ensures
        r@ == text_repr(s@),
{
    ron::to_string(&s).unwrap()
}

/// Relies on ron::from_str: a string literal parses back to the string it
/// denotes; in particular the serializer's output `text_repr(t)` parses
/// back to `t`.
#[verifier::external_body]
fn ron_str_from_text(s: &str) -> (r: Option<String>)
    ensures
        forall|t: Seq<char>| s@ == text_repr(t) ==> r.is_some() && r.unwrap()@ == t,
{
    ron::from_str::<String>(s).ok()
}

/// The marker substring in front of the editable part of an enveloped
/// serialized value.
pub open spec fn marker() -> Seq<char> {
    "\"value\":"@
}

/// Scans for the first occurrence of the marker at or after position `i`.
pub open spec fn marker_scan(s: Seq<char>, i: int) -> Option<int>
    decreases s.len() - i,
{
    if i < 0 || i >= s.len() || i + marker().len() > s.len() {
        None
    } else if s.subrange(i, i + marker().len() as int) == marker() {
        Some(i)
    } else {
        marker_scan(s, i + 1)
    }
}

/// The position of the first occurrence of the marker, if any.
pub open spec fn marker_pos(s: Seq<char>) -> Option<int> {
    marker_scan(s, 0)
}

/// Finds the first occurrence of the envelope marker.
pub fn find_marker(s: &str) -> (r: Option<usize>)
    ensures
        match r {
            Some(i) => marker_pos(s@) == Some(i as int),
            None => marker_pos(s@) == None::<int>,
        },
{
    proof {
        reveal_strlit("\"value\":");
        assert(marker() =~= seq!['"', 'v', 'a', 'l', 'u', 'e', '"', ':']);
    }
    let n = s.unicode_len();
    if n < 8 {
        return None;
    }
    let mut i: usize = 0;
    while i <= n - 8
        invariant
            n == s@.len(),
            8 <= n,
            i <= n - 8 + 1,
            marker() =~= seq!['"', 'v', 'a', 'l', 'u', 'e', '"', ':'],
            marker_scan(s@, 0) == marker_scan(s@, i as int),
        decreases n - i,
    {
        let hit = s.get_char(i) == '"' && s.get_char(i + 1) == 'v' && s.get_char(i + 2) == 'a'
            && s.get_char(i + 3) == 'l' && s.get_char(i + 4) == 'u' && s.get_char(i + 5) == 'e'
            && s.get_char(i + 6) == '"' && s.get_char(i + 7) == ':';
        if hit {
            proof {
                assert(s@.subrange(i as int, i as int + 8) =~= marker());
            }
            return Some(i);
        }
        proof {
            let w = s@.subrange(i as int, i as int + 8);
            assert(w.len() == 8);
            assert(w[0] == s@[i as int] && w[1] == s@[i + 1] && w[2] == s@[i + 2] && w[3] == s@[i
                + 3] && w[4] == s@[i + 4] && w[5] == s@[i + 5] && w[6] == s@[i + 6] && w[7] == s@[i
                + 7]);
            assert(w != marker());
        }
        i = i + 1;
    }
    None
}

/// Cuts the editable value text out of an enveloped serialized value: the
/// part after the first marker, up to (not including) the closing
/// character. The envelope must contain the marker with at least one
/// character after it.
pub fn extract_serialized_value(serialized_text: &str) -> (r: &str)
    requires
        marker_pos(serialized_text@) is Some,
        marker_pos(serialized_text@).unwrap() + marker().len() < serialized_text@.len(),
    ensures
        r@ == serialized_text@.subrange(
            marker_pos(serialized_text@).unwrap() + marker().len(),
            serialized_text@.len() - 1,
        ),
{
    proof {
        reveal_strlit("\"value\":");
    }
    let n = serialized_text.unicode_len();
    let p = match find_marker(serialized_text) {
        Some(p) => p,
        None => unreached(),
    };
    serialized_text.substring_char(p + 8, n - 1)
}

/// Replaces the editable value text inside an enveloped serialized value
/// with the edited text, keeping the envelope's prefix (through the first
/// marker) and its closing character.
pub fn wrap_serialized_value(serialized_text: String, edited_text: &str) -> (r: String)
    requires
        marker_pos(serialized_text@) is Some,
        marker_pos(serialized_text@).unwrap() + marker().len() < serialized_text@.len(),
    ensures
        r@ == serialized_text@.subrange(0, marker_pos(serialized_text@).unwrap() + marker().len())
            + edited_text@ + serialized_text@.subrange(
            serialized_text@.len() - 1,
            serialized_text@.len() as int,
        ),
{
    proof {
        reveal_strlit("\"value\":");
    }
    let n = serialized_text.as_str().unicode_len();
    let p = match find_marker(serialized_text.as_str()) {
        Some(p) => p,
        None => unreached(),
    };
    let prefix = serialized_text.as_str().substring_char(0, p + 8);
    let mut r = prefix.to_owned();
    r.append(edited_text);
    let suffix = serialized_text.as_str().substring_char(n - 1, n);
    r.append(suffix);
    r
}

/// The canonical text of a leaf value, as shown in the text editor.
pub fn to_text(v: &LeafValue) -> (r: String)
    ensures
        r@ == leaf_text(v@),
{
    match v {
        LeafValue::Bool(b) => ron_bool_to_text(*b),
        LeafValue::Int(n) => ron_i64_to_text(*n),
        LeafValue::Text(s) => ron_str_to_text(s.as_str()),
    }
}

/// Parses edited text back into a typed leaf value under the given type
/// hint. `None` means the text does not parse; the edit is then discarded
/// and the field left unchanged.
///
/// The round-trip law: for every leaf value `v` of the given type,
/// `from_text(kind, to_text(v))` returns `v` again.
pub fn from_text(kind: LeafKind, s: &str) -> (r: Option<LeafValue>)
    ensures
        forall|v: LeafV|
            leaf_kind_of(v) == kind && s@ == leaf_text(v) ==> (r matches Some(x) && x@ == v),
        r matches Some(x) ==> leaf_kind_of(x@) == kind,
{
    match kind {
        LeafKind::Bool => match ron_bool_from_text(s) {
            Some(b) => Some(LeafValue::Bool(b)),
            None => None,
        },
        LeafKind::Int => match ron_i64_from_text(s) {
            Some(n) => Some(LeafValue::Int(n)),
            None => None,
        },
        LeafKind::Text => match ron_str_from_text(s) {
            Some(x) => Some(LeafValue::Text(x)),
            None => None,
        },
    }
}

} // verus!
