//! Identity keys: a key names one logical position in the value graph,
//! independent of whether it was visited before. Keys are structural paths
//! (root slot, then a sequence of field / index / variant / map-key steps),
//! so they stay stable across ticks as long as the shape does.

use vstd::prelude::*;

verus! {

/// One step of a structural path below a root value.
#[derive(Debug)]
pub enum Step {
    /// A named field of a struct.
    Field(String),
    /// A positional element of a tuple or list.
    Index(usize),
    /// A declared variant of an enum.
    Variant(usize),
    /// A map entry, identified by the rendered text of its key.
    MapKey(String),
}

/// Mathematical model of a `Step`.
pub enum StepV {
    Field(Seq<char>),
    Index(int),
    Variant(int),
    MapKey(Seq<char>),
}

impl View for Step {
    type V = StepV;

    open spec fn view(&self) -> StepV {
        match self {
            Step::Field(s) => StepV::Field(s@),
            Step::Index(i) => StepV::Index(*i as int),
            Step::Variant(i) => StepV::Variant(*i as int),
            Step::MapKey(s) => StepV::MapKey(s@),
        }
    }
}

/// The model of a whole path.
pub open spec fn path_view(p: Seq<Step>) -> Seq<StepV> {
    p.map_values(|s: Step| s@)
}

/// The identity of one node or leaf position: the root it hangs under, the
/// structural path from that root, and whether it is the leaf position
/// (the editable widget) or the node position (the expandable row) there.
#[derive(Debug)]
pub struct Key {
    pub slot: u64,
    pub path: Vec<Step>,
    pub leaf: bool,
}

/// Mathematical model of a `Key`.
#[verifier::ext_equal]
pub struct KeyV {
    pub slot: u64,
    pub path: Seq<StepV>,
    pub leaf: bool,
}

impl View for Key {
    type V = KeyV;

    open spec fn view(&self) -> KeyV {
        KeyV { slot: self.slot, path: path_view(self.path@), leaf: self.leaf }
    }
}

pub fn step_eq(a: &Step, b: &Step) -> (r: bool)
    ensures
        r == (a@ == b@),
{
    match (a, b) {
        (Step::Field(x), Step::Field(y)) => x.eq(y),
        (Step::Index(x), Step::Index(y)) => x == y,
        (Step::Variant(x), Step::Variant(y)) => x == y,
        (Step::MapKey(x), Step::MapKey(y)) => x.eq(y),
        _ => false,
    }
}

impl Clone for Step {
    fn clone(&self) -> (r: Self)
        ensures
            r@ == self@,
    {
        match self {
            Step::Field(s) => Step::Field(s.clone()),
            Step::Index(i) => Step::Index(*i),
            Step::Variant(i) => Step::Variant(*i),
            Step::MapKey(s) => Step::MapKey(s.clone()),
        }
    }
}

/// Copies the first `n` steps of `path`.
pub(crate) fn clone_prefix(path: &Vec<Step>, n: usize) -> (r: Vec<Step>)
    requires
        n <= path.len(),
    ensures
        path_view(r@) == path_view(path@).subrange(0, n as int),
{
    let mut r: Vec<Step> = Vec::new();
    let mut i: usize = 0;
    while i < n
        invariant
            i <= n <= path.len(),
            r@.len() == i,
            forall|j: int| 0 <= j < i ==> r@[j]@ == path@[j]@,
        decreases n - i,
    {
        r.push(path[i].clone());
        i = i + 1;
    }
    proof {
        assert forall|j: int| 0 <= j < n implies path_view(r@)[j] == path_view(path@).subrange(
            0,
            n as int,
        )[j] by {
            assert(path_view(r@)[j] == r@[j]@);
            assert(path_view(path@)[j] == path@[j]@);
        }
        assert(path_view(r@) =~= path_view(path@).subrange(0, n as int));
    }
    r
}

fn clone_steps(path: &Vec<Step>) -> (r: Vec<Step>)
    ensures
        path_view(r@) == path_view(path@),
{
    let r = clone_prefix(path, path.len());
    proof {
        assert(path_view(path@).subrange(0, path@.len() as int) =~= path_view(path@));
    }
    r
}

impl Clone for Key {
    fn clone(&self) -> (r: Self)
        ensures
            r@ == self@,
    {
        let r = Key { slot: self.slot, path: clone_steps(&self.path), leaf: self.leaf };
        proof {
            assert(r@ =~= self@);
        }
        r
    }
}

impl Key {
    /// The key of the node position at the root of slot `slot`.
    pub fn root(slot: u64) -> (r: Key)
        ensures
            r@ == (KeyV { slot, path: Seq::empty(), leaf: false }),
    {
        let r = Key { slot, path: Vec::new(), leaf: false };
        proof {
            assert(r@ =~= KeyV { slot, path: Seq::empty(), leaf: false });
        }
        r
    }

    /// The key one step below this node position.
    pub fn child(&self, step: Step, leaf: bool) -> (r: Key)
        ensures
            r@ == (KeyV { slot: self@.slot, path: self@.path.push(step@), leaf }),
    {
        let mut path = clone_steps(&self.path);
        let ghost stepv = step@;
        path.push(step);
        let r = Key { slot: self.slot, path, leaf };
        proof {
            assert(path_view(r.path@) =~= self@.path.push(stepv));
            assert(r@ =~= KeyV { slot: self@.slot, path: self@.path.push(stepv), leaf });
        }
        r
    }

    /// The key of the leaf position at the same path as this node position.
    pub fn as_leaf(&self) -> (r: Key)
        ensures
            r@ == (KeyV { slot: self@.slot, path: self@.path, leaf: true }),
    {
        let r = Key { slot: self.slot, path: clone_steps(&self.path), leaf: true };
        proof {
            assert(r@ =~= KeyV { slot: self@.slot, path: self@.path, leaf: true });
        }
        r
    }

    pub fn key_eq(&self, other: &Key) -> (r: bool)
        ensures
            r == (self@ == other@),
    {
        proof {
            assert(self@.path.len() == self.path@.len());
            assert(other@.path.len() == other.path@.len());
        }
        if self.slot != other.slot || self.leaf != other.leaf || self.path.len()
            != other.path.len() {
            return false;
        }
        let mut i: usize = 0;
        while i < self.path.len()
            invariant
                i <= self.path.len(),
                self.path.len() == other.path.len(),
                self@.slot == other@.slot,
                self@.leaf == other@.leaf,
                self@.path.len() == self.path@.len(),
                other@.path.len() == other.path@.len(),
                forall|j: int| 0 <= j < i ==> self@.path[j] == other@.path[j],
            decreases self.path.len() - i,
        {
            if !step_eq(&self.path[i], &other.path[i]) {
                assert(self@.path[i as int] != other@.path[i as int]);
                return false;
            }
            i = i + 1;
        }
        proof {
            assert(self@.path =~= other@.path);
            assert(self@ =~= other@);
        }
        true
    }
}

} // verus!
